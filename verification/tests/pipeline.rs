use snake::assembly::{Reg, general_purpose_registers};
use snake::codegen::compile_to_string;
use snake::compile::{CompileErr, VarLocation};
use snake::graph::Graph;
use snake::lexer::Span1;
use snake::liveness::liveness;
use snake::regalloc::{allocate_registers, conflicts};
use snake::sequentialize::seq_prog;
use snake::syntax::{add_tag_sprog, tag_prog, tag_sprog, uniquify_names, Exp, ImmExp, Prim1, Prim2, Prog, SeqExp};
use snake::vecset::VecSet;

fn sp(a: usize) -> Span1 {
    Span1 { start_ix: a, end_ix: a + 1 }
}

fn surf(main: Exp<Span1>) -> Prog<Exp<Span1>, Span1> {
    Prog { funs: vec![], main, ann: sp(0) }
}

#[test]
fn tags_number_nodes_in_visiting_order() {
    let p = surf(Exp::Prim2(Prim2::Add, Box::new(Exp::Num(1, sp(0))), Box::new(Exp::Num(2, sp(4))), sp(2)));
    let t = tag_prog(&p);
    assert_eq!(t.ann, 3);
    match &t.main {
        Exp::Prim2(_, a, b, tag) => {
            assert_eq!(a.ann(), 0);
            assert_eq!(b.ann(), 1);
            assert_eq!(*tag, 2);
        }
        _ => panic!("shape changed"),
    }
}

#[test]
fn complex_operands_are_bound_first() {
    let inner = Exp::Prim2(Prim2::Add, Box::new(Exp::Num(1, sp(0))), Box::new(Exp::Num(2, sp(1))), sp(2));
    let p = surf(Exp::Prim1(Prim1::Add1, Box::new(inner), sp(3)));
    let s = seq_prog(&tag_prog(&p));
    match &s.main {
        SeqExp::Let { var, bound_exp, body, .. } => {
            assert_eq!(var, "#prim1_3");
            assert!(matches!(**bound_exp, SeqExp::Prim2(Prim2::Add, ImmExp::Num(1), ImmExp::Num(2), _)));
            match &**body {
                SeqExp::Prim1(Prim1::Add1, ImmExp::Var(x), _) => assert_eq!(x, "#prim1_3"),
                _ => panic!("wrong body"),
            }
        }
        _ => panic!("operand not bound"),
    }
}

#[test]
fn let_bound_names_are_made_unique() {
    let p = surf(Exp::Let {
        bindings: vec![(String::from("x"), Exp::Num(5, sp(0)))],
        body: Box::new(Exp::Var(String::from("x"), sp(1))),
        ann: sp(2),
    });
    let s = tag_sprog(&seq_prog(&tag_prog(&p)));
    let u = uniquify_names(&s);
    match &u.main {
        SeqExp::Let { var, body, ann, .. } => {
            assert_eq!(*var, format!("x_{}", ann));
            match &**body {
                SeqExp::Imm(ImmExp::Var(y), _) => assert_eq!(y, var),
                _ => panic!("wrong body"),
            }
        }
        _ => panic!("let lost"),
    }
}

#[test]
fn liveness_marks_variables_used_later() {
    // let a = 1 in let b = 2 in a + b
    let e: SeqExp<()> = SeqExp::Let {
        var: String::from("a"),
        bound_exp: Box::new(SeqExp::Imm(ImmExp::Num(1), ())),
        body: Box::new(SeqExp::Let {
            var: String::from("b"),
            bound_exp: Box::new(SeqExp::Imm(ImmExp::Num(2), ())),
            body: Box::new(SeqExp::Prim2(Prim2::Add, ImmExp::Var(String::from("a")), ImmExp::Var(String::from("b")), ())),
            ann: (),
        }),
        ann: (),
    };
    let r = liveness(&e, &VecSet::new(), VecSet::new());
    match &r {
        SeqExp::Let { body, .. } => match &**body {
            SeqExp::Let { bound_exp, ann, .. } => {
                assert!(ann.contains(&String::from("a")) && ann.contains(&String::from("b")));
                let live = bound_exp.ann_ref();
                assert!(live.contains(&String::from("a")));
                assert!(!live.contains(&String::from("b")));
            }
            _ => panic!("shape changed"),
        },
        _ => panic!("shape changed"),
    }
}

#[test]
fn live_variables_conflict() {
    let e: SeqExp<()> = SeqExp::Let {
        var: String::from("a"),
        bound_exp: Box::new(SeqExp::Imm(ImmExp::Num(1), ())),
        body: Box::new(SeqExp::Let {
            var: String::from("b"),
            bound_exp: Box::new(SeqExp::Imm(ImmExp::Num(2), ())),
            body: Box::new(SeqExp::Prim2(Prim2::Add, ImmExp::Var(String::from("a")), ImmExp::Var(String::from("b")), ())),
            ann: (),
        }),
        ann: (),
    };
    let r = liveness(&e, &VecSet::new(), VecSet::new());
    let tagged = add_tag_sprog(&Prog { funs: vec![], main: r, ann: () });
    let g = conflicts(&tagged.main);
    assert_eq!(g.num_vertices(), 2);
    assert!(g.contains_edge(&String::from("a"), &String::from("b")));
}

#[test]
fn copies_do_not_conflict() {
    // let a = 1 in let b = a in a + b: b holds a's value
    let e: SeqExp<()> = SeqExp::Let {
        var: String::from("a"),
        bound_exp: Box::new(SeqExp::Imm(ImmExp::Num(1), ())),
        body: Box::new(SeqExp::Let {
            var: String::from("b"),
            bound_exp: Box::new(SeqExp::Imm(ImmExp::Var(String::from("a")), ())),
            body: Box::new(SeqExp::Prim2(Prim2::Add, ImmExp::Var(String::from("a")), ImmExp::Var(String::from("b")), ())),
            ann: (),
        }),
        ann: (),
    };
    let r = liveness(&e, &VecSet::new(), VecSet::new());
    let tagged = add_tag_sprog(&Prog { funs: vec![], main: r, ann: () });
    let g = conflicts(&tagged.main);
    assert!(!g.contains_edge(&String::from("a"), &String::from("b")));
}

#[test]
fn conflicting_variables_get_different_places() {
    let mut g: Graph<String> = Graph::new();
    g.insert_edge(String::from("a"), String::from("b"));
    g.insert_edge(String::from("b"), String::from("c"));
    g.insert_edge(String::from("a"), String::from("c"));
    let env = allocate_registers(g, &[Reg::Rdx, Reg::Rcx]);
    let a = *env.get(&String::from("a")).unwrap();
    let b = *env.get(&String::from("b")).unwrap();
    let c = *env.get(&String::from("c")).unwrap();
    assert!(a != b && b != c && a != c);
    let spilled = [a, b, c].iter().filter(|l| matches!(l, VarLocation::Spill(_))).count();
    assert_eq!(spilled, 1);
    assert!(env.entries().iter().any(|(_, l)| *l == VarLocation::Spill(0)));
}

#[test]
fn spill_slots_are_numbered_from_zero() {
    // four variables that all conflict, one register: three are spilled
    let names = ["a", "b", "c", "d"];
    let mut g: Graph<String> = Graph::new();
    for i in 0..4 {
        for j in (i + 1)..4 {
            g.insert_edge(String::from(names[i]), String::from(names[j]));
        }
    }
    let env = allocate_registers(g, &[Reg::Rbx]);
    let mut slots: Vec<i32> = env
        .entries()
        .iter()
        .filter_map(|(_, l)| match l {
            VarLocation::Spill(n) => Some(*n),
            VarLocation::Reg(_) => None,
        })
        .collect();
    slots.sort();
    assert_eq!(slots, vec![0, 1, 2]);
    assert_eq!(env.entries().iter().filter(|(_, l)| *l == VarLocation::Reg(Reg::Rbx)).count(), 1);
}

#[test]
fn few_conflicts_are_never_spilled() {
    // a path a - b - c - d with two registers: the ends have one conflict
    // each, fewer than the registers, so they always get a register
    for _ in 0..20 {
        let mut h: Graph<String> = Graph::new();
        for (x, y) in [("a", "b"), ("b", "c"), ("c", "d")] {
            h.insert_edge(String::from(x), String::from(y));
        }
        let env = allocate_registers(h, &[Reg::Rdx, Reg::Rcx]);
        assert!(matches!(env.get(&String::from("a")), Some(VarLocation::Reg(_))));
        assert!(matches!(env.get(&String::from("d")), Some(VarLocation::Reg(_))));
    }
}

#[test]
fn registers_come_from_those_given() {
    let mut g: Graph<String> = Graph::new();
    g.insert_vertex(String::from("x"));
    g.insert_edge(String::from("y"), String::from("z"));
    let regs = general_purpose_registers();
    let env = allocate_registers(g, &regs);
    assert_eq!(env.len(), 3);
    for (_, l) in env.entries() {
        match l {
            VarLocation::Reg(r) => assert!(regs.contains(r)),
            VarLocation::Spill(_) => panic!("ten registers are enough"),
        }
    }
    assert!(env.get(&String::from("y")) != env.get(&String::from("z")));
}

#[test]
fn a_sum_compiles_to_checked_addition() {
    let p = surf(Exp::Prim2(Prim2::Add, Box::new(Exp::Num(1, sp(0))), Box::new(Exp::Num(2, sp(4))), sp(2)));
    let text = compile_to_string(&p).unwrap();
    let expected = "section .text
        global start_here
        extern snake_error, print_snake_val
start_here:
        push rbx
        push r12
        push rbp
        push r15
        mov rbp, rsp
        sub rsp, 8
        mov rax, 2
        mov r15, 4
        test rax, 0x00000001
        jnz arith_error
        test r15, 0x00000001
        jnz arith_error
        add rax, r15
        jo ovfl_error
        mov rsp, rbp
        pop r15
        pop rbp
        pop r12
        pop rbx
        ret


ovfl_error:
        mov rdi, 0
        call snake_error

arith_error:
        mov rdi, 1
        call snake_error

cmp_error:
        mov rdi, 2
        call snake_error

logic_error:
        mov rdi, 3
        call snake_error

cond_error:
        mov rdi, 4
        call snake_error
";
    assert_eq!(text, expected);
}

#[test]
fn functions_are_compiled_before_main() {
    let f = snake::syntax::FunDecl {
        name: String::from("id"),
        parameters: vec![String::from("x")],
        body: Exp::Var(String::from("x"), sp(1)),
        ann: sp(0),
    };
    let p = Prog { funs: vec![f], main: Exp::Call(String::from("id"), vec![Exp::Bool(true, sp(3))], sp(2)), ann: sp(0) };
    let text = compile_to_string(&p).unwrap();
    let id_at = text.find("\nid:\n").unwrap();
    let main_at = text.find("\nstart_here:\n").unwrap();
    assert!(id_at < main_at);
    assert!(text.contains("        mov rax, QWORD [rbp+40]\n"));
    assert!(text.contains("        call id\n"));
    assert!(text.contains("        mov rax, 0xffffffffffffffff\n"));
}

#[test]
fn rejected_programs_are_not_compiled() {
    let p = surf(Exp::Var(String::from("nope"), sp(3)));
    assert_eq!(
        compile_to_string(&p),
        Err(CompileErr::UnboundVariable { unbound: String::from("nope"), location: sp(3) })
    );
}

#[test]
fn shadowing_lets_get_different_names() {
    // let x = 1 in let x = x + 1 in x
    let inner = Exp::Let {
        bindings: vec![(
            String::from("x"),
            Exp::Prim2(Prim2::Add, Box::new(Exp::Var(String::from("x"), sp(1))), Box::new(Exp::Num(1, sp(2))), sp(3)),
        )],
        body: Box::new(Exp::Var(String::from("x"), sp(4))),
        ann: sp(5),
    };
    let p = surf(Exp::Let { bindings: vec![(String::from("x"), Exp::Num(1, sp(0)))], body: Box::new(inner), ann: sp(6) });
    let u = uniquify_names(&tag_sprog(&seq_prog(&tag_prog(&p))));
    match &u.main {
        SeqExp::Let { var: outer, body, .. } => match &**body {
            SeqExp::Let { var: inner_var, bound_exp, body: last, .. } => {
                assert_ne!(outer, inner_var);
                assert!(matches!(&**bound_exp, SeqExp::Prim2(Prim2::Add, ImmExp::Var(y), _, _) if y == outer));
                assert!(matches!(&**last, SeqExp::Imm(ImmExp::Var(y), _) if y == inner_var));
            }
            _ => panic!("inner let lost"),
        },
        _ => panic!("outer let lost"),
    }
}

#[test]
fn every_node_gets_its_own_tag() {
    let p = surf(Exp::If {
        cond: Box::new(Exp::Bool(true, sp(0))),
        thn: Box::new(Exp::Num(1, sp(1))),
        els: Box::new(Exp::Prim1(Prim1::Add1, Box::new(Exp::Num(2, sp(2))), sp(3))),
        ann: sp(4),
    });
    let t = tag_prog(&p);
    let mut seen = Vec::new();
    match &t.main {
        Exp::If { cond, thn, els, ann } => {
            seen.push(cond.ann());
            seen.push(thn.ann());
            seen.push(els.ann());
            seen.push(*ann);
            match &**els {
                Exp::Prim1(_, inner, _) => seen.push(inner.ann()),
                _ => panic!("shape changed"),
            }
        }
        _ => panic!("shape changed"),
    }
    seen.push(t.ann);
    seen.sort();
    assert_eq!(seen, vec![0, 1, 2, 3, 4, 5]);
}

#[test]
fn a_call_argument_that_is_a_call_is_bound_first() {
    // f(g(1)), tagged: 1 -> 0, g(1) -> 1, f(..) -> 2
    let inner = Exp::Call(String::from("g"), vec![Exp::Num(1, sp(0))], sp(1));
    let p = surf(Exp::Call(String::from("f"), vec![inner], sp(2)));
    let s = seq_prog(&tag_prog(&p));
    match &s.main {
        SeqExp::Let { var, bound_exp, body, .. } => {
            assert_eq!(var, "#call_2_0");
            match &**bound_exp {
                SeqExp::Call(g, args, _) => {
                    assert_eq!(g, "g");
                    assert!(matches!(args.as_slice(), [ImmExp::Num(1)]));
                }
                _ => panic!("argument not sequentialized"),
            }
            match &**body {
                SeqExp::Call(f, args, _) => {
                    assert_eq!(f, "f");
                    match args.as_slice() {
                        [ImmExp::Var(x)] => assert_eq!(x, "#call_2_0"),
                        _ => panic!("argument not the bound name"),
                    }
                }
                _ => panic!("wrong body"),
            }
        }
        _ => panic!("argument not bound"),
    }
}

#[test]
fn nested_calls_compile() {
    let fd = |name: &str, body: Exp<Span1>| snake::syntax::FunDecl {
        name: String::from(name),
        parameters: vec![String::from("x")],
        body,
        ann: sp(0),
    };
    let id = fd("id", Exp::Var(String::from("x"), sp(1)));
    let neg = fd("neg", Exp::Prim2(Prim2::Sub, Box::new(Exp::Num(0, sp(2))), Box::new(Exp::Var(String::from("x"), sp(3))), sp(4)));
    let main = Exp::Call(
        String::from("neg"),
        vec![Exp::Call(String::from("id"), vec![Exp::Num(6, sp(5))], sp(6))],
        sp(7),
    );
    let p = Prog { funs: vec![id, neg], main, ann: sp(0) };
    assert!(snake::codegen::ready_to_compile(&p));
    let text = compile_to_string(&p).unwrap();
    assert!(text.contains("        call id\n"));
    assert!(text.contains("        call neg\n"));
    assert!(text.contains(", 12\n"));
}
