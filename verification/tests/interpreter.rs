use snake::interp::{blocked, decls_to_hash, interpret_prim1, interpret_prim2, start, step, Funs, InterpErr, SnakeVal, Step};
use snake::syntax::{Exp, FunDecl, Prim1, Prim2};

fn run(e: &Exp<()>, funs: &Funs<()>) -> (Result<SnakeVal, InterpErr>, Vec<SnakeVal>) {
    let mut m = start(e);
    let mut printed = Vec::new();
    loop {
        assert!(blocked(&m, funs).is_none());
        match step(m, funs) {
            Err(err) => return (Err(err), printed),
            Ok(Step::Next(next)) => m = next,
            Ok(Step::Print(v, next)) => {
                printed.push(v);
                m = next;
            }
            Ok(Step::Done(v)) => return (Ok(v), printed),
        }
    }
}

fn num(n: i64) -> Exp<()> {
    Exp::Num(n, ())
}

fn var(x: &str) -> Exp<()> {
    Exp::Var(String::from(x), ())
}

fn prim2(op: Prim2, a: Exp<()>, b: Exp<()>) -> Exp<()> {
    Exp::Prim2(op, Box::new(a), Box::new(b), ())
}

#[test]
fn arithmetic_evaluates() {
    let e = prim2(Prim2::Mul, prim2(Prim2::Add, num(1), num(2)), prim2(Prim2::Sub, num(10), num(4)));
    assert_eq!(run(&e, &Funs::new()).0, Ok(SnakeVal::Num(18)));
}

#[test]
fn lets_bind_in_order() {
    let e = Exp::Let {
        bindings: vec![(String::from("x"), num(3)), (String::from("y"), prim2(Prim2::Add, var("x"), num(1)))],
        body: Box::new(prim2(Prim2::Mul, var("x"), var("y"))),
        ann: (),
    };
    assert_eq!(run(&e, &Funs::new()).0, Ok(SnakeVal::Num(12)));
}

#[test]
fn conditionals_pick_a_branch() {
    let e = Exp::If {
        cond: Box::new(prim2(Prim2::Lt, num(1), num(2))),
        thn: Box::new(num(10)),
        els: Box::new(num(20)),
        ann: (),
    };
    assert_eq!(run(&e, &Funs::new()).0, Ok(SnakeVal::Num(10)));
}

#[test]
fn a_condition_must_be_a_boolean() {
    let e = Exp::If { cond: Box::new(num(0)), thn: Box::new(num(1)), els: Box::new(num(2)), ann: () };
    assert_eq!(
        run(&e, &Funs::new()).0,
        Err(InterpErr::ExpectedBool { who: String::from("if"), got: SnakeVal::Num(0), msg: String::from("if") })
    );
}

#[test]
fn printing_hands_back_the_value() {
    let e = prim2(Prim2::Add, Exp::Prim1(Prim1::Print, Box::new(num(7)), ()), num(1));
    let (r, printed) = run(&e, &Funs::new());
    assert_eq!(r, Ok(SnakeVal::Num(8)));
    assert_eq!(printed, vec![SnakeVal::Num(7)]);
}

#[test]
fn recursive_functions_run() {
    // fact(n) = if n < 1 then 1 else n * fact(n - 1)
    let body = Exp::If {
        cond: Box::new(prim2(Prim2::Lt, var("n"), num(1))),
        thn: Box::new(num(1)),
        els: Box::new(prim2(
            Prim2::Mul,
            var("n"),
            Exp::Call(String::from("fact"), vec![prim2(Prim2::Sub, var("n"), num(1))], ()),
        )),
        ann: (),
    };
    let decls = vec![FunDecl { name: String::from("fact"), parameters: vec![String::from("n")], body, ann: () }];
    let funs = decls_to_hash(&decls);
    let main = Exp::Call(String::from("fact"), vec![num(10)], ());
    assert_eq!(run(&main, &funs).0, Ok(SnakeVal::Num(3628800)));
}

#[test]
fn arguments_bind_to_parameters_in_order() {
    let decls = vec![FunDecl {
        name: String::from("sub"),
        parameters: vec![String::from("a"), String::from("b")],
        body: prim2(Prim2::Sub, var("a"), var("b")),
        ann: (),
    }];
    let funs = decls_to_hash(&decls);
    let main = Exp::Call(String::from("sub"), vec![num(10), num(3)], ());
    assert_eq!(run(&main, &funs).0, Ok(SnakeVal::Num(7)));
}

#[test]
fn numbers_beyond_63_bits_overflow() {
    let big = 4611686018427387903;
    let e = Exp::Prim1(Prim1::Add1, Box::new(num(big)), ());
    assert_eq!(
        run(&e, &Funs::new()).0,
        Err(InterpErr::Overflow { msg: String::from("4611686018427387903 add1 1 = 4611686018427387904") })
    );
    let r = interpret_prim2(&Prim2::Mul, SnakeVal::Num(i64::MAX), SnakeVal::Num(2));
    assert_eq!(r, Err(InterpErr::Overflow { msg: String::from("9223372036854775807 * 2 = -2") }));
}

#[test]
fn primitives_check_their_operands() {
    assert_eq!(
        interpret_prim2(&Prim2::Add, SnakeVal::Bool(true), SnakeVal::Num(1)),
        Err(InterpErr::ExpectedNum { who: String::from("arithmetic"), got: SnakeVal::Bool(true), msg: String::from("+") })
    );
    assert_eq!(
        interpret_prim2(&Prim2::And, SnakeVal::Bool(true), SnakeVal::Num(1)),
        Err(InterpErr::ExpectedBool { who: String::from("logic"), got: SnakeVal::Num(1), msg: String::from("&&") })
    );
    assert_eq!(
        interpret_prim2(&Prim2::Ge, SnakeVal::Num(1), SnakeVal::Bool(false)),
        Err(InterpErr::ExpectedNum { who: String::from("comparison"), got: SnakeVal::Bool(false), msg: String::from(">=") })
    );
    assert_eq!(
        interpret_prim1(&Prim1::Not, SnakeVal::Num(0)),
        Err(InterpErr::ExpectedBool { who: String::from("logic"), got: SnakeVal::Num(0), msg: String::from("!") })
    );
}

#[test]
fn primitives_compute() {
    assert_eq!(interpret_prim1(&Prim1::Sub1, SnakeVal::Num(0)), Ok(SnakeVal::Num(-1)));
    assert_eq!(interpret_prim1(&Prim1::IsBool, SnakeVal::Bool(false)), Ok(SnakeVal::Bool(true)));
    assert_eq!(interpret_prim1(&Prim1::IsNum, SnakeVal::Bool(false)), Ok(SnakeVal::Bool(false)));
    assert_eq!(interpret_prim2(&Prim2::Eq, SnakeVal::Num(1), SnakeVal::Bool(true)), Ok(SnakeVal::Bool(false)));
    assert_eq!(interpret_prim2(&Prim2::Neq, SnakeVal::Num(1), SnakeVal::Num(2)), Ok(SnakeVal::Bool(true)));
    assert_eq!(interpret_prim2(&Prim2::Or, SnakeVal::Bool(false), SnakeVal::Bool(true)), Ok(SnakeVal::Bool(true)));
    assert_eq!(interpret_prim2(&Prim2::Le, SnakeVal::Num(2), SnakeVal::Num(2)), Ok(SnakeVal::Bool(true)));
}

#[test]
fn stuck_machines_say_why() {
    let e = var("ghost");
    let m = start(&e);
    let funs: Funs<()> = Funs::new();
    assert_eq!(
        blocked(&m, &funs),
        Some(String::from("Unbound variable in interpreter! You should catch this in the check function!"))
    );
    let c = Exp::Call(String::from("f"), vec![], ());
    assert_eq!(blocked(&start(&c), &funs), Some(String::from("unbound function in interpreter: f")));
    let decls = vec![FunDecl { name: String::from("f"), parameters: vec![String::from("a")], body: num(0), ann: () }];
    let funs2 = decls_to_hash(&decls);
    assert_eq!(blocked(&start(&c), &funs2), Some(String::from("function f called with 0 inputs but expects 1")));
}

#[test]
fn values_print_like_the_runtime() {
    assert_eq!(SnakeVal::Num(-3).describe(), "-3");
    assert_eq!(SnakeVal::Bool(true).describe(), "true");
}

#[test]
fn a_checked_program_never_gets_stuck() {
    let at = |a: usize| snake::lexer::Span1 { start_ix: a, end_ix: a + 1 };
    // def twice(x) = x + x; let y = 5, z = twice(y) in print(z) * 2
    let body = Exp::Prim2(
        Prim2::Add,
        Box::new(Exp::Var(String::from("x"), at(1))),
        Box::new(Exp::Var(String::from("x"), at(2))),
        at(3),
    );
    let twice = FunDecl { name: String::from("twice"), parameters: vec![String::from("x")], body, ann: at(0) };
    let main = Exp::Let {
        bindings: vec![
            (String::from("y"), Exp::Num(5, at(4))),
            (String::from("z"), Exp::Call(String::from("twice"), vec![Exp::Var(String::from("y"), at(5))], at(6))),
        ],
        body: Box::new(Exp::Prim2(
            Prim2::Mul,
            Box::new(Exp::Prim1(Prim1::Print, Box::new(Exp::Var(String::from("z"), at(7))), at(8))),
            Box::new(Exp::Num(2, at(9))),
            at(10),
        )),
        ann: at(11),
    };
    let p = snake::syntax::Prog { funs: vec![twice], main, ann: at(12) };
    assert_eq!(snake::compile::check_prog(&p), Ok(()));
    let funs = decls_to_hash(&p.funs);
    let mut m = start(&p.main);
    let mut printed = Vec::new();
    let v = loop {
        assert!(blocked(&m, &funs).is_none());
        match step(m, &funs).unwrap() {
            Step::Next(next) => m = next,
            Step::Print(v, next) => {
                printed.push(v);
                m = next;
            }
            Step::Done(v) => break v,
        }
    };
    assert_eq!(v, SnakeVal::Num(20));
    assert_eq!(printed, vec![SnakeVal::Num(10)]);
}
