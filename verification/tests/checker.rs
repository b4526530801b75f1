use snake::compile::{check_prog, CompileErr};
use snake::lexer::Span1;
use snake::syntax::{Exp, FunDecl, Prim2, Prog, SurfProg};

fn sp(a: usize, b: usize) -> Span1 {
    Span1 { start_ix: a, end_ix: b }
}

fn num(n: i64) -> Exp<Span1> {
    Exp::Num(n, sp(0, 1))
}

fn var(x: &str, at: usize) -> Exp<Span1> {
    Exp::Var(String::from(x), sp(at, at + 1))
}

fn fun(name: &str, params: &[&str], body: Exp<Span1>, at: usize) -> FunDecl<Exp<Span1>, Span1> {
    FunDecl {
        name: String::from(name),
        parameters: params.iter().map(|p| String::from(*p)).collect(),
        body,
        ann: sp(at, at + 1),
    }
}

fn prog(funs: Vec<FunDecl<Exp<Span1>, Span1>>, main: Exp<Span1>) -> SurfProg<Span1> {
    Prog { funs, main, ann: sp(0, 1) }
}

#[test]
fn a_well_formed_program_passes() {
    let f = fun("f", &["x"], Exp::Prim2(Prim2::Add, Box::new(var("x", 3)), Box::new(num(1)), sp(2, 5)), 0);
    let main = Exp::Let {
        bindings: vec![(String::from("y"), num(4))],
        body: Box::new(Exp::Call(String::from("f"), vec![var("y", 9)], sp(8, 12))),
        ann: sp(6, 13),
    };
    assert_eq!(check_prog(&prog(vec![f], main)), Ok(()));
}

#[test]
fn unbound_variables_are_reported() {
    let r = check_prog(&prog(vec![], var("z", 4)));
    assert_eq!(r, Err(CompileErr::UnboundVariable { unbound: String::from("z"), location: sp(4, 5) }));
}

#[test]
fn functions_are_not_values() {
    let f = fun("f", &[], num(1), 0);
    let r = check_prog(&prog(vec![f], var("f", 7)));
    assert_eq!(r, Err(CompileErr::FunctionUsedAsValue { function_name: String::from("f"), location: sp(7, 8) }));
}

#[test]
fn values_are_not_functions() {
    let main = Exp::Let {
        bindings: vec![(String::from("x"), num(1))],
        body: Box::new(Exp::Call(String::from("x"), vec![num(2)], sp(5, 9))),
        ann: sp(0, 10),
    };
    let r = check_prog(&prog(vec![], main));
    assert_eq!(r, Err(CompileErr::ValueUsedAsFunction { variable_name: String::from("x"), location: sp(5, 9) }));
}

#[test]
fn undefined_functions_are_reported() {
    let r = check_prog(&prog(vec![], Exp::Call(String::from("g"), vec![], sp(2, 5))));
    assert_eq!(r, Err(CompileErr::UndefinedFunction { undefined: String::from("g"), location: sp(2, 5) }));
}

#[test]
fn calls_must_match_arity() {
    let f = fun("f", &["a"], var("a", 1), 0);
    let r = check_prog(&prog(vec![f], Exp::Call(String::from("f"), vec![num(1), num(2)], sp(3, 9))));
    assert_eq!(
        r,
        Err(CompileErr::FunctionCalledWrongArity {
            function_name: String::from("f"),
            correct_arity: 1,
            arity_used: 2,
            location: sp(3, 9)
        })
    );
}

#[test]
fn a_let_binds_each_name_once() {
    let main = Exp::Let {
        bindings: vec![(String::from("x"), num(1)), (String::from("x"), num(2))],
        body: Box::new(var("x", 9)),
        ann: sp(0, 10),
    };
    let r = check_prog(&prog(vec![], main));
    assert_eq!(r, Err(CompileErr::DuplicateBinding { duplicated_name: String::from("x"), location: sp(0, 10) }));
}

#[test]
fn function_names_are_unique() {
    let f1 = fun("f", &[], num(1), 0);
    let f2 = fun("f", &[], num(2), 5);
    let r = check_prog(&prog(vec![f1, f2], num(0)));
    assert_eq!(r, Err(CompileErr::DuplicateFunName { duplicated_name: String::from("f"), location: sp(5, 6) }));
}

#[test]
fn parameter_names_are_unique() {
    let f = fun("f", &["a", "a"], num(1), 2);
    let r = check_prog(&prog(vec![f], num(0)));
    assert_eq!(r, Err(CompileErr::DuplicateArgName { duplicated_name: String::from("a"), location: sp(2, 3) }));
}

#[test]
fn literals_must_fit_in_63_bits() {
    assert_eq!(check_prog(&prog(vec![], num(4611686018427387903))), Ok(()));
    let r = check_prog(&prog(vec![], num(4611686018427387904)));
    assert_eq!(r, Err(CompileErr::Overflow { num: 4611686018427387904, location: sp(0, 1) }));
    let r = check_prog(&prog(vec![], num(-4611686018427387905)));
    assert_eq!(r, Err(CompileErr::Overflow { num: -4611686018427387905, location: sp(0, 1) }));
}

#[test]
fn error_locations_can_be_mapped() {
    let e = CompileErr::Overflow { num: 9, location: sp(3, 4) };
    let m = e.map_span(|s: &Span1| s.start_ix * 100);
    assert_eq!(m, CompileErr::Overflow { num: 9, location: 300 });
}
