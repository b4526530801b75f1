//! Compile-time errors, variable locations, and the static checker of
//! surface programs.
use vstd::prelude::*;
use crate::assembly::Reg;
use crate::lexer::{Span1, Span2, span2_text};
use crate::syntax::{Exp, FunDecl, Prog, SurfProg};
use crate::text::{dec_text, int_text, nat_to_string, int_to_string};

verus! {

#[derive(Debug, PartialEq, Eq)]
pub enum CompileErr<Span> {
    UnboundVariable {
        unbound: String,
        location: Span,
    },
    UndefinedFunction {
        undefined: String,
        location: Span,
    },
    /// The span is that of the `let` that binds the name twice.
    DuplicateBinding {
        duplicated_name: String,
        location: Span,
    },
    Overflow {
        num: i64,
        location: Span,
    },
    /// The span is that of the second function.
    DuplicateFunName {
        duplicated_name: String,
        location: Span,
    },
    DuplicateArgName {
        duplicated_name: String,
        location: Span,
    },
    FunctionUsedAsValue {
        function_name: String,
        location: Span,
    },
    ValueUsedAsFunction {
        variable_name: String,
        location: Span,
    },
    /// The span is that of the call.
    FunctionCalledWrongArity {
        function_name: String,
        correct_arity: usize,
        arity_used: usize,
        location: Span,
    },
}

/// A compile error with its names as character sequences.
pub enum ErrView<Span> {
    UnboundVariable(Seq<char>, Span),
    UndefinedFunction(Seq<char>, Span),
    DuplicateBinding(Seq<char>, Span),
    Overflow(i64, Span),
    DuplicateFunName(Seq<char>, Span),
    DuplicateArgName(Seq<char>, Span),
    FunctionUsedAsValue(Seq<char>, Span),
    ValueUsedAsFunction(Seq<char>, Span),
    FunctionCalledWrongArity(Seq<char>, usize, usize, Span),
}

impl<Span> View for CompileErr<Span> {
    type V = ErrView<Span>;

    open spec fn view(&self) -> ErrView<Span> {
        match *self {
            CompileErr::UnboundVariable { unbound, location } => ErrView::UnboundVariable(unbound@, location),
            CompileErr::UndefinedFunction { undefined, location } => ErrView::UndefinedFunction(undefined@, location),
            CompileErr::DuplicateBinding { duplicated_name, location } => ErrView::DuplicateBinding(duplicated_name@, location),
            CompileErr::Overflow { num, location } => ErrView::Overflow(num, location),
            CompileErr::DuplicateFunName { duplicated_name, location } => ErrView::DuplicateFunName(duplicated_name@, location),
            CompileErr::DuplicateArgName { duplicated_name, location } => ErrView::DuplicateArgName(duplicated_name@, location),
            CompileErr::FunctionUsedAsValue { function_name, location } => ErrView::FunctionUsedAsValue(function_name@, location),
            CompileErr::ValueUsedAsFunction { variable_name, location } => ErrView::ValueUsedAsFunction(variable_name@, location),
            CompileErr::FunctionCalledWrongArity { function_name, correct_arity, arity_used, location } =>
                ErrView::FunctionCalledWrongArity(function_name@, correct_arity, arity_used, location),
        }
    }
}

impl<Span> CompileErr<Span> {
    pub open spec fn location(self) -> Span {
        match self {
            CompileErr::UnboundVariable { location, .. } => location,
            CompileErr::UndefinedFunction { location, .. } => location,
            CompileErr::DuplicateBinding { location, .. } => location,
            CompileErr::Overflow { location, .. } => location,
            CompileErr::DuplicateFunName { location, .. } => location,
            CompileErr::DuplicateArgName { location, .. } => location,
            CompileErr::FunctionUsedAsValue { location, .. } => location,
            CompileErr::ValueUsedAsFunction { location, .. } => location,
            CompileErr::FunctionCalledWrongArity { location, .. } => location,
        }
    }

    /// Where the error is.
    pub fn span(&self) -> (s: &Span)
        ensures
            *s == self.location(),
    {
        match self {
            CompileErr::UnboundVariable { location, .. } => location,
            CompileErr::UndefinedFunction { location, .. } => location,
            CompileErr::DuplicateBinding { location, .. } => location,
            CompileErr::Overflow { location, .. } => location,
            CompileErr::DuplicateFunName { location, .. } => location,
            CompileErr::DuplicateArgName { location, .. } => location,
            CompileErr::FunctionUsedAsValue { location, .. } => location,
            CompileErr::ValueUsedAsFunction { location, .. } => location,
            CompileErr::FunctionCalledWrongArity { location, .. } => location,
        }
    }

    /// The same error with its location mapped by `f`.
    pub fn map_span<F, SpanPrime>(&self, f: F) -> (r: CompileErr<SpanPrime>)
        where
            F: FnOnce(&Span) -> SpanPrime,
        requires
            f.requires((&self.location(),)),
        ensures
            f.ensures((&self.location(),), r.location()),
            same_error(self@, r@),
    {
        match self {
            CompileErr::UnboundVariable { unbound, location } => CompileErr::UnboundVariable {
                unbound: unbound.clone(),
                location: f(location),
            },
            CompileErr::UndefinedFunction { undefined, location } => CompileErr::UndefinedFunction {
                undefined: undefined.clone(),
                location: f(location),
            },
            CompileErr::DuplicateBinding { duplicated_name, location } => CompileErr::DuplicateBinding {
                duplicated_name: duplicated_name.clone(),
                location: f(location),
            },
            CompileErr::Overflow { num, location } => CompileErr::Overflow { num: *num, location: f(location) },
            CompileErr::DuplicateArgName { duplicated_name, location } => CompileErr::DuplicateArgName {
                location: f(location),
                duplicated_name: duplicated_name.clone(),
            },
            CompileErr::DuplicateFunName { duplicated_name, location } => CompileErr::DuplicateFunName {
                duplicated_name: duplicated_name.clone(),
                location: f(location),
            },
            CompileErr::FunctionUsedAsValue { function_name, location } => CompileErr::FunctionUsedAsValue {
                function_name: function_name.clone(),
                location: f(location),
            },
            CompileErr::ValueUsedAsFunction { variable_name, location } => CompileErr::ValueUsedAsFunction {
                variable_name: variable_name.clone(),
                location: f(location),
            },
            CompileErr::FunctionCalledWrongArity { function_name, correct_arity, arity_used, location } =>
                CompileErr::FunctionCalledWrongArity {
                    function_name: function_name.clone(),
                    correct_arity: *correct_arity,
                    arity_used: *arity_used,
                    location: f(location),
                },
        }
    }
}

/// Where an error is located.
pub open spec fn err_location<Span>(e: ErrView<Span>) -> Span {
    match e {
        ErrView::UnboundVariable(_, l) => l,
        ErrView::UndefinedFunction(_, l) => l,
        ErrView::DuplicateBinding(_, l) => l,
        ErrView::Overflow(_, l) => l,
        ErrView::DuplicateFunName(_, l) => l,
        ErrView::DuplicateArgName(_, l) => l,
        ErrView::FunctionUsedAsValue(_, l) => l,
        ErrView::ValueUsedAsFunction(_, l) => l,
        ErrView::FunctionCalledWrongArity(_, _, _, l) => l,
    }
}

pub proof fn lemma_err_location<Span>(e: CompileErr<Span>)
    ensures
        err_location(e@) == e.location(),
{
}

/// Two errors of the same kind about the same names and numbers.
pub open spec fn same_error<S1, S2>(e1: ErrView<S1>, e2: ErrView<S2>) -> bool {
    match (e1, e2) {
        (ErrView::UnboundVariable(a, _), ErrView::UnboundVariable(b, _)) => a == b,
        (ErrView::UndefinedFunction(a, _), ErrView::UndefinedFunction(b, _)) => a == b,
        (ErrView::DuplicateBinding(a, _), ErrView::DuplicateBinding(b, _)) => a == b,
        (ErrView::Overflow(a, _), ErrView::Overflow(b, _)) => a == b,
        (ErrView::DuplicateFunName(a, _), ErrView::DuplicateFunName(b, _)) => a == b,
        (ErrView::DuplicateArgName(a, _), ErrView::DuplicateArgName(b, _)) => a == b,
        (ErrView::FunctionUsedAsValue(a, _), ErrView::FunctionUsedAsValue(b, _)) => a == b,
        (ErrView::ValueUsedAsFunction(a, _), ErrView::ValueUsedAsFunction(b, _)) => a == b,
        (ErrView::FunctionCalledWrongArity(a, n, m, _), ErrView::FunctionCalledWrongArity(b, n2, m2, _)) =>
            a == b && n == n2 && m == m2,
        _ => false,
    }
}

/// The message for an error, with its location as text.
pub open spec fn err_text(e: ErrView<Span2>) -> Seq<char> {
    match e {
        ErrView::UnboundVariable(x, l) => "Unbound variable "@ + x + " at "@ + span2_text(l),
        ErrView::UndefinedFunction(x, l) => "Undefined function "@ + x + " called at "@ + span2_text(l),
        ErrView::DuplicateBinding(x, l) =>
            "Variable "@ + x + " defined twice in let-expression at "@ + span2_text(l),
        ErrView::Overflow(n, l) =>
            "Number literal "@ + int_text(n as int) + " doesn't fit into 63-bit integer at "@ + span2_text(l),
        ErrView::DuplicateArgName(x, l) => "multiple arguments named \""@ + x + "\" at "@ + span2_text(l),
        ErrView::DuplicateFunName(x, l) => "multiple defined functions named \""@ + x + "\" at "@ + span2_text(l),
        ErrView::FunctionUsedAsValue(x, l) =>
            "function "@ + x + " used in non-function call position at "@ + span2_text(l),
        ErrView::ValueUsedAsFunction(x, l) =>
            "value variable "@ + x + " used in function call position at "@ + span2_text(l),
        ErrView::FunctionCalledWrongArity(x, n, m, l) =>
            "function "@ + x + " of arity "@ + dec_text(n as nat) + " called with "@ + dec_text(m as nat)
                + " arguments at "@ + span2_text(l),
    }
}

/// `a`, `x`, then `b`.
fn around(a: &str, x: &str, b: &str) -> (s: String)
    ensures
        s@ == a@ + x@ + b@,
{
    let mut s = String::from_str(a);
    s.append(x);
    s.append(b);
    s
}

impl CompileErr<Span2> {
    /// The message for the error.
    pub fn describe(&self) -> (s: String)
        ensures
            s@ == err_text(self@),
    {
        match self {
            CompileErr::UnboundVariable { unbound, location } => {
                let mut s = around("Unbound variable ", unbound.as_str(), " at ");
                s.append(location.describe().as_str());
                s
            },
            CompileErr::UndefinedFunction { undefined, location } => {
                let mut s = around("Undefined function ", undefined.as_str(), " called at ");
                s.append(location.describe().as_str());
                s
            },
            CompileErr::DuplicateBinding { duplicated_name, location } => {
                let mut s = around("Variable ", duplicated_name.as_str(), " defined twice in let-expression at ");
                s.append(location.describe().as_str());
                s
            },
            CompileErr::Overflow { num, location } => {
                let mut s = around("Number literal ", int_to_string(*num).as_str(), " doesn't fit into 63-bit integer at ");
                s.append(location.describe().as_str());
                s
            },
            CompileErr::DuplicateArgName { duplicated_name, location } => {
                let mut s = around("multiple arguments named \"", duplicated_name.as_str(), "\" at ");
                s.append(location.describe().as_str());
                s
            },
            CompileErr::DuplicateFunName { duplicated_name, location } => {
                let mut s = around("multiple defined functions named \"", duplicated_name.as_str(), "\" at ");
                s.append(location.describe().as_str());
                s
            },
            CompileErr::FunctionUsedAsValue { function_name, location } => {
                let mut s = around("function ", function_name.as_str(), " used in non-function call position at ");
                s.append(location.describe().as_str());
                s
            },
            CompileErr::ValueUsedAsFunction { variable_name, location } => {
                let mut s = around("value variable ", variable_name.as_str(), " used in function call position at ");
                s.append(location.describe().as_str());
                s
            },
            CompileErr::FunctionCalledWrongArity { function_name, correct_arity, arity_used, location } => {
                let mut s = around("function ", function_name.as_str(), " of arity ");
                s.append(nat_to_string(*correct_arity as u64).as_str());
                s.append(" called with ");
                s.append(nat_to_string(*arity_used as u64).as_str());
                s.append(" arguments at ");
                s.append(location.describe().as_str());
                s
            },
        }
    }
}

/// Where a local variable is kept.
#[derive(Copy, Clone, Debug, PartialEq, Eq, Structural, Hash)]
pub enum VarLocation {
    Reg(Reg),
    /// a slot below `rbp`: the `n`-th spilled variable
    Spill(i32),
}


/* The static checker */

/// The result of a check, with the error by its view.
pub open spec fn result_view(r: Result<(), CompileErr<Span1>>) -> Result<(), ErrView<Span1>> {
    match r {
        Ok(()) => Ok(()),
        Err(e) => Err(e@),
    }
}

/// The arity of the last function of that name in `funs`.
pub open spec fn fun_arity(funs: Seq<(Seq<char>, usize)>, x: Seq<char>) -> Option<usize>
    decreases funs.len(),
{
    if funs.len() == 0 {
        None
    } else if funs.last().0 == x {
        Some(funs.last().1)
    } else {
        fun_arity(funs.drop_last(), x)
    }
}

/// The first name among the first `n` of `names` that repeats an earlier one.
pub open spec fn first_dup_upto(names: Seq<Seq<char>>, n: int) -> Option<Seq<char>>
    decreases n,
{
    if n <= 0 {
        None
    } else {
        match first_dup_upto(names, n - 1) {
            Some(x) => Some(x),
            None => if names.subrange(0, n - 1).contains(names[n - 1]) { Some(names[n - 1]) } else { None },
        }
    }
}

/// The first name of `names` that repeats an earlier one.
pub open spec fn first_dup(names: Seq<Seq<char>>) -> Option<Seq<char>> {
    first_dup_upto(names, names.len() as int)
}

pub open spec fn binding_names<A>(bs: Seq<(String, Exp<A>)>) -> Seq<Seq<char>> {
    bs.map_values(|b: (String, Exp<A>)| b.0@)
}

pub open spec fn min_literal() -> int { -0x4000_0000_0000_0000 }
pub open spec fn max_literal() -> int { 0x3FFF_FFFF_FFFF_FFFF }

/// The first error in `e`, checked in left-to-right order, given the
/// parameters `args`, the local variables `lcl` and the functions `funs`
/// (name and arity) in scope.
pub open spec fn check_exp_spec(
    e: Exp<Span1>,
    args: Seq<Seq<char>>,
    lcl: Seq<Seq<char>>,
    funs: Seq<(Seq<char>, usize)>,
) -> Result<(), ErrView<Span1>>
    decreases e,
{
    match e {
        Exp::Num(n, ann) => if min_literal() <= n <= max_literal() {
            Ok(())
        } else {
            Err(ErrView::Overflow(n, ann))
        },
        Exp::Bool(_, _) => Ok(()),
        Exp::Var(v, span) => if args.contains(v@) || lcl.contains(v@) {
            Ok(())
        } else if fun_arity(funs, v@) is Some {
            Err(ErrView::FunctionUsedAsValue(v@, span))
        } else {
            Err(ErrView::UnboundVariable(v@, span))
        },
        Exp::Prim1(_, e1, _) => check_exp_spec(*e1, args, lcl, funs),
        Exp::Prim2(_, e1, e2, _) => match check_exp_spec(*e1, args, lcl, funs) {
            Err(x) => Err(x),
            Ok(()) => check_exp_spec(*e2, args, lcl, funs),
        },
        Exp::Let { bindings, body, ann } => match first_dup(binding_names(bindings@)) {
            Some(x) => Err(ErrView::DuplicateBinding(x, ann)),
            None => match check_binds_spec(bindings@, args, lcl, funs) {
                Err(x) => Err(x),
                Ok(()) => check_exp_spec(*body, args, lcl + binding_names(bindings@), funs),
            },
        },
        Exp::If { cond, thn, els, .. } => match check_exp_spec(*cond, args, lcl, funs) {
            Err(x) => Err(x),
            Ok(()) => match check_exp_spec(*thn, args, lcl, funs) {
                Err(x) => Err(x),
                Ok(()) => check_exp_spec(*els, args, lcl, funs),
            },
        },
        Exp::Call(name, exps, ann) => if lcl.contains(name@) || args.contains(name@) {
            Err(ErrView::ValueUsedAsFunction(name@, ann))
        } else {
            match fun_arity(funs, name@) {
                None => Err(ErrView::UndefinedFunction(name@, ann)),
                Some(a) => if a != exps@.len() {
                    Err(ErrView::FunctionCalledWrongArity(name@, a, exps@.len() as usize, ann))
                } else {
                    check_args_spec(exps@, args, lcl, funs)
                },
            }
        },
    }
}

/// The bindings of a `let`, each checked with the earlier ones in scope.
pub open spec fn check_binds_spec(
    bs: Seq<(String, Exp<Span1>)>,
    args: Seq<Seq<char>>,
    lcl: Seq<Seq<char>>,
    funs: Seq<(Seq<char>, usize)>,
) -> Result<(), ErrView<Span1>>
    decreases bs,
{
    if bs.len() == 0 {
        Ok(())
    } else {
        match check_exp_spec(bs[0].1, args, lcl, funs) {
            Err(x) => Err(x),
            Ok(()) => check_binds_spec(bs.drop_first(), args, lcl.push(bs[0].0@), funs),
        }
    }
}

pub open spec fn check_args_spec(
    es: Seq<Exp<Span1>>,
    args: Seq<Seq<char>>,
    lcl: Seq<Seq<char>>,
    funs: Seq<(Seq<char>, usize)>,
) -> Result<(), ErrView<Span1>>
    decreases es,
{
    if es.len() == 0 {
        Ok(())
    } else {
        match check_exp_spec(es[0], args, lcl, funs) {
            Err(x) => Err(x),
            Ok(()) => check_args_spec(es.drop_first(), args, lcl, funs),
        }
    }
}

/// The functions declared so far, then those of `fs`: the first function
/// whose name is taken, or whose parameters repeat a name, is an error.
pub open spec fn check_decls_spec(
    fs: Seq<FunDecl<Exp<Span1>, Span1>>,
    env: Seq<(Seq<char>, usize)>,
) -> Result<Seq<(Seq<char>, usize)>, ErrView<Span1>>
    decreases fs.len(),
{
    if fs.len() == 0 {
        Ok(env)
    } else if fun_arity(env, fs[0].name@) is Some {
        Err(ErrView::DuplicateFunName(fs[0].name@, fs[0].ann))
    } else {
        let env2 = env.push((fs[0].name@, fs[0].parameters@.len() as usize));
        match first_dup(crate::vecset::views(fs[0].parameters@)) {
            Some(x) => Err(ErrView::DuplicateArgName(x, fs[0].ann)),
            None => check_decls_spec(fs.drop_first(), env2),
        }
    }
}

pub open spec fn check_bodies_spec(
    fs: Seq<FunDecl<Exp<Span1>, Span1>>,
    funs: Seq<(Seq<char>, usize)>,
) -> Result<(), ErrView<Span1>>
    decreases fs.len(),
{
    if fs.len() == 0 {
        Ok(())
    } else {
        match check_exp_spec(fs[0].body, crate::vecset::views(fs[0].parameters@), Seq::empty(), funs) {
            Err(x) => Err(x),
            Ok(()) => check_bodies_spec(fs.drop_first(), funs),
        }
    }
}

/// The first error of a program: in the declarations of its functions,
/// then in their bodies, then in `main`.
pub open spec fn check_prog_spec(p: SurfProg<Span1>) -> Result<(), ErrView<Span1>> {
    match check_decls_spec(p.funs@, Seq::empty()) {
        Err(x) => Err(x),
        Ok(funs) => match check_bodies_spec(p.funs@, funs) {
            Err(x) => Err(x),
            Ok(()) => check_exp_spec(p.main, Seq::empty(), Seq::empty(), funs),
        },
    }
}

/// Whether `x` is among `env`.
fn has_name(env: &Vec<String>, x: &String) -> (b: bool)
    ensures
        b == crate::vecset::views(env@).contains(x@),
{
    let mut i: usize = 0;
    while i < env.len()
        invariant
            i <= env@.len(),
            forall|j: int| 0 <= j < i ==> env@[j]@ != x@,
        decreases env@.len() - i,
    {
        if env[i] == *x {
            proof { assert(crate::vecset::views(env@)[i as int] == x@); }
            return true;
        }
        i = i + 1;
    }
    false
}

/// The value bound to `x` last in `env`.
pub fn get<T: Copy>(env: &[(String, T)], x: &String) -> (r: Option<T>)
    ensures
        r == fun_lookup(env@, x@),
{
    let mut i = env.len();
    proof { assert(env@.subrange(0, env@.len() as int) =~= env@); }
    while i > 0
        invariant
            i <= env@.len(),
            fun_lookup(env@, x@) == fun_lookup(env@.subrange(0, i as int), x@),
        decreases i,
    {
        proof {
            assert(env@.subrange(0, i as int).drop_last() =~= env@.subrange(0, i - 1));
        }
        if env[i - 1].0 == *x {
            return Some(env[i - 1].1);
        }
        i = i - 1;
    }
    None
}

/// The value bound to `x` last in `env`.
pub open spec fn fun_lookup<T>(env: Seq<(String, T)>, x: Seq<char>) -> Option<T>
    decreases env.len(),
{
    if env.len() == 0 {
        None
    } else if env.last().0@ == x {
        Some(env.last().1)
    } else {
        fun_lookup(env.drop_last(), x)
    }
}

/// The functions in scope by name and arity.
pub open spec fn funs_view(env: Seq<(String, usize)>) -> Seq<(Seq<char>, usize)> {
    env.map_values(|p: (String, usize)| (p.0@, p.1))
}

proof fn lemma_fun_lookup(env: Seq<(String, usize)>, x: Seq<char>)
    ensures
        fun_lookup(env, x) == fun_arity(funs_view(env), x),
    decreases env.len(),
{
    if env.len() > 0 {
        assert(funs_view(env.drop_last()) =~= funs_view(env).drop_last());
        lemma_fun_lookup(env.drop_last(), x);
    }
}

proof fn lemma_first_dup_stays(names: Seq<Seq<char>>, m: int, n: int)
    requires
        0 <= m <= n,
        first_dup_upto(names, m) is Some,
    ensures
        first_dup_upto(names, n) == first_dup_upto(names, m),
    decreases n - m,
{
    if n > m {
        lemma_first_dup_stays(names, m, n - 1);
    }
}

proof fn lemma_decls_first_err(fs: Seq<FunDecl<Exp<Span1>, Span1>>, env: Seq<(Seq<char>, usize)>)
    requires
        fs.len() > 0,
        check_decls_spec(seq![fs[0]], env) is Err,
    ensures
        check_decls_spec(fs, env) == check_decls_spec(seq![fs[0]], env),
{
    let one = seq![fs[0]];
    assert(one[0] == fs[0]);
    assert(one.len() == 1);
    let f = fs[0];
    if fun_arity(env, f.name@) is Some {
        assert(check_decls_spec(fs, env) == Err::<Seq<(Seq<char>, usize)>, ErrView<Span1>>(ErrView::DuplicateFunName(f.name@, f.ann)));
    } else {
        let d = first_dup(crate::vecset::views(f.parameters@));
        if d is Some {
            assert(check_decls_spec(fs, env) == Err::<Seq<(Seq<char>, usize)>, ErrView<Span1>>(ErrView::DuplicateArgName(d.unwrap(), f.ann)));
        } else {
            reveal_with_fuel(check_decls_spec, 2);
            assert(one.drop_first().len() == 0);
            assert(check_decls_spec(one, env) is Ok);
        }
    }
}

/// The first name in `names` that repeats an earlier one.
fn find_dup(names: &Vec<String>) -> (r: Option<String>)
    ensures
        match r {
            Some(x) => first_dup(crate::vecset::views(names@)) == Some(x@),
            None => first_dup(crate::vecset::views(names@)) is None,
        },
{
    let ghost vs = crate::vecset::views(names@);
    let mut seen: Vec<String> = Vec::new();
    let mut i: usize = 0;
    while i < names.len()
        invariant
            i <= names@.len(),
            vs == crate::vecset::views(names@),
            crate::vecset::views(seen@) == vs.subrange(0, i as int),
            first_dup_upto(vs, i as int) is None,
        decreases names@.len() - i,
    {
        if has_name(&seen, &names[i]) {
            proof {
                assert(first_dup_upto(vs, i + 1) == Some(vs[i as int]));
                lemma_first_dup_stays(vs, i + 1, vs.len() as int);
            }
            return Some(names[i].clone());
        }
        let ghost before = seen@;
        seen.push(names[i].clone());
        proof {
            assert(seen@ =~= before.push(names@[i as int]));
            assert(crate::vecset::views(seen@) =~= crate::vecset::views(before).push(names@[i as int]@));
            assert(crate::vecset::views(seen@) =~= vs.subrange(0, i + 1));
            assert(vs.subrange(0, i + 1).subrange(0, i as int) =~= vs.subrange(0, i as int));
        }
        i = i + 1;
    }
    None
}

/// The names of the bindings of a `let`.
fn names_of(bindings: &Vec<(String, Exp<Span1>)>) -> (r: Vec<String>)
    ensures
        crate::vecset::views(r@) == binding_names(bindings@),
{
    let mut r: Vec<String> = Vec::new();
    let mut i: usize = 0;
    while i < bindings.len()
        invariant
            i <= bindings@.len(),
            crate::vecset::views(r@) == binding_names(bindings@).subrange(0, i as int),
        decreases bindings@.len() - i,
    {
        let ghost before = r@;
        r.push(bindings[i].0.clone());
        proof {
            assert(r@ =~= before.push(bindings@[i as int].0));
            assert(crate::vecset::views(r@) =~= crate::vecset::views(before).push(bindings@[i as int].0@));
            assert(crate::vecset::views(r@) =~= binding_names(bindings@).subrange(0, i + 1));
        }
        i = i + 1;
    }
    proof { assert(binding_names(bindings@).subrange(0, bindings@.len() as int) =~= binding_names(bindings@)); }
    r
}

#[verifier::loop_isolation(false)]
fn check_exp(
    e: &Exp<Span1>,
    env_arg: &Vec<String>,
    env_lcl: &Vec<String>,
    env_fun: &Vec<(String, usize)>,
) -> (r: Result<(), CompileErr<Span1>>)
    ensures
        result_view(r) == check_exp_spec(*e, crate::vecset::views(env_arg@), crate::vecset::views(env_lcl@), funs_view(env_fun@)),
    decreases e,
{
    let ghost args = crate::vecset::views(env_arg@);
    let ghost lcl = crate::vecset::views(env_lcl@);
    let ghost funs = funs_view(env_fun@);
    match e {
        Exp::Num(n, ann) => {
            if *n >= -0x4000_0000_0000_0000i64 && *n <= 0x3FFF_FFFF_FFFF_FFFFi64 {
                Ok(())
            } else {
                Err(CompileErr::Overflow { num: *n, location: *ann })
            }
        },
        Exp::Bool(_, _) => Ok(()),
        Exp::Var(v, span) => {
            if has_name(env_arg, v) {
                return Ok(());
            }
            if has_name(env_lcl, v) {
                return Ok(());
            }
            proof { lemma_fun_lookup(env_fun@, v@); }
            match get(env_fun.as_slice(), v) {
                Some(_) => Err(CompileErr::FunctionUsedAsValue { function_name: v.clone(), location: *span }),
                None => Err(CompileErr::UnboundVariable { unbound: v.clone(), location: *span }),
            }
        },
        Exp::Prim1(_, e1, _) => check_exp(e1, env_arg, env_lcl, env_fun),
        Exp::Prim2(_, e1, e2, _) => {
            check_exp(e1, env_arg, env_lcl, env_fun)?;
            check_exp(e2, env_arg, env_lcl, env_fun)
        },
        Exp::Let { bindings, body, ann } => {
            let names = names_of(bindings);
            match find_dup(&names) {
                Some(x) => {
                    return Err(CompileErr::DuplicateBinding { duplicated_name: x, location: *ann });
                },
                None => {},
            }
            let mut lcl2 = crate::syntax::copy_strings(env_lcl);
            proof {
                assert(lcl + binding_names(bindings@).subrange(0, 0) =~= lcl);
                assert(bindings@.subrange(0, bindings@.len() as int) =~= bindings@);
            }
            let mut i: usize = 0;
            while i < bindings.len()
                invariant
                    i <= bindings@.len(),
                    crate::vecset::views(lcl2@) == lcl + binding_names(bindings@).subrange(0, i as int),
                    check_binds_spec(bindings@, args, lcl, funs)
                        == check_binds_spec(bindings@.subrange(i as int, bindings@.len() as int), args,
                            crate::vecset::views(lcl2@), funs),
                decreases bindings@.len() - i,
            {
                let ghost rest = bindings@.subrange(i as int, bindings@.len() as int);
                proof {
                    assert(rest[0] == bindings@[i as int]);
                    assert(rest.drop_first() =~= bindings@.subrange(i + 1, bindings@.len() as int));
                }
                let (x, e1) = &bindings[i];
                check_exp(e1, env_arg, &lcl2, env_fun)?;
                let ghost before = lcl2@;
                lcl2.push(x.clone());
                proof {
                    assert(crate::vecset::views(lcl2@) =~= crate::vecset::views(before).push(x@));
                    assert(crate::vecset::views(lcl2@) =~= lcl + binding_names(bindings@).subrange(0, i + 1));
                }
                i = i + 1;
            }
            proof {
                assert(binding_names(bindings@).subrange(0, bindings@.len() as int) =~= binding_names(bindings@));
                assert(bindings@.subrange(bindings@.len() as int, bindings@.len() as int).len() == 0);
            }
            check_exp(body, env_arg, &lcl2, env_fun)
        },
        Exp::If { cond, thn, els, .. } => {
            check_exp(cond, env_arg, env_lcl, env_fun)?;
            check_exp(thn, env_arg, env_lcl, env_fun)?;
            check_exp(els, env_arg, env_lcl, env_fun)
        },
        Exp::Call(name, exps, ann) => {
            if has_name(env_lcl, name) {
                return Err(CompileErr::ValueUsedAsFunction { variable_name: name.clone(), location: *ann });
            }
            if has_name(env_arg, name) {
                return Err(CompileErr::ValueUsedAsFunction { variable_name: name.clone(), location: *ann });
            }
            let arity_call = exps.len();
            proof { lemma_fun_lookup(env_fun@, name@); }
            match get(env_fun.as_slice(), name) {
                Some(arity_def) => {
                    if arity_def != arity_call {
                        return Err(CompileErr::FunctionCalledWrongArity {
                            function_name: name.clone(),
                            correct_arity: arity_def,
                            arity_used: arity_call,
                            location: *ann,
                        });
                    }
                },
                None => {
                    return Err(CompileErr::UndefinedFunction { undefined: name.clone(), location: *ann });
                },
            }
            proof { assert(exps@.subrange(0, exps@.len() as int) =~= exps@); }
            let mut i: usize = 0;
            while i < exps.len()
                invariant
                    i <= exps@.len(),
                    check_args_spec(exps@, args, lcl, funs)
                        == check_args_spec(exps@.subrange(i as int, exps@.len() as int), args, lcl, funs),
                decreases exps@.len() - i,
            {
                let ghost rest = exps@.subrange(i as int, exps@.len() as int);
                proof {
                    assert(rest[0] == exps@[i as int]);
                    assert(rest.drop_first() =~= exps@.subrange(i + 1, exps@.len() as int));
                }
                check_exp(&exps[i], env_arg, env_lcl, env_fun)?;
                i = i + 1;
            }
            Ok(())
        },
    }
}

/// Checks one declaration against the functions declared before it: its
/// name must be new and its parameters distinct. The name enters the table
/// unless it was already there, even when a parameter repeats.
fn check_fun(fun: &FunDecl<Exp<Span1>, Span1>, env_fun: &mut Vec<(String, usize)>) -> (r: Result<(), CompileErr<Span1>>)
    ensures
        match r {
            Ok(()) => fun_arity(funs_view(old(env_fun)@), fun.name@) is None
                && first_dup(crate::vecset::views(fun.parameters@)) is None
                && funs_view(final(env_fun)@) == funs_view(old(env_fun)@).push((fun.name@, fun.parameters@.len() as usize)),
            Err(x) => match check_decls_spec(seq![*fun], funs_view(old(env_fun)@)) {
                Err(y) => x@ == y,
                Ok(_) => false,
            },
        },
        fun_arity(funs_view(old(env_fun)@), fun.name@) is Some ==> final(env_fun)@ == old(env_fun)@,
        fun_arity(funs_view(old(env_fun)@), fun.name@) is None
            ==> funs_view(final(env_fun)@) == funs_view(old(env_fun)@).push((fun.name@, fun.parameters@.len() as usize)),
{
    let param_num = fun.parameters.len();
    proof { lemma_fun_lookup(env_fun@, fun.name@); }
    match get(env_fun.as_slice(), &fun.name) {
        Some(_) => {
            return Err(CompileErr::DuplicateFunName { duplicated_name: fun.name.clone(), location: fun.ann });
        },
        None => {
            let ghost before = env_fun@;
            env_fun.push((fun.name.clone(), param_num));
            proof { assert(funs_view(env_fun@) =~= funs_view(before).push((fun.name@, fun.parameters@.len() as usize))); }
        },
    }
    match find_dup(&fun.parameters) {
        Some(x) => Err(CompileErr::DuplicateArgName { duplicated_name: x, location: fun.ann }),
        None => Ok(()),
    }
}

/// A variable that is a parameter or a local in scope is accepted,
/// whatever functions exist; one that is neither is a function used as a
/// value when a function has its name, and unbound otherwise.
pub proof fn lemma_check_var(x: String, span: Span1, args: Seq<Seq<char>>, lcl: Seq<Seq<char>>, funs: Seq<(Seq<char>, usize)>)
    ensures
        args.contains(x@) || lcl.contains(x@) ==> check_exp_spec(Exp::Var(x, span), args, lcl, funs) == Ok::<(), ErrView<Span1>>(()),
        !args.contains(x@) && !lcl.contains(x@) && fun_arity(funs, x@) is Some
            ==> check_exp_spec(Exp::Var(x, span), args, lcl, funs) == Err::<(), ErrView<Span1>>(ErrView::FunctionUsedAsValue(x@, span)),
        !args.contains(x@) && !lcl.contains(x@) && fun_arity(funs, x@) is None
            ==> check_exp_spec(Exp::Var(x, span), args, lcl, funs) == Err::<(), ErrView<Span1>>(ErrView::UnboundVariable(x@, span)),
{
}

/// A call to a name that a parameter or local holds is refused as a value
/// used as a function; a call to no declared function is refused as
/// undefined; a call with another number of arguments than the function
/// takes is refused with both numbers. A number literal is accepted
/// exactly when it fits in 63 bits.
pub proof fn lemma_check_calls_and_literals(name: String, exps: Vec<Exp<Span1>>, n: i64, ann: Span1,
    args: Seq<Seq<char>>, lcl: Seq<Seq<char>>, funs: Seq<(Seq<char>, usize)>)
    ensures
        args.contains(name@) || lcl.contains(name@) ==> check_exp_spec(Exp::Call(name, exps, ann), args, lcl, funs)
            == Err::<(), ErrView<Span1>>(ErrView::ValueUsedAsFunction(name@, ann)),
        !args.contains(name@) && !lcl.contains(name@) && fun_arity(funs, name@) is None
            ==> check_exp_spec(Exp::Call(name, exps, ann), args, lcl, funs) == Err::<(), ErrView<Span1>>(ErrView::UndefinedFunction(name@, ann)),
        !args.contains(name@) && !lcl.contains(name@) && fun_arity(funs, name@) is Some && fun_arity(funs, name@)->Some_0 != exps@.len()
            ==> check_exp_spec(Exp::Call(name, exps, ann), args, lcl, funs)
                == Err::<(), ErrView<Span1>>(ErrView::FunctionCalledWrongArity(name@, fun_arity(funs, name@)->Some_0, exps@.len() as usize, ann)),
        -0x4000_0000_0000_0000 <= n <= 0x3FFF_FFFF_FFFF_FFFF ==> check_exp_spec(Exp::Num(n, ann), args, lcl, funs) == Ok::<(), ErrView<Span1>>(()),
        !(-0x4000_0000_0000_0000 <= n <= 0x3FFF_FFFF_FFFF_FFFF)
            ==> check_exp_spec(Exp::Num(n, ann), args, lcl, funs) == Err::<(), ErrView<Span1>>(ErrView::Overflow(n, ann)),
{
}

/// `e` calls no function.
pub open spec fn call_free<A>(e: Exp<A>) -> bool
    decreases e,
{
    match e {
        Exp::Num(..) | Exp::Bool(..) | Exp::Var(..) => true,
        Exp::Prim1(_, e1, _) => call_free(*e1),
        Exp::Prim2(_, e1, e2, _) => call_free(*e1) && call_free(*e2),
        Exp::Let { bindings, body, .. } => binds_call_free(bindings@) && call_free(*body),
        Exp::If { cond, thn, els, .. } => call_free(*cond) && call_free(*thn) && call_free(*els),
        Exp::Call(..) => false,
    }
}

pub open spec fn binds_call_free<A>(bs: Seq<(String, Exp<A>)>) -> bool
    decreases bs,
{
    if bs.len() == 0 { true } else { call_free(bs[0].1) && binds_call_free(bs.drop_first()) }
}

/// Parameters and locals shadow functions: an expression that calls no
/// function and that the checker accepts with some functions declared is
/// accepted with any others.
pub proof fn lemma_call_free_checked(e: Exp<Span1>, args: Seq<Seq<char>>, lcl: Seq<Seq<char>>,
    funs1: Seq<(Seq<char>, usize)>, funs2: Seq<(Seq<char>, usize)>)
    requires
        call_free(e),
        check_exp_spec(e, args, lcl, funs1) is Ok,
    ensures
        check_exp_spec(e, args, lcl, funs2) is Ok,
    decreases e,
{
    match e {
        Exp::Prim1(_, e1, _) => {
            lemma_call_free_checked(*e1, args, lcl, funs1, funs2);
        },
        Exp::Prim2(_, e1, e2, _) => {
            lemma_call_free_checked(*e1, args, lcl, funs1, funs2);
            lemma_call_free_checked(*e2, args, lcl, funs1, funs2);
        },
        Exp::Let { bindings, body, .. } => {
            lemma_binds_call_free_checked(bindings@, args, lcl, funs1, funs2);
            lemma_call_free_checked(*body, args, lcl + binding_names(bindings@), funs1, funs2);
        },
        Exp::If { cond, thn, els, .. } => {
            lemma_call_free_checked(*cond, args, lcl, funs1, funs2);
            lemma_call_free_checked(*thn, args, lcl, funs1, funs2);
            lemma_call_free_checked(*els, args, lcl, funs1, funs2);
        },
        _ => {},
    }
}

proof fn lemma_binds_call_free_checked(bs: Seq<(String, Exp<Span1>)>, args: Seq<Seq<char>>, lcl: Seq<Seq<char>>,
    funs1: Seq<(Seq<char>, usize)>, funs2: Seq<(Seq<char>, usize)>)
    requires
        binds_call_free(bs),
        check_binds_spec(bs, args, lcl, funs1) is Ok,
    ensures
        check_binds_spec(bs, args, lcl, funs2) is Ok,
    decreases bs,
{
    if bs.len() > 0 {
        lemma_call_free_checked(bs[0].1, args, lcl, funs1, funs2);
        lemma_binds_call_free_checked(bs.drop_first(), args, lcl.push(bs[0].0@), funs1, funs2);
    }
}

/// Checks a program: names of functions and of parameters unique, every
/// variable bound, every call to a defined function with its arity, no
/// number literal beyond 63 bits, no `let` binding a name twice. The error
/// is the first one found, in the order of `check_prog_spec`.
pub fn check_prog(p: &SurfProg<Span1>) -> (r: Result<(), CompileErr<Span1>>)
    ensures
        result_view(r) == check_prog_spec(*p),
{
    let mut env_fun: Vec<(String, usize)> = Vec::new();
    proof {
        assert(funs_view(env_fun@) =~= Seq::<(Seq<char>, usize)>::empty());
        assert(p.funs@.subrange(0, p.funs@.len() as int) =~= p.funs@);
    }
    let mut k: usize = 0;
    while k < p.funs.len()
        invariant
            k <= p.funs@.len(),
            check_decls_spec(p.funs@, Seq::empty())
                == check_decls_spec(p.funs@.subrange(k as int, p.funs@.len() as int), funs_view(env_fun@)),
        decreases p.funs@.len() - k,
    {
        let ghost rest = p.funs@.subrange(k as int, p.funs@.len() as int);
        proof {
            assert(rest[0] == p.funs@[k as int]);
            assert(rest.drop_first() =~= p.funs@.subrange(k + 1, p.funs@.len() as int));
            assert(seq![p.funs@[k as int]].drop_first() =~= Seq::<FunDecl<Exp<Span1>, Span1>>::empty());
        }
        let ghost env0 = funs_view(env_fun@);
        match check_fun(&p.funs[k], &mut env_fun) {
            Err(x) => {
                proof {
                    lemma_decls_first_err(rest, env0);
                }
                return Err(x);
            },
            Ok(()) => {},
        }
        k = k + 1;
    }
    proof {
        assert(p.funs@.subrange(p.funs@.len() as int, p.funs@.len() as int).len() == 0);
    }
    let ghost funs = funs_view(env_fun@);
    assert(check_decls_spec(p.funs@, Seq::empty()) == Ok::<Seq<(Seq<char>, usize)>, ErrView<Span1>>(funs));
    let empty: Vec<String> = Vec::new();
    proof {
        assert(crate::vecset::views(empty@) =~= Seq::<Seq<char>>::empty());
        assert(p.funs@.subrange(0, p.funs@.len() as int) =~= p.funs@);
    }
    let mut k: usize = 0;
    while k < p.funs.len()
        invariant
            k <= p.funs@.len(),
            funs == funs_view(env_fun@),
            check_decls_spec(p.funs@, Seq::empty()) == Ok::<Seq<(Seq<char>, usize)>, ErrView<Span1>>(funs),
            crate::vecset::views(empty@) == Seq::<Seq<char>>::empty(),
            check_bodies_spec(p.funs@, funs)
                == check_bodies_spec(p.funs@.subrange(k as int, p.funs@.len() as int), funs),
        decreases p.funs@.len() - k,
    {
        let ghost rest = p.funs@.subrange(k as int, p.funs@.len() as int);
        proof {
            assert(rest[0] == p.funs@[k as int]);
            assert(rest.drop_first() =~= p.funs@.subrange(k + 1, p.funs@.len() as int));
        }
        let fun = &p.funs[k];
        match check_exp(&fun.body, &fun.parameters, &empty, &env_fun) {
            Err(x) => {
                proof {
                    assert(check_bodies_spec(rest, funs) == Err::<(), ErrView<Span1>>(x@));
                }
                return Err(x);
            },
            Ok(()) => {},
        }
        k = k + 1;
    }
    check_exp(&p.main, &empty, &empty, &env_fun)
}
} // verus!
