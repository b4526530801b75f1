//! A program that the checker accepts never gets stuck in the interpreter:
//! every variable that the machine reads is bound, and every function that
//! it calls exists and takes as many arguments as it is given.
use vstd::prelude::*;
use crate::syntax::{Exp, FunDecl, SurfProg};
use crate::list::{List, assoc};
use crate::interp::{SnakeVal, InterpErr, Machine, Stack, Step, step_rel, can_step, callable, called, call_env,
    pending_binds, pending_args, decls_map};
use crate::compile::{check_exp_spec, check_binds_spec, check_args_spec, check_decls_spec, check_bodies_spec,
    check_prog_spec, fun_arity, binding_names};
use crate::vecset::views;
use crate::lexer::Span1;

verus! {

/* Expressions in scope */

/// Every variable that `e` reads is in `s` (or bound inside `e` before
/// it is read), and every function that `e` calls is in `d` with as many
/// parameters as the call has arguments.
pub open spec fn ok_in<A>(e: Exp<A>, s: Set<Seq<char>>, d: Map<Seq<char>, (Seq<String>, Exp<A>)>) -> bool
    decreases e,
{
    match e {
        Exp::Num(..) | Exp::Bool(..) => true,
        Exp::Var(x, _) => s.contains(x@),
        Exp::Prim1(_, e1, _) => ok_in(*e1, s, d),
        Exp::Prim2(_, e1, e2, _) => ok_in(*e1, s, d) && ok_in(*e2, s, d),
        Exp::Let { bindings, body, .. } =>
            binds_ok(bindings@, s, d) && ok_in(*body, s.union(binding_names(bindings@).to_set()), d),
        Exp::If { cond, thn, els, .. } => ok_in(*cond, s, d) && ok_in(*thn, s, d) && ok_in(*els, s, d),
        Exp::Call(f, args, _) => callable(d, f@, args@.len() as int) && args_ok(args@, s, d),
    }
}

/// Each binding is in scope with the earlier ones added.
pub open spec fn binds_ok<A>(bs: Seq<(String, Exp<A>)>, s: Set<Seq<char>>, d: Map<Seq<char>, (Seq<String>, Exp<A>)>) -> bool
    decreases bs,
{
    if bs.len() == 0 {
        true
    } else {
        ok_in(bs[0].1, s, d) && binds_ok(bs.drop_first(), s.insert(bs[0].0@), d)
    }
}

pub open spec fn args_ok<A>(es: Seq<Exp<A>>, s: Set<Seq<char>>, d: Map<Seq<char>, (Seq<String>, Exp<A>)>) -> bool
    decreases es,
{
    if es.len() == 0 {
        true
    } else {
        ok_in(es[0], s, d) && args_ok(es.drop_first(), s, d)
    }
}

/// The arities that the checker knows are those of `d`.
pub open spec fn arities_in<A>(funs: Seq<(Seq<char>, usize)>, d: Map<Seq<char>, (Seq<String>, Exp<A>)>) -> bool {
    forall|x: Seq<char>, a: usize| fun_arity(funs, x) == Some(a) ==> #[trigger] callable(d, x, a as int)
}

pub proof fn lemma_push_set(s: Seq<Seq<char>>, x: Seq<char>)
    ensures
        s.push(x).to_set() == s.to_set().insert(x),
{
    assert forall|y: Seq<char>| s.push(x).to_set().contains(y) <==> s.to_set().insert(x).contains(y) by {
        if s.push(x).to_set().contains(y) {
            let i = choose|i: int| 0 <= i < s.push(x).len() && s.push(x)[i] == y;
            if i < s.len() {
                assert(s[i] == y);
            }
        }
        if s.to_set().contains(y) {
            let i = choose|i: int| 0 <= i < s.len() && s[i] == y;
            assert(s.push(x)[i] == y);
        }
        if y == x {
            assert(s.push(x)[s.len() as int] == y);
        }
    }
    assert(s.push(x).to_set() =~= s.to_set().insert(x));
}

pub proof fn lemma_concat_set(a: Seq<Seq<char>>, b: Seq<Seq<char>>)
    ensures
        (a + b).to_set() == a.to_set().union(b.to_set()),
{
    assert forall|y: Seq<char>| (a + b).to_set().contains(y) <==> a.to_set().union(b.to_set()).contains(y) by {
        if (a + b).to_set().contains(y) {
            let i = choose|i: int| 0 <= i < (a + b).len() && (a + b)[i] == y;
            if i < a.len() {
                assert(a[i] == y);
            } else {
                assert(b[i - a.len()] == y);
            }
        }
        if a.to_set().contains(y) {
            let i = choose|i: int| 0 <= i < a.len() && a[i] == y;
            assert((a + b)[i] == y);
        }
        if b.to_set().contains(y) {
            let i = choose|i: int| 0 <= i < b.len() && b[i] == y;
            assert((a + b)[a.len() + i] == y);
        }
    }
    assert((a + b).to_set() =~= a.to_set().union(b.to_set()));
}

/// What the checker accepts is in scope.
pub proof fn lemma_checked_in_scope(e: Exp<Span1>, args: Seq<Seq<char>>, lcl: Seq<Seq<char>>, funs: Seq<(Seq<char>, usize)>,
    d: Map<Seq<char>, (Seq<String>, Exp<Span1>)>)
    requires
        check_exp_spec(e, args, lcl, funs) is Ok,
        arities_in(funs, d),
    ensures
        ok_in(e, args.to_set().union(lcl.to_set()), d),
    decreases e,
{
    let s = args.to_set().union(lcl.to_set());
    match e {
        Exp::Var(x, _) => {
            if args.contains(x@) {
                let i = choose|i: int| 0 <= i < args.len() && args[i] == x@;
                assert(args.to_set().contains(x@));
            } else {
                let i = choose|i: int| 0 <= i < lcl.len() && lcl[i] == x@;
                assert(lcl.to_set().contains(x@));
            }
        },
        Exp::Prim1(_, e1, _) => {
            lemma_checked_in_scope(*e1, args, lcl, funs, d);
        },
        Exp::Prim2(_, e1, e2, _) => {
            lemma_checked_in_scope(*e1, args, lcl, funs, d);
            lemma_checked_in_scope(*e2, args, lcl, funs, d);
        },
        Exp::Let { bindings, body, .. } => {
            lemma_checked_binds(bindings@, args, lcl, funs, d);
            lemma_checked_in_scope(*body, args, lcl + binding_names(bindings@), funs, d);
            lemma_concat_set(lcl, binding_names(bindings@));
            assert(args.to_set().union((lcl + binding_names(bindings@)).to_set())
                =~= s.union(binding_names(bindings@).to_set()));
        },
        Exp::If { cond, thn, els, .. } => {
            lemma_checked_in_scope(*cond, args, lcl, funs, d);
            lemma_checked_in_scope(*thn, args, lcl, funs, d);
            lemma_checked_in_scope(*els, args, lcl, funs, d);
        },
        Exp::Call(name, exps, _) => {
            let a = fun_arity(funs, name@)->Some_0;
            assert(callable(d, name@, a as int));
            lemma_checked_args(exps@, args, lcl, funs, d);
        },
        _ => {},
    }
}

proof fn lemma_checked_binds(bs: Seq<(String, Exp<Span1>)>, args: Seq<Seq<char>>, lcl: Seq<Seq<char>>,
    funs: Seq<(Seq<char>, usize)>, d: Map<Seq<char>, (Seq<String>, Exp<Span1>)>)
    requires
        check_binds_spec(bs, args, lcl, funs) is Ok,
        arities_in(funs, d),
    ensures
        binds_ok(bs, args.to_set().union(lcl.to_set()), d),
    decreases bs,
{
    if bs.len() > 0 {
        lemma_checked_in_scope(bs[0].1, args, lcl, funs, d);
        lemma_checked_binds(bs.drop_first(), args, lcl.push(bs[0].0@), funs, d);
        lemma_push_set(lcl, bs[0].0@);
        assert(args.to_set().union(lcl.push(bs[0].0@).to_set()) =~= args.to_set().union(lcl.to_set()).insert(bs[0].0@));
    }
}

proof fn lemma_checked_args(es: Seq<Exp<Span1>>, args: Seq<Seq<char>>, lcl: Seq<Seq<char>>,
    funs: Seq<(Seq<char>, usize)>, d: Map<Seq<char>, (Seq<String>, Exp<Span1>)>)
    requires
        check_args_spec(es, args, lcl, funs) is Ok,
        arities_in(funs, d),
    ensures
        args_ok(es, args.to_set().union(lcl.to_set()), d),
    decreases es,
{
    if es.len() > 0 {
        lemma_checked_in_scope(es[0], args, lcl, funs, d);
        lemma_checked_args(es.drop_first(), args, lcl, funs, d);
    }
}

/* Checked programs */

/// The functions of `d` have bodies in scope of their parameters.
pub open spec fn decls_ok<A>(d: Map<Seq<char>, (Seq<String>, Exp<A>)>) -> bool {
    forall|f: Seq<char>| #[trigger] d.contains_key(f) ==> ok_in(d[f].1, views(d[f].0).to_set(), d)
}

/// The names and arities of declarations, in order.
pub open spec fn decl_arities(fs: Seq<FunDecl<Exp<Span1>, Span1>>) -> Seq<(Seq<char>, usize)> {
    fs.map_values(|f: FunDecl<Exp<Span1>, Span1>| (f.name@, f.parameters@.len() as usize))
}

proof fn lemma_decls_result(fs: Seq<FunDecl<Exp<Span1>, Span1>>, env: Seq<(Seq<char>, usize)>)
    requires
        check_decls_spec(fs, env) is Ok,
    ensures
        check_decls_spec(fs, env)->Ok_0 == env + decl_arities(fs),
        forall|i: int, j: int| 0 <= i < j < fs.len() ==> #[trigger] fs[i].name@ != #[trigger] fs[j].name@,
        forall|i: int| 0 <= i < fs.len() ==> fun_arity(env, #[trigger] fs[i].name@) is None,
    decreases fs.len(),
{
    if fs.len() > 0 {
        let env2 = env.push((fs[0].name@, fs[0].parameters@.len() as usize));
        let rest = fs.drop_first();
        lemma_decls_result(rest, env2);
        assert(decl_arities(fs) =~= seq![(fs[0].name@, fs[0].parameters@.len() as usize)] + decl_arities(rest));
        assert(env + decl_arities(fs) =~= env2 + decl_arities(rest));
        assert(env2.drop_last() =~= env);
        assert forall|i: int, j: int| 0 <= i < j < fs.len() implies #[trigger] fs[i].name@ != #[trigger] fs[j].name@ by {
            assert(fs[j] == rest[j - 1]);
            if i == 0 {
                assert(fun_arity(env2, rest[j - 1].name@) is None);
            } else {
                assert(fs[i] == rest[i - 1]);
            }
        }
        assert forall|i: int| 0 <= i < fs.len() implies fun_arity(env, #[trigger] fs[i].name@) is None by {
            if i > 0 {
                assert(fs[i] == rest[i - 1]);
                assert(fun_arity(env2, rest[i - 1].name@) is None);
            }
        }
    }
}

proof fn lemma_fun_arity_index(r: Seq<(Seq<char>, usize)>, x: Seq<char>)
    requires
        fun_arity(r, x) is Some,
    ensures
        exists|j: int| 0 <= j < r.len() && r[j] == (x, fun_arity(r, x)->Some_0),
    decreases r.len(),
{
    if r.last().0 == x {
        assert(r[r.len() - 1] == (x, fun_arity(r, x)->Some_0));
    } else {
        lemma_fun_arity_index(r.drop_last(), x);
        let j = choose|j: int| 0 <= j < r.drop_last().len() && r.drop_last()[j] == (x, fun_arity(r, x)->Some_0);
        assert(r[j] == r.drop_last()[j]);
    }
}

proof fn lemma_decls_map(fs: Seq<FunDecl<Exp<Span1>, Span1>>)
    requires
        forall|i: int, j: int| 0 <= i < j < fs.len() ==> #[trigger] fs[i].name@ != #[trigger] fs[j].name@,
    ensures
        forall|i: int| 0 <= i < fs.len() ==> decls_map(fs).contains_key(#[trigger] fs[i].name@)
            && decls_map(fs)[fs[i].name@] == (fs[i].parameters@, fs[i].body),
        forall|x: Seq<char>| #[trigger] decls_map(fs).contains_key(x) ==> exists|i: int| 0 <= i < fs.len() && fs[i].name@ == x,
    decreases fs.len(),
{
    if fs.len() > 0 {
        let init = fs.drop_last();
        assert forall|i: int, j: int| 0 <= i < j < init.len() implies #[trigger] init[i].name@ != #[trigger] init[j].name@ by {
            assert(init[i] == fs[i] && init[j] == fs[j]);
        }
        lemma_decls_map(init);
        let n = fs.len() - 1;
        assert(fs.last() == fs[n]);
        assert forall|i: int| 0 <= i < fs.len() implies decls_map(fs).contains_key(#[trigger] fs[i].name@)
            && decls_map(fs)[fs[i].name@] == (fs[i].parameters@, fs[i].body) by {
            if i < n {
                assert(init[i] == fs[i]);
                assert(fs[i].name@ != fs[n].name@);
            }
        }
        assert forall|x: Seq<char>| #[trigger] decls_map(fs).contains_key(x) implies exists|i: int| 0 <= i < fs.len() && fs[i].name@ == x by {
            if x != fs[n].name@ {
                assert(decls_map(init).contains_key(x));
                let i = choose|i: int| 0 <= i < init.len() && init[i].name@ == x;
                assert(fs[i] == init[i]);
            }
        }
    }
}

proof fn lemma_bodies_checked(fs: Seq<FunDecl<Exp<Span1>, Span1>>, funs: Seq<(Seq<char>, usize)>)
    requires
        check_bodies_spec(fs, funs) is Ok,
    ensures
        forall|i: int| 0 <= i < fs.len() ==>
            check_exp_spec((#[trigger] fs[i]).body, views(fs[i].parameters@), Seq::empty(), funs) is Ok,
    decreases fs.len(),
{
    if fs.len() > 0 {
        lemma_bodies_checked(fs.drop_first(), funs);
        assert forall|i: int| 0 <= i < fs.len() implies
            check_exp_spec((#[trigger] fs[i]).body, views(fs[i].parameters@), Seq::empty(), funs) is Ok by {
            if i > 0 {
                assert(fs[i] == fs.drop_first()[i - 1]);
            }
        }
    }
}

/// In a program that the checker accepts, every function body is in scope
/// of its parameters and `main` is in scope with nothing bound.
pub proof fn lemma_checked_program_in_scope(p: SurfProg<Span1>)
    requires
        check_prog_spec(p) is Ok,
    ensures
        decls_ok(decls_map(p.funs@)),
        forall|k: int| 0 <= k < p.funs@.len() ==>
            ok_in((#[trigger] p.funs@[k]).body, views(p.funs@[k].parameters@).to_set(), decls_map(p.funs@)),
        ok_in(p.main, Set::empty(), decls_map(p.funs@)),
{
    let fs = p.funs@;
    let d = decls_map(fs);
    let funs = check_decls_spec(fs, Seq::empty())->Ok_0;
    lemma_decls_result(fs, Seq::empty());
    assert(funs =~= decl_arities(fs));
    lemma_decls_map(fs);
    assert forall|x: Seq<char>, a: usize| fun_arity(funs, x) == Some(a) implies #[trigger] callable(d, x, a as int) by {
        lemma_fun_arity_index(funs, x);
        let j = choose|j: int| 0 <= j < funs.len() && funs[j] == (x, fun_arity(funs, x)->Some_0);
        assert(funs[j] == (fs[j].name@, fs[j].parameters@.len() as usize));
        assert(fs[j].parameters.len() == fs[j].parameters@.len());
        assert(d.contains_key(fs[j].name@));
    }
    lemma_bodies_checked(fs, funs);
    assert forall|f: Seq<char>| #[trigger] d.contains_key(f) implies ok_in(d[f].1, views(d[f].0).to_set(), d) by {
        let i = choose|i: int| 0 <= i < fs.len() && fs[i].name@ == f;
        assert(d[f] == (fs[i].parameters@, fs[i].body));
        lemma_checked_in_scope(fs[i].body, views(fs[i].parameters@), Seq::empty(), funs, d);
        assert(views(fs[i].parameters@).to_set().union(Seq::<Seq<char>>::empty().to_set()) =~= views(fs[i].parameters@).to_set());
    }
    assert forall|k: int| 0 <= k < fs.len() implies
        ok_in((#[trigger] fs[k]).body, views(fs[k].parameters@).to_set(), d) by {
        assert(d.contains_key(fs[k].name@));
    }
    lemma_checked_in_scope(p.main, Seq::empty(), Seq::empty(), funs, d);
    assert(Seq::<Seq<char>>::empty().to_set().union(Seq::<Seq<char>>::empty().to_set()) =~= Set::<Seq<char>>::empty());
}

/* Machines in scope */

/// The names bound in an environment.
pub open spec fn seq_names(s: Seq<(String, SnakeVal)>) -> Set<Seq<char>> {
    s.map_values(|p: (String, SnakeVal)| p.0@).to_set()
}

pub open spec fn env_names(env: List<(String, SnakeVal)>) -> Set<Seq<char>> {
    seq_names(env.as_seq())
}

/// The bindings still to come in a `let` frame, in order.
pub open spec fn frame_binds<'exp, A>(rb: Seq<&'exp (String, Exp<A>)>) -> Seq<(String, Exp<A>)> {
    rb.map_values(|r: &'exp (String, Exp<A>)| *r).reverse()
}

/// Every frame of the stack holds expressions in scope of its
/// environment; a call frame's function takes all the arguments it is
/// collecting.
pub open spec fn stack_ok<'exp, A>(stk: Stack<'exp, A>, d: Map<Seq<char>, (Seq<String>, Exp<A>)>) -> bool
    decreases stk,
{
    match stk {
        Stack::Done => true,
        Stack::Prim1(_, s) => stack_ok(*s, d),
        Stack::Prim2L(_, c, s) => ok_in(*c.exp, env_names(c.env), d) && stack_ok(*s, d),
        Stack::Prim2R(_, _, s) => stack_ok(*s, d),
        Stack::If { thn, els, env, stk: s } =>
            ok_in(*thn, env_names(env), d) && ok_in(*els, env_names(env), d) && stack_ok(*s, d),
        Stack::Let { var, env, bindings, body, stk: s } => {
            let sv = env_names(env).insert(var@);
            let fb = frame_binds(bindings@);
            &&& binds_ok(fb, sv, d)
            &&& ok_in(*body, sv.union(binding_names(fb).to_set()), d)
            &&& stack_ok(*s, d)
        },
        Stack::Call { fun, evaled_args, env, remaining_args, stk: s } => {
            let n = (evaled_args@.len() + 1 + remaining_args@.len()) as int;
            &&& callable(d, fun@, n)
            &&& n <= usize::MAX
            &&& forall|i: int| 0 <= i < remaining_args@.len() ==> ok_in(*#[trigger] remaining_args@[i], env_names(env), d)
            &&& stack_ok(*s, d)
        },
    }
}

/// The machine is in scope: what it is about to evaluate, and its stack.
pub open spec fn machine_ok<'exp, A>(m: Machine<'exp, A>, d: Map<Seq<char>, (Seq<String>, Exp<A>)>) -> bool {
    match m {
        Machine::Descending { e, stk, env } => ok_in(*e, env_names(env), d) && stack_ok(stk, d),
        Machine::Returning { stk, .. } => stack_ok(stk, d),
    }
}

proof fn lemma_cons_names(p: (String, SnakeVal), s: Seq<(String, SnakeVal)>)
    ensures
        seq_names(seq![p] + s) == seq_names(s).insert(p.0@),
{
    let f = |q: (String, SnakeVal)| q.0@;
    let a = (seq![p] + s).map_values(f);
    let b = s.map_values(f);
    assert forall|x: Seq<char>| a.to_set().contains(x) <==> b.to_set().insert(p.0@).contains(x) by {
        if a.to_set().contains(x) {
            let i = choose|i: int| 0 <= i < a.len() && a[i] == x;
            if i > 0 {
                assert(b[i - 1] == x);
            }
        }
        if b.to_set().contains(x) {
            let i = choose|i: int| 0 <= i < b.len() && b[i] == x;
            assert(a[i + 1] == x);
        }
        if x == p.0@ {
            assert(a[0] == x);
        }
    }
    assert(a.to_set() =~= b.to_set().insert(p.0@));
}

proof fn lemma_call_env_names(params: Seq<String>, args: Seq<SnakeVal>)
    requires
        params.len() == args.len(),
    ensures
        seq_names(call_env(params, args)) == views(params).to_set(),
    decreases params.len(),
{
    if params.len() == 0 {
        assert(seq_names(call_env(params, args)) =~= views(params).to_set());
    } else {
        lemma_call_env_names(params.drop_last(), args.drop_last());
        lemma_cons_names((params.last(), args.last()), call_env(params.drop_last(), args.drop_last()));
        assert(views(params) =~= views(params.drop_last()).push(params.last()@));
        lemma_push_set(views(params.drop_last()), params.last()@);
    }
}

proof fn lemma_assoc_some(s: Seq<(String, SnakeVal)>, k: Seq<char>)
    requires
        seq_names(s).contains(k),
    ensures
        assoc(s, k) is Some,
    decreases s.len(),
{
    let f = |q: (String, SnakeVal)| q.0@;
    let i = choose|i: int| 0 <= i < s.map_values(f).len() && s.map_values(f)[i] == k;
    if s[0].0@ != k {
        assert(i > 0);
        assert(s.drop_first().map_values(f)[i - 1] == k);
        lemma_assoc_some(s.drop_first(), k);
    }
}

proof fn lemma_args_ok_index<A>(es: Seq<Exp<A>>, s: Set<Seq<char>>, d: Map<Seq<char>, (Seq<String>, Exp<A>)>, j: int)
    requires
        args_ok(es, s, d),
        0 <= j < es.len(),
    ensures
        ok_in(es[j], s, d),
    decreases es.len(),
{
    if j > 0 {
        lemma_args_ok_index(es.drop_first(), s, d, j - 1);
    }
}

proof fn lemma_names_split<A>(bs: Seq<(String, Exp<A>)>, s: Set<Seq<char>>)
    requires
        bs.len() > 0,
    ensures
        s.union(binding_names(bs).to_set()) == s.insert(bs[0].0@).union(binding_names(bs.drop_first()).to_set()),
{
    assert(binding_names(bs) =~= seq![bs[0].0@] + binding_names(bs.drop_first()));
    lemma_concat_set(seq![bs[0].0@], binding_names(bs.drop_first()));
    assert(seq![bs[0].0@].to_set() =~= Set::<Seq<char>>::empty().insert(bs[0].0@)) by {
        assert(seq![bs[0].0@][0] == bs[0].0@);
    }
    assert(s.union(binding_names(bs).to_set()) =~= s.insert(bs[0].0@).union(binding_names(bs.drop_first()).to_set()));
}

proof fn lemma_frame_binds_start<'exp, A>(rb: Seq<&'exp (String, Exp<A>)>, bs: Seq<(String, Exp<A>)>)
    requires
        bs.len() > 0,
        pending_binds(rb, bs, 1),
    ensures
        frame_binds(rb) == bs.drop_first(),
{
    assert forall|i: int| 0 <= i < frame_binds(rb).len() implies frame_binds(rb)[i] == bs.drop_first()[i] by {
        let j = rb.len() - 1 - i;
        assert(*rb[j] == bs[bs.len() - 1 - j]);
    }
    assert(frame_binds(rb) =~= bs.drop_first());
}

proof fn lemma_frame_binds_pop<'exp, A>(rb: Seq<&'exp (String, Exp<A>)>)
    requires
        rb.len() > 0,
    ensures
        frame_binds(rb).len() > 0,
        frame_binds(rb)[0] == *rb.last(),
        frame_binds(rb.drop_last()) == frame_binds(rb).drop_first(),
{
    assert(frame_binds(rb.drop_last()) =~= frame_binds(rb).drop_first());
}

/// A machine in scope can take its step.
pub proof fn lemma_in_scope_can_step<'exp, A>(m: Machine<'exp, A>, d: Map<Seq<char>, (Seq<String>, Exp<A>)>)
    requires
        machine_ok(m, d),
    ensures
        can_step(m, d),
{
    match m {
        Machine::Descending { e, env, .. } => match *e {
            Exp::Var(x, _) => {
                lemma_assoc_some(env.as_seq(), x@);
            },
            _ => {},
        },
        Machine::Returning { .. } => {},
    }
}

/// A step keeps the machine in scope, for functions in scope.
pub proof fn lemma_step_in_scope<'exp, A>(m: Machine<'exp, A>, d: Map<Seq<char>, (Seq<String>, Exp<A>)>,
    r: Result<Step<'exp, A>, InterpErr>)
    requires
        machine_ok(m, d),
        decls_ok(d),
        step_rel(m, d, r),
    ensures
        r matches Ok(Step::Next(m2)) ==> machine_ok(m2, d),
        r matches Ok(Step::Print(_, m2)) ==> machine_ok(m2, d),
{
    match m {
        Machine::Descending { e, stk, env } => {
            let n = env_names(env);
            match *e {
                Exp::Let { bindings, body, .. } => {
                    let bs = bindings@;
                    if bs.len() == 0 {
                        assert(n.union(binding_names(bs).to_set()) =~= n);
                        match r {
                            Ok(Step::Next(m2)) => { assert(machine_ok(m2, d)); },
                            _ => {},
                        }
                    } else {
                        match r {
                            Ok(Step::Next(Machine::Descending { e: d2, stk: Stack::Let { var, env: env3, bindings: rb, body: b2, stk: s2 }, env: env2 })) => {
                                lemma_frame_binds_start(rb@, bs);
                                lemma_names_split(bs, n);
                                assert(binds_ok(bs, n, d));
                                assert(ok_in(bs[0].1, n, d));
                                assert(binds_ok(bs.drop_first(), n.insert(bs[0].0@), d));
                                assert(ok_in(*d2, env_names(env2), d));
                                assert(binds_ok(frame_binds(rb@), env_names(env3).insert(var@), d));
                                assert(ok_in(*b2, env_names(env3).insert(var@).union(binding_names(frame_binds(rb@)).to_set()), d));
                                assert(stack_ok(*s2, d));
                            },
                            _ => {},
                        }
                    }
                },
                Exp::Call(fun, args, _) => {
                    if args@.len() == 0 {
                        match r {
                            Ok(Step::Next(m2)) => {
                                assert(d.contains_key(fun@));
                                lemma_call_env_names(d[fun@].0, Seq::empty());
                                assert(machine_ok(m2, d));
                            },
                            _ => {},
                        }
                    } else {
                        match r {
                            Ok(Step::Next(Machine::Descending { e: d2, stk: Stack::Call { fun: f2, evaled_args: ea, env: env3, remaining_args: ra, stk: s2 }, env: env2 })) => {
                                assert(args.len() == args@.len());
                                lemma_args_ok_index(args@, n, d, 0);
                                assert forall|i: int| 0 <= i < ra@.len() implies ok_in(*#[trigger] ra@[i], env_names(env3), d) by {
                                    assert(*ra@[i] == args@[args@.len() - 1 - i]);
                                    lemma_args_ok_index(args@, n, d, args@.len() - 1 - i);
                                }
                                assert(ok_in(*d2, env_names(env2), d));
                                assert(callable(d, f2@, (ea@.len() + 1 + ra@.len()) as int));
                                assert(stack_ok(*s2, d));
                            },
                            _ => {},
                        }
                    }
                },
                _ => {},
            }
        },
        Machine::Returning { v, stk } => match stk {
            Stack::Let { var, env, bindings, body, stk: s } => {
                let sv = env_names(env).insert(var@);
                let fb = frame_binds(bindings@);
                lemma_cons_names((*var, v), env.as_seq());
                if bindings@.len() == 0 {
                    assert(fb.len() == 0);
                    assert(sv.union(binding_names(fb).to_set()) =~= sv);
                } else {
                    lemma_frame_binds_pop(bindings@);
                    lemma_names_split(fb, sv);
                }
            },
            Stack::Call { fun, evaled_args, env, remaining_args, stk: s } => {
                let args = evaled_args@.push(v);
                if remaining_args@.len() == 0 {
                    match r {
                        Ok(Step::Next(m2)) => {
                            assert(d.contains_key(fun@));
                            lemma_call_env_names(d[fun@].0, args);
                        },
                        _ => {},
                    }
                } else {
                    match r {
                        Ok(Step::Next(Machine::Descending { e: d2, stk: Stack::Call { fun: f2, evaled_args: ea, env: env3, remaining_args: ra, stk: s2 }, env: env2 })) => {
                            let k = remaining_args@.len() - 1;
                            assert(remaining_args@.last() == remaining_args@[k]);
                            assert forall|i: int| 0 <= i < ra@.len() implies ok_in(*#[trigger] ra@[i], env_names(env3), d) by {
                                assert(ra@[i] == remaining_args@[i]);
                            }
                        },
                        _ => {},
                    }
                }
            },
            _ => {},
        },
    }
}

/// The machine that starts a checked program is in scope, and so are the
/// program's functions.
pub proof fn lemma_start_in_scope<'exp>(p: SurfProg<Span1>, m: Machine<'exp, Span1>)
    requires
        check_prog_spec(p) is Ok,
        m matches Machine::Descending { e, stk, env } && *e == p.main && stk is Done && env.as_seq().len() == 0,
    ensures
        machine_ok(m, decls_map(p.funs@)),
        decls_ok(decls_map(p.funs@)),
{
    lemma_checked_program_in_scope(p);
    match m {
        Machine::Descending { env, .. } => {
            assert(env_names(env) =~= Set::<Seq<char>>::empty());
        },
        _ => {},
    }
}

/* Whole runs */

/// `r` hands the machine on to `m2`, printing or not.
pub open spec fn hands_on<'exp, A>(r: Result<Step<'exp, A>, InterpErr>, m2: Machine<'exp, A>) -> bool {
    ||| r == Ok::<Step<'exp, A>, InterpErr>(Step::Next(m2))
    ||| exists|v: SnakeVal| r == Ok::<Step<'exp, A>, InterpErr>(Step::Print(v, m2))
}

/// `ms` is a run of the interpreter with the functions `d`: each machine
/// is handed on to the next by one step.
pub open spec fn is_run<'exp, A>(d: Map<Seq<char>, (Seq<String>, Exp<A>)>, ms: Seq<Machine<'exp, A>>) -> bool {
    forall|i: int| 0 <= i < ms.len() - 1 ==> steps_to(d, #[trigger] ms[i], ms[i + 1])
}

/// One step of the interpreter hands `m` on to `m2`.
pub open spec fn steps_to<'exp, A>(d: Map<Seq<char>, (Seq<String>, Exp<A>)>, m: Machine<'exp, A>, m2: Machine<'exp, A>) -> bool {
    exists|r: Result<Step<'exp, A>, InterpErr>| #[trigger] step_rel(m, d, r) && hands_on(r, m2)
}

proof fn lemma_run_in_scope<'exp>(p: SurfProg<Span1>, ms: Seq<Machine<'exp, Span1>>, i: int)
    requires
        check_prog_spec(p) is Ok,
        0 <= i < ms.len(),
        ms[0] matches Machine::Descending { e, stk, env } && *e == p.main && stk is Done && env.as_seq().len() == 0,
        is_run(decls_map(p.funs@), ms),
    ensures
        machine_ok(ms[i], decls_map(p.funs@)),
    decreases i,
{
    let d = decls_map(p.funs@);
    lemma_start_in_scope(p, ms[0]);
    if i > 0 {
        lemma_run_in_scope(p, ms, i - 1);
        assert(steps_to(d, ms[i - 1], ms[i - 1 + 1]));
        let r = choose|r: Result<Step<'exp, Span1>, InterpErr>| #[trigger] step_rel(ms[i - 1], d, r) && hands_on(r, ms[i - 1 + 1]);
        lemma_step_in_scope(ms[i - 1], d, r);
        if r != Ok::<Step<'exp, Span1>, InterpErr>(Step::Next(ms[i])) {
            let v = choose|v: SnakeVal| r == Ok::<Step<'exp, Span1>, InterpErr>(Step::Print(v, ms[i]));
        }
    }
}

/// A run of a checked program never gets stuck: every machine of a run
/// from the start, however long, can take its next step (its variables
/// are bound, its calls go to defined functions with as many arguments as
/// they take).
pub proof fn lemma_checked_runs_never_stuck<'exp>(p: SurfProg<Span1>, ms: Seq<Machine<'exp, Span1>>)
    requires
        check_prog_spec(p) is Ok,
        ms.len() > 0,
        ms[0] matches Machine::Descending { e, stk, env } && *e == p.main && stk is Done && env.as_seq().len() == 0,
        is_run(decls_map(p.funs@), ms),
    ensures
        forall|i: int| 0 <= i < ms.len() ==> can_step(#[trigger] ms[i], decls_map(p.funs@)),
{
    assert forall|i: int| 0 <= i < ms.len() implies can_step(#[trigger] ms[i], decls_map(p.funs@)) by {
        lemma_run_in_scope(p, ms, i);
        lemma_in_scope_can_step(ms[i], decls_map(p.funs@));
    }
}

} // verus!
