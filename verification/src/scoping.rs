//! Every variable that a compiled function body reads is a parameter or
//! bound by one of its `let`s: the checker guarantees it of the surface
//! program, and sequentialization, renaming and the passes that only add
//! annotations keep it. Likewise a program that never prints the stack
//! keeps not printing it through the passes.
use vstd::prelude::*;
use crate::syntax::{Exp, SeqExp, ImmExp, Prim1, seq_same_shape, same_shape, same_shape_binds, same_shape_args, imm_same, imms_same,
    uniquified, renamed, env_lookup, imm_renamed, fresh_name};
use crate::sequentialize::{sequentialized, let_chain, chain_body, call_chain, is_imm, imm_for, var_named, prim1_name,
    prim2_name1, prim2_name2, if_name, call_name, arg_imm};
use crate::progress::{ok_in, binds_ok, args_ok, lemma_push_set};
use crate::codegen::{generable, binds_generable, args_generable, compile_ready, tag_rel, seq_rel, retag_rel, uniq_rel, live_rel, pair_rel};
use crate::syntax::{SurfProg, SeqProg, Prog, fun_same_shape, sfun_same_shape};
use crate::vecset::{VecSet, views};
use crate::compile::check_prog_spec;
use crate::lexer::Span1;
use crate::interp::decls_map;
use crate::regalloc::let_vars;
use crate::vars::reads;
use crate::liveness::{imm_vars, imms_vars};
use crate::compile::binding_names;

verus! {

/* Surface expressions */

/// Every variable that `e` reads is in `s` or bound inside `e` before it
/// is read.
pub open spec fn vars_ok<A>(e: Exp<A>, s: Set<Seq<char>>) -> bool
    decreases e,
{
    match e {
        Exp::Num(..) | Exp::Bool(..) => true,
        Exp::Var(x, _) => s.contains(x@),
        Exp::Prim1(_, e1, _) => vars_ok(*e1, s),
        Exp::Prim2(_, e1, e2, _) => vars_ok(*e1, s) && vars_ok(*e2, s),
        Exp::Let { bindings, body, .. } =>
            binds_vars_ok(bindings@, s) && vars_ok(*body, s.union(binding_names(bindings@).to_set())),
        Exp::If { cond, thn, els, .. } => vars_ok(*cond, s) && vars_ok(*thn, s) && vars_ok(*els, s),
        Exp::Call(_, args, _) => args_vars_ok(args@, s),
    }
}

pub open spec fn binds_vars_ok<A>(bs: Seq<(String, Exp<A>)>, s: Set<Seq<char>>) -> bool
    decreases bs,
{
    if bs.len() == 0 { true } else { vars_ok(bs[0].1, s) && binds_vars_ok(bs.drop_first(), s.insert(bs[0].0@)) }
}

pub open spec fn args_vars_ok<A>(es: Seq<Exp<A>>, s: Set<Seq<char>>) -> bool
    decreases es,
{
    if es.len() == 0 { true } else { vars_ok(es[0], s) && args_vars_ok(es.drop_first(), s) }
}

/// Scope without the functions.
pub proof fn lemma_ok_in_vars<A>(e: Exp<A>, s: Set<Seq<char>>, d: Map<Seq<char>, (Seq<String>, Exp<A>)>)
    requires
        ok_in(e, s, d),
    ensures
        vars_ok(e, s),
    decreases e,
{
    match e {
        Exp::Prim1(_, e1, _) => lemma_ok_in_vars(*e1, s, d),
        Exp::Prim2(_, e1, e2, _) => {
            lemma_ok_in_vars(*e1, s, d);
            lemma_ok_in_vars(*e2, s, d);
        },
        Exp::Let { bindings, body, .. } => {
            lemma_binds_ok_vars(bindings@, s, d);
            lemma_ok_in_vars(*body, s.union(binding_names(bindings@).to_set()), d);
        },
        Exp::If { cond, thn, els, .. } => {
            lemma_ok_in_vars(*cond, s, d);
            lemma_ok_in_vars(*thn, s, d);
            lemma_ok_in_vars(*els, s, d);
        },
        Exp::Call(_, args, _) => lemma_args_ok_vars(args@, s, d),
        _ => {},
    }
}

proof fn lemma_binds_ok_vars<A>(bs: Seq<(String, Exp<A>)>, s: Set<Seq<char>>, d: Map<Seq<char>, (Seq<String>, Exp<A>)>)
    requires
        binds_ok(bs, s, d),
    ensures
        binds_vars_ok(bs, s),
    decreases bs,
{
    if bs.len() > 0 {
        lemma_ok_in_vars(bs[0].1, s, d);
        lemma_binds_ok_vars(bs.drop_first(), s.insert(bs[0].0@), d);
    }
}

proof fn lemma_args_ok_vars<A>(es: Seq<Exp<A>>, s: Set<Seq<char>>, d: Map<Seq<char>, (Seq<String>, Exp<A>)>)
    requires
        args_ok(es, s, d),
    ensures
        args_vars_ok(es, s),
    decreases es,
{
    if es.len() > 0 {
        lemma_ok_in_vars(es[0], s, d);
        lemma_args_ok_vars(es.drop_first(), s, d);
    }
}

/// Expressions of the same shape read the same variables in the same
/// scopes; they are also both `generable` or both not.
pub proof fn lemma_same_shape_vars_ok<A, B>(e1: Exp<A>, e2: Exp<B>, s: Set<Seq<char>>)
    requires
        same_shape(e1, e2),
    ensures
        vars_ok(e1, s) ==> vars_ok(e2, s),
        generable(e1) ==> generable(e2),
    decreases e1,
{
    match (e1, e2) {
        (Exp::Prim1(_, a1, _), Exp::Prim1(_, a2, _)) => lemma_same_shape_vars_ok(*a1, *a2, s),
        (Exp::Prim2(_, a1, b1, _), Exp::Prim2(_, a2, b2, _)) => {
            lemma_same_shape_vars_ok(*a1, *a2, s);
            lemma_same_shape_vars_ok(*b1, *b2, s);
        },
        (Exp::Let { bindings: bs1, body: b1, .. }, Exp::Let { bindings: bs2, body: b2, .. }) => {
            lemma_same_shape_binds_vars(bs1@, bs2@, s);
            lemma_same_shape_binds_names(bs1@, bs2@);
            lemma_same_shape_vars_ok(*b1, *b2, s.union(binding_names(bs1@).to_set()));
        },
        (Exp::If { cond: c1, thn: t1, els: f1, .. }, Exp::If { cond: c2, thn: t2, els: f2, .. }) => {
            lemma_same_shape_vars_ok(*c1, *c2, s);
            lemma_same_shape_vars_ok(*t1, *t2, s);
            lemma_same_shape_vars_ok(*f1, *f2, s);
        },
        (Exp::Call(_, as1, _), Exp::Call(_, as2, _)) => lemma_same_shape_args_vars(as1@, as2@, s),
        _ => {},
    }
}

proof fn lemma_same_shape_binds_names<A, B>(bs1: Seq<(String, Exp<A>)>, bs2: Seq<(String, Exp<B>)>)
    requires
        same_shape_binds(bs1, bs2),
    ensures
        binding_names(bs1) == binding_names(bs2),
    decreases bs1.len(),
{
    if bs1.len() > 0 {
        lemma_same_shape_binds_names(bs1.drop_last(), bs2.drop_last());
        assert(binding_names(bs1) =~= binding_names(bs1.drop_last()).push(bs1.last().0@));
        assert(binding_names(bs2) =~= binding_names(bs2.drop_last()).push(bs2.last().0@));
    } else {
        assert(binding_names(bs1) =~= binding_names(bs2));
    }
}

/// The `i`-th pair of bindings of the same shape.
proof fn lemma_same_shape_binds_index<A, B>(bs1: Seq<(String, Exp<A>)>, bs2: Seq<(String, Exp<B>)>, i: int)
    requires
        same_shape_binds(bs1, bs2),
        0 <= i < bs1.len(),
    ensures
        bs2.len() == bs1.len(),
        bs1[i].0@ == bs2[i].0@,
        same_shape(bs1[i].1, bs2[i].1),
    decreases bs1.len(),
{
    if i < bs1.len() - 1 {
        lemma_same_shape_binds_index(bs1.drop_last(), bs2.drop_last(), i);
        assert(bs1.drop_last()[i] == bs1[i]);
        assert(bs2.drop_last()[i] == bs2[i]);
    }
}

proof fn lemma_same_shape_args_index<A, B>(es1: Seq<Exp<A>>, es2: Seq<Exp<B>>, i: int)
    requires
        same_shape_args(es1, es2),
        0 <= i < es1.len(),
    ensures
        es2.len() == es1.len(),
        same_shape(es1[i], es2[i]),
    decreases es1.len(),
{
    if i < es1.len() - 1 {
        lemma_same_shape_args_index(es1.drop_last(), es2.drop_last(), i);
        assert(es1.drop_last()[i] == es1[i]);
        assert(es2.drop_last()[i] == es2[i]);
    }
}

proof fn lemma_same_shape_binds_vars<A, B>(bs1: Seq<(String, Exp<A>)>, bs2: Seq<(String, Exp<B>)>, s: Set<Seq<char>>)
    requires
        same_shape_binds(bs1, bs2),
    ensures
        binds_vars_ok(bs1, s) ==> binds_vars_ok(bs2, s),
        binds_generable(bs1) ==> binds_generable(bs2),
    decreases bs1,
{
    if bs1.len() > 0 {
        lemma_same_shape_binds_index(bs1, bs2, 0);
        assert forall|i: int| 0 <= i < bs1.drop_first().len() implies
            bs1.drop_first()[i].0@ == bs2.drop_first()[i].0@ && same_shape(bs1.drop_first()[i].1, bs2.drop_first()[i].1) by {
            lemma_same_shape_binds_index(bs1, bs2, i + 1);
        }
        lemma_same_shape_binds_from_index(bs1.drop_first(), bs2.drop_first());
        lemma_same_shape_binds_vars(bs1.drop_first(), bs2.drop_first(), s.insert(bs1[0].0@));
        lemma_same_shape_vars_ok(bs1[0].1, bs2[0].1, s);
        if binds_generable(bs1) {
            lemma_binds_generable_all(bs1);
            assert forall|i: int| 0 <= i < bs2.len() implies generable(#[trigger] bs2[i].1) by {
                lemma_same_shape_binds_index(bs1, bs2, i);
                lemma_same_shape_vars_ok(bs1[i].1, bs2[i].1, s);
            }
            lemma_binds_generable_from_all(bs2);
        }
    }
}

proof fn lemma_same_shape_binds_from_index<A, B>(bs1: Seq<(String, Exp<A>)>, bs2: Seq<(String, Exp<B>)>)
    requires
        bs1.len() == bs2.len(),
        forall|i: int| 0 <= i < bs1.len() ==> bs1[i].0@ == bs2[i].0@ && same_shape(bs1[i].1, bs2[i].1),
    ensures
        same_shape_binds(bs1, bs2),
    decreases bs1.len(),
{
    if bs1.len() > 0 {
        assert forall|i: int| 0 <= i < bs1.drop_last().len() implies
            bs1.drop_last()[i].0@ == bs2.drop_last()[i].0@ && same_shape(bs1.drop_last()[i].1, bs2.drop_last()[i].1) by {
            assert(bs1.drop_last()[i] == bs1[i]);
            assert(bs2.drop_last()[i] == bs2[i]);
        }
        lemma_same_shape_binds_from_index(bs1.drop_last(), bs2.drop_last());
        assert(bs1.last() == bs1[bs1.len() - 1]);
        assert(bs2.last() == bs2[bs2.len() - 1]);
    }
}

proof fn lemma_binds_generable_all<A>(bs: Seq<(String, Exp<A>)>)
    requires
        binds_generable(bs),
    ensures
        forall|i: int| 0 <= i < bs.len() ==> generable(#[trigger] bs[i].1),
    decreases bs.len(),
{
    if bs.len() > 0 {
        lemma_binds_generable_all(bs.drop_last());
        assert forall|i: int| 0 <= i < bs.len() implies generable(#[trigger] bs[i].1) by {
            if i < bs.len() - 1 {
                assert(bs.drop_last()[i] == bs[i]);
            }
        }
    }
}

proof fn lemma_binds_generable_from_all<A>(bs: Seq<(String, Exp<A>)>)
    requires
        forall|i: int| 0 <= i < bs.len() ==> generable(#[trigger] bs[i].1),
    ensures
        binds_generable(bs),
    decreases bs.len(),
{
    if bs.len() > 0 {
        assert forall|i: int| 0 <= i < bs.drop_last().len() implies generable(#[trigger] bs.drop_last()[i].1) by {
            assert(bs.drop_last()[i] == bs[i]);
        }
        lemma_binds_generable_from_all(bs.drop_last());
        assert(bs.last() == bs[bs.len() - 1]);
    }
}

proof fn lemma_args_generable_all<A>(es: Seq<Exp<A>>)
    requires
        args_generable(es),
    ensures
        forall|i: int| 0 <= i < es.len() ==> generable(#[trigger] es[i]),
    decreases es.len(),
{
    if es.len() > 0 {
        lemma_args_generable_all(es.drop_last());
        assert forall|i: int| 0 <= i < es.len() implies generable(#[trigger] es[i]) by {
            if i < es.len() - 1 {
                assert(es.drop_last()[i] == es[i]);
            }
        }
    }
}

proof fn lemma_args_generable_from_all<A>(es: Seq<Exp<A>>)
    requires
        forall|i: int| 0 <= i < es.len() ==> generable(#[trigger] es[i]),
    ensures
        args_generable(es),
    decreases es.len(),
{
    if es.len() > 0 {
        assert forall|i: int| 0 <= i < es.drop_last().len() implies
            generable(#[trigger] es.drop_last()[i]) by {
            assert(es.drop_last()[i] == es[i]);
        }
        lemma_args_generable_from_all(es.drop_last());
        assert(es.last() == es[es.len() - 1]);
    }
}

proof fn lemma_same_shape_args_vars<A, B>(es1: Seq<Exp<A>>, es2: Seq<Exp<B>>, s: Set<Seq<char>>)
    requires
        same_shape_args(es1, es2),
    ensures
        args_vars_ok(es1, s) ==> args_vars_ok(es2, s),
        args_generable(es1) ==> args_generable(es2),
    decreases es1,
{
    if es1.len() > 0 {
        lemma_same_shape_args_index(es1, es2, 0);
        assert forall|i: int| 0 <= i < es1.drop_first().len() implies same_shape(es1.drop_first()[i], es2.drop_first()[i]) by {
            lemma_same_shape_args_index(es1, es2, i + 1);
        }
        lemma_same_shape_args_from_index(es1.drop_first(), es2.drop_first());
        lemma_same_shape_args_vars(es1.drop_first(), es2.drop_first(), s);
        lemma_same_shape_vars_ok(es1[0], es2[0], s);
        if args_generable(es1) {
            lemma_args_generable_all(es1);
            assert forall|i: int| 0 <= i < es2.len() implies generable(#[trigger] es2[i]) by {
                lemma_same_shape_args_index(es1, es2, i);
                lemma_same_shape_vars_ok(es1[i], es2[i], s);
            }
            lemma_args_generable_from_all(es2);
        }
    }
}

proof fn lemma_same_shape_args_from_index<A, B>(es1: Seq<Exp<A>>, es2: Seq<Exp<B>>)
    requires
        es1.len() == es2.len(),
        forall|i: int| 0 <= i < es1.len() ==> same_shape(es1[i], es2[i]),
    ensures
        same_shape_args(es1, es2),
    decreases es1.len(),
{
    if es1.len() > 0 {
        assert forall|i: int| 0 <= i < es1.drop_last().len() implies same_shape(es1.drop_last()[i], es2.drop_last()[i]) by {
            assert(es1.drop_last()[i] == es1[i]);
            assert(es2.drop_last()[i] == es2[i]);
        }
        lemma_same_shape_args_from_index(es1.drop_last(), es2.drop_last());
        assert(es1.last() == es1[es1.len() - 1]);
        assert(es2.last() == es2[es2.len() - 1]);
    }
}

/* Sequential expressions */

pub open spec fn imm_in(i: ImmExp, s: Set<Seq<char>>) -> bool {
    i matches ImmExp::Var(x) ==> s.contains(x@)
}

/// Every variable that `e` reads is in `s` or bound by a `let` of `e`
/// around the read.
pub open spec fn scoped<A>(e: SeqExp<A>, s: Set<Seq<char>>) -> bool
    decreases e,
{
    match e {
        SeqExp::Imm(i, _) => imm_in(i, s),
        SeqExp::Prim1(_, i, _) => imm_in(i, s),
        SeqExp::Prim2(_, i1, i2, _) => imm_in(i1, s) && imm_in(i2, s),
        SeqExp::Let { var, bound_exp, body, .. } => scoped(*bound_exp, s) && scoped(*body, s.insert(var@)),
        SeqExp::If { cond, thn, els, .. } => imm_in(cond, s) && scoped(*thn, s) && scoped(*els, s),
        SeqExp::Call(_, imms, _) => forall|k: int| 0 <= k < imms@.len() ==> imm_in(#[trigger] imms@[k], s),
    }
}

proof fn lemma_scoped_mono<A>(e: SeqExp<A>, s: Set<Seq<char>>, t: Set<Seq<char>>)
    requires
        scoped(e, s),
        s.subset_of(t),
    ensures
        scoped(e, t),
    decreases e,
{
    match e {
        SeqExp::Let { var, bound_exp, body, .. } => {
            lemma_scoped_mono(*bound_exp, s, t);
            lemma_scoped_mono(*body, s.insert(var@), t.insert(var@));
        },
        SeqExp::If { thn, els, .. } => {
            lemma_scoped_mono(*thn, s, t);
            lemma_scoped_mono(*els, s, t);
        },
        SeqExp::Call(_, imms, _) => {
            assert forall|k: int| 0 <= k < imms@.len() implies imm_in(#[trigger] imms@[k], t) by {
                assert(imm_in(imms@[k], s));
            }
        },
        _ => {},
    }
}

/// Expressions of the same shape are in the same scopes.
pub proof fn lemma_scoped_same_shape<A, B>(e1: SeqExp<A>, e2: SeqExp<B>, s: Set<Seq<char>>)
    requires
        scoped(e1, s),
        seq_same_shape(e1, e2),
    ensures
        scoped(e2, s),
    decreases e1,
{
    match (e1, e2) {
        (SeqExp::Let { var, bound_exp: b1, body: d1, .. }, SeqExp::Let { bound_exp: b2, body: d2, .. }) => {
            lemma_scoped_same_shape(*b1, *b2, s);
            lemma_scoped_same_shape(*d1, *d2, s.insert(var@));
        },
        (SeqExp::If { thn: t1, els: f1, .. }, SeqExp::If { thn: t2, els: f2, .. }) => {
            lemma_scoped_same_shape(*t1, *t2, s);
            lemma_scoped_same_shape(*f1, *f2, s);
        },
        (SeqExp::Call(_, as1, _), SeqExp::Call(_, as2, _)) => {
            assert forall|k: int| 0 <= k < as2@.len() implies imm_in(#[trigger] as2@[k], s) by {
                assert(imm_same(as1@[k], as2@[k]));
                assert(imm_in(as1@[k], s));
            }
        },
        _ => {},
    }
}

proof fn lemma_imms_vars_within(is: Seq<ImmExp>, s: Set<Seq<char>>)
    requires
        forall|k: int| 0 <= k < is.len() ==> imm_in(#[trigger] is[k], s),
    ensures
        imms_vars(is).subset_of(s),
    decreases is.len(),
{
    if is.len() > 0 {
        assert forall|k: int| 0 <= k < is.drop_last().len() implies imm_in(#[trigger] is.drop_last()[k], s) by {
            assert(is.drop_last()[k] == is[k]);
        }
        lemma_imms_vars_within(is.drop_last(), s);
        assert(imm_in(is[is.len() - 1], s));
    }
}

/// A body in scope of `s` reads only variables of `s` and variables that
/// it binds.
pub proof fn lemma_scoped_reads<A>(e: SeqExp<A>, s: Set<Seq<char>>)
    requires
        scoped(e, s),
    ensures
        reads(e).subset_of(s.union(let_vars(e))),
    decreases e,
{
    match e {
        SeqExp::Let { var, bound_exp, body, .. } => {
            lemma_scoped_reads(*bound_exp, s);
            lemma_scoped_reads(*body, s.insert(var@));
        },
        SeqExp::If { thn, els, .. } => {
            lemma_scoped_reads(*thn, s);
            lemma_scoped_reads(*els, s);
        },
        SeqExp::Call(_, imms, _) => {
            lemma_imms_vars_within(imms@, s);
        },
        _ => {},
    }
}

/* Sequentialization keeps scopes */

/// The names that the first `k` bindings bind.
pub open spec fn names_upto<A>(bs: Seq<(String, Exp<A>)>, k: int) -> Set<Seq<char>> {
    binding_names(bs.subrange(0, k)).to_set()
}

proof fn lemma_names_upto_step<A>(bs: Seq<(String, Exp<A>)>, k: int)
    requires
        0 <= k < bs.len(),
    ensures
        names_upto(bs, k + 1) == names_upto(bs, k).insert(bs[k].0@),
{
    assert(binding_names(bs.subrange(0, k + 1)) =~= binding_names(bs.subrange(0, k)).push(bs[k].0@));
    lemma_push_set(binding_names(bs.subrange(0, k)), bs[k].0@);
}

proof fn lemma_binds_vars_each<A>(bs: Seq<(String, Exp<A>)>, s: Set<Seq<char>>)
    requires
        binds_vars_ok(bs, s),
    ensures
        forall|j: int| 0 <= j < bs.len() ==> vars_ok(#[trigger] bs[j].1, s.union(names_upto(bs, j))),
    decreases bs.len(),
{
    if bs.len() > 0 {
        let rest = bs.drop_first();
        lemma_binds_vars_each(rest, s.insert(bs[0].0@));
        assert forall|j: int| 0 <= j < bs.len() implies vars_ok(#[trigger] bs[j].1, s.union(names_upto(bs, j))) by {
            if j == 0 {
                assert(binding_names(bs.subrange(0, 0)) =~= Seq::<Seq<char>>::empty());
                assert(s.union(names_upto(bs, 0)) =~= s);
            } else {
                assert(rest[j - 1] == bs[j]);
                assert(binding_names(bs.subrange(0, j)) =~= seq![bs[0].0@] + binding_names(rest.subrange(0, j - 1)));
                crate::progress::lemma_concat_set(seq![bs[0].0@], binding_names(rest.subrange(0, j - 1)));
                assert(seq![bs[0].0@].to_set() =~= Set::<Seq<char>>::empty().insert(bs[0].0@)) by {
                    assert(seq![bs[0].0@][0] == bs[0].0@);
                }
                assert(s.insert(bs[0].0@).union(names_upto(rest, j - 1)) =~= s.union(names_upto(bs, j)));
            }
        }
    }
}

proof fn lemma_args_vars_each<A>(es: Seq<Exp<A>>, s: Set<Seq<char>>)
    requires
        args_vars_ok(es, s),
    ensures
        forall|j: int| 0 <= j < es.len() ==> vars_ok(#[trigger] es[j], s),
    decreases es.len(),
{
    if es.len() > 0 {
        lemma_args_vars_each(es.drop_first(), s);
        assert forall|j: int| 0 <= j < es.len() implies vars_ok(#[trigger] es[j], s) by {
            if j > 0 {
                assert(es.drop_first()[j - 1] == es[j]);
            }
        }
    }
}

/// A surface expression in scope sequentializes to an expression in the
/// same scope: each name that it introduces is bound before it is read.
pub proof fn lemma_sequentialized_scoped(e: Exp<u32>, r: SeqExp<()>, s: Set<Seq<char>>)
    requires
        sequentialized(e, r),
        vars_ok(e, s),
    ensures
        scoped(r, s),
    decreases e, 0int,
{
    reveal_with_fuel(scoped, 3);
    match e {
        Exp::Prim1(_, e1, ann) => {
            if !is_imm(*e1) {
                lemma_sequentialized_scoped(*e1, *r->bound_exp, s);
                assert(scoped(*r->Let_body, s.insert(r->var@)));
                assert(scoped(r, s));
            } else {
                assert(vars_ok(*e1, s));
                assert(scoped(r, s));
            }
        },
        Exp::Prim2(_, e1, e2, ann) => {
            if is_imm(*e1) && is_imm(*e2) {
            } else if is_imm(*e1) {
                lemma_sequentialized_scoped(*e2, *r->bound_exp, s);
            } else if is_imm(*e2) {
                lemma_sequentialized_scoped(*e1, *r->bound_exp, s);
            } else {
                lemma_sequentialized_scoped(*e1, *r->bound_exp, s);
                let n1 = prim2_name1(ann);
                lemma_sequentialized_scoped(*e2, *r->Let_body->bound_exp, s);
                lemma_scoped_mono(*r->Let_body->bound_exp, s, s.insert(n1));
            }
            assert(scoped(r, s));
        },
        Exp::Let { bindings, body, .. } => {
            let bs = bindings@;
            let all = s.union(binding_names(bs).to_set());
            lemma_binds_vars_each(bs, s);
            lemma_sequentialized_scoped(*body, chain_body(bs, 0, r), all);
            lemma_let_chain_scoped(bs, 0, r, s);
            assert(binding_names(bs.subrange(0, 0)) =~= Seq::<Seq<char>>::empty());
            assert(s.union(names_upto(bs, 0)) =~= s);
            assert(scoped(r, s));
        },
        Exp::If { cond, thn, els, ann } => {
            let n = if_name(ann);
            lemma_sequentialized_scoped(*cond, *r->bound_exp, s);
            lemma_sequentialized_scoped(*thn, *r->Let_body->thn, s);
            lemma_sequentialized_scoped(*els, *r->Let_body->els, s);
            lemma_scoped_mono(*r->Let_body->thn, s, s.insert(n));
            lemma_scoped_mono(*r->Let_body->els, s, s.insert(n));
            assert(scoped(r, s));
        },
        Exp::Call(name, args, ann) => {
            lemma_args_vars_each(args@, s);
            lemma_call_chain_scoped(args@, name@, ann, 0, r, s);
            assert(s.union(call_bound(args@, ann, 0)) =~= s);
            assert(scoped(r, s));
        },
        _ => {
            assert(scoped(r, s));
        },
    }
}

proof fn lemma_let_chain_scoped(bs: Seq<(String, Exp<u32>)>, k: int, r: SeqExp<()>, s: Set<Seq<char>>)
    requires
        0 <= k < bs.len(),
        let_chain(bs, k, r),
        forall|j: int| 0 <= j < bs.len() ==> vars_ok(#[trigger] bs[j].1, s.union(names_upto(bs, j))),
        scoped(chain_body(bs, k, r), s.union(binding_names(bs).to_set())),
    ensures
        scoped(r, s.union(names_upto(bs, k))),
    decreases bs, bs.len() - k,
{
    let sk = s.union(names_upto(bs, k));
    lemma_sequentialized_scoped(bs[k].1, *r->bound_exp, sk);
    lemma_names_upto_step(bs, k);
    assert(sk.insert(bs[k].0@) =~= s.union(names_upto(bs, k + 1)));
    if k == bs.len() - 1 {
        assert(bs.subrange(0, k + 1) =~= bs);
    } else {
        lemma_let_chain_scoped(bs, k + 1, *r->Let_body, s);
    }
}

/// The names of the complex arguments before `k`, bound by a call's chain.
pub open spec fn call_bound(args: Seq<Exp<u32>>, tag: u32, k: int) -> Set<Seq<char>> {
    Set::new(|x: Seq<char>| exists|j: int| 0 <= j < k && !is_imm(args[j]) && x == call_name(tag, j))
}

proof fn lemma_call_chain_scoped(args: Seq<Exp<u32>>, name: Seq<char>, tag: u32, k: int, r: SeqExp<()>, s: Set<Seq<char>>)
    requires
        0 <= k <= args.len(),
        call_chain(args, name, tag, k, r),
        forall|j: int| 0 <= j < args.len() ==> vars_ok(#[trigger] args[j], s),
    ensures
        scoped(r, s.union(call_bound(args, tag, k))),
    decreases args, args.len() - k,
{
    let sk = s.union(call_bound(args, tag, k));
    if k >= args.len() {
        match r {
            SeqExp::Call(_, imms, _) => {
                assert forall|i: int| 0 <= i < imms@.len() implies imm_in(#[trigger] imms@[i], sk) by {
                    assert(arg_imm(args[i], tag, i, imms@[i]));
                    assert(vars_ok(args[i], s));
                    if !is_imm(args[i]) {
                        assert(call_bound(args, tag, k).contains(call_name(tag, i)));
                    }
                }
            },
            _ => {},
        }
    } else if is_imm(args[k]) {
        lemma_call_chain_scoped(args, name, tag, k + 1, r, s);
        assert(call_bound(args, tag, k + 1) =~= call_bound(args, tag, k));
    } else {
        lemma_sequentialized_scoped(args[k], *r->bound_exp, s);
        lemma_scoped_mono(*r->bound_exp, s, sk);
        lemma_call_chain_scoped(args, name, tag, k + 1, *r->Let_body, s);
        assert(call_bound(args, tag, k + 1) =~= call_bound(args, tag, k).insert(call_name(tag, k)));
        assert(sk.insert(call_name(tag, k)) =~= s.union(call_bound(args, tag, k + 1)));
    }
}

/* Renaming keeps scopes */

/// The names of `s` after renaming by `env`.
pub open spec fn rename_set(env: Seq<(Seq<char>, Seq<char>)>, s: Set<Seq<char>>) -> Set<Seq<char>> {
    Set::new(|y: Seq<char>| exists|x: Seq<char>| s.contains(x) && renamed(env, x) == y)
}

proof fn lemma_imm_renamed_in(i: ImmExp, env: Seq<(Seq<char>, Seq<char>)>, j: ImmExp, s: Set<Seq<char>>)
    requires
        imm_renamed(i, env, j),
        imm_in(i, s),
    ensures
        imm_in(j, rename_set(env, s)),
{
    if let ImmExp::Var(x) = i {
        assert(s.contains(x@));
    }
}

/// Renaming an expression in scope of `s` gives one in scope of the
/// renamed `s`.
pub proof fn lemma_uniquified_scoped(e: SeqExp<u32>, env: Seq<(Seq<char>, Seq<char>)>, r: SeqExp<u32>, s: Set<Seq<char>>)
    requires
        uniquified(e, env, r),
        scoped(e, s),
    ensures
        scoped(r, rename_set(env, s)),
    decreases e,
{
    let rs = rename_set(env, s);
    match (e, r) {
        (SeqExp::Imm(i, _), SeqExp::Imm(j, _)) => lemma_imm_renamed_in(i, env, j, s),
        (SeqExp::Prim1(_, i, _), SeqExp::Prim1(_, j, _)) => lemma_imm_renamed_in(i, env, j, s),
        (SeqExp::Prim2(_, i1, i2, _), SeqExp::Prim2(_, j1, j2, _)) => {
            lemma_imm_renamed_in(i1, env, j1, s);
            lemma_imm_renamed_in(i2, env, j2, s);
        },
        (SeqExp::Let { var, bound_exp, body, ann }, SeqExp::Let { var: v2, bound_exp: b2, body: d2, .. }) => {
            let fresh = fresh_name(var@, ann);
            let env2 = seq![(var@, fresh)] + env;
            lemma_uniquified_scoped(*bound_exp, env, *b2, s);
            lemma_uniquified_scoped(*body, env2, *d2, s.insert(var@));
            assert(env2.drop_first() =~= env);
            assert forall|y: Seq<char>| rename_set(env2, s.insert(var@)).contains(y) implies rs.insert(v2@).contains(y) by {
                let x = choose|x: Seq<char>| s.insert(var@).contains(x) && renamed(env2, x) == y;
                if x != var@ {
                    assert(renamed(env2, x) == renamed(env, x));
                    assert(s.contains(x));
                }
            }
            lemma_scoped_mono(*d2, rename_set(env2, s.insert(var@)), rs.insert(v2@));
        },
        (SeqExp::If { cond, thn, els, .. }, SeqExp::If { cond: c2, thn: t2, els: e2, .. }) => {
            lemma_imm_renamed_in(cond, env, c2, s);
            lemma_uniquified_scoped(*thn, env, *t2, s);
            lemma_uniquified_scoped(*els, env, *e2, s);
        },
        (SeqExp::Call(_, args, _), SeqExp::Call(_, args2, _)) => {
            assert forall|k: int| 0 <= k < args2@.len() implies imm_in(#[trigger] args2@[k], rs) by {
                lemma_imm_renamed_in(args@[k], env, args2@[k], s);
            }
        },
        _ => {},
    }
}

/// Renaming with nothing renamed changes no name.
pub proof fn lemma_rename_set_empty(s: Set<Seq<char>>)
    ensures
        rename_set(Seq::empty(), s) == s,
{
    assert forall|y: Seq<char>| rename_set(Seq::empty(), s).contains(y) <==> s.contains(y) by {
        if s.contains(y) {
            assert(renamed(Seq::empty(), y) == y);
        }
    }
    assert(rename_set(Seq::empty(), s) =~= s);
}

/* Printing the stack */

/// No primitive of `e` prints the stack.
pub open spec fn stackless<A>(e: SeqExp<A>) -> bool
    decreases e,
{
    match e {
        SeqExp::Prim1(op, _, _) => op != Prim1::PrintStack,
        SeqExp::Let { bound_exp, body, .. } => stackless(*bound_exp) && stackless(*body),
        SeqExp::If { thn, els, .. } => stackless(*thn) && stackless(*els),
        _ => true,
    }
}

/// A surface expression that never prints the stack sequentializes to one
/// that never does.
pub proof fn lemma_sequentialized_stackless(e: Exp<u32>, r: SeqExp<()>)
    requires
        sequentialized(e, r),
        generable(e),
    ensures
        stackless(r),
    decreases e, 0int,
{
    reveal_with_fuel(stackless, 3);
    match e {
        Exp::Prim1(_, e1, _) => {
            if !is_imm(*e1) {
                lemma_sequentialized_stackless(*e1, *r->bound_exp);
            }
        },
        Exp::Prim2(_, e1, e2, _) => {
            if is_imm(*e1) && is_imm(*e2) {
            } else if is_imm(*e1) {
                lemma_sequentialized_stackless(*e2, *r->bound_exp);
            } else if is_imm(*e2) {
                lemma_sequentialized_stackless(*e1, *r->bound_exp);
            } else {
                lemma_sequentialized_stackless(*e1, *r->bound_exp);
                lemma_sequentialized_stackless(*e2, *r->Let_body->bound_exp);
            }
        },
        Exp::Let { bindings, body, .. } => {
            let bs = bindings@;
            lemma_binds_generable_all(bs);
            lemma_sequentialized_stackless(*body, chain_body(bs, 0, r));
            lemma_let_chain_stackless(bs, 0, r);
        },
        Exp::If { cond, thn, els, .. } => {
            lemma_sequentialized_stackless(*cond, *r->bound_exp);
            lemma_sequentialized_stackless(*thn, *r->Let_body->thn);
            lemma_sequentialized_stackless(*els, *r->Let_body->els);
        },
        Exp::Call(name, args, ann) => {
            lemma_args_generable_all(args@);
            lemma_call_chain_stackless(args@, name@, ann, 0, r);
        },
        _ => {},
    }
}

proof fn lemma_let_chain_stackless(bs: Seq<(String, Exp<u32>)>, k: int, r: SeqExp<()>)
    requires
        0 <= k < bs.len(),
        let_chain(bs, k, r),
        forall|j: int| 0 <= j < bs.len() ==> generable(#[trigger] bs[j].1),
        stackless(chain_body(bs, k, r)),
    ensures
        stackless(r),
    decreases bs, bs.len() - k,
{
    lemma_sequentialized_stackless(bs[k].1, *r->bound_exp);
    if k < bs.len() - 1 {
        lemma_let_chain_stackless(bs, k + 1, *r->Let_body);
    }
}

proof fn lemma_call_chain_stackless(args: Seq<Exp<u32>>, name: Seq<char>, tag: u32, k: int, r: SeqExp<()>)
    requires
        0 <= k <= args.len(),
        call_chain(args, name, tag, k, r),
        forall|j: int| 0 <= j < args.len() ==> generable(#[trigger] args[j]),
    ensures
        stackless(r),
    decreases args, args.len() - k,
{
    if k >= args.len() {
    } else if is_imm(args[k]) {
        lemma_call_chain_stackless(args, name, tag, k + 1, r);
    } else {
        lemma_sequentialized_stackless(args[k], *r->bound_exp);
        lemma_call_chain_stackless(args, name, tag, k + 1, *r->Let_body);
    }
}

/// Expressions of the same shape have the same primitives.
pub proof fn lemma_stackless_same_shape<A, B>(e1: SeqExp<A>, e2: SeqExp<B>)
    requires
        stackless(e1),
        seq_same_shape(e1, e2),
    ensures
        stackless(e2),
    decreases e1,
{
    match (e1, e2) {
        (SeqExp::Let { bound_exp: b1, body: d1, .. }, SeqExp::Let { bound_exp: b2, body: d2, .. }) => {
            lemma_stackless_same_shape(*b1, *b2);
            lemma_stackless_same_shape(*d1, *d2);
        },
        (SeqExp::If { thn: t1, els: f1, .. }, SeqExp::If { thn: t2, els: f2, .. }) => {
            lemma_stackless_same_shape(*t1, *t2);
            lemma_stackless_same_shape(*f1, *f2);
        },
        _ => {},
    }
}

/// Renaming keeps the primitives.
pub proof fn lemma_uniquified_stackless(e: SeqExp<u32>, env: Seq<(Seq<char>, Seq<char>)>, r: SeqExp<u32>)
    requires
        uniquified(e, env, r),
        stackless(e),
    ensures
        stackless(r),
    decreases e,
{
    match (e, r) {
        (SeqExp::Let { var, bound_exp, body, ann }, SeqExp::Let { bound_exp: b2, body: d2, .. }) => {
            lemma_uniquified_stackless(*bound_exp, env, *b2);
            lemma_uniquified_stackless(*body, seq![(var@, fresh_name(var@, ann))] + env, *d2);
        },
        (SeqExp::If { thn, els, .. }, SeqExp::If { thn: t2, els: e2, .. }) => {
            lemma_uniquified_stackless(*thn, env, *t2);
            lemma_uniquified_stackless(*els, env, *e2);
        },
        _ => {},
    }
}

/* Through the passes */

/// After the passes before code generation, a function body of a checked
/// program reads only its parameters and the names that its `let`s bind,
/// each in scope; `main` reads only names that its `let`s bind; and no
/// body prints the stack.
pub proof fn lemma_lowered_scoped(p: SurfProg<Span1>, t: SurfProg<u32>, s1: SeqProg<()>, s2: SeqProg<u32>,
    s3: SeqProg<u32>, s4: Prog<SeqExp<VecSet<String>>, u32>, q: Prog<SeqExp<(VecSet<String>, u32)>, u32>)
    requires
        check_prog_spec(p) is Ok,
        compile_ready(p),
        tag_rel(p, t),
        seq_rel(t, s1),
        retag_rel(s1, s2),
        uniq_rel(s2, s3),
        live_rel(s3, s4),
        pair_rel(s4, q),
    ensures
        forall|k: int| 0 <= k < q.funs@.len() ==>
            scoped((#[trigger] q.funs@[k]).body, views(q.funs@[k].parameters@).to_set()),
        scoped(q.main, Set::empty()),
        forall|k: int| 0 <= k < q.funs@.len() ==> stackless((#[trigger] q.funs@[k]).body),
        stackless(q.main),
{
    crate::progress::lemma_checked_program_in_scope(p);
    let d = decls_map(p.funs@);
    assert forall|k: int| 0 <= k < q.funs@.len() implies
        scoped((#[trigger] q.funs@[k]).body, views(q.funs@[k].parameters@).to_set()) by {
        let ps = views(p.funs@[k].parameters@).to_set();
        assert(ok_in(p.funs@[k].body, ps, d));
        lemma_ok_in_vars(p.funs@[k].body, ps, d);
        assert(fun_same_shape(p.funs@[k], t.funs@[k]));
        lemma_same_shape_vars_ok(p.funs@[k].body, t.funs@[k].body, ps);
        lemma_sequentialized_scoped(t.funs@[k].body, s1.funs@[k].body, ps);
        assert(sfun_same_shape(s1.funs@[k], s2.funs@[k]));
        lemma_scoped_same_shape(s1.funs@[k].body, s2.funs@[k].body, ps);
        lemma_uniquified_scoped(s2.funs@[k].body, Seq::empty(), s3.funs@[k].body, ps);
        lemma_rename_set_empty(ps);
        lemma_scoped_same_shape(s3.funs@[k].body, s4.funs@[k].body, ps);
        assert(sfun_same_shape(s4.funs@[k], q.funs@[k]));
        lemma_scoped_same_shape(s4.funs@[k].body, q.funs@[k].body, ps);
    }
    assert forall|k: int| 0 <= k < q.funs@.len() implies stackless((#[trigger] q.funs@[k]).body) by {
        assert(fun_same_shape(p.funs@[k], t.funs@[k]));
        lemma_same_shape_vars_ok(p.funs@[k].body, t.funs@[k].body, Set::empty());
        lemma_sequentialized_stackless(t.funs@[k].body, s1.funs@[k].body);
        assert(sfun_same_shape(s1.funs@[k], s2.funs@[k]));
        lemma_stackless_same_shape(s1.funs@[k].body, s2.funs@[k].body);
        lemma_uniquified_stackless(s2.funs@[k].body, Seq::empty(), s3.funs@[k].body);
        lemma_stackless_same_shape(s3.funs@[k].body, s4.funs@[k].body);
        assert(sfun_same_shape(s4.funs@[k], q.funs@[k]));
        lemma_stackless_same_shape(s4.funs@[k].body, q.funs@[k].body);
    }
    let e0 = Set::<Seq<char>>::empty();
    lemma_ok_in_vars(p.main, e0, d);
    lemma_same_shape_vars_ok(p.main, t.main, e0);
    lemma_sequentialized_scoped(t.main, s1.main, e0);
    lemma_scoped_same_shape(s1.main, s2.main, e0);
    lemma_uniquified_scoped(s2.main, Seq::empty(), s3.main, e0);
    lemma_rename_set_empty(e0);
    lemma_scoped_same_shape(s3.main, s4.main, e0);
    lemma_scoped_same_shape(s4.main, q.main, e0);
    lemma_sequentialized_stackless(t.main, s1.main);
    lemma_stackless_same_shape(s1.main, s2.main);
    lemma_uniquified_stackless(s2.main, Seq::empty(), s3.main);
    lemma_stackless_same_shape(s3.main, s4.main);
    lemma_stackless_same_shape(s4.main, q.main);
}

} // verus!
