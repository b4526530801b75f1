//! Sizes of expressions and programs, and how the passes of the compiler
//! change them: sequentialization at most quadruples a program, the other
//! passes keep its size.
use vstd::prelude::*;
use crate::syntax::{Exp, SeqExp, ImmExp, FunDecl, Prog, exp_anns, binds_anns, args_anns, seq_anns, seq_same_shape,
    uniquified, funs_anns, prog_anns, sfuns_anns, sprog_anns, bodies_anns};
use crate::sequentialize::{sequentialized, let_chain, chain_body, call_chain, is_imm};

verus! {

/// The number of nodes of `e`, immediates inside nodes counted too.
pub open spec fn seq_size<A>(e: SeqExp<A>) -> nat
    decreases e,
{
    match e {
        SeqExp::Imm(..) => 1,
        SeqExp::Prim1(..) => 2,
        SeqExp::Prim2(..) => 3,
        SeqExp::Let { bound_exp, body, .. } => 1 + seq_size(*bound_exp) + seq_size(*body),
        SeqExp::If { thn, els, .. } => 2 + seq_size(*thn) + seq_size(*els),
        SeqExp::Call(_, imms, _) => 1 + imms@.len(),
    }
}

/// The sizes of the function bodies, summed.
pub open spec fn bodies_size<A, O>(fs: Seq<FunDecl<SeqExp<A>, O>>) -> nat
    decreases fs.len(),
{
    if fs.len() == 0 { 0 } else { bodies_size(fs.drop_last()) + seq_size(fs.last().body) }
}

/// The size of a sequential program: its bodies and `main`.
pub open spec fn sprog_size<A, O>(p: Prog<SeqExp<A>, O>) -> nat {
    bodies_size(p.funs@) + seq_size(p.main)
}

pub proof fn lemma_anns_le_size<A>(e: SeqExp<A>)
    ensures
        seq_anns(e).len() <= seq_size(e),
        seq_size(e) >= 1,
    decreases e,
{
    match e {
        SeqExp::Let { bound_exp, body, .. } => {
            lemma_anns_le_size(*bound_exp);
            lemma_anns_le_size(*body);
        },
        SeqExp::If { thn, els, .. } => {
            lemma_anns_le_size(*thn);
            lemma_anns_le_size(*els);
        },
        _ => {},
    }
}

/// Expressions of the same shape have the same size.
pub proof fn lemma_same_shape_size<A, B>(e1: SeqExp<A>, e2: SeqExp<B>)
    requires
        seq_same_shape(e1, e2),
    ensures
        seq_size(e1) == seq_size(e2),
        seq_anns(e1).len() == seq_anns(e2).len(),
    decreases e1,
{
    match (e1, e2) {
        (SeqExp::Let { bound_exp: b1, body: d1, .. }, SeqExp::Let { bound_exp: b2, body: d2, .. }) => {
            lemma_same_shape_size(*b1, *b2);
            lemma_same_shape_size(*d1, *d2);
        },
        (SeqExp::If { thn: t1, els: f1, .. }, SeqExp::If { thn: t2, els: f2, .. }) => {
            lemma_same_shape_size(*t1, *t2);
            lemma_same_shape_size(*f1, *f2);
        },
        _ => {},
    }
}

/// Renaming keeps the size.
pub proof fn lemma_uniquified_size(e: SeqExp<u32>, env: Seq<(Seq<char>, Seq<char>)>, r: SeqExp<u32>)
    requires
        uniquified(e, env, r),
    ensures
        seq_size(e) == seq_size(r),
        seq_anns(e).len() == seq_anns(r).len(),
    decreases e,
{
    match (e, r) {
        (SeqExp::Let { var, bound_exp, body, ann }, SeqExp::Let { bound_exp: b2, body: d2, .. }) => {
            lemma_uniquified_size(*bound_exp, env, *b2);
            lemma_uniquified_size(*body, seq![(var@, crate::syntax::fresh_name(var@, ann))] + env, *d2);
        },
        (SeqExp::If { thn, els, .. }, SeqExp::If { thn: t2, els: e2, .. }) => {
            lemma_uniquified_size(*thn, env, *t2);
            lemma_uniquified_size(*els, env, *e2);
        },
        _ => {},
    }
}

/* Sequentialization */

/// The annotations of the bound expressions from `k` on.
pub open spec fn binds_count<A>(bs: Seq<(String, Exp<A>)>, k: int) -> nat
    decreases bs.len() - k,
{
    if k < 0 || k >= bs.len() { 0 } else { exp_anns(bs[k].1).len() + binds_count(bs, k + 1) }
}

/// The annotations of the arguments from `k` on.
pub open spec fn args_count<A>(es: Seq<Exp<A>>, k: int) -> nat
    decreases es.len() - k,
{
    if k < 0 || k >= es.len() { 0 } else { exp_anns(es[k]).len() + args_count(es, k + 1) }
}

proof fn lemma_binds_count_last<A>(bs: Seq<(String, Exp<A>)>, k: int)
    requires
        0 <= k < bs.len(),
    ensures
        binds_count(bs, k) == binds_count(bs.drop_last(), k) + exp_anns(bs.last().1).len(),
    decreases bs.len() - k,
{
    if k < bs.len() - 1 {
        lemma_binds_count_last(bs, k + 1);
        assert(bs.drop_last()[k] == bs[k]);
    } else {
        assert(bs.last() == bs[k]);
        assert(binds_count(bs, k + 1) == 0);
        assert(binds_count(bs.drop_last(), k) == 0);
    }
}

proof fn lemma_binds_count<A>(bs: Seq<(String, Exp<A>)>)
    ensures
        binds_anns(bs).len() == binds_count(bs, 0),
    decreases bs.len(),
{
    if bs.len() > 0 {
        lemma_binds_count(bs.drop_last());
        lemma_binds_count_last(bs, 0);
    }
}

proof fn lemma_args_count_last<A>(es: Seq<Exp<A>>, k: int)
    requires
        0 <= k < es.len(),
    ensures
        args_count(es, k) == args_count(es.drop_last(), k) + exp_anns(es.last()).len(),
    decreases es.len() - k,
{
    if k < es.len() - 1 {
        lemma_args_count_last(es, k + 1);
        assert(es.drop_last()[k] == es[k]);
    } else {
        assert(es.last() == es[k]);
        assert(args_count(es, k + 1) == 0);
        assert(args_count(es.drop_last(), k) == 0);
    }
}

proof fn lemma_args_count<A>(es: Seq<Exp<A>>)
    ensures
        args_anns(es).len() == args_count(es, 0),
    decreases es.len(),
{
    if es.len() > 0 {
        lemma_args_count(es.drop_last());
        lemma_args_count_last(es, 0);
    }
}

proof fn lemma_imm_one(e: Exp<u32>)
    requires
        is_imm(e),
    ensures
        exp_anns(e).len() == 1,
{
}

/// Sequentialization at most quadruples an expression.
pub proof fn lemma_sequentialized_size(e: Exp<u32>, r: SeqExp<()>)
    requires
        sequentialized(e, r),
    ensures
        seq_size(r) + 3 <= 4 * exp_anns(e).len(),
    decreases e, 0int,
{
    reveal_with_fuel(seq_size, 4);
    match e {
        Exp::Prim1(_, e1, _) => {
            if is_imm(*e1) {
                lemma_imm_one(*e1);
            } else {
                lemma_sequentialized_size(*e1, *r->bound_exp);
            }
        },
        Exp::Prim2(_, e1, e2, _) => {
            if is_imm(*e1) && is_imm(*e2) {
                lemma_imm_one(*e1);
                lemma_imm_one(*e2);
            } else if is_imm(*e1) {
                lemma_imm_one(*e1);
                lemma_sequentialized_size(*e2, *r->bound_exp);
            } else if is_imm(*e2) {
                lemma_imm_one(*e2);
                lemma_sequentialized_size(*e1, *r->bound_exp);
            } else {
                lemma_sequentialized_size(*e1, *r->bound_exp);
                lemma_sequentialized_size(*e2, *r->Let_body->bound_exp);
            }
        },
        Exp::Let { bindings, body, .. } => {
            lemma_let_chain_size(bindings@, 0, r);
            lemma_sequentialized_size(*body, chain_body(bindings@, 0, r));
            lemma_binds_count(bindings@);
        },
        Exp::If { cond, thn, els, .. } => {
            lemma_sequentialized_size(*cond, *r->bound_exp);
            lemma_sequentialized_size(*thn, *r->Let_body->thn);
            lemma_sequentialized_size(*els, *r->Let_body->els);
        },
        Exp::Call(name, args, ann) => {
            lemma_call_chain_size(args@, name@, ann, 0, r);
            lemma_args_count(args@);
        },
        _ => {},
    }
}

proof fn lemma_let_chain_size(bs: Seq<(String, Exp<u32>)>, k: int, r: SeqExp<()>)
    requires
        0 <= k < bs.len(),
        let_chain(bs, k, r),
    ensures
        seq_size(r) + 2 * (bs.len() - k) <= 4 * binds_count(bs, k) + seq_size(chain_body(bs, k, r)),
    decreases bs, bs.len() - k,
{
    lemma_sequentialized_size(bs[k].1, *r->bound_exp);
    if k < bs.len() - 1 {
        lemma_let_chain_size(bs, k + 1, *r->Let_body);
    }
}

proof fn lemma_call_chain_size(args: Seq<Exp<u32>>, name: Seq<char>, tag: u32, k: int, r: SeqExp<()>)
    requires
        0 <= k <= args.len(),
        call_chain(args, name, tag, k, r),
    ensures
        seq_size(r) + 2 * (args.len() - k) <= 4 * args_count(args, k) + 1 + args.len(),
    decreases args, args.len() - k,
{
    if k < args.len() {
        if is_imm(args[k]) {
            lemma_imm_one(args[k]);
            lemma_call_chain_size(args, name, tag, k + 1, r);
        } else {
            lemma_sequentialized_size(args[k], *r->bound_exp);
            lemma_call_chain_size(args, name, tag, k + 1, *r->Let_body);
        }
    }
}

/* Programs */

/// Bodies of the same sizes, one for one, add up to the same size.
pub proof fn lemma_bodies_size_eq<A, O, B, P>(fs1: Seq<FunDecl<SeqExp<A>, O>>, fs2: Seq<FunDecl<SeqExp<B>, P>>)
    requires
        fs1.len() == fs2.len(),
        forall|k: int| 0 <= k < fs1.len() ==> seq_size(#[trigger] fs1[k].body) == seq_size(fs2[k].body),
    ensures
        bodies_size(fs1) == bodies_size(fs2),
    decreases fs1.len(),
{
    if fs1.len() > 0 {
        assert forall|k: int| 0 <= k < fs1.drop_last().len() implies
            seq_size(#[trigger] fs1.drop_last()[k].body) == seq_size(fs2.drop_last()[k].body) by {
            assert(fs1.drop_last()[k] == fs1[k]);
            assert(fs2.drop_last()[k] == fs2[k]);
        }
        lemma_bodies_size_eq(fs1.drop_last(), fs2.drop_last());
        assert(fs1.last() == fs1[fs1.len() - 1]);
    }
}

pub proof fn lemma_bodies_anns_le<A, O>(fs: Seq<FunDecl<SeqExp<A>, O>>)
    ensures
        bodies_anns(fs).len() <= bodies_size(fs),
    decreases fs.len(),
{
    if fs.len() > 0 {
        lemma_bodies_anns_le(fs.drop_last());
        lemma_anns_le_size(fs.last().body);
    }
}

/// Sequentializing every body at most quadruples the functions.
pub proof fn lemma_seq_funs_size(fs: Seq<FunDecl<Exp<u32>, u32>>, rs: Seq<FunDecl<SeqExp<()>, ()>>)
    requires
        fs.len() == rs.len(),
        forall|k: int| 0 <= k < fs.len() ==> sequentialized(#[trigger] fs[k].body, rs[k].body),
    ensures
        sfuns_anns(rs).len() <= 4 * funs_anns(fs).len(),
        bodies_size(rs) <= 4 * funs_anns(fs).len(),
    decreases fs.len(),
{
    if fs.len() > 0 {
        let n = fs.len() - 1;
        assert forall|k: int| 0 <= k < fs.drop_last().len() implies
            sequentialized(#[trigger] fs.drop_last()[k].body, rs.drop_last()[k].body) by {
            assert(fs.drop_last()[k] == fs[k]);
            assert(rs.drop_last()[k] == rs[k]);
        }
        lemma_seq_funs_size(fs.drop_last(), rs.drop_last());
        assert(fs.last() == fs[n]);
        assert(rs.last() == rs[n]);
        lemma_sequentialized_size(fs[n].body, rs[n].body);
        lemma_anns_le_size(rs[n].body);
    }
}

/// Sequentializing a program at most quadruples it.
pub proof fn lemma_seq_prog_size(p: Prog<Exp<u32>, u32>, r: Prog<SeqExp<()>, ()>)
    requires
        r.funs@.len() == p.funs@.len(),
        forall|k: int| 0 <= k < p.funs@.len() ==> sequentialized(#[trigger] p.funs@[k].body, r.funs@[k].body),
        sequentialized(p.main, r.main),
    ensures
        sprog_anns(r).len() <= 4 * prog_anns(p).len(),
        sprog_size(r) <= 4 * prog_anns(p).len(),
{
    assert forall|k: int| 0 <= k < p.funs@.len() implies sequentialized(#[trigger] p.funs@[k].body, r.funs@[k].body) by {}
    lemma_seq_funs_size(p.funs@, r.funs@);
    lemma_sequentialized_size(p.main, r.main);
    lemma_anns_le_size(r.main);
}

/// A body is no larger than all the bodies together.
pub proof fn lemma_body_le_bodies<A, O>(fs: Seq<FunDecl<SeqExp<A>, O>>, k: int)
    requires
        0 <= k < fs.len(),
    ensures
        seq_size(fs[k].body) <= bodies_size(fs),
    decreases fs.len(),
{
    if k < fs.len() - 1 {
        lemma_body_le_bodies(fs.drop_last(), k);
        assert(fs.drop_last()[k] == fs[k]);
    } else {
        assert(fs.last() == fs[k]);
    }
}

} // verus!
