//! The variables that a sequential expression reads and binds, and bounds
//! on the live sets and conflict graphs computed from it.
use vstd::prelude::*;
use crate::syntax::{SeqExp, ImmExp, seq_anns, seq_same_shape, imm_same};
use crate::liveness::{imm_vars, imms_vars, entry, node_live, live_annotated};
use crate::regalloc::{let_vars, conflict_pairs, let_conflicts, equivs_after};
use crate::measure::{seq_size, lemma_anns_le_size};
use crate::vecset::VecSet;

verus! {

/// The variables that `e` reads.
pub open spec fn reads<A>(e: SeqExp<A>) -> Set<Seq<char>>
    decreases e,
{
    match e {
        SeqExp::Imm(i, _) => imm_vars(i),
        SeqExp::Prim1(_, i, _) => imm_vars(i),
        SeqExp::Prim2(_, i1, i2, _) => imm_vars(i1).union(imm_vars(i2)),
        SeqExp::Let { bound_exp, body, .. } => reads(*bound_exp).union(reads(*body)),
        SeqExp::If { cond, thn, els, .. } => imm_vars(cond).union(reads(*thn)).union(reads(*els)),
        SeqExp::Call(_, imms, _) => imms_vars(imms@),
    }
}

/// The variables in any of the live sets of `anns`.
pub open spec fn anns_union<A>(anns: Seq<(VecSet<String>, A)>) -> Set<Seq<char>> {
    Set::new(|x: Seq<char>| exists|i: int| 0 <= i < anns.len() && (#[trigger] anns[i]).0@.contains(x))
}

/// What may be live in `e` with `out` live after it.
pub open spec fn within<A>(e: SeqExp<A>, out: Set<Seq<char>>) -> Set<Seq<char>> {
    out.union(reads(e)).union(let_vars(e))
}

proof fn lemma_imms_vars_size(is: Seq<ImmExp>)
    ensures
        imms_vars(is).finite(),
        imms_vars(is).len() <= is.len(),
    decreases is.len(),
{
    if is.len() > 0 {
        lemma_imms_vars_size(is.drop_last());
        let i = is.last();
        assert(imm_vars(i).finite() && imm_vars(i).len() <= 1) by {
            if let ImmExp::Var(v) = i {
                assert(imm_vars(i) =~= Set::<Seq<char>>::empty().insert(v@));
            } else {
                assert(imm_vars(i) =~= Set::<Seq<char>>::empty());
            }
        }
        vstd::set_lib::lemma_len_union(imms_vars(is.drop_last()), imm_vars(i));
    }
}

proof fn lemma_imm_vars_size(i: ImmExp)
    ensures
        imm_vars(i).finite(),
        imm_vars(i).len() <= 1,
{
    if let ImmExp::Var(v) = i {
        assert(imm_vars(i) =~= Set::<Seq<char>>::empty().insert(v@));
    } else {
        assert(imm_vars(i) =~= Set::<Seq<char>>::empty());
    }
}

/// Each node reads and binds no more variables than its size.
pub proof fn lemma_vars_size<A>(e: SeqExp<A>)
    ensures
        reads(e).finite(),
        reads(e).len() <= seq_size(e),
        let_vars(e).finite(),
        let_vars(e).len() <= seq_size(e),
    decreases e,
{
    match e {
        SeqExp::Imm(i, _) => {
            lemma_imm_vars_size(i);
            assert(let_vars(e) =~= Set::<Seq<char>>::empty());
        },
        SeqExp::Prim1(_, i, _) => {
            lemma_imm_vars_size(i);
            assert(let_vars(e) =~= Set::<Seq<char>>::empty());
        },
        SeqExp::Prim2(_, i1, i2, _) => {
            lemma_imm_vars_size(i1);
            lemma_imm_vars_size(i2);
            vstd::set_lib::lemma_len_union(imm_vars(i1), imm_vars(i2));
            assert(let_vars(e) =~= Set::<Seq<char>>::empty());
        },
        SeqExp::Let { var, bound_exp, body, .. } => {
            lemma_vars_size(*bound_exp);
            lemma_vars_size(*body);
            vstd::set_lib::lemma_len_union(reads(*bound_exp), reads(*body));
            vstd::set_lib::lemma_len_union(let_vars(*bound_exp), let_vars(*body));
        },
        SeqExp::If { cond, thn, els, .. } => {
            lemma_imm_vars_size(cond);
            lemma_vars_size(*thn);
            lemma_vars_size(*els);
            vstd::set_lib::lemma_len_union(imm_vars(cond), reads(*thn));
            vstd::set_lib::lemma_len_union(imm_vars(cond).union(reads(*thn)), reads(*els));
            vstd::set_lib::lemma_len_union(let_vars(*thn), let_vars(*els));
        },
        SeqExp::Call(_, imms, _) => {
            lemma_imms_vars_size(imms@);
            assert(let_vars(e) =~= Set::<Seq<char>>::empty());
        },
    }
}

proof fn lemma_imms_same_vars(is1: Seq<ImmExp>, is2: Seq<ImmExp>)
    requires
        is1.len() == is2.len(),
        forall|k: int| 0 <= k < is1.len() ==> imm_same(#[trigger] is1[k], is2[k]),
    ensures
        imms_vars(is1) == imms_vars(is2),
    decreases is1.len(),
{
    if is1.len() > 0 {
        assert forall|k: int| 0 <= k < is1.drop_last().len() implies imm_same(#[trigger] is1.drop_last()[k], is2.drop_last()[k]) by {
            assert(is1.drop_last()[k] == is1[k]);
            assert(is2.drop_last()[k] == is2[k]);
        }
        lemma_imms_same_vars(is1.drop_last(), is2.drop_last());
        assert(imm_same(is1[is1.len() - 1], is2[is2.len() - 1]));
    }
}

/// Expressions of the same shape read and bind the same variables.
pub proof fn lemma_same_shape_vars<A, B>(e1: SeqExp<A>, e2: SeqExp<B>)
    requires
        seq_same_shape(e1, e2),
    ensures
        reads(e1) == reads(e2),
        let_vars(e1) == let_vars(e2),
    decreases e1,
{
    match (e1, e2) {
        (SeqExp::Let { bound_exp: b1, body: d1, .. }, SeqExp::Let { bound_exp: b2, body: d2, .. }) => {
            lemma_same_shape_vars(*b1, *b2);
            lemma_same_shape_vars(*d1, *d2);
        },
        (SeqExp::If { thn: t1, els: f1, .. }, SeqExp::If { thn: t2, els: f2, .. }) => {
            lemma_same_shape_vars(*t1, *t2);
            lemma_same_shape_vars(*f1, *f2);
        },
        (SeqExp::Call(_, as1, _), SeqExp::Call(_, as2, _)) => {
            lemma_imms_same_vars(as1@, as2@);
        },
        _ => {},
    }
}

/// Where an expression starts, and at its own node, only variables that
/// are live after it or that it reads or binds are live.
pub proof fn lemma_entry_within<A>(e: SeqExp<A>, params: Set<Seq<char>>, out: Set<Seq<char>>)
    ensures
        entry(e, params, out).subset_of(within(e, out)),
        node_live(e, params, out).subset_of(within(e, out)),
    decreases e,
{
    match e {
        SeqExp::Let { var, bound_exp, body, .. } => {
            lemma_entry_within(*body, params, out);
            let out2 = entry(*body, params, out).remove(var@);
            lemma_entry_within(*bound_exp, params, out2);
            assert(entry(e, params, out) == entry(*bound_exp, params, out2));
            assert forall|x: Seq<char>| entry(e, params, out).contains(x) implies within(e, out).contains(x) by {
                assert(entry(*bound_exp, params, out2).contains(x));
                assert(within(*bound_exp, out2).contains(x));
                if out2.contains(x) {
                    assert(within(*body, out).contains(x));
                }
            }
        },
        SeqExp::If { thn, els, .. } => {
            lemma_entry_within(*thn, params, out);
            lemma_entry_within(*els, params, out);
            assert(entry(e, params, out) == node_live(e, params, out));
        },
        _ => {
            assert(entry(e, params, out) == node_live(e, params, out));
        },
    }
}

/// Every live set that liveness computes for `e` lies within what `e`
/// reads and binds and what is live after it.
pub proof fn lemma_anns_within<A>(e: SeqExp<A>, params: Set<Seq<char>>, out: Set<Seq<char>>, r: SeqExp<VecSet<String>>)
    requires
        live_annotated(e, params, out, r),
    ensures
        forall|i: int| 0 <= i < seq_anns(r).len() ==> (#[trigger] seq_anns(r)[i])@.subset_of(within(e, out)),
    decreases e,
{
    lemma_entry_within(e, params, out);
    match (e, r) {
        (SeqExp::Let { var, bound_exp, body, .. }, SeqExp::Let { bound_exp: b2, body: d2, ann, .. }) => {
            let out2 = entry(*body, params, out).remove(var@);
            lemma_entry_within(*body, params, out);
            lemma_anns_within(*body, params, out, *d2);
            lemma_anns_within(*bound_exp, params, out2, *b2);
            let s1 = seq_anns(*b2);
            let s2 = seq_anns(*d2);
            assert forall|i: int| 0 <= i < seq_anns(r).len() implies (#[trigger] seq_anns(r)[i])@.subset_of(within(e, out)) by {
                if i < s1.len() {
                    assert(seq_anns(r)[i] == s1[i]);
                } else if i < s1.len() + s2.len() {
                    assert(seq_anns(r)[i] == s2[i - s1.len()]);
                } else {
                    assert(seq_anns(r)[i] == ann);
                }
            }
        },
        (SeqExp::If { thn, els, .. }, SeqExp::If { thn: t2, els: e2, ann, .. }) => {
            lemma_anns_within(*thn, params, out, *t2);
            lemma_anns_within(*els, params, out, *e2);
            let s1 = seq_anns(*t2);
            let s2 = seq_anns(*e2);
            assert forall|i: int| 0 <= i < seq_anns(r).len() implies (#[trigger] seq_anns(r)[i])@.subset_of(within(e, out)) by {
                if i < s1.len() {
                    assert(seq_anns(r)[i] == s1[i]);
                } else if i < s1.len() + s2.len() {
                    assert(seq_anns(r)[i] == s2[i - s1.len()]);
                } else {
                    assert(seq_anns(r)[i] == ann);
                }
            }
        },
        _ => {
            assert(seq_anns(r) =~= seq![r.spec_ann()]);
        },
    }
}

/// Every variable of a conflict is in one of the live sets of `e`.
pub proof fn lemma_conflict_endpoints<A>(e: SeqExp<(VecSet<String>, A)>, equivs: Seq<Set<Seq<char>>>, a: Seq<char>, b: Seq<char>)
    requires
        conflict_pairs(e, equivs).contains((a, b)),
    ensures
        anns_union(seq_anns(e)).contains(a),
        anns_union(seq_anns(e)).contains(b),
    decreases e,
{
    match e {
        SeqExp::Let { var, bound_exp, body, ann } => {
            let eq2 = equivs_after(equivs, var@, *bound_exp);
            let s1 = seq_anns(*bound_exp);
            let s2 = seq_anns(*body);
            let s = seq_anns(e);
            if let_conflicts(ann.0@, eq2).contains((a, b)) {
                assert(s[s.len() - 1] == ann);
            } else if conflict_pairs(*bound_exp, eq2).contains((a, b)) {
                lemma_conflict_endpoints(*bound_exp, eq2, a, b);
                let i = choose|i: int| 0 <= i < s1.len() && (#[trigger] s1[i]).0@.contains(a);
                assert(s[i] == s1[i]);
                let j = choose|j: int| 0 <= j < s1.len() && (#[trigger] s1[j]).0@.contains(b);
                assert(s[j] == s1[j]);
            } else {
                lemma_conflict_endpoints(*body, eq2, a, b);
                let i = choose|i: int| 0 <= i < s2.len() && (#[trigger] s2[i]).0@.contains(a);
                assert(s[s1.len() + i] == s2[i]);
                let j = choose|j: int| 0 <= j < s2.len() && (#[trigger] s2[j]).0@.contains(b);
                assert(s[s1.len() + j] == s2[j]);
            }
        },
        SeqExp::If { thn, els, .. } => {
            let s1 = seq_anns(*thn);
            let s2 = seq_anns(*els);
            let s = seq_anns(e);
            if conflict_pairs(*thn, equivs).contains((a, b)) {
                lemma_conflict_endpoints(*thn, equivs, a, b);
                let i = choose|i: int| 0 <= i < s1.len() && (#[trigger] s1[i]).0@.contains(a);
                assert(s[i] == s1[i]);
                let j = choose|j: int| 0 <= j < s1.len() && (#[trigger] s1[j]).0@.contains(b);
                assert(s[j] == s1[j]);
            } else {
                lemma_conflict_endpoints(*els, equivs, a, b);
                let i = choose|i: int| 0 <= i < s2.len() && (#[trigger] s2[i]).0@.contains(a);
                assert(s[s1.len() + i] == s2[i]);
                let j = choose|j: int| 0 <= j < s2.len() && (#[trigger] s2[j]).0@.contains(b);
                assert(s[s1.len() + j] == s2[j]);
            }
        },
        _ => {},
    }
}

} // verus!
