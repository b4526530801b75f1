//! Liveness analysis of sequential expressions: each node is annotated
//! with the variables live where it starts (parameters left out).
use vstd::prelude::*;
use crate::syntax::{ImmExp, SeqExp, Prog, FunDecl, seq_same_shape, copy_strings};
use crate::vecset::{VecSet, views};
use crate::view_eq::ViewEq;

verus! {

pub open spec fn imm_vars(i: ImmExp) -> Set<Seq<char>> {
    match i {
        ImmExp::Var(v) => set![v@],
        _ => Set::empty(),
    }
}

pub open spec fn imms_vars(is: Seq<ImmExp>) -> Set<Seq<char>>
    decreases is.len(),
{
    if is.len() == 0 { Set::empty() } else { imms_vars(is.drop_last()).union(imm_vars(is.last())) }
}

/// The live set where `e` starts: that of its first sub-expression to run
/// for a `let`, its own annotation otherwise.
pub open spec fn entry<A>(e: SeqExp<A>, params: Set<Seq<char>>, out: Set<Seq<char>>) -> Set<Seq<char>>
    decreases e, 1int,
{
    match e {
        SeqExp::Let { var, bound_exp, body, .. } =>
            entry(*bound_exp, params, entry(*body, params, out).remove(var@)),
        _ => node_live(e, params, out),
    }
}

/// The annotation that the node `e` gets when `out` is live after it.
pub open spec fn node_live<A>(e: SeqExp<A>, params: Set<Seq<char>>, out: Set<Seq<char>>) -> Set<Seq<char>>
    decreases e, 0int,
{
    match e {
        SeqExp::Imm(i, _) => out.union(imm_vars(i)).difference(params),
        SeqExp::Prim1(_, i, _) => out.union(imm_vars(i)).difference(params),
        SeqExp::Prim2(_, i1, i2, _) => out.union(imm_vars(i1)).union(imm_vars(i2)).difference(params),
        SeqExp::Let { var, body, .. } => entry(*body, params, out).insert(var@),
        SeqExp::If { cond, thn, els, .. } =>
            entry(*thn, params, out).union(entry(*els, params, out)).union(imm_vars(cond)).difference(params),
        SeqExp::Call(_, imms, _) => out.union(imms_vars(imms@)).difference(params),
    }
}

/// `r` is `e` annotated with live sets, `out` live after `e`.
pub open spec fn live_annotated<A>(e: SeqExp<A>, params: Set<Seq<char>>, out: Set<Seq<char>>, r: SeqExp<VecSet<String>>) -> bool
    decreases e,
{
    &&& seq_same_shape(e, r)
    &&& r.spec_ann()@ == node_live(e, params, out)
    &&& match (e, r) {
        (SeqExp::Let { var, bound_exp, body, .. }, SeqExp::Let { bound_exp: b2, body: d2, .. }) => {
            &&& live_annotated(*body, params, out, *d2)
            &&& live_annotated(*bound_exp, params, entry(*body, params, out).remove(var@), *b2)
        },
        (SeqExp::If { thn, els, .. }, SeqExp::If { thn: t2, els: e2, .. }) => {
            &&& live_annotated(*thn, params, out, *t2)
            &&& live_annotated(*els, params, out, *e2)
        },
        _ => true,
    }
}

/// The annotation of the first sub-expression to run.
pub open spec fn child_ann(r: SeqExp<VecSet<String>>) -> Set<Seq<char>>
    decreases r,
{
    match r {
        SeqExp::Let { bound_exp, .. } => child_ann(*bound_exp),
        _ => r.spec_ann()@,
    }
}

proof fn lemma_child_ann<A>(e: SeqExp<A>, params: Set<Seq<char>>, out: Set<Seq<char>>, r: SeqExp<VecSet<String>>)
    requires
        live_annotated(e, params, out, r),
    ensures
        child_ann(r) == entry(e, params, out),
    decreases e,
{
    match (e, r) {
        (SeqExp::Let { var, bound_exp, body, .. }, SeqExp::Let { bound_exp: b2, .. }) => {
            lemma_child_ann(*bound_exp, params, entry(*body, params, out).remove(var@), *b2);
        },
        _ => {},
    }
}

/// A copy of the live set where `r` starts.
fn get_child_ann(r: &SeqExp<VecSet<String>>) -> (s: VecSet<String>)
    ensures
        s@ == child_ann(*r),
    decreases r,
{
    match r {
        SeqExp::Let { bound_exp, .. } => get_child_ann(bound_exp),
        _ => r.ann_ref().copy_view(),
    }
}

/// The variables of an immediate added to `set`.
fn add_imm_var(set: &mut VecSet<String>, i: &ImmExp)
    ensures
        final(set)@ == old(set)@.union(imm_vars(*i)),
{
    match i {
        ImmExp::Var(v) => {
            let _ = set.insert(v.clone());
            proof { assert(old(set)@.insert(v@) =~= old(set)@.union(set![v@])); }
        },
        _ => {
            proof { assert(old(set)@.union(Set::empty()) =~= old(set)@); }
        },
    }
}

/// The variables that the node `e` itself reads (not those of the
/// expressions inside it).
pub open spec fn own_reads<A>(e: SeqExp<A>) -> Set<Seq<char>> {
    match e {
        SeqExp::Imm(i, _) => imm_vars(i),
        SeqExp::Prim1(_, i, _) => imm_vars(i),
        SeqExp::Prim2(_, i1, i2, _) => imm_vars(i1).union(imm_vars(i2)),
        SeqExp::If { cond, .. } => imm_vars(cond),
        SeqExp::Call(_, imms, _) => imms_vars(imms@),
        SeqExp::Let { .. } => Set::empty(),
    }
}

/// The live sets of `r` are sound for `e` with `out` live after it: at
/// every node, what the node reads is live there (parameters aside); at
/// an operation, what is live after it is live before it; what is live
/// where a `let`'s body or an `if`'s branch starts is live at the node;
/// what is live where a `let`'s body starts, but its name, is live after
/// the bound expression.
pub open spec fn live_sound<A>(e: SeqExp<A>, params: Set<Seq<char>>, out: Set<Seq<char>>, r: SeqExp<VecSet<String>>) -> bool
    decreases e,
{
    &&& own_reads(e).difference(params).subset_of(r.spec_ann()@)
    &&& (e is Imm || e is Prim1 || e is Prim2 || e is Call) ==> out.difference(params).subset_of(r.spec_ann()@)
    &&& match (e, r) {
        (SeqExp::Let { var, bound_exp, body, .. }, SeqExp::Let { bound_exp: b2, body: d2, .. }) => {
            &&& child_ann(*d2).subset_of(r.spec_ann()@)
            &&& live_sound(*body, params, out, *d2)
            &&& live_sound(*bound_exp, params, child_ann(*d2).remove(var@), *b2)
        },
        (SeqExp::If { thn, els, .. }, SeqExp::If { thn: t2, els: e2, .. }) => {
            &&& child_ann(*t2).subset_of(r.spec_ann()@)
            &&& child_ann(*e2).subset_of(r.spec_ann()@)
            &&& live_sound(*thn, params, out, *t2)
            &&& live_sound(*els, params, out, *e2)
        },
        _ => true,
    }
}

/// Liveness is sound: a variable that a node reads is live at it, what
/// is live after an operation is live before it, and liveness flows from
/// where sub-expressions start to the nodes around them.
pub proof fn lemma_liveness_sound<A>(e: SeqExp<A>, params: Set<Seq<char>>, out: Set<Seq<char>>, r: SeqExp<VecSet<String>>)
    requires
        live_annotated(e, params, out, r),
    ensures
        live_sound(e, params, out, r),
    decreases e,
{
    match (e, r) {
        (SeqExp::Let { var, bound_exp, body, .. }, SeqExp::Let { bound_exp: b2, body: d2, .. }) => {
            lemma_child_ann(*body, params, out, *d2);
            lemma_liveness_sound(*body, params, out, *d2);
            lemma_liveness_sound(*bound_exp, params, child_ann(*d2).remove(var@), *b2);
        },
        (SeqExp::If { thn, els, .. }, SeqExp::If { thn: t2, els: e2, .. }) => {
            lemma_child_ann(*thn, params, out, *t2);
            lemma_child_ann(*els, params, out, *e2);
            lemma_entry_no_params(*thn, params, out);
            lemma_entry_no_params(*els, params, out);
            lemma_liveness_sound(*thn, params, out, *t2);
            lemma_liveness_sound(*els, params, out, *e2);
        },
        _ => {},
    }
}

proof fn lemma_entry_no_params<A>(e: SeqExp<A>, params: Set<Seq<char>>, out: Set<Seq<char>>)
    ensures
        entry(e, params, out).disjoint(params),
    decreases e,
{
    match e {
        SeqExp::Let { var, bound_exp, body, .. } => {
            lemma_entry_no_params(*bound_exp, params, entry(*body, params, out).remove(var@));
            assert(entry(e, params, out) == entry(*bound_exp, params, entry(*body, params, out).remove(var@)));
        },
        _ => {
            assert(entry(e, params, out) == node_live(e, params, out));
            assert forall|x: Seq<char>| entry(e, params, out).contains(x) implies !params.contains(x) by {}
        },
    }
}

/// Annotates `e` with the variables live where each node starts, given
/// those live after `e`; parameters are left out of the sets.
pub fn liveness<Ann>(e: &SeqExp<Ann>, params: &VecSet<String>, live_out: VecSet<String>) -> (r: SeqExp<VecSet<String>>)
    ensures
        live_annotated(*e, params@, live_out@, r),
    decreases e,
{
    match e {
        SeqExp::Imm(imm, _) => {
            let mut set = live_out;
            add_imm_var(&mut set, imm);
            set.difference_with(params);
            SeqExp::Imm(crate::syntax::copy_imm(imm), set)
        },
        SeqExp::Prim1(prim1, e1, _) => {
            let mut set = live_out;
            add_imm_var(&mut set, e1);
            set.difference_with(params);
            SeqExp::Prim1(*prim1, crate::syntax::copy_imm(e1), set)
        },
        SeqExp::Prim2(prim2, e1, e2, _) => {
            let mut set = live_out;
            add_imm_var(&mut set, e1);
            add_imm_var(&mut set, e2);
            set.difference_with(params);
            SeqExp::Prim2(*prim2, crate::syntax::copy_imm(e1), crate::syntax::copy_imm(e2), set)
        },
        SeqExp::Let { var, bound_exp, body, .. } => {
            let ghost out = live_out@;
            let s_body = liveness(body, params, live_out);
            let ann_body = get_child_ann(&s_body);
            proof { lemma_child_ann(**body, params@, out, s_body); }
            let mut ann_let = ann_body.copy_view();
            let _ = ann_let.insert(var.clone());
            let mut ann_bind_in = ann_let.copy_view();
            let _ = ann_bind_in.remove(var);
            proof { assert(ann_bind_in@ =~= ann_body@.remove(var@)); }
            let s_bind = liveness(bound_exp, params, ann_bind_in);
            SeqExp::Let {
                var: var.clone(),
                bound_exp: Box::new(s_bind),
                body: Box::new(s_body),
                ann: ann_let,
            }
        },
        SeqExp::If { cond, thn, els, .. } => {
            let ghost out = live_out@;
            let s_thn = liveness(thn, params, live_out.copy_view());
            let s_els = liveness(els, params, live_out);
            let ann_thn = get_child_ann(&s_thn);
            let ann_els = get_child_ann(&s_els);
            proof {
                lemma_child_ann(**thn, params@, out, s_thn);
                lemma_child_ann(**els, params@, out, s_els);
            }
            let mut ann_if = ann_thn;
            ann_if.union_with(&ann_els);
            add_imm_var(&mut ann_if, cond);
            ann_if.difference_with(params);
            SeqExp::If {
                cond: crate::syntax::copy_imm(cond),
                thn: Box::new(s_thn),
                els: Box::new(s_els),
                ann: ann_if,
            }
        },
        SeqExp::Call(name, imms, _) => {
            let mut set = live_out;
            let ghost out = set@;
            let mut k: usize = 0;
            while k < imms.len()
                invariant
                    k <= imms@.len(),
                    set@ == out.union(imms_vars(imms@.subrange(0, k as int))),
                decreases imms@.len() - k,
            {
                add_imm_var(&mut set, &imms[k]);
                proof {
                    assert(imms@.subrange(0, k + 1).drop_last() =~= imms@.subrange(0, k as int));
                    assert(set@ =~= out.union(imms_vars(imms@.subrange(0, k + 1))));
                }
                k = k + 1;
            }
            proof {
                assert(imms@.subrange(0, imms@.len() as int) =~= imms@);
                assert(out.union(imms_vars(Seq::<ImmExp>::empty())) =~= out);
            }
            set.difference_with(params);
            SeqExp::Call(name.clone(), crate::syntax::copy_imms(imms), set)
        },
    }
}

/// Liveness of every function body (its parameters left out) and of
/// `main`, with nothing live at their ends.
pub fn liveness_p<Ann1, Ann2>(p: &Prog<SeqExp<Ann1>, Ann2>) -> (r: Prog<SeqExp<VecSet<String>>, Ann2>)
    where
        Ann2: Copy,
    ensures
        r.funs@.len() == p.funs@.len(),
        forall|k: int| 0 <= k < p.funs@.len() ==> {
            &&& (#[trigger] r.funs@[k]).name@ == p.funs@[k].name@
            &&& r.funs@[k].parameters@ == p.funs@[k].parameters@
            &&& r.funs@[k].ann == p.funs@[k].ann
            &&& live_annotated(p.funs@[k].body, views(p.funs@[k].parameters@).to_set(), Set::empty(), r.funs@[k].body)
        },
        live_annotated(p.main, Set::empty(), Set::empty(), r.main),
        r.ann == p.ann,
{
    let main = liveness(&p.main, &VecSet::new(), VecSet::new());
    let mut funs: Vec<FunDecl<SeqExp<VecSet<String>>, Ann2>> = Vec::new();
    let mut k: usize = 0;
    while k < p.funs.len()
        invariant
            k <= p.funs@.len(),
            funs@.len() == k,
            forall|j: int| 0 <= j < k ==> {
                &&& (#[trigger] funs@[j]).name@ == p.funs@[j].name@
                &&& funs@[j].parameters@ == p.funs@[j].parameters@
                &&& funs@[j].ann == p.funs@[j].ann
                &&& live_annotated(p.funs@[j].body, views(p.funs@[j].parameters@).to_set(), Set::empty(), funs@[j].body)
            },
        decreases p.funs@.len() - k,
    {
        let d = &p.funs[k];
        let params = VecSet::from_vec(copy_strings(&d.parameters));
        funs.push(FunDecl {
            name: d.name.clone(),
            parameters: copy_strings(&d.parameters),
            body: liveness(&d.body, &params, VecSet::new()),
            ann: d.ann,
        });
        k = k + 1;
    }
    Prog { main, funs, ann: p.ann }
}

} // verus!
