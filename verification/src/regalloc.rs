//! Register allocation: the interference (conflict) graph of the
//! variables of a sequential expression, and its colouring with registers.
use vstd::prelude::*;
use itertools::Itertools;
use rand::seq::IteratorRandom;
use crate::assembly::Reg;
use crate::compile::VarLocation;
use crate::vecmap::VecMap;
use crate::graph::{symmetric, without_vertex};
use crate::syntax::{ImmExp, SeqExp};
use crate::graph::{Graph, with_vertex, with_edge};
use crate::vecset::{VecSet, views};
use crate::view_eq::ViewEq;

verus! {

/// itertools' `combinations(2)` on `0..n`: every pair of indices `i < j`
/// below `n`, as the crate documents (each 2-element combination, its
/// elements in the order of the source).
#[verifier::external_body]
fn index_pairs(n: usize) -> (r: Vec<(usize, usize)>)
    ensures
        forall|k: int| 0 <= k < r@.len() ==> (#[trigger] r@[k]).0 < r@[k].1 < n,
        forall|i: usize, j: usize| i < j < n ==> #[trigger] pair_listed(r@, i, j),
{
    (0..n).combinations(2).map(|c| (c[0], c[1])).collect()
}

/// The pair `(i, j)` is among `r`.
pub open spec fn pair_listed(r: Seq<(usize, usize)>, i: usize, j: usize) -> bool {
    exists|k: int| 0 <= k < r.len() && r[k] == (i, j)
}

/// Some class of `equivs` holds both `a` and `b`.
pub open spec fn same_class(equivs: Seq<Set<Seq<char>>>, a: Seq<char>, b: Seq<char>) -> bool {
    exists|i: int| 0 <= i < equivs.len() && #[trigger] equivs[i].contains(a) && equivs[i].contains(b)
}

/// The classes after `let var = var2`: `var` joins the classes of `var2`,
/// or the two form a new class.
pub open spec fn add_equiv(equivs: Seq<Set<Seq<char>>>, var: Seq<char>, var2: Seq<char>) -> Seq<Set<Seq<char>>> {
    if exists|i: int| 0 <= i < equivs.len() && #[trigger] equivs[i].contains(var2) {
        equivs.map_values(|c: Set<Seq<char>>| if c.contains(var2) { c.insert(var) } else { c })
    } else {
        equivs.push(set![var, var2])
    }
}

/// The pairs of distinct live variables that are not known to hold the
/// same value.
pub open spec fn let_conflicts(live: Set<Seq<char>>, equivs: Seq<Set<Seq<char>>>) -> Set<(Seq<char>, Seq<char>)> {
    Set::new(|p: (Seq<char>, Seq<char>)| live.contains(p.0) && live.contains(p.1) && p.0 != p.1
        && !same_class(equivs, p.0, p.1))
}

/// The classes in force inside a `let` of `var` bound to `bound`.
pub open spec fn equivs_after<A>(equivs: Seq<Set<Seq<char>>>, var: Seq<char>, bound: SeqExp<A>) -> Seq<Set<Seq<char>>> {
    match bound {
        SeqExp::Imm(ImmExp::Var(v2), _) => add_equiv(equivs, var, v2@),
        _ => equivs,
    }
}

/// The variables bound by `let`s in `e`.
pub open spec fn let_vars<A>(e: SeqExp<A>) -> Set<Seq<char>>
    decreases e,
{
    match e {
        SeqExp::Let { var, bound_exp, body, .. } => let_vars(*bound_exp).union(let_vars(*body)).insert(var@),
        SeqExp::If { thn, els, .. } => let_vars(*thn).union(let_vars(*els)),
        _ => Set::empty(),
    }
}

/// The conflicts of `e`: at each `let`, between the variables live there.
pub open spec fn conflict_pairs<A>(e: SeqExp<(VecSet<String>, A)>, equivs: Seq<Set<Seq<char>>>) -> Set<(Seq<char>, Seq<char>)>
    decreases e,
{
    match e {
        SeqExp::Let { var, bound_exp, body, ann } => {
            let eq2 = equivs_after(equivs, var@, *bound_exp);
            let_conflicts(ann.0@, eq2).union(conflict_pairs(*bound_exp, eq2)).union(conflict_pairs(*body, eq2))
        },
        SeqExp::If { thn, els, .. } => conflict_pairs(*thn, equivs).union(conflict_pairs(*els, equivs)),
        _ => Set::empty(),
    }
}

/// `m` with the vertices `vs` and the (directed) pairs `es` added.
pub open spec fn graph_add(m: Map<Seq<char>, Set<Seq<char>>>, vs: Set<Seq<char>>, es: Set<(Seq<char>, Seq<char>)>) -> Map<Seq<char>, Set<Seq<char>>> {
    Map::new(
        |k: Seq<char>| m.contains_key(k) || vs.contains(k) || exists|b: Seq<char>| #[trigger] es.contains((k, b)),
        |k: Seq<char>| (if m.contains_key(k) { m[k] } else { Set::empty() }).union(Set::new(|b: Seq<char>| es.contains((k, b)))),
    )
}

/// A set of pairs that holds each pair both ways.
pub open spec fn sym(es: Set<(Seq<char>, Seq<char>)>) -> bool {
    forall|a: Seq<char>, b: Seq<char>| #[trigger] es.contains((a, b)) ==> es.contains((b, a))
}

proof fn lemma_add_vertex(m: Map<Seq<char>, Set<Seq<char>>>, vs: Set<Seq<char>>, es: Set<(Seq<char>, Seq<char>)>, v: Seq<char>)
    ensures
        with_vertex(graph_add(m, vs, es), v) == graph_add(m, vs.insert(v), es),
{
    let g = graph_add(m, vs, es);
    let h = graph_add(m, vs.insert(v), es);
    assert(g.contains_key(v) ==> g[v] == h[v]);
    if !g.contains_key(v) {
        assert(h[v] =~= Set::<Seq<char>>::empty()) by {
            assert forall|b: Seq<char>| !h[v].contains(b) by {
                if es.contains((v, b)) {
                    assert(g.contains_key(v));
                }
            }
        }
    }
    assert(with_vertex(g, v) =~= h);
}

proof fn lemma_add_edge(m: Map<Seq<char>, Set<Seq<char>>>, vs: Set<Seq<char>>, es: Set<(Seq<char>, Seq<char>)>, a: Seq<char>, b: Seq<char>)
    ensures
        with_edge(graph_add(m, vs, es), a, b) == graph_add(m, vs, es.insert((a, b)).insert((b, a))),
{
    let g = graph_add(m, vs, es);
    let es2 = es.insert((a, b)).insert((b, a));
    let h = graph_add(m, vs, es2);
    lemma_add_vertex(m, vs, es, a);
    lemma_add_vertex(m, vs.insert(a), es, b);
    let g1 = graph_add(m, vs.insert(a).insert(b), es);
    let g2 = g1.insert(a, g1[a].insert(b));
    let g3 = g2.insert(b, g2[b].insert(a));
    assert forall|k: Seq<char>| #[trigger] g3.contains_key(k) <==> h.contains_key(k) by {
        if k == a { assert(es2.contains((a, b))); }
        if k == b { assert(es2.contains((b, a))); }
        if h.contains_key(k) && !m.contains_key(k) && !vs.contains(k) && k != a && k != b {
            let c = choose|c: Seq<char>| #[trigger] es2.contains((k, c));
            assert(es.contains((k, c)));
            assert(g1.contains_key(k));
        }
        if g3.contains_key(k) && !m.contains_key(k) && !vs.contains(k) && k != a && k != b {
            assert(g1.contains_key(k));
            let c = choose|c: Seq<char>| #[trigger] es.contains((k, c));
            assert(es2.contains((k, c)));
        }
    }
    assert forall|k: Seq<char>| #[trigger] g3.contains_key(k) implies g3[k] =~= h[k] by {}
    assert(g3 =~= h);
    assert(with_edge(g, a, b) == g3);
}

proof fn lemma_add_nothing(m: Map<Seq<char>, Set<Seq<char>>>)
    ensures
        graph_add(m, Set::empty(), Set::empty()) == m,
{
    let g = graph_add(m, Set::empty(), Set::empty());
    assert forall|k: Seq<char>| #[trigger] g.contains_key(k) <==> m.contains_key(k) by {}
    assert forall|k: Seq<char>| #[trigger] g.contains_key(k) implies g[k] =~= m[k] by {}
    assert(g =~= m);
}

proof fn lemma_add_twice(m: Map<Seq<char>, Set<Seq<char>>>, v1: Set<Seq<char>>, e1: Set<(Seq<char>, Seq<char>)>,
    v2: Set<Seq<char>>, e2: Set<(Seq<char>, Seq<char>)>)
    ensures
        graph_add(graph_add(m, v1, e1), v2, e2) == graph_add(m, v1.union(v2), e1.union(e2)),
{
    let g = graph_add(graph_add(m, v1, e1), v2, e2);
    let h = graph_add(m, v1.union(v2), e1.union(e2));
    assert forall|k: Seq<char>| #[trigger] g.contains_key(k) <==> h.contains_key(k) by {
        if h.contains_key(k) && !m.contains_key(k) && !v1.union(v2).contains(k) {
            let c = choose|c: Seq<char>| #[trigger] e1.union(e2).contains((k, c));
            if e1.contains((k, c)) {
                assert(graph_add(m, v1, e1).contains_key(k));
            } else {
                assert(e2.contains((k, c)));
            }
        }
        if g.contains_key(k) && !m.contains_key(k) && !v1.union(v2).contains(k) {
            if graph_add(m, v1, e1).contains_key(k) {
                let c = choose|c: Seq<char>| #[trigger] e1.contains((k, c));
                assert(e1.union(e2).contains((k, c)));
            } else {
                let c = choose|c: Seq<char>| #[trigger] e2.contains((k, c));
                assert(e1.union(e2).contains((k, c)));
            }
        }
    }
    assert forall|k: Seq<char>| #[trigger] g.contains_key(k) implies g[k] =~= h[k] by {}
    assert(g =~= h);
}

/// Whether some class holds both `a` and `b`.
fn in_same_class(equivs: &Vec<VecSet<String>>, a: &String, b: &String) -> (r: bool)
    ensures
        r == same_class(views(equivs@), a@, b@),
{
    let mut i: usize = 0;
    while i < equivs.len()
        invariant
            i <= equivs@.len(),
            forall|j: int| 0 <= j < i ==> !(equivs@[j]@.contains(a@) && equivs@[j]@.contains(b@)),
        decreases equivs@.len() - i,
    {
        if equivs[i].contains(a) && equivs[i].contains(b) {
            proof { assert(views(equivs@)[i as int] == equivs@[i as int]@); }
            return true;
        }
        i = i + 1;
    }
    proof {
        assert forall|j: int| 0 <= j < views(equivs@).len() implies
            !(#[trigger] views(equivs@)[j].contains(a@) && views(equivs@)[j].contains(b@)) by {
            assert(views(equivs@)[j] == equivs@[j]@);
        }
    }
    false
}

/// A copy of the classes.
fn copy_classes(equivs: &Vec<VecSet<String>>) -> (r: Vec<VecSet<String>>)
    ensures
        views(r@) == views(equivs@),
{
    let mut r: Vec<VecSet<String>> = Vec::new();
    let mut i: usize = 0;
    while i < equivs.len()
        invariant
            i <= equivs@.len(),
            views(r@) == views(equivs@).subrange(0, i as int),
        decreases equivs@.len() - i,
    {
        let ghost before = r@;
        let c = equivs[i].copy_view();
        let ghost cg = c;
        r.push(c);
        proof {
            assert(r@ =~= before.push(cg));
            assert(views(r@) =~= views(before).push(cg@));
            assert(views(r@) =~= views(equivs@).subrange(0, i + 1));
        }
        i = i + 1;
    }
    proof { assert(views(equivs@).subrange(0, equivs@.len() as int) =~= views(equivs@)); }
    r
}

/// Records `let var = var2`: `var` joins each class of `var2`, or the two
/// start a class of their own.
fn record_equiv(equivs: &mut Vec<VecSet<String>>, var: &String, var2: &String)
    ensures
        views(final(equivs)@) == add_equiv(views(old(equivs)@), var@, var2@),
{
    let ghost old_v = views(equivs@);
    let mut found_equiv = false;
    let mut out: Vec<VecSet<String>> = Vec::new();
    let n = equivs.len();
    let mut i: usize = 0;
    while i < n
        invariant
            i <= n,
            n == old_v.len(),
            old_v == views(equivs@),
            out@.len() == i,
            found_equiv <==> exists|j: int| 0 <= j < i && #[trigger] old_v[j].contains(var2@),
            forall|j: int| 0 <= j < i ==> (#[trigger] out@[j])@ ==
                if old_v[j].contains(var2@) { old_v[j].insert(var@) } else { old_v[j] },
        decreases n - i,
    {
        let mut c = equivs[i].copy_view();
        if c.contains(var2) {
            let _ = c.insert(var.clone());
            found_equiv = true;
        }
        proof { assert(old_v[i as int] == equivs@[i as int]@); }
        out.push(c);
        i = i + 1;
    }
    if !found_equiv {
        out = copy_classes(equivs);
        let mut c = VecSet::new();
        let _ = c.insert(var.clone());
        let _ = c.insert(var2.clone());
        let ghost before = out@;
        out.push(c);
        proof {
            assert(c@ =~= set![var@, var2@]);
            assert(out@ =~= before.push(c));
            assert(views(out@) =~= old_v.push(set![var@, var2@]));
        }
    } else {
        proof {
            assert(views(out@) =~= old_v.map_values(|c: Set<Seq<char>>| if c.contains(var2@) { c.insert(var@) } else { c }));
        }
    }
    *equivs = out;
}

proof fn lemma_let_conflicts_sym(live: Set<Seq<char>>, equivs: Seq<Set<Seq<char>>>)
    ensures
        sym(let_conflicts(live, equivs)),
{
    assert forall|a: Seq<char>, b: Seq<char>| #[trigger] let_conflicts(live, equivs).contains((a, b))
        implies let_conflicts(live, equivs).contains((b, a)) by {
        if same_class(equivs, b, a) {
            let i = choose|i: int| 0 <= i < equivs.len() && #[trigger] equivs[i].contains(b) && equivs[i].contains(a);
            assert(equivs[i].contains(a) && equivs[i].contains(b));
        }
    }
}

/// Adds to `g` the variables of the `let`s of `e` and their conflicts.
#[verifier::loop_isolation(false)]
fn conflicts_helper<Ann>(e: &SeqExp<(VecSet<String>, Ann)>, equivs: Vec<VecSet<String>>, g: &mut Graph<String>)
    ensures
        final(g)@ == graph_add(old(g)@, let_vars(*e), conflict_pairs(*e, views(equivs@))),
    decreases e,
{
    let ghost m0 = g@;
    match e {
        SeqExp::Let { var, bound_exp, body, ann } => {
            g.insert_vertex(var.clone());
            proof {
                lemma_add_vertex(m0, Set::empty(), Set::empty(), var@);
                lemma_add_nothing(m0);
            }
            let mut equivs = equivs;
            let ghost eq0 = views(equivs@);
            match &**bound_exp {
                SeqExp::Imm(ImmExp::Var(var2), _) => {
                    record_equiv(&mut equivs, var, var2);
                },
                _ => {},
            }
            let ghost eq2 = views(equivs@);
            assert(eq2 == equivs_after(eq0, var@, **bound_exp));
            let live = ann.0.items();
            let pairs = index_pairs(live.len());
            let ghost vs = set![var@];
            let mut k: usize = 0;
            while k < pairs.len()
                invariant
                    k <= pairs@.len(),
                    views(equivs@) == eq2,
                    views(live@).to_set() == ann.0@,
                    views(live@).no_duplicates(),
                    forall|q: int| 0 <= q < pairs@.len() ==> (#[trigger] pairs@[q]).0 < pairs@[q].1 < live@.len(),
                    exists|es: Set<(Seq<char>, Seq<char>)>| {
                        &&& g@ == graph_add(m0, vs, es)
                        &&& es.subset_of(let_conflicts(ann.0@, eq2))
                        &&& forall|q: int| 0 <= q < k ==> !same_class(eq2, live@[(#[trigger] pairs@[q]).0 as int]@, live@[pairs@[q].1 as int]@)
                            ==> es.contains((live@[pairs@[q].0 as int]@, live@[pairs@[q].1 as int]@))
                                && es.contains((live@[pairs@[q].1 as int]@, live@[pairs@[q].0 as int]@))
                    },
                decreases pairs@.len() - k,
            {
                let (i, j) = pairs[k];
                let a = &live[i];
                let b = &live[j];
                let ghost es0 = choose|es: Set<(Seq<char>, Seq<char>)>| {
                    &&& g@ == graph_add(m0, vs, es)
                    &&& es.subset_of(let_conflicts(ann.0@, eq2))
                    &&& forall|q: int| 0 <= q < k ==> !same_class(eq2, live@[(#[trigger] pairs@[q]).0 as int]@, live@[pairs@[q].1 as int]@)
                        ==> es.contains((live@[pairs@[q].0 as int]@, live@[pairs@[q].1 as int]@))
                            && es.contains((live@[pairs@[q].1 as int]@, live@[pairs@[q].0 as int]@))
                };
                if !in_same_class(&equivs, a, b) {
                    proof {
                        lemma_add_edge(m0, vs, es0, a@, b@);
                        assert(views(live@)[i as int] == a@);
                        assert(views(live@)[j as int] == b@);
                        assert(a@ != b@);
                        assert(ann.0@.contains(a@));
                        assert(ann.0@.contains(b@));
                        lemma_let_conflicts_sym(ann.0@, eq2);
                    }
                    g.insert_edge(a.clone(), b.clone());
                    proof {
                        let es1 = es0.insert((a@, b@)).insert((b@, a@));
                        assert(es1.subset_of(let_conflicts(ann.0@, eq2)));
                        assert(g@ == graph_add(m0, vs, es1));
                    }
                }
                k = k + 1;
            }
            let ghost es_done = choose|es: Set<(Seq<char>, Seq<char>)>| {
                &&& g@ == graph_add(m0, vs, es)
                &&& es.subset_of(let_conflicts(ann.0@, eq2))
                &&& forall|q: int| 0 <= q < pairs@.len() ==> !same_class(eq2, live@[(#[trigger] pairs@[q]).0 as int]@, live@[pairs@[q].1 as int]@)
                    ==> es.contains((live@[pairs@[q].0 as int]@, live@[pairs@[q].1 as int]@))
                        && es.contains((live@[pairs@[q].1 as int]@, live@[pairs@[q].0 as int]@))
            };
            proof {
                let lc = let_conflicts(ann.0@, eq2);
                assert forall|p: (Seq<char>, Seq<char>)| lc.contains(p) implies es_done.contains(p) by {
                    let x = p.0;
                    let y = p.1;
                    assert(views(live@).contains(x));
                    assert(views(live@).contains(y));
                    let ix = choose|ix: int| 0 <= ix < views(live@).len() && views(live@)[ix] == x;
                    let iy = choose|iy: int| 0 <= iy < views(live@).len() && views(live@)[iy] == y;
                    assert(ix != iy);
                    let lo = if ix < iy { ix } else { iy };
                    let hi = if ix < iy { iy } else { ix };
                    assert((lo as usize) < (hi as usize) < live@.len());
                    assert(pair_listed(pairs@, lo as usize, hi as usize));
                    let q = choose|q: int| 0 <= q < pairs@.len() && #[trigger] pairs@[q] == (lo as usize, hi as usize);
                    assert(pairs@[q].0 == lo && pairs@[q].1 == hi);
                    assert(live@[lo]@ == views(live@)[lo]);
                    assert(live@[hi]@ == views(live@)[hi]);
                    if ix < iy {
                        assert(!same_class(eq2, live@[lo]@, live@[hi]@));
                    } else {
                        if same_class(eq2, live@[lo]@, live@[hi]@) {
                            let c = choose|c: int| 0 <= c < eq2.len() && #[trigger] eq2[c].contains(live@[lo]@) && eq2[c].contains(live@[hi]@);
                            assert(eq2[c].contains(x) && eq2[c].contains(y));
                        }
                    }
                }
                assert(es_done =~= lc);
            }
            let ghost m1 = g@;
            conflicts_helper(bound_exp, copy_classes(&equivs), g);
            let ghost m2 = g@;
            conflicts_helper(body, equivs, g);
            proof {
                let lc = let_conflicts(ann.0@, eq2);
                lemma_add_twice(m0, vs, lc, let_vars(**bound_exp), conflict_pairs(**bound_exp, eq2));
                lemma_add_twice(m0, vs.union(let_vars(**bound_exp)), lc.union(conflict_pairs(**bound_exp, eq2)),
                    let_vars(**body), conflict_pairs(**body, eq2));
                assert(vs.union(let_vars(**bound_exp)).union(let_vars(**body)) =~= let_vars(*e));
                assert(lc.union(conflict_pairs(**bound_exp, eq2)).union(conflict_pairs(**body, eq2)) =~= conflict_pairs(*e, eq0));
            }
        },
        SeqExp::If { thn, els, .. } => {
            let ghost eq0 = views(equivs@);
            conflicts_helper(thn, copy_classes(&equivs), g);
            conflicts_helper(els, equivs, g);
            proof {
                lemma_add_twice(m0, let_vars(**thn), conflict_pairs(**thn, eq0), let_vars(**els), conflict_pairs(**els, eq0));
                assert(let_vars(**thn).union(let_vars(**els)) =~= let_vars(*e));
                assert(conflict_pairs(**thn, eq0).union(conflict_pairs(**els, eq0)) =~= conflict_pairs(*e, eq0));
            }
        },
        _ => {
            proof {
                lemma_add_nothing(m0);
                assert(let_vars(*e) =~= Set::<Seq<char>>::empty());
                assert(conflict_pairs(*e, views(equivs@)) =~= Set::<(Seq<char>, Seq<char>)>::empty());
            }
        },
    }
}

/// The conflict graph of an annotated expression: a vertex for each
/// `let`-bound variable, an edge between two distinct variables live at a
/// `let` unless a chain of `let x = y` makes them equal.
pub fn conflicts<Ann>(e: &SeqExp<(VecSet<String>, Ann)>) -> (g: Graph<String>)
    ensures
        g@ == graph_add(Map::empty(), let_vars(*e), conflict_pairs(*e, Seq::empty())),
{
    let mut g = Graph::new();
    let equivs: Vec<VecSet<String>> = Vec::new();
    proof { assert(views(equivs@) =~= Seq::<Set<Seq<char>>>::empty()); }
    conflicts_helper(e, equivs, &mut g);
    g
}


/* Colouring */

/// rand's `IteratorRandom::choose` with the thread-local generator: one of
/// the candidates, picked at random; `None` exactly when there are none
/// (rand documents this, and a vector's iterator reports its length exactly).
/// `thread_rng` panics if the operating system cannot seed it.
#[verifier::external_body]
fn pick_random(cands: Vec<String>) -> (r: Option<String>)
    ensures
        (r is None) == (cands@.len() == 0),
        r matches Some(v) ==> cands@.contains(v),
{
    cands.into_iter().choose(&mut rand::thread_rng())
}

/// The position of a register in the declaration order of `Reg`, by which
/// registers are compared.
pub open spec fn reg_rank(r: Reg) -> int {
    match r {
        Reg::Rax => 0,
        Reg::Rbx => 1,
        Reg::Rdx => 2,
        Reg::Rcx => 3,
        Reg::Rsi => 4,
        Reg::Rdi => 5,
        Reg::Rsp => 6,
        Reg::Rbp => 7,
        Reg::R8 => 8,
        Reg::R9 => 9,
        Reg::R10 => 10,
        Reg::R11 => 11,
        Reg::R12 => 12,
        Reg::R13 => 13,
        Reg::R14 => 14,
        Reg::R15 => 15,
    }
}

fn rank(r: Reg) -> (n: u8)
    ensures
        n == reg_rank(r),
{
    match r {
        Reg::Rax => 0,
        Reg::Rbx => 1,
        Reg::Rdx => 2,
        Reg::Rcx => 3,
        Reg::Rsi => 4,
        Reg::Rdi => 5,
        Reg::Rsp => 6,
        Reg::Rbp => 7,
        Reg::R8 => 8,
        Reg::R9 => 9,
        Reg::R10 => 10,
        Reg::R11 => 11,
        Reg::R12 => 12,
        Reg::R13 => 13,
        Reg::R14 => 14,
        Reg::R15 => 15,
    }
}

/// `env` colours the graph `g` with the registers `regs` and spill slots:
/// it places every vertex and nothing else; two distinct adjacent
/// vertices never share a place; no two variables share a spill slot;
/// registers come from `regs`, spill slots are not negative.
pub open spec fn proper_coloring(g: Map<Seq<char>, Set<Seq<char>>>, env: Map<Seq<char>, VarLocation>, regs: Seq<Reg>) -> bool {
    &&& env.dom() == g.dom()
    &&& forall|a: Seq<char>, b: Seq<char>| g.contains_key(a) && g.contains_key(b) && #[trigger] g[a].contains(b) && a != b
        ==> env[a] != env[b]
    &&& forall|a: Seq<char>| #[trigger] env.contains_key(a) ==> (env[a] matches VarLocation::Reg(r) ==> regs.contains(r))
    &&& forall|a: Seq<char>, b: Seq<char>| #[trigger] env.contains_key(a) && #[trigger] env.contains_key(b) && a != b
        && env[a] is Spill ==> env[a] != env[b]
    &&& forall|a: Seq<char>| #[trigger] env.contains_key(a) ==> (env[a] matches VarLocation::Spill(n) ==> n >= 0)
}

/// The number of neighbours of `v` in `g` (0 when `v` is not a vertex).
pub open spec fn deg(g: Map<Seq<char>, Set<Seq<char>>>, v: Seq<char>) -> nat {
    if g.contains_key(v) { g[v].len() } else { 0 }
}

/// The number of neighbours of `v` (0 when `v` is not a vertex).
fn degree(g: &Graph<String>, v: &String) -> (d: usize)
    ensures
        d == deg(g@, v@),
        g@.contains_key(v@) ==> g@[v@].finite(),
{
    match g.neighbors(v) {
        Some(ns) => ns.len(),
        None => 0,
    }
}

/// The last of the candidates with the most neighbours in `g`.
fn max_degree(g: &Graph<String>, cands: &Vec<String>) -> (r: String)
    requires
        cands@.len() > 0,
    ensures
        views(cands@).contains(r@),
        forall|j: int| 0 <= j < cands@.len() ==> deg(g@, (#[trigger] cands@[j])@) <= deg(g@, r@),
        exists|i: int| 0 <= i < cands@.len() && cands@[i]@ == r@
            && forall|j: int| i < j < cands@.len() ==> deg(g@, (#[trigger] cands@[j])@) < deg(g@, r@),
{
    let mut best: usize = 0;
    let mut best_deg = degree(g, &cands[0]);
    let mut i: usize = 1;
    while i < cands.len()
        invariant
            1 <= i <= cands@.len(),
            best < i,
            best_deg == deg(g@, cands@[best as int]@),
            forall|j: int| 0 <= j < i ==> deg(g@, (#[trigger] cands@[j])@) <= best_deg,
            forall|j: int| best < j < i ==> deg(g@, (#[trigger] cands@[j])@) < best_deg,
        decreases cands@.len() - i,
    {
        let d = degree(g, &cands[i]);
        if d >= best_deg {
            best = i;
            best_deg = d;
        }
        i = i + 1;
    }
    proof { assert(views(cands@)[best as int] == cands@[best as int]@); }
    cands[best].clone()
}

/// `g` without the vertices of `r` and the edges that touch them.
pub open spec fn minus(g: Map<Seq<char>, Set<Seq<char>>>, r: Set<Seq<char>>) -> Map<Seq<char>, Set<Seq<char>>> {
    Map::new(|v: Seq<char>| g.contains_key(v) && !r.contains(v), |v: Seq<char>| g[v].difference(r))
}

/// Taking `v` out of `h` is a step of simplification with `k` registers:
/// `v` has fewer than `k` neighbours in `h`, or no vertex of `h` has and
/// `v` has the most.
pub open spec fn simplify_step(h: Map<Seq<char>, Set<Seq<char>>>, v: Seq<char>, k: nat) -> bool {
    &&& h.contains_key(v)
    &&& (deg(h, v) < k || forall|w: Seq<char>| #[trigger] h.contains_key(w) ==> k <= deg(h, w) && deg(h, w) <= deg(h, v))
}

/// The order in which to colour the vertices: repeatedly take out of the
/// graph a vertex of degree below `k`, picked at random among all such
/// vertices, or, when there is none, the last vertex of the highest
/// degree; the result holds every vertex once, and each vertex was taken
/// by such a step from the graph left after the ones before it.
fn simplify_order(conflicts: &Graph<String>, k: usize) -> (stack: Vec<String>)
    ensures
        simplify_sequence(conflicts@, views(stack@), k as nat),
{
    let mut g = conflicts.copy();
    let mut stack: Vec<String> = Vec::new();
    proof {
        assert(minus(conflicts@, views(stack@).to_set()) =~= conflicts@) by {
            assert(views(stack@).to_set() =~= Set::<Seq<char>>::empty());
            assert forall|v: Seq<char>| conflicts@.contains_key(v) implies
                #[trigger] minus(conflicts@, views(stack@).to_set())[v] =~= conflicts@[v] by {}
        }
    }
    loop
        invariant
            views(stack@).no_duplicates(),
            forall|x: Seq<char>| views(stack@).contains(x) ==> !g@.contains_key(x),
            views(stack@).to_set().union(g@.dom()) == conflicts@.dom(),
            g@ == minus(conflicts@, views(stack@).to_set()),
            forall|i: int| 0 <= i < stack@.len() ==>
                simplify_step(minus(conflicts@, views(stack@).take(i).to_set()), #[trigger] views(stack@)[i], k as nat),
        decreases g@.dom().len(),
    {
        let vs = g.vertices();
        let mut cands: Vec<String> = Vec::new();
        let mut i: usize = 0;
        while i < vs.len()
            invariant
                i <= vs@.len(),
                forall|c: Seq<char>| views(cands@).contains(c) ==> views(vs@).contains(c),
                forall|c: Seq<char>| #[trigger] views(cands@).contains(c) ==> deg(g@, c) < k,
                forall|j: int| 0 <= j < i && deg(g@, (#[trigger] vs@[j])@) < k ==> views(cands@).contains(vs@[j]@),
            decreases vs@.len() - i,
        {
            let ghost before = cands@;
            if degree(&g, &vs[i]) < k {
                cands.push(vs[i].clone());
                proof {
                    assert(views(cands@) =~= views(before).push(vs@[i as int]@));
                    assert(views(vs@)[i as int] == vs@[i as int]@);
                    assert forall|c: Seq<char>| #[trigger] views(cands@).contains(c) implies deg(g@, c) < k by {
                        if c != vs@[i as int]@ {
                            let w = choose|w: int| 0 <= w < views(cands@).len() && views(cands@)[w] == c;
                            assert(views(before)[w] == c);
                            assert(views(before).contains(c));
                        }
                    }
                }
            }
            proof {
                assert forall|j: int| 0 <= j < i + 1 && deg(g@, (#[trigger] vs@[j])@) < k implies views(cands@).contains(vs@[j]@) by {
                    if j < i {
                        if cands@.len() > before.len() {
                            let w = choose|w: int| 0 <= w < views(before).len() && views(before)[w] == vs@[j]@;
                            assert(views(cands@)[w] == vs@[j]@);
                        }
                    } else {
                        assert(views(cands@)[cands@.len() - 1] == vs@[j]@);
                    }
                }
            }
            i = i + 1;
        }
        let ghost h = g@;
        let node = if cands.len() > 0 {
            let ghost cs = cands@;
            let n = pick_random(cands).unwrap();
            proof {
                let j = choose|j: int| 0 <= j < cs.len() && #[trigger] cs[j] == n;
                assert(views(cs)[j] == n@);
                assert(views(cs).contains(n@));
            }
            n
        } else if vs.len() > 0 {
            let n = max_degree(&g, &vs);
            proof {
                assert forall|w: Seq<char>| #[trigger] h.contains_key(w) implies k <= deg(h, w) && deg(h, w) <= deg(h, n@) by {
                    assert(views(vs@).to_set().contains(w));
                    let j = choose|j: int| 0 <= j < views(vs@).len() && views(vs@)[j] == w;
                    assert(vs@[j]@ == w);
                    if deg(h, w) < k {
                        assert(views(cands@).contains(vs@[j]@));
                        assert(views(cands@).len() == 0);
                    }
                }
            }
            n
        } else {
            proof {
                assert(g@.dom() =~= Set::<Seq<char>>::empty());
                assert(views(stack@).to_set().union(g@.dom()) =~= views(stack@).to_set());
            }
            return stack;
        };
        proof {
            assert(views(vs@).to_set().contains(node@));
            assert(g@.contains_key(node@));
            assert(simplify_step(h, node@, k as nat));
        }
        let ghost g_before = g@;
        let ghost st_before = stack@;
        let _ = g.remove_vertex(&node);
        stack.push(node);
        proof {
            let n = stack@.last();
            assert(views(stack@) =~= views(st_before).push(n@));
            assert(g@.dom() =~= g_before.dom().remove(n@));
            assert(views(stack@).no_duplicates()) by {
                let vsq = views(stack@);
                assert forall|a: int, b: int| 0 <= a < vsq.len() && 0 <= b < vsq.len() && a != b implies vsq[a] != vsq[b] by {
                    if b == vsq.len() - 1 {
                        assert(views(st_before).contains(vsq[a]));
                    } else if a == vsq.len() - 1 {
                        assert(views(st_before).contains(vsq[b]));
                    }
                }
            }
            assert forall|x: Seq<char>| views(stack@).contains(x) implies !g@.contains_key(x) by {
                if x != n@ {
                    let j = choose|j: int| 0 <= j < views(stack@).len() && #[trigger] views(stack@)[j] == x;
                    assert(views(st_before)[j] == x);
                }
            }
            views(st_before).lemma_push_to_set_commute(n@);
            assert(views(stack@).to_set() == views(st_before).to_set().insert(n@));
            assert(views(stack@).to_set().union(g@.dom()) =~= views(st_before).to_set().union(g_before.dom()));
            vstd::set_lib::lemma_set_remove_finite_iff(g_before.dom(), n@);
            assert(g@ =~= minus(conflicts@, views(stack@).to_set())) by {
                assert forall|v: Seq<char>| g@.contains_key(v) implies
                    #[trigger] g@[v] =~= minus(conflicts@, views(stack@).to_set())[v] by {}
            }
            assert forall|i: int| 0 <= i < stack@.len() implies
                simplify_step(minus(conflicts@, views(stack@).take(i).to_set()), #[trigger] views(stack@)[i], k as nat) by {
                if i < st_before.len() {
                    assert(views(stack@).take(i) =~= views(st_before).take(i));
                    assert(views(stack@)[i] == views(st_before)[i]);
                } else {
                    assert(views(stack@).take(i) =~= views(st_before));
                }
            }
        }
    }
}

/// Whether `r` is among `rs`.
fn has_reg(rs: &Vec<Reg>, r: Reg) -> (b: bool)
    ensures
        b == rs@.contains(r),
{
    let mut i: usize = 0;
    while i < rs.len()
        invariant
            i <= rs@.len(),
            forall|j: int| 0 <= j < i ==> rs@[j] != r,
        decreases rs@.len() - i,
    {
        if rs[i] == r {
            return true;
        }
        i = i + 1;
    }
    false
}

/// The registers that the neighbours `nbrs` already placed by `m` hold.
pub open spec fn taken(m: Map<Seq<char>, VarLocation>, nbrs: Set<Seq<char>>) -> Set<Reg> {
    Set::new(|q: Reg| exists|b: Seq<char>| #[trigger] nbrs.contains(b) && m.contains_key(b) && m[b] == VarLocation::Reg(q))
}

/// `q` is the register of `regs` of least rank that is not in `t`.
pub open spec fn least_free(regs: Seq<Reg>, t: Set<Reg>, q: Reg) -> bool {
    &&& regs.contains(q)
    &&& !t.contains(q)
    &&& forall|r: Reg| #[trigger] regs.contains(r) && !t.contains(r) ==> reg_rank(q) <= reg_rank(r)
}

/// Greedy colouring of the vertices of `s` from the last to the first:
/// each gets the least register that none of its neighbours coloured
/// before it holds. `Err(t)` when the vertex at `t` finds none (the
/// colouring stops there, with the vertices before `t` uncoloured).
pub open spec fn greedy(g: Map<Seq<char>, Set<Seq<char>>>, s: Seq<Seq<char>>, regs: Seq<Reg>) -> Result<Map<Seq<char>, VarLocation>, int>
    decreases s.len(),
{
    if s.len() == 0 {
        Ok(Map::empty())
    } else {
        match greedy(g, s.drop_first(), regs) {
            Err(t) => Err(t + 1),
            Ok(m) => {
                let t = taken(m, g[s[0]]);
                if exists|q: Reg| least_free(regs, t, q) {
                    Ok(m.insert(s[0], VarLocation::Reg(choose|q: Reg| least_free(regs, t, q))))
                } else {
                    Err(0)
                }
            },
        }
    }
}

proof fn lemma_least_unique(regs: Seq<Reg>, t: Set<Reg>, q1: Reg, q2: Reg)
    requires
        least_free(regs, t, q1),
        least_free(regs, t, q2),
    ensures
        q1 == q2,
{
    assert(reg_rank(q1) <= reg_rank(q2));
    assert(reg_rank(q2) <= reg_rank(q1));
}

proof fn lemma_greedy_err(g: Map<Seq<char>, Set<Seq<char>>>, s: Seq<Seq<char>>, regs: Seq<Reg>, k: int, t: int)
    requires
        0 <= k <= s.len(),
        greedy(g, s.subrange(k, s.len() as int), regs) == Err::<Map<Seq<char>, VarLocation>, int>(t),
    ensures
        greedy(g, s, regs) == Err::<Map<Seq<char>, VarLocation>, int>(t + k),
    decreases k,
{
    if k > 0 {
        assert(s.subrange(k - 1, s.len() as int).drop_first() =~= s.subrange(k, s.len() as int));
        lemma_greedy_err(g, s, regs, k - 1, t + 1);
    } else {
        assert(s.subrange(0, s.len() as int) =~= s);
    }
}

/// Colours the vertices from the top of `stack` down, each with the least
/// register that none of its coloured neighbours has (`greedy`); when a
/// vertex finds none, gives up and names, to be spilled, the last vertex
/// with the most neighbours among that vertex and those below it.
fn color(conflicts: &Graph<String>, order: Vec<String>, registers: &[Reg]) -> (r: Result<VecMap<String, VarLocation>, String>)
    requires
        views(order@).no_duplicates(),
        views(order@).to_set() == conflicts@.dom(),
        symmetric(conflicts@),
    ensures
        r matches Ok(env) ==> greedy(conflicts@, views(order@), registers@) == Ok::<Map<Seq<char>, VarLocation>, int>(env@),
        r matches Ok(env) ==> env@.dom() == conflicts@.dom(),
        r matches Ok(env) ==> forall|a: Seq<char>| #[trigger] env@.contains_key(a) ==> (env@[a] matches VarLocation::Reg(q) && registers@.contains(q)),
        r matches Ok(env) ==> forall|a: Seq<char>, b: Seq<char>| env@.contains_key(a) && env@.contains_key(b) && a != b
            && #[trigger] conflicts@[a].contains(b) ==> env@[a] != env@[b],
        r matches Err(v) ==> conflicts@.contains_key(v@),
        r matches Err(v) ==> registers@.no_duplicates() ==> deg(conflicts@, v@) >= registers@.len(),
        r matches Err(v) ==> exists|t: int| {
            &&& 0 <= t < order@.len()
            &&& greedy(conflicts@, views(order@), registers@) == Err::<Map<Seq<char>, VarLocation>, int>(t)
            &&& views(order@).subrange(0, t + 1).contains(v@)
            &&& forall|w: Seq<char>| #[trigger] views(order@).subrange(0, t + 1).contains(w) ==> deg(conflicts@, w) <= deg(conflicts@, v@)
        },
{
    let mut stack = order;
    let ghost orig = views(stack@);
    let ghost n0 = stack@.len();
    let mut env_try: VecMap<String, VarLocation> = VecMap::new();
    proof {
        assert(orig.subrange(n0 as int, n0 as int).to_set() =~= Set::<Seq<char>>::empty());
        assert(orig.subrange(n0 as int, n0 as int) =~= Seq::<Seq<char>>::empty());
        assert(env_try@ =~= Map::<Seq<char>, VarLocation>::empty());
    }
    loop
        invariant
            stack@.len() <= n0,
            n0 == orig.len(),
            orig == views(order@),
            orig.no_duplicates(),
            orig.to_set() == conflicts@.dom(),
            symmetric(conflicts@),
            views(stack@) == orig.subrange(0, stack@.len() as int),
            env_try@.dom() == orig.subrange(stack@.len() as int, n0 as int).to_set(),
            greedy(conflicts@, orig.subrange(stack@.len() as int, n0 as int), registers@) == Ok::<Map<Seq<char>, VarLocation>, int>(env_try@),
            forall|a: Seq<char>| #[trigger] env_try@.contains_key(a) ==> (env_try@[a] matches VarLocation::Reg(q) && registers@.contains(q)),
            forall|a: Seq<char>, b: Seq<char>| env_try@.contains_key(a) && env_try@.contains_key(b) && a != b
                && #[trigger] conflicts@[a].contains(b) ==> env_try@[a] != env_try@[b],
        decreases stack@.len(),
    {
        if stack.len() == 0 {
            proof {
                assert(orig.subrange(0, n0 as int) =~= orig);
                assert(greedy(conflicts@, orig, registers@) == Ok::<Map<Seq<char>, VarLocation>, int>(env_try@));
            }
            return Ok(env_try);
        }
        let top = stack.len() - 1;
        let node = stack[top].clone();
        proof {
            assert(views(stack@)[top as int] == stack@[top as int]@);
            assert(orig[top as int] == node@);
            assert(orig.to_set().contains(node@));
            assert(conflicts@.contains_key(node@));
        }
        let nbrs = conflicts.neighbors(&node).unwrap();
        let items = nbrs.items();
        let ghost tk = taken(env_try@, conflicts@[node@]);
        let mut regs_conf: Vec<Reg> = Vec::new();
        let mut i: usize = 0;
        while i < items.len()
            invariant
                i <= items@.len(),
                conflicts@.contains_key(node@),
                views(items@).to_set() == conflicts@[node@],
                tk == taken(env_try@, conflicts@[node@]),
                regs_conf@.len() <= i,
                forall|q: Reg| #[trigger] regs_conf@.contains(q) ==> tk.contains(q),
                forall|a: Seq<char>| #[trigger] env_try@.contains_key(a) ==> (env_try@[a] matches VarLocation::Reg(q) && registers@.contains(q)),
                forall|j: int| 0 <= j < i && env_try@.contains_key(#[trigger] items@[j]@)
                    ==> (env_try@[items@[j]@] matches VarLocation::Reg(q) && regs_conf@.contains(q)),
            decreases items@.len() - i,
        {
            let ghost rc0 = regs_conf@;
            match env_try.get(&items[i]) {
                Some(VarLocation::Reg(q)) => {
                    regs_conf.push(*q);
                    proof {
                        assert(regs_conf@ == rc0.push(*q));
                        assert(views(items@)[i as int] == items@[i as int]@);
                        assert(conflicts@[node@].contains(items@[i as int]@));
                        assert(tk.contains(*q));
                        assert forall|q2: Reg| #[trigger] regs_conf@.contains(q2) implies tk.contains(q2) by {
                            if q2 != *q {
                                let w = choose|w: int| 0 <= w < regs_conf@.len() && regs_conf@[w] == q2;
                                assert(rc0[w] == q2);
                                assert(rc0.contains(q2));
                            }
                        }
                    }
                },
                _ => {},
            }
            proof {
                assert forall|j: int| 0 <= j < i + 1 && env_try@.contains_key(#[trigger] items@[j]@)
                    implies (env_try@[items@[j]@] matches VarLocation::Reg(q) && regs_conf@.contains(q)) by {
                    if j < i {
                        if let VarLocation::Reg(q2) = env_try@[items@[j]@] {
                            assert(rc0.contains(q2));
                            let w = choose|w: int| 0 <= w < rc0.len() && rc0[w] == q2;
                            assert(regs_conf@[w] == q2);
                        }
                    } else {
                        if let VarLocation::Reg(q2) = env_try@[items@[j]@] {
                            assert(regs_conf@[regs_conf@.len() - 1] == q2);
                        }
                    }
                }
            }
            i = i + 1;
        }
        proof {
            assert forall|q: Reg| #[trigger] tk.contains(q) implies regs_conf@.contains(q) by {
                let b = choose|b: Seq<char>| #[trigger] conflicts@[node@].contains(b) && env_try@.contains_key(b) && env_try@[b] == VarLocation::Reg(q);
                assert(views(items@).contains(b));
                let j = choose|j: int| 0 <= j < views(items@).len() && views(items@)[j] == b;
                assert(items@[j]@ == b);
            }
        }
        let mut best: Option<Reg> = None;
        let mut j: usize = 0;
        while j < registers.len()
            invariant
                j <= registers@.len(),
                forall|q: Reg| #[trigger] regs_conf@.contains(q) <==> tk.contains(q),
                best matches Some(q) ==> registers@.contains(q) && !regs_conf@.contains(q)
                    && forall|r: Reg| #[trigger] registers@.subrange(0, j as int).contains(r) && !regs_conf@.contains(r) ==> reg_rank(q) <= reg_rank(r),
                best is None ==> forall|jj: int| 0 <= jj < j ==> regs_conf@.contains(#[trigger] registers@[jj]),
            decreases registers@.len() - j,
        {
            let q = registers[j];
            let ghost b0 = best;
            if !has_reg(&regs_conf, q) {
                match best {
                    None => { best = Some(q); },
                    Some(b) => {
                        if rank(q) < rank(b) {
                            best = Some(q);
                        }
                    },
                }
            }
            proof {
                if let Some(qb) = best {
                    assert forall|r: Reg| #[trigger] registers@.subrange(0, j + 1).contains(r) && !regs_conf@.contains(r) implies reg_rank(qb) <= reg_rank(r) by {
                        let w = choose|w: int| 0 <= w < j + 1 && #[trigger] registers@.subrange(0, j + 1)[w] == r;
                        if w < j {
                            assert(registers@.subrange(0, j as int)[w] == r);
                            assert(registers@.subrange(0, j as int).contains(r));
                            if b0 is None {
                                assert(regs_conf@.contains(registers@[w]));
                            }
                        }
                    }
                }
            }
            j = j + 1;
        }
        proof { assert(registers@.subrange(0, registers@.len() as int) =~= registers@); }
        match best {
            None => {
                let v = max_degree(conflicts, &stack);
                proof {
                    let k = choose|k: int| 0 <= k < views(stack@).len() && #[trigger] views(stack@)[k] == v@;
                    assert(orig[k] == v@);
                    let s1 = orig.subrange(top as int, n0 as int);
                    assert(s1.drop_first() =~= orig.subrange(top + 1, n0 as int));
                    assert(s1[0] == node@);
                    assert(!exists|q: Reg| least_free(registers@, tk, q)) by {
                        if exists|q: Reg| least_free(registers@, tk, q) {
                            let q = choose|q: Reg| least_free(registers@, tk, q);
                            let w = choose|w: int| 0 <= w < registers@.len() && registers@[w] == q;
                            assert(regs_conf@.contains(registers@[w]));
                        }
                    }
                    assert(greedy(conflicts@, s1, registers@) == Err::<Map<Seq<char>, VarLocation>, int>(0));
                    lemma_greedy_err(conflicts@, orig, registers@, top as int, 0);
                    assert(orig.subrange(0, top + 1) == views(stack@));
                    assert forall|w: Seq<char>| #[trigger] views(stack@).contains(w) implies deg(conflicts@, w) <= deg(conflicts@, v@) by {
                        let m = choose|m: int| 0 <= m < views(stack@).len() && views(stack@)[m] == w;
                        assert(stack@[m]@ == w);
                    }
                    assert(deg(conflicts@, node@) <= deg(conflicts@, v@)) by {
                        assert(stack@[top as int]@ == node@);
                    }
                    if registers@.no_duplicates() {
                        registers@.unique_seq_to_set();
                        regs_conf@.lemma_cardinality_of_set();
                        assert(registers@.to_set().subset_of(regs_conf@.to_set())) by {
                            assert forall|q: Reg| registers@.to_set().contains(q) implies regs_conf@.to_set().contains(q) by {
                                let w = choose|w: int| 0 <= w < registers@.len() && registers@[w] == q;
                                assert(regs_conf@.contains(registers@[w]));
                            }
                        }
                        vstd::seq_lib::seq_to_set_is_finite(regs_conf@);
                        vstd::set_lib::lemma_len_subset(registers@.to_set(), regs_conf@.to_set());
                        assert(deg(conflicts@, node@) == items@.len());
                    }
                    assert(orig.to_set().contains(v@));
                    assert(orig.subrange(0, top + 1).contains(v@));
                    assert(forall|w: Seq<char>| #[trigger] orig.subrange(0, top + 1).contains(w) ==> deg(conflicts@, w) <= deg(conflicts@, v@));
                    assert(greedy(conflicts@, orig, registers@) == Err::<Map<Seq<char>, VarLocation>, int>(top as int));
                }
                return Err(v);
            },
            Some(q) => {
                let ghost before = env_try@;
                let ghost st = stack@;
                proof {
                    assert(least_free(registers@, tk, q));
                    let s1 = orig.subrange(top as int, n0 as int);
                    assert(s1.drop_first() =~= orig.subrange(top + 1, n0 as int));
                    assert(s1[0] == node@);
                    let cq = choose|q2: Reg| least_free(registers@, tk, q2);
                    lemma_least_unique(registers@, tk, q, cq);
                    assert(greedy(conflicts@, s1, registers@) == Ok::<Map<Seq<char>, VarLocation>, int>(before.insert(node@, VarLocation::Reg(q))));
                    assert(!before.contains_key(node@)) by {
                        if before.contains_key(node@) {
                            let k = choose|k: int| 0 <= k < orig.subrange(top + 1, n0 as int).len()
                                && #[trigger] orig.subrange(top + 1, n0 as int)[k] == node@;
                            assert(orig[top + 1 + k] == orig[top as int]);
                        }
                    }
                    assert forall|a: Seq<char>| before.contains_key(a) && #[trigger] conflicts@[node@].contains(a)
                        implies before[a] != VarLocation::Reg(q) by {
                        if before[a] == VarLocation::Reg(q) {
                            assert(tk.contains(q));
                        }
                    }
                }
                env_try.insert(node, VarLocation::Reg(q));
                stack.pop();
                proof {
                    assert(views(stack@) =~= orig.subrange(0, stack@.len() as int));
                    assert(env_try@.dom() =~= orig.subrange(stack@.len() as int, n0 as int).to_set()) by {
                        assert forall|x: Seq<char>| env_try@.dom().contains(x) <==> orig.subrange(top as int, n0 as int).to_set().contains(x) by {
                            if x == node@ {
                                assert(orig.subrange(top as int, n0 as int)[0] == x);
                            }
                            if orig.subrange(top as int, n0 as int).contains(x) && x != node@ {
                                let k = choose|k: int| 0 <= k < orig.subrange(top as int, n0 as int).len() && #[trigger] orig.subrange(top as int, n0 as int)[k] == x;
                                assert(k != 0);
                                assert(orig.subrange(top + 1, n0 as int)[k - 1] == x);
                            }
                            if before.contains_key(x) {
                                let k = choose|k: int| 0 <= k < orig.subrange(top + 1, n0 as int).len() && #[trigger] orig.subrange(top + 1, n0 as int)[k] == x;
                                assert(orig.subrange(top as int, n0 as int)[k + 1] == x);
                            }
                        }
                    }
                    assert forall|a: Seq<char>, b: Seq<char>| env_try@.contains_key(a) && env_try@.contains_key(b) && a != b
                        && #[trigger] conflicts@[a].contains(b) implies env_try@[a] != env_try@[b] by {
                        if a == node@ {
                            assert(before.contains_key(b) && conflicts@[node@].contains(b));
                        } else if b == node@ {
                            assert(conflicts@.contains_key(a)) by {
                                assert(orig.to_set().contains(a)) by {
                                    let k = choose|k: int| 0 <= k < orig.subrange(top + 1, n0 as int).len() && #[trigger] orig.subrange(top + 1, n0 as int)[k] == a;
                                    assert(orig[top + 1 + k] == a);
                                }
                            }
                            assert(conflicts@[b].contains(a));
                        }
                    }
                }
            },
        }
    }
}

/// `order` takes every vertex of `h` out once, each by a simplification
/// step with `k` registers from the graph left after those before it.
pub open spec fn simplify_sequence(h: Map<Seq<char>, Set<Seq<char>>>, order: Seq<Seq<char>>, k: nat) -> bool {
    &&& order.no_duplicates()
    &&& order.to_set() == h.dom()
    &&& forall|i: int| 0 <= i < order.len() ==> simplify_step(minus(h, order.take(i).to_set()), #[trigger] order[i], k)
}

/// Greedy colouring of `h` in `order` stops at position `t`.
pub open spec fn fails_at(h: Map<Seq<char>, Set<Seq<char>>>, order: Seq<Seq<char>>, regs: Seq<Reg>, t: int) -> bool {
    greedy(h, order, regs) == Err::<Map<Seq<char>, VarLocation>, int>(t)
}

/// A round of allocation on `h` spills `v`: greedy colouring in an order of
/// simplification steps stops at some vertex, and `v` has the most
/// neighbours among that vertex and those below it in the order.
pub open spec fn spilled_in_round(h: Map<Seq<char>, Set<Seq<char>>>, v: Seq<char>, regs: Seq<Reg>) -> bool {
    exists|order: Seq<Seq<char>>, t: int| #![trigger simplify_sequence(h, order, regs.len() as nat), fails_at(h, order, regs, t)] {
        &&& simplify_sequence(h, order, regs.len() as nat)
        &&& fails_at(h, order, regs, t)
        &&& 0 <= t < order.len()
        &&& order.subrange(0, t + 1).contains(v)
        &&& forall|w: Seq<char>| #[trigger] order.subrange(0, t + 1).contains(w) ==> deg(h, w) <= deg(h, v)
    }
}

/// A round of allocation on `h` colours it as `m`: greedy colouring in an
/// order of simplification steps.
pub open spec fn colored_in_round(h: Map<Seq<char>, Set<Seq<char>>>, m: Map<Seq<char>, VarLocation>, regs: Seq<Reg>) -> bool {
    exists|order: Seq<Seq<char>>| #[trigger] simplify_sequence(h, order, regs.len() as nat)
        && greedy(h, order, regs) == Ok::<Map<Seq<char>, VarLocation>, int>(m)
}

/// The variables that `env` spills to slots below `n`.
pub open spec fn spilled_before(env: Map<Seq<char>, VarLocation>, n: int) -> Set<Seq<char>> {
    Set::new(|a: Seq<char>| env.contains_key(a) && (env[a] matches VarLocation::Spill(m) && m < n))
}

/// The variables that `env` spills.
pub open spec fn spilled(env: Map<Seq<char>, VarLocation>) -> Set<Seq<char>> {
    Set::new(|a: Seq<char>| env.contains_key(a) && env[a] is Spill)
}

/// Some variable of `env` is in spill slot `n`.
pub open spec fn slot_used(env: Map<Seq<char>, VarLocation>, n: int) -> bool {
    exists|a: Seq<char>| #[trigger] env.contains_key(a) && env[a] == VarLocation::Spill(n as i32)
}

/// The spill slots of `env` are exactly `0`, ..., `s - 1`.
pub open spec fn spills_exactly(env: Map<Seq<char>, VarLocation>, s: int) -> bool {
    &&& forall|a: Seq<char>| #[trigger] env.contains_key(a) ==> (env[a] matches VarLocation::Spill(n) ==> 0 <= n < s)
    &&& forall|n: int| 0 <= n < s ==> #[trigger] slot_used(env, n)
}

/// Colours the conflict graph with the given registers, spilling to the
/// stack the variables that find no register: a variable of the graph
/// gets a register or a spill slot of its own, and two that conflict
/// never share one; the spill slots are numbered from 0 without gaps;
/// with distinct registers, a variable with fewer conflicts than there are
/// registers is never spilled. Which of several candidates is taken out
/// first is chosen at random, so the result may differ from run to run.
/// Each round colours greedily (`greedy`: the least free register) in an
/// order made of simplification steps; when that fails it spills the vertex
/// with the most conflicts among those left at the point of failure
/// (`spilled_in_round`, on the graph without the variables spilled before),
/// and the last round colours what is not spilled (`colored_in_round`).
#[verifier::loop_isolation(false)]
pub fn allocate_registers(conflicts: Graph<String>, registers: &[Reg]) -> (env: VecMap<String, VarLocation>)
    requires
        conflicts@.dom().len() < 0x7fff_ffff,
    ensures
        proper_coloring(conflicts@, env@, registers@),
        forall|a: Seq<char>| #[trigger] env@.contains_key(a) ==> (env@[a] matches VarLocation::Spill(n) ==> n < conflicts@.dom().len()),
        exists|s: int| 0 <= s <= conflicts@.dom().len() && spills_exactly(env@, s),
        registers@.no_duplicates() ==> forall|a: Seq<char>| #[trigger] env@.contains_key(a) && deg(conflicts@, a) < registers@.len()
            ==> env@[a] is Reg,
        forall|a: Seq<char>| #[trigger] env@.contains_key(a) ==> (env@[a] matches VarLocation::Spill(n)
            ==> spilled_in_round(minus(conflicts@, spilled_before(env@, n as int)), a, registers@)),
        colored_in_round(minus(conflicts@, spilled(env@)), env@.remove_keys(spilled(env@)), registers@),
{
    let ghost g0 = conflicts@;
    let mut conflicts = conflicts;
    conflicts.lemma_undirected();
    let vs0 = conflicts.vertices();
    proof {
        vstd::seq_lib::seq_to_set_is_finite(views(vs0@));
        conflicts.lemma_finite_neighbors();
    }
    let k = registers.len();
    let mut spill_cnt: i32 = 0;
    let mut env: VecMap<String, VarLocation> = VecMap::new();
    loop
        invariant
            symmetric(g0),
            g0.dom().finite(),
            g0.dom().len() < 0x7fff_ffff,
            conflicts@.dom() == g0.dom().difference(env@.dom()),
            env@.dom().subset_of(g0.dom()),
            forall|a: Seq<char>| #[trigger] conflicts@.contains_key(a) ==> conflicts@[a] == g0[a].difference(env@.dom()),
            forall|a: Seq<char>| #[trigger] env@.contains_key(a) ==> (env@[a] matches VarLocation::Spill(n) && 0 <= n < spill_cnt),
            forall|a: Seq<char>, b: Seq<char>| #[trigger] env@.contains_key(a) && #[trigger] env@.contains_key(b) && a != b
                ==> env@[a] != env@[b],
            env@.dom().finite(),
            spill_cnt == env@.dom().len(),
            forall|a: Seq<char>| #[trigger] g0.contains_key(a) ==> g0[a].finite(),
            forall|n: int| 0 <= n < spill_cnt ==> #[trigger] slot_used(env@, n),
            registers@.no_duplicates() ==> forall|a: Seq<char>| #[trigger] env@.contains_key(a) ==> g0[a].len() >= registers@.len(),
            forall|a: Seq<char>| #[trigger] env@.contains_key(a) ==> (env@[a] matches VarLocation::Spill(n)
                ==> spilled_in_round(minus(g0, spilled_before(env@, n as int)), a, registers@)),
        decreases conflicts@.dom().len(),
    {
        conflicts.lemma_undirected();
        let stack = simplify_order(&conflicts, k);
        let ghost order = views(stack@);
        proof {
            assert(conflicts@ =~= minus(g0, env@.dom())) by {
                assert forall|a: Seq<char>| #[trigger] conflicts@.contains_key(a) implies conflicts@[a] == minus(g0, env@.dom())[a] by {}
            }
            assert(spilled(env@) =~= env@.dom());
        }
        match color(&conflicts, stack, registers) {
            Ok(env_try) => {
                let ghost e0 = env@;
                env.extend(&env_try);
                proof {
                    let e = env@;
                    let t = env_try@;
                    assert(spilled(e) =~= e0.dom()) by {
                        assert forall|a: Seq<char>| #[trigger] spilled(e).contains(a) <==> e0.dom().contains(a) by {
                            if t.contains_key(a) {
                                assert(t[a] is Reg);
                            }
                        }
                    }
                    assert(e.remove_keys(spilled(e)) =~= t);
                    assert(colored_in_round(minus(g0, spilled(e)), e.remove_keys(spilled(e)), registers@)) by {
                        assert(simplify_sequence(conflicts@, order, registers@.len() as nat));
                    }
                    assert forall|a: Seq<char>| #[trigger] e.contains_key(a) implies (e[a] matches VarLocation::Spill(n)
                        ==> spilled_in_round(minus(g0, spilled_before(e, n as int)), a, registers@)) by {
                        if let VarLocation::Spill(n) = e[a] {
                            if t.contains_key(a) {
                                assert(t[a] is Reg);
                            }
                            assert(e0.contains_key(a));
                            assert(spilled_before(e, n as int) =~= spilled_before(e0, n as int)) by {
                                assert forall|b: Seq<char>| #[trigger] spilled_before(e, n as int).contains(b) <==> spilled_before(e0, n as int).contains(b) by {
                                    if t.contains_key(b) {
                                        assert(t[b] is Reg);
                                    }
                                }
                            }
                        }
                    }
                    assert(e.dom() =~= g0.dom());
                    assert forall|a: Seq<char>, b: Seq<char>| g0.contains_key(a) && g0.contains_key(b) && #[trigger] g0[a].contains(b) && a != b
                        implies e[a] != e[b] by {
                        if t.contains_key(a) && t.contains_key(b) {
                            assert(conflicts@[a].contains(b));
                        } else if t.contains_key(a) {
                            assert(e0.contains_key(b));
                        } else if t.contains_key(b) {
                            assert(e0.contains_key(a));
                        } else {
                            assert(e0.contains_key(a) && e0.contains_key(b));
                        }
                    }
                    assert forall|a: Seq<char>, b: Seq<char>| #[trigger] e.contains_key(a) && #[trigger] e.contains_key(b) && a != b
                        && e[a] is Spill implies e[a] != e[b] by {
                        if t.contains_key(a) {
                            assert(t[a] is Reg);
                        } else if !t.contains_key(b) {
                            assert(e0.contains_key(a) && e0.contains_key(b));
                        }
                    }
                    assert forall|a: Seq<char>| #[trigger] e.contains_key(a) implies (e[a] matches VarLocation::Reg(r) ==> registers@.contains(r)) by {
                        if t.contains_key(a) {
                        } else {
                            assert(e0.contains_key(a));
                        }
                    }
                    assert forall|a: Seq<char>| #[trigger] e.contains_key(a) implies (e[a] matches VarLocation::Spill(n) ==> n >= 0) by {
                        if !t.contains_key(a) {
                            assert(e0.contains_key(a));
                        }
                    }
                    vstd::set_lib::lemma_len_subset(e0.dom(), g0.dom());
                    assert forall|a: Seq<char>| #[trigger] e.contains_key(a) implies (e[a] matches VarLocation::Spill(n) ==> n < g0.dom().len()) by {
                        if !t.contains_key(a) {
                            assert(e0.contains_key(a));
                        }
                    }
                    assert(spills_exactly(e, spill_cnt as int)) by {
                        assert forall|a: Seq<char>| #[trigger] e.contains_key(a) implies (e[a] matches VarLocation::Spill(n) ==> 0 <= n < spill_cnt) by {
                            if !t.contains_key(a) {
                                assert(e0.contains_key(a));
                            }
                        }
                        assert forall|n: int| 0 <= n < spill_cnt implies #[trigger] slot_used(e, n) by {
                            assert(slot_used(e0, n));
                            let a = choose|a: Seq<char>| #[trigger] e0.contains_key(a) && e0[a] == VarLocation::Spill(n as i32);
                            assert(!t.contains_key(a));
                            assert(e.contains_key(a) && e[a] == VarLocation::Spill(n as i32));
                        }
                    }
                    if registers@.no_duplicates() {
                        assert forall|a: Seq<char>| #[trigger] e.contains_key(a) && deg(g0, a) < registers@.len() implies e[a] is Reg by {
                            if !t.contains_key(a) {
                                assert(e0.contains_key(a));
                            }
                        }
                    }
                }
                return env;
            },
            Err(vtx_spill) => {
                let ghost c0 = conflicts@;
                let ghost e0 = env@;
                let _ = conflicts.remove_vertex(&vtx_spill);
                proof {
                    assert(c0.contains_key(vtx_spill@));
                    assert(!e0.contains_key(vtx_spill@));
                    vstd::set_lib::lemma_set_subset_finite(g0.dom(), c0.dom());
                    assert(conflicts@.dom() =~= c0.dom().remove(vtx_spill@));
                    assert(conflicts@.dom().len() == c0.dom().len() - 1);
                    vstd::set_lib::lemma_len_subset(e0.dom().insert(vtx_spill@), g0.dom());
                }
                proof {
                    if registers@.no_duplicates() {
                        assert(c0[vtx_spill@] == g0[vtx_spill@].difference(e0.dom()));
                        vstd::set_lib::lemma_len_subset(c0[vtx_spill@], g0[vtx_spill@]);
                    }
                }
                let ghost sc0 = spill_cnt;
                env.insert(vtx_spill, VarLocation::Spill(spill_cnt));
                spill_cnt = spill_cnt + 1;
                proof {
                    let e = env@;
                    let v = vtx_spill@;
                    assert(spilled_in_round(minus(g0, e0.dom()), v, registers@)) by {
                        let tt = choose|tt: int| {
                            &&& 0 <= tt < order.len()
                            &&& greedy(c0, order, registers@) == Err::<Map<Seq<char>, VarLocation>, int>(tt)
                            &&& order.subrange(0, tt + 1).contains(v)
                            &&& forall|w: Seq<char>| #[trigger] order.subrange(0, tt + 1).contains(w) ==> deg(c0, w) <= deg(c0, v)
                        };
                        assert(simplify_sequence(c0, order, registers@.len() as nat));
                        assert(fails_at(c0, order, registers@, tt));
                    }
                    assert forall|a: Seq<char>| #[trigger] e.contains_key(a) implies (e[a] matches VarLocation::Spill(n)
                        ==> spilled_in_round(minus(g0, spilled_before(e, n as int)), a, registers@)) by {
                        if let VarLocation::Spill(n) = e[a] {
                            if a == v {
                                assert(spilled_before(e, n as int) =~= e0.dom()) by {
                                    assert forall|b: Seq<char>| #[trigger] spilled_before(e, n as int).contains(b) <==> e0.dom().contains(b) by {
                                        if e0.contains_key(b) {
                                            assert(b != v);
                                        }
                                    }
                                }
                            } else {
                                assert(e0.contains_key(a));
                                assert(spilled_before(e, n as int) =~= spilled_before(e0, n as int)) by {
                                    assert forall|b: Seq<char>| #[trigger] spilled_before(e, n as int).contains(b) <==> spilled_before(e0, n as int).contains(b) by {
                                        if b == v {
                                            assert(e0[a] matches VarLocation::Spill(m) && m < sc0);
                                        }
                                    }
                                }
                            }
                        }
                    }
                    assert forall|n: int| 0 <= n < spill_cnt implies #[trigger] slot_used(e, n) by {
                        if n < sc0 {
                            assert(slot_used(e0, n));
                            let a = choose|a: Seq<char>| #[trigger] e0.contains_key(a) && e0[a] == VarLocation::Spill(n as i32);
                            assert(e.contains_key(a) && e[a] == VarLocation::Spill(n as i32));
                        } else {
                            assert(e.contains_key(vtx_spill@) && e[vtx_spill@] == VarLocation::Spill(n as i32));
                        }
                    }
                    assert(conflicts@.dom() =~= g0.dom().difference(e.dom()));
                    assert forall|a: Seq<char>| #[trigger] conflicts@.contains_key(a) implies conflicts@[a] == g0[a].difference(e.dom()) by {
                        assert(conflicts@[a] =~= g0[a].difference(e.dom()));
                    }
                    vstd::set_lib::lemma_set_remove_finite_iff(c0.dom(), vtx_spill@);
                }
            },
        }
    }
}

/// A copy of a list of registers.
pub fn copy_regs(rs: &Vec<Reg>) -> (r: Vec<Reg>)
    ensures
        r@ == rs@,
{
    let mut r: Vec<Reg> = Vec::new();
    let mut i: usize = 0;
    while i < rs.len()
        invariant
            i <= rs@.len(),
            r@ == rs@.subrange(0, i as int),
        decreases rs@.len() - i,
    {
        r.push(rs[i]);
        proof { assert(r@ =~= rs@.subrange(0, i + 1)); }
        i = i + 1;
    }
    proof { assert(r@ =~= rs@); }
    r
}

} // verus!
