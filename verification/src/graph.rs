//! An undirected graph, as a map from each vertex to the set of its
//! neighbours.
use vstd::prelude::*;
use crate::view_eq::ViewEq;
use crate::vecset::{VecSet, views};

verus! {

/// Edges go both ways: `b` is a neighbour of `a` exactly when `a` is one
/// of `b`, and neighbours are vertices.
pub open spec fn symmetric<K>(m: Map<K, Set<K>>) -> bool {
    forall|a: K, b: K| #[trigger] m.contains_key(a) && #[trigger] m[a].contains(b)
        ==> m.contains_key(b) && m[b].contains(a)
}

/// `m` with the vertex `v` added (with no neighbours) if it was not there.
pub open spec fn with_vertex<K>(m: Map<K, Set<K>>, v: K) -> Map<K, Set<K>> {
    if m.contains_key(v) { m } else { m.insert(v, Set::empty()) }
}

/// `m` with the undirected edge between `a` and `b` added.
pub open spec fn with_edge<K>(m: Map<K, Set<K>>, a: K, b: K) -> Map<K, Set<K>> {
    let m1 = with_vertex(with_vertex(m, a), b);
    let m2 = m1.insert(a, m1[a].insert(b));
    m2.insert(b, m2[b].insert(a))
}

/// `m` without the vertex `v` and the edges that touch it.
pub open spec fn without_vertex<K>(m: Map<K, Set<K>>, v: K) -> Map<K, Set<K>> {
    Map::new(|k: K| m.contains_key(k) && k != v, |k: K| m[k].remove(v))
}

pub open spec fn has_key<V: View>(s: Seq<(V, VecSet<V>)>, k: V::V) -> bool
    where V: ViewEq,
{
    exists|i: int| 0 <= i < s.len() && #[trigger] s[i].0@ == k
}

pub open spec fn key_index<V: View>(s: Seq<(V, VecSet<V>)>, k: V::V) -> int
    where V: ViewEq,
{
    choose|i: int| 0 <= i < s.len() && #[trigger] s[i].0@ == k
}

pub open spec fn entries_map<V: ViewEq>(s: Seq<(V, VecSet<V>)>) -> Map<V::V, Set<V::V>> {
    Map::new(|k: V::V| has_key(s, k), |k: V::V| s[key_index(s, k)].1@)
}

pub open spec fn distinct_keys<V: ViewEq>(s: Seq<(V, VecSet<V>)>) -> bool {
    forall|i: int, j: int| 0 <= i < s.len() && 0 <= j < s.len() && i != j
        ==> #[trigger] s[i].0@ != #[trigger] s[j].0@
}

/// A map built from a list of entries has finitely many keys.
proof fn lemma_dom_finite<V: ViewEq>(s: Seq<(V, VecSet<V>)>)
    ensures
        entries_map(s).dom().finite(),
{
    let ks = s.map_values(|e: (V, VecSet<V>)| e.0@);
    assert forall|k: V::V| #[trigger] entries_map(s).dom().contains(k) implies ks.to_set().contains(k) by {
        let i = key_index(s, k);
        assert(ks[i] == k);
    }
    vstd::seq_lib::seq_to_set_is_finite(ks);
    vstd::set_lib::lemma_set_subset_finite(ks.to_set(), entries_map(s).dom());
}

proof fn lemma_entry<V: ViewEq>(s: Seq<(V, VecSet<V>)>, i: int)
    requires
        distinct_keys(s),
        0 <= i < s.len(),
    ensures
        entries_map(s).contains_key(s[i].0@),
        entries_map(s)[s[i].0@] == s[i].1@,
{
    assert(has_key(s, s[i].0@));
    let j = key_index(s, s[i].0@);
    assert(s[j].0@ == s[i].0@);
}

proof fn lemma_update<V: ViewEq>(s: Seq<(V, VecSet<V>)>, i: int, e: (V, VecSet<V>))
    requires
        distinct_keys(s),
        0 <= i < s.len(),
        e.0@ == s[i].0@,
    ensures
        distinct_keys(s.update(i, e)),
        entries_map(s.update(i, e)) == entries_map(s).insert(e.0@, e.1@),
{
    let t = s.update(i, e);
    assert(distinct_keys(t)) by {
        assert forall|a: int, b: int| 0 <= a < t.len() && 0 <= b < t.len() && a != b
            implies #[trigger] t[a].0@ != #[trigger] t[b].0@ by {
            assert(t[a].0@ == s[a].0@);
            assert(t[b].0@ == s[b].0@);
        }
    }
    let m = entries_map(s).insert(e.0@, e.1@);
    assert forall|k: V::V| #[trigger] entries_map(t).contains_key(k) <==> m.contains_key(k) by {
        if has_key(t, k) {
            let j = key_index(t, k);
            assert(s[j].0@ == k);
            lemma_entry(s, j);
        }
        if entries_map(s).contains_key(k) {
            let j = key_index(s, k);
            assert(t[j].0@ == k);
        }
        if k == e.0@ {
            assert(t[i].0@ == k);
        }
    }
    assert forall|k: V::V| #[trigger] entries_map(t).contains_key(k) implies entries_map(t)[k] == m[k] by {
        let j = key_index(t, k);
        lemma_entry(t, j);
        if j != i {
            assert(s[j].0@ == k);
            lemma_entry(s, j);
        }
    }
    assert(entries_map(t) =~= m);
}

proof fn lemma_push<V: ViewEq>(s: Seq<(V, VecSet<V>)>, e: (V, VecSet<V>))
    requires
        distinct_keys(s),
        !has_key(s, e.0@),
    ensures
        distinct_keys(s.push(e)),
        entries_map(s.push(e)) == entries_map(s).insert(e.0@, e.1@),
{
    let t = s.push(e);
    assert(distinct_keys(t)) by {
        assert forall|a: int, b: int| 0 <= a < t.len() && 0 <= b < t.len() && a != b
            implies #[trigger] t[a].0@ != #[trigger] t[b].0@ by {
            if a < s.len() { assert(t[a] == s[a]); }
            if b < s.len() { assert(t[b] == s[b]); }
        }
    }
    let m = entries_map(s).insert(e.0@, e.1@);
    assert forall|k: V::V| #[trigger] entries_map(t).contains_key(k) <==> m.contains_key(k) by {
        if has_key(t, k) {
            let j = key_index(t, k);
            if j < s.len() {
                assert(s[j].0@ == k);
            }
        }
        if entries_map(s).contains_key(k) {
            let j = key_index(s, k);
            assert(t[j].0@ == k);
        }
        if k == e.0@ {
            assert(t[s.len() as int].0@ == k);
        }
    }
    assert forall|k: V::V| #[trigger] entries_map(t).contains_key(k) implies entries_map(t)[k] == m[k] by {
        let j = key_index(t, k);
        lemma_entry(t, j);
        if j < s.len() {
            assert(t[j] == s[j]);
            lemma_entry(s, j);
        }
    }
    assert(entries_map(t) =~= m);
}

proof fn lemma_remove<V: ViewEq>(s: Seq<(V, VecSet<V>)>, i: int)
    requires
        distinct_keys(s),
        0 <= i < s.len(),
    ensures
        distinct_keys(s.remove(i)),
        entries_map(s.remove(i)) == entries_map(s).remove(s[i].0@),
{
    let t = s.remove(i);
    let sh = |a: int| if a < i { a } else { a + 1 };
    assert(distinct_keys(t)) by {
        assert forall|a: int, b: int| 0 <= a < t.len() && 0 <= b < t.len() && a != b
            implies #[trigger] t[a].0@ != #[trigger] t[b].0@ by {
            assert(t[a] == s[sh(a)]);
            assert(t[b] == s[sh(b)]);
        }
    }
    let m = entries_map(s).remove(s[i].0@);
    assert forall|k: V::V| #[trigger] entries_map(t).contains_key(k) <==> m.contains_key(k) by {
        if has_key(t, k) {
            let j = key_index(t, k);
            assert(t[j] == s[sh(j)]);
            assert(s[sh(j)].0@ == k);
        }
        if m.contains_key(k) {
            let j = key_index(s, k);
            assert(j != i);
            if j < i {
                assert(t[j] == s[j]);
            } else {
                assert(t[j - 1] == s[j]);
            }
        }
    }
    assert forall|k: V::V| #[trigger] entries_map(t).contains_key(k) implies entries_map(t)[k] == m[k] by {
        let j = key_index(t, k);
        lemma_entry(t, j);
        assert(t[j] == s[sh(j)]);
        lemma_entry(s, sh(j));
    }
    assert(entries_map(t) =~= m);
}

/// Finds the entry of the vertex with the view `k`.
fn find<V: ViewEq>(g: &Vec<(V, VecSet<V>)>, k: &V) -> (r: Option<usize>)
    requires
        distinct_keys(g@),
    ensures
        r is None <==> !has_key(g@, k@),
        r matches Some(i) ==> i < g@.len() && g@[i as int].0@ == k@,
{
    let mut i: usize = 0;
    while i < g.len()
        invariant
            i <= g@.len(),
            forall|j: int| 0 <= j < i ==> g@[j].0@ != k@,
        decreases g@.len() - i,
    {
        if g[i].0.eq_view(k) {
            return Some(i);
        }
        i = i + 1;
    }
    proof {
        assert forall|j: int| 0 <= j < g@.len() implies #[trigger] g@[j].0@ != k@ by {}
    }
    None
}

/// An undirected graph. Represented as a map from vertices to the set of
/// adjacent vertices; `v1` is among the neighbours of `v2` exactly when
/// `v2` is among those of `v1`.
#[derive(Debug)]
pub struct Graph<V: ViewEq> {
    g: Vec<(V, VecSet<V>)>,
}

impl<V: ViewEq> View for Graph<V> {
    type V = Map<V::V, Set<V::V>>;

    closed spec fn view(&self) -> Map<V::V, Set<V::V>> {
        entries_map(self.g@)
    }
}

impl<V: ViewEq> Graph<V> {
    #[verifier::type_invariant]
    spec fn inv(self) -> bool {
        &&& distinct_keys(self.g@)
        &&& symmetric(entries_map(self.g@))
    }

    /// The empty graph.
    pub fn new() -> (g: Graph<V>)
        ensures
            g@ == Map::<V::V, Set<V::V>>::empty(),
            g@.dom().finite(),
    {
        let g = Graph { g: Vec::new() };
        proof {
            assert(entries_map(g.g@) =~= Map::<V::V, Set<V::V>>::empty());
        }
        g
    }

    /// A graph with the same vertices and edges.
    pub fn copy(&self) -> (r: Graph<V>)
        ensures
            r@ == self@,
    {
        proof { use_type_invariant(self); }
        let mut es: Vec<(V, VecSet<V>)> = Vec::new();
        let mut i: usize = 0;
        while i < self.g.len()
            invariant
                i <= self.g@.len(),
                es@.len() == i,
                distinct_keys(self.g@),
                forall|j: int| 0 <= j < i ==> (#[trigger] es@[j]).0@ == self.g@[j].0@ && es@[j].1@ == self.g@[j].1@,
            decreases self.g@.len() - i,
        {
            es.push((self.g[i].0.copy_view(), self.g[i].1.copy_view()));
            i = i + 1;
        }
        proof {
            let s = self.g@;
            let t = es@;
            assert(distinct_keys(t)) by {
                assert forall|a: int, b: int| 0 <= a < t.len() && 0 <= b < t.len() && a != b
                    implies #[trigger] t[a].0@ != #[trigger] t[b].0@ by {
                    assert(s[a].0@ != s[b].0@);
                }
            }
            assert forall|k: V::V| #[trigger] entries_map(t).contains_key(k) <==> entries_map(s).contains_key(k) by {
                if has_key(t, k) {
                    let j = key_index(t, k);
                    assert(s[j].0@ == k);
                }
                if has_key(s, k) {
                    let j = key_index(s, k);
                    assert(t[j].0@ == k);
                }
            }
            assert forall|k: V::V| #[trigger] entries_map(t).contains_key(k) implies entries_map(t)[k] == entries_map(s)[k] by {
                let j = key_index(t, k);
                lemma_entry(t, j);
                assert(s[j].0@ == k);
                lemma_entry(s, j);
            }
            assert(entries_map(t) =~= entries_map(s));
        }
        Graph { g: es }
    }

    /// A graph has finitely many vertices, each with finitely many
    /// neighbours.
    pub proof fn lemma_finite_neighbors(self)
        ensures
            self@.dom().finite(),
            forall|k: V::V| #[trigger] self@.contains_key(k) ==> self@[k].finite(),
    {
        lemma_dom_finite(self.g@);
        assert forall|k: V::V| #[trigger] self@.contains_key(k) implies self@[k].finite() by {
            let j = key_index(self.g@, k);
            self.g@[j].1.lemma_view_finite();
        }
    }

    /// Every graph is undirected.
    pub fn lemma_undirected(&self)
        ensures
            symmetric(self@),
    {
        proof { use_type_invariant(self); }
    }

    /// Inserts a vertex (with no edges) if it is not already there.
    pub fn insert_vertex(&mut self, v: V)
        ensures
            final(self)@ == with_vertex(old(self)@, v@),
            final(self)@.dom().finite(),
            final(self)@.dom().len() == old(self)@.dom().len() + (if old(self)@.contains_key(v@) { 0int } else { 1int }),
    {
        proof { use_type_invariant(&*self); lemma_dom_finite(self.g@); }
        let mut g: Vec<(V, VecSet<V>)> = Vec::new();
        std::mem::swap(&mut g, &mut self.g);
        match find(&g, &v) {
            Some(_) => {},
            None => {
                let ghost old_g = g@;
                let e = (v, VecSet::new());
                proof {
                    lemma_push(old_g, e);
                }
                g.push(e);
                proof {
                    let m = entries_map(old_g);
                    let m2 = entries_map(g@);
                    assert forall|a: V::V, b: V::V| #[trigger] m2.contains_key(a) && #[trigger] m2[a].contains(b)
                        implies m2.contains_key(b) && m2[b].contains(a) by {
                        assert(a != v@);
                        assert(m.contains_key(a) && m[a].contains(b));
                        assert(b != v@);
                    }
                }
            },
        }
        proof { lemma_dom_finite(g@); }
        self.g = g;
    }

    /// Adds `x` to the neighbours of the vertex at entry `i`.
    fn add_neighbour(g: &mut Vec<(V, VecSet<V>)>, i: usize, x: V)
        requires
            distinct_keys(old(g)@),
            i < old(g)@.len(),
        ensures
            distinct_keys(final(g)@),
            entries_map(final(g)@) == entries_map(old(g)@).insert(
                old(g)@[i as int].0@,
                entries_map(old(g)@)[old(g)@[i as int].0@].insert(x@),
            ),
    {
        proof { lemma_entry(old(g)@, i as int); }
        let ghost s = g@;
        let mut e = g.remove(i);
        let _ = e.1.insert(x);
        proof {
            assert(s.remove(i as int).insert(i as int, e) =~= s.update(i as int, e));
            lemma_update(s, i as int, e);
        }
        g.insert(i, e);
    }

    /// Inserts an (undirected) edge between `v1` and `v2`, adding the
    /// vertices first where they are missing.
    pub fn insert_edge(&mut self, v1: V, v2: V)
        ensures
            final(self)@ == with_edge(old(self)@, v1@, v2@),
            final(self)@.dom().finite(),
    {
        self.insert_vertex(v1.copy_view());
        self.insert_vertex(v2.copy_view());
        proof { use_type_invariant(&*self); }
        let ghost m1 = self@;
        assert(m1.contains_key(v1@) && m1.contains_key(v2@));
        let mut g: Vec<(V, VecSet<V>)> = Vec::new();
        std::mem::swap(&mut g, &mut self.g);
        assert(entries_map(g@) == m1);
        assert(has_key(g@, v1@));
        let i1 = find(&g, &v1).unwrap();
        Self::add_neighbour(&mut g, i1, v2.copy_view());
        let ghost m2 = entries_map(g@);
        assert(m2.contains_key(v2@));
        assert(has_key(g@, v2@));
        let i2 = find(&g, &v2).unwrap();
        Self::add_neighbour(&mut g, i2, v1);
        proof {
            let m3 = entries_map(g@);
            assert(m3 == m2.insert(v2@, m2[v2@].insert(v1@)));
            assert forall|a: V::V, b: V::V| #[trigger] m3.contains_key(a) && #[trigger] m3[a].contains(b)
                implies m3.contains_key(b) && m3[b].contains(a) by {
                if !(a == v1@ && b == v2@) && !(a == v2@ && b == v1@) {
                    assert(m1.contains_key(a) && m1[a].contains(b));
                    assert(m1.contains_key(b) && m1[b].contains(a));
                }
            }
            lemma_dom_finite(g@);
        }
        self.g = g;
    }

    /// All the vertices of the graph, each once.
    pub fn vertices(&self) -> (vs: Vec<V>)
        ensures
            views(vs@).to_set() == self@.dom(),
            views(vs@).no_duplicates(),
            vs@.len() == self@.dom().len(),
    {
        proof { use_type_invariant(self); }
        let mut vs: Vec<V> = Vec::new();
        let mut i: usize = 0;
        while i < self.g.len()
            invariant
                i <= self.g@.len(),
                distinct_keys(self.g@),
                vs@.len() == i,
                forall|j: int| 0 <= j < i ==> #[trigger] vs@[j]@ == self.g@[j].0@,
            decreases self.g@.len() - i,
        {
            vs.push(self.g[i].0.copy_view());
            i = i + 1;
        }
        proof {
            let ks = views(vs@);
            assert forall|k: V::V| ks.contains(k) <==> self@.dom().contains(k) by {
                if ks.contains(k) {
                    let j = choose|j: int| 0 <= j < ks.len() && ks[j] == k;
                    lemma_entry(self.g@, j);
                }
                if self@.dom().contains(k) {
                    let j = key_index(self.g@, k);
                    assert(ks[j] == k);
                }
            }
            assert(ks.to_set() =~= self@.dom());
            assert(ks.no_duplicates()) by {
                assert forall|a: int, b: int| 0 <= a < ks.len() && 0 <= b < ks.len() && a != b
                    implies ks[a] != ks[b] by {
                    assert(self.g@[a].0@ != self.g@[b].0@);
                }
            }
            ks.unique_seq_to_set();
        }
        vs
    }

    /// The neighbours of `v`, or `None` when `v` is not a vertex.
    pub fn neighbors(&self, v: &V) -> (r: Option<&VecSet<V>>)
        ensures
            r is Some <==> self@.contains_key(v@),
            r matches Some(ns) ==> ns@ == self@[v@],
    {
        proof { use_type_invariant(self); }
        match find(&self.g, v) {
            Some(i) => {
                proof { lemma_entry(self.g@, i as int); }
                Some(&self.g[i].1)
            },
            None => None,
        }
    }

    /// Removes a vertex and its edges; tells whether it was present.
    pub fn remove_vertex(&mut self, v: &V) -> (was_there: bool)
        ensures
            final(self)@ == without_vertex(old(self)@, v@),
            was_there == old(self)@.contains_key(v@),
            final(self)@.dom().finite(),
            final(self)@.dom().len() == old(self)@.dom().len() - (if was_there { 1int } else { 0int }),
    {
        proof { use_type_invariant(&*self); lemma_dom_finite(self.g@); }
        let ghost m0 = self@;
        let mut g: Vec<(V, VecSet<V>)> = Vec::new();
        std::mem::swap(&mut g, &mut self.g);
        let ans = match find(&g, v) {
            Some(i) => {
                proof { lemma_remove(g@, i as int); }
                let _ = g.remove(i);
                true
            },
            None => {
                proof {
                    assert(entries_map(g@).remove(v@) =~= entries_map(g@));
                }
                false
            },
        };
        let ghost m1 = entries_map(g@);
        assert(m1 == m0.remove(v@));
        let n = g.len();
        let mut i: usize = 0;
        while i < n
            invariant
                n == g@.len(),
                i <= n,
                distinct_keys(g@),
                entries_map(g@).dom() == m1.dom(),
                forall|j: int| 0 <= j < n ==> (#[trigger] g@[j]).0@ != v@,
                forall|j: int| 0 <= j < i ==> (#[trigger] g@[j]).1@ == m1[g@[j].0@].remove(v@),
                forall|j: int| i <= j < n ==> (#[trigger] g@[j]).1@ == m1[g@[j].0@],
            decreases n - i,
        {
            let ghost s = g@;
            let mut e = g.remove(i);
            let _ = e.1.remove(v);
            proof {
                assert(s.remove(i as int).insert(i as int, e) =~= s.update(i as int, e));
                lemma_update(s, i as int, e);
                lemma_entry(s, i as int);
            }
            g.insert(i, e);
            proof {
                assert forall|j: int| 0 <= j < n implies (#[trigger] g@[j]).0@ == s[j].0@ by {}
            }
            i = i + 1;
        }
        proof {
            let m2 = entries_map(g@);
            let want = without_vertex(m0, v@);
            assert forall|k: V::V| #[trigger] m2.contains_key(k) implies m2[k] == want[k] by {
                let j = key_index(g@, k);
                lemma_entry(g@, j);
            }
            assert(m2 =~= want);
            assert forall|a: V::V, b: V::V| #[trigger] m2.contains_key(a) && #[trigger] m2[a].contains(b)
                implies m2.contains_key(b) && m2[b].contains(a) by {
                assert(m0.contains_key(a) && m0[a].contains(b));
            }
            lemma_dom_finite(g@);
        }
        self.g = g;
        ans
    }

    /// The number of vertices.
    pub fn num_vertices(&self) -> (n: usize)
        ensures
            n == self@.dom().len(),
            self@.dom().finite(),
    {
        proof { lemma_dom_finite(self.g@); }
        let vs = self.vertices();
        vs.len()
    }

    /// Whether there is an edge between `v1` and `v2`.
    pub fn contains_edge(&self, v1: &V, v2: &V) -> (b: bool)
        ensures
            b == (self@.contains_key(v1@) && self@[v1@].contains(v2@)),
    {
        match self.neighbors(v1) {
            Some(ns) => ns.contains(v2),
            None => false,
        }
    }
}

} // verus!
