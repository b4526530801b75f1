//! A finite map kept as a vector of entries with distinct keys.
use vstd::prelude::*;
use crate::view_eq::ViewEq;

verus! {

pub open spec fn has_key<K: View, V>(s: Seq<(K, V)>, k: K::V) -> bool {
    exists|i: int| 0 <= i < s.len() && #[trigger] s[i].0@ == k
}

pub open spec fn key_index<K: View, V>(s: Seq<(K, V)>, k: K::V) -> int {
    choose|i: int| 0 <= i < s.len() && #[trigger] s[i].0@ == k
}

pub open spec fn entries_map<K: View, V>(s: Seq<(K, V)>) -> Map<K::V, V> {
    Map::new(|k: K::V| has_key(s, k), |k: K::V| s[key_index(s, k)].1)
}

pub open spec fn distinct_keys<K: View, V>(s: Seq<(K, V)>) -> bool {
    forall|i: int, j: int| 0 <= i < s.len() && 0 <= j < s.len() && i != j
        ==> #[trigger] s[i].0@ != #[trigger] s[j].0@
}

pub proof fn lemma_entry<K: View, V>(s: Seq<(K, V)>, i: int)
    requires
        distinct_keys(s),
        0 <= i < s.len(),
    ensures
        entries_map(s).contains_key(s[i].0@),
        entries_map(s)[s[i].0@] == s[i].1,
{
    assert(has_key(s, s[i].0@));
    let j = key_index(s, s[i].0@);
    assert(s[j].0@ == s[i].0@);
}

/// Entries with distinct keys make a map with one key for each entry.
pub proof fn lemma_entries_size<K: View, V>(s: Seq<(K, V)>)
    requires
        distinct_keys(s),
    ensures
        entries_map(s).dom().finite(),
        entries_map(s).dom().len() == s.len(),
{
    let ks = s.map_values(|e: (K, V)| e.0@);
    assert(ks.no_duplicates()) by {
        assert forall|i: int, j: int| 0 <= i < ks.len() && 0 <= j < ks.len() && i != j implies ks[i] != ks[j] by {
            assert(ks[i] == s[i].0@);
            assert(ks[j] == s[j].0@);
        }
    }
    ks.unique_seq_to_set();
    assert forall|k: K::V| #[trigger] entries_map(s).dom().contains(k) <==> ks.to_set().contains(k) by {
        if has_key(s, k) {
            let i = key_index(s, k);
            assert(ks[i] == k);
        }
        if ks.to_set().contains(k) {
            let i = choose|i: int| 0 <= i < ks.len() && ks[i] == k;
            assert(s[i].0@ == k);
        }
    }
    assert(entries_map(s).dom() =~= ks.to_set());
    vstd::seq_lib::seq_to_set_is_finite(ks);
}

proof fn lemma_update<K: View, V>(s: Seq<(K, V)>, i: int, e: (K, V))
    requires
        distinct_keys(s),
        0 <= i < s.len(),
        e.0@ == s[i].0@,
    ensures
        distinct_keys(s.update(i, e)),
        entries_map(s.update(i, e)) == entries_map(s).insert(e.0@, e.1),
{
    let t = s.update(i, e);
    assert(distinct_keys(t)) by {
        assert forall|a: int, b: int| 0 <= a < t.len() && 0 <= b < t.len() && a != b
            implies #[trigger] t[a].0@ != #[trigger] t[b].0@ by {
            assert(t[a].0@ == s[a].0@);
            assert(t[b].0@ == s[b].0@);
        }
    }
    let m = entries_map(s).insert(e.0@, e.1);
    assert forall|k: K::V| #[trigger] entries_map(t).contains_key(k) <==> m.contains_key(k) by {
        if has_key(t, k) {
            let j = key_index(t, k);
            assert(s[j].0@ == k);
        }
        if entries_map(s).contains_key(k) {
            let j = key_index(s, k);
            assert(t[j].0@ == k);
        }
        if k == e.0@ {
            assert(t[i].0@ == k);
        }
    }
    assert forall|k: K::V| #[trigger] entries_map(t).contains_key(k) implies entries_map(t)[k] == m[k] by {
        let j = key_index(t, k);
        lemma_entry(t, j);
        if j != i {
            assert(s[j].0@ == k);
            lemma_entry(s, j);
        }
    }
    assert(entries_map(t) =~= m);
}

proof fn lemma_push<K: View, V>(s: Seq<(K, V)>, e: (K, V))
    requires
        distinct_keys(s),
        !has_key(s, e.0@),
    ensures
        distinct_keys(s.push(e)),
        entries_map(s.push(e)) == entries_map(s).insert(e.0@, e.1),
{
    let t = s.push(e);
    assert(distinct_keys(t)) by {
        assert forall|a: int, b: int| 0 <= a < t.len() && 0 <= b < t.len() && a != b
            implies #[trigger] t[a].0@ != #[trigger] t[b].0@ by {
            if a < s.len() { assert(t[a] == s[a]); }
            if b < s.len() { assert(t[b] == s[b]); }
        }
    }
    let m = entries_map(s).insert(e.0@, e.1);
    assert forall|k: K::V| #[trigger] entries_map(t).contains_key(k) <==> m.contains_key(k) by {
        if has_key(t, k) {
            let j = key_index(t, k);
            if j < s.len() {
                assert(s[j].0@ == k);
            }
        }
        if entries_map(s).contains_key(k) {
            let j = key_index(s, k);
            assert(t[j].0@ == k);
        }
        if k == e.0@ {
            assert(t[s.len() as int].0@ == k);
        }
    }
    assert forall|k: K::V| #[trigger] entries_map(t).contains_key(k) implies entries_map(t)[k] == m[k] by {
        let j = key_index(t, k);
        lemma_entry(t, j);
        if j < s.len() {
            assert(t[j] == s[j]);
            lemma_entry(s, j);
        }
    }
    assert(entries_map(t) =~= m);
}

/// A map from keys (told apart by their views) to values.
#[derive(Debug)]
pub struct VecMap<K: ViewEq, V> {
    entries: Vec<(K, V)>,
}

impl<K: ViewEq, V> View for VecMap<K, V> {
    type V = Map<K::V, V>;

    closed spec fn view(&self) -> Map<K::V, V> {
        entries_map(self.entries@)
    }
}

impl<K: ViewEq, V> VecMap<K, V> {
    #[verifier::type_invariant]
    spec fn inv(self) -> bool {
        distinct_keys(self.entries@)
    }

    pub closed spec fn entry_seq(self) -> Seq<(K, V)> {
        self.entries@
    }

    pub fn new() -> (m: Self)
        ensures
            m@ == Map::<K::V, V>::empty(),
    {
        let m = VecMap { entries: Vec::new() };
        proof { assert(entries_map(m.entries@) =~= Map::<K::V, V>::empty()); }
        m
    }

    fn find(&self, k: &K) -> (r: Option<usize>)
        ensures
            r is None <==> !self@.contains_key(k@),
            r matches Some(i) ==> i < self.entries@.len() && self.entries@[i as int].0@ == k@
                && self@[k@] == self.entries@[i as int].1,
    {
        proof { use_type_invariant(self); }
        let mut i: usize = 0;
        while i < self.entries.len()
            invariant
                i <= self.entries@.len(),
                distinct_keys(self.entries@),
                forall|j: int| 0 <= j < i ==> self.entries@[j].0@ != k@,
            decreases self.entries@.len() - i,
        {
            if self.entries[i].0.eq_view(k) {
                proof { lemma_entry(self.entries@, i as int); }
                return Some(i);
            }
            i = i + 1;
        }
        proof {
            assert forall|j: int| 0 <= j < self.entries@.len() implies #[trigger] self.entries@[j].0@ != k@ by {}
        }
        None
    }

    pub fn get(&self, k: &K) -> (r: Option<&V>)
        ensures
            r is Some <==> self@.contains_key(k@),
            r matches Some(v) ==> *v == self@[k@],
    {
        match self.find(k) {
            Some(i) => Some(&self.entries[i].1),
            None => None,
        }
    }

    pub fn contains_key(&self, k: &K) -> (b: bool)
        ensures
            b == self@.contains_key(k@),
    {
        self.find(k).is_some()
    }

    /// Binds `k` to `v`, replacing an earlier binding of `k`.
    pub fn insert(&mut self, k: K, v: V)
        ensures
            final(self)@ == old(self)@.insert(k@, v),
    {
        proof { use_type_invariant(&*self); }
        let found = self.find(&k);
        let mut es: Vec<(K, V)> = Vec::new();
        std::mem::swap(&mut es, &mut self.entries);
        let ghost s = es@;
        match found {
            Some(i) => {
                let e = (k, v);
                proof { lemma_update(s, i as int, e); }
                let _ = es.remove(i);
                es.insert(i, e);
                proof { assert(es@ =~= s.update(i as int, e)); }
            },
            None => {
                let e = (k, v);
                proof {
                    assert(!has_key(s, e.0@));
                    lemma_push(s, e);
                }
                es.push(e);
            },
        }
        self.entries = es;
    }

    /// The entries, each key once.
    pub fn entries(&self) -> (r: &Vec<(K, V)>)
        ensures
            r@ == self.entry_seq(),
            distinct_keys(r@),
            entries_map(r@) == self@,
    {
        proof { use_type_invariant(self); }
        &self.entries
    }

    pub fn len(&self) -> (n: usize)
        ensures
            n == self.entry_seq().len(),
    {
        self.entries.len()
    }
}

impl<K: ViewEq, V: Copy> VecMap<K, V> {
    /// Binds every key of `other` to its value there.
    pub fn extend(&mut self, other: &VecMap<K, V>)
        ensures
            final(self)@ == old(self)@.union_prefer_right(other@),
    {
        let es = other.entries();
        let mut i: usize = 0;
        while i < es.len()
            invariant
                i <= es@.len(),
                distinct_keys(es@),
                entries_map(es@) == other@,
                self@ == old(self)@.union_prefer_right(entries_map(es@.subrange(0, i as int))),
            decreases es@.len() - i,
        {
            let ghost pre = es@.subrange(0, i as int);
            let ghost post = es@.subrange(0, i + 1);
            self.insert(es[i].0.copy_view(), es[i].1);
            proof {
                assert(post =~= pre.push(es@[i as int]));
                assert(distinct_keys(pre)) by {
                    assert forall|a: int, b: int| 0 <= a < pre.len() && 0 <= b < pre.len() && a != b
                        implies #[trigger] pre[a].0@ != #[trigger] pre[b].0@ by {
                        assert(pre[a] == es@[a]);
                        assert(pre[b] == es@[b]);
                    }
                }
                assert(!has_key(pre, es@[i as int].0@)) by {
                    if has_key(pre, es@[i as int].0@) {
                        let j = choose|j: int| 0 <= j < pre.len() && #[trigger] pre[j].0@ == es@[i as int].0@;
                        assert(pre[j] == es@[j]);
                    }
                }
                lemma_push(pre, es@[i as int]);
                assert(self@ =~= old(self)@.union_prefer_right(entries_map(post)));
            }
            i = i + 1;
        }
        proof { assert(es@.subrange(0, es@.len() as int) =~= es@); }
    }
}

} // verus!
