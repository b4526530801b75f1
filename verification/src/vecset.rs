//! A finite set kept as a vector without repetitions.
use vstd::prelude::*;
use crate::view_eq::ViewEq;

verus! {

/// The views of the elements of a sequence.
pub open spec fn views<V: View>(s: Seq<V>) -> Seq<V::V> {
    s.map_values(|x: V| x@)
}

/// A set of values, told apart by their views, kept in insertion order.
#[derive(Debug)]
pub struct VecSet<V: ViewEq> {
    items: Vec<V>,
}

impl<V: ViewEq> View for VecSet<V> {
    type V = Set<V::V>;

    closed spec fn view(&self) -> Set<V::V> {
        views(self.items@).to_set()
    }
}

impl<V: ViewEq> VecSet<V> {
    #[verifier::type_invariant]
    spec fn inv(self) -> bool {
        views(self.items@).no_duplicates()
    }

    /// The elements in the order in which they are kept.
    pub closed spec fn elems(self) -> Seq<V> {
        self.items@
    }

    /// A set kept in a vector is finite.
    pub proof fn lemma_view_finite(self)
        ensures
            self@.finite(),
    {
        vstd::seq_lib::seq_to_set_is_finite(views(self.items@));
    }

    proof fn lemma_view(self)
        requires
            self.inv(),
        ensures
            self@.finite(),
            self@.len() == self.items@.len(),
            forall|x: V::V| self@.contains(x) <==> views(self.items@).contains(x),
            views(self.elems()).to_set() == self@,
            views(self.elems()).no_duplicates(),
    {
        broadcast use vstd::seq_lib::seq_to_set_is_finite;
        views(self.items@).unique_seq_to_set();
        assert forall|x: V::V| self@.contains(x) <==> views(self.items@).contains(x) by {}
    }

    /// The elements, in the order in which they are kept; their views are
    /// those of the set, each once.
    pub fn items(&self) -> (r: &Vec<V>)
        ensures
            r@ == self.elems(),
            views(r@).to_set() == self@,
            views(r@).no_duplicates(),
            r@.len() == self@.len(),
            self@.finite(),
    {
        proof {
            use_type_invariant(self);
            self.lemma_view();
        }
        &self.items
    }

    pub fn new() -> (s: Self)
        ensures
            s@ == Set::<V::V>::empty(),
            s.elems() == Seq::<V>::empty(),
    {
        let s = VecSet { items: Vec::new() };
        proof {
            assert(views(s.items@) =~= Seq::<V::V>::empty());
            assert(s@ =~= Set::<V::V>::empty());
        }
        s
    }

    pub fn len(&self) -> (n: usize)
        ensures
            n == self@.len(),
            self@.finite(),
    {
        proof {
            use_type_invariant(self);
            self.lemma_view();
        }
        self.items.len()
    }

    pub fn contains(&self, x: &V) -> (b: bool)
        ensures
            b == self@.contains(x@),
    {
        proof {
            use_type_invariant(self);
            self.lemma_view();
        }
        let mut i: usize = 0;
        while i < self.items.len()
            invariant
                i <= self.items@.len(),
                forall|j: int| 0 <= j < i ==> self.items@[j]@ != x@,
            decreases self.items@.len() - i,
        {
            if self.items[i].eq_view(x) {
                proof {
                    assert(views(self.items@)[i as int] == x@);
                }
                return true;
            }
            i = i + 1;
        }
        proof {
            assert(!views(self.items@).contains(x@));
        }
        false
    }

    /// Adds `x`; tells whether it was new.
    pub fn insert(&mut self, x: V) -> (added: bool)
        ensures
            final(self)@ == old(self)@.insert(x@),
            added == !old(self)@.contains(x@),
    {
        if self.contains(&x) {
            proof {
                assert(self@.insert(x@) =~= self@);
            }
            false
        } else {
            proof {
                use_type_invariant(&*self);
                self.lemma_view();
            }
            let ghost old_views = views(self.items@);
            let mut items: Vec<V> = Vec::new();
        std::mem::swap(&mut items, &mut self.items);
            items.push(x);
            proof {
                assert(views(items@) =~= old_views.push(x@));
                old_views.lemma_push_to_set_commute(x@);
            }
            self.items = items;
            true
        }
    }

    /// Removes `x`; tells whether it was there.
    pub fn remove(&mut self, x: &V) -> (removed: bool)
        ensures
            final(self)@ == old(self)@.remove(x@),
            removed == old(self)@.contains(x@),
    {
        proof {
            use_type_invariant(&*self);
            self.lemma_view();
        }
        let ghost old_views = views(self.items@);
        assert(old_views.to_set() == old(self)@);
        let mut items: Vec<V> = Vec::new();
        std::mem::swap(&mut items, &mut self.items);
        let n = items.len();
        let mut i: usize = 0;
        while i < n
            invariant
                n == items@.len(),
                i <= n,
                views(items@) == old_views,
                old_views.no_duplicates(),
                old_views.to_set() == old(self)@,
                forall|j: int| 0 <= j < i ==> items@[j]@ != x@,
            decreases n - i,
        {
            if items[i].eq_view(x) {
                assert(old_views[i as int] == x@);
                let _ = items.remove(i);
                proof {
                    let nv = views(items@);
                    assert(nv =~= old_views.remove(i as int));
                    assert forall|y: V::V| nv.contains(y) <==> old_views.to_set().remove(x@).contains(y) by {
                        if nv.contains(y) {
                            let k = choose|k: int| 0 <= k < nv.len() && nv[k] == y;
                            if k < i {
                                assert(old_views[k] == y);
                            } else {
                                assert(old_views[k + 1] == y);
                            }
                        }
                        if old_views.to_set().remove(x@).contains(y) {
                            let k = choose|k: int| 0 <= k < old_views.len() && old_views[k] == y;
                            if k < i {
                                assert(nv[k] == y);
                            } else {
                                assert(k != i);
                                assert(nv[k - 1] == y);
                            }
                        }
                    }
                    assert(nv.to_set() =~= old_views.to_set().remove(x@));
                    assert(old_views.to_set().contains(x@));
                    assert(nv.no_duplicates()) by {
                        assert forall|a: int, b: int| 0 <= a < b < nv.len() implies nv[a] != nv[b] by {
                            let a2 = if a < i { a } else { a + 1 };
                            let b2 = if b < i { b } else { b + 1 };
                            assert(nv[a] == old_views[a2]);
                            assert(nv[b] == old_views[b2]);
                        }
                    }
                }
                self.items = items;
                assert(self@ == old_views.to_set().remove(x@));
                return true;
            }
            i = i + 1;
        }
        proof {
            assert(!old_views.contains(x@));
            assert(!old_views.to_set().contains(x@));
            assert(old_views.to_set().remove(x@) =~= old_views.to_set());
        }
        self.items = items;
        assert(self@ == old_views.to_set());
        false
    }
}


impl<V: ViewEq> ViewEq for VecSet<V> {
    /// Whether the two sets hold the same elements.
    fn eq_view(&self, other: &Self) -> (b: bool) {
        let items = self.items();
        if items.len() != other.len() {
            return false;
        }
        let mut i: usize = 0;
        while i < items.len()
            invariant
                i <= items@.len(),
                views(items@).to_set() == self@,
                forall|j: int| 0 <= j < i ==> other@.contains(#[trigger] items@[j]@),
            decreases items@.len() - i,
        {
            if !other.contains(&items[i]) {
                proof { assert(self@.contains(views(items@)[i as int])); }
                return false;
            }
            i = i + 1;
        }
        proof {
            assert forall|x: V::V| self@.contains(x) implies other@.contains(x) by {
                let j = choose|j: int| 0 <= j < views(items@).len() && views(items@)[j] == x;
                assert(other@.contains(items@[j]@));
            }
            vstd::set_lib::lemma_subset_equality(self@, other@);
        }
        true
    }

    /// A set with the same elements.
    fn copy_view(&self) -> (c: Self) {
        let items = self.items();
        let mut c = VecSet::new();
        let mut i: usize = 0;
        while i < items.len()
            invariant
                i <= items@.len(),
                views(items@).to_set() == self@,
                c@ == views(items@.subrange(0, i as int)).to_set(),
            decreases items@.len() - i,
        {
            let _ = c.insert(items[i].copy_view());
            proof {
                assert(views(items@.subrange(0, i + 1)) =~= views(items@.subrange(0, i as int)).push(items@[i as int]@));
                views(items@.subrange(0, i as int)).lemma_push_to_set_commute(items@[i as int]@);
            }
            i = i + 1;
        }
        proof { assert(items@.subrange(0, items@.len() as int) =~= items@); }
        c
    }
}

impl<V: ViewEq> VecSet<V> {
    /// Adds every element of `other`.
    pub fn union_with(&mut self, other: &VecSet<V>)
        ensures
            final(self)@ == old(self)@.union(other@),
    {
        let items = other.items();
        let mut i: usize = 0;
        while i < items.len()
            invariant
                i <= items@.len(),
                views(items@).to_set() == other@,
                self@ == old(self)@.union(views(items@.subrange(0, i as int)).to_set()),
            decreases items@.len() - i,
        {
            let _ = self.insert(items[i].copy_view());
            proof {
                assert(views(items@.subrange(0, i + 1)) =~= views(items@.subrange(0, i as int)).push(items@[i as int]@));
                views(items@.subrange(0, i as int)).lemma_push_to_set_commute(items@[i as int]@);
                assert(self@ =~= old(self)@.union(views(items@.subrange(0, i + 1)).to_set()));
            }
            i = i + 1;
        }
        proof { assert(items@.subrange(0, items@.len() as int) =~= items@); }
    }

    /// Removes every element of `other`.
    pub fn difference_with(&mut self, other: &VecSet<V>)
        ensures
            final(self)@ == old(self)@.difference(other@),
    {
        let items = other.items();
        let mut i: usize = 0;
        while i < items.len()
            invariant
                i <= items@.len(),
                views(items@).to_set() == other@,
                self@ == old(self)@.difference(views(items@.subrange(0, i as int)).to_set()),
            decreases items@.len() - i,
        {
            let _ = self.remove(&items[i]);
            proof {
                assert(views(items@.subrange(0, i + 1)) =~= views(items@.subrange(0, i as int)).push(items@[i as int]@));
                views(items@.subrange(0, i as int)).lemma_push_to_set_commute(items@[i as int]@);
                assert(self@ =~= old(self)@.difference(views(items@.subrange(0, i + 1)).to_set()));
            }
            i = i + 1;
        }
        proof { assert(items@.subrange(0, items@.len() as int) =~= items@); }
    }

    /// The set of the views of a sequence of values.
    pub fn from_vec(v: Vec<V>) -> (s: VecSet<V>)
        ensures
            s@ == views(v@).to_set(),
    {
        let mut s = VecSet::new();
        let mut i: usize = 0;
        while i < v.len()
            invariant
                i <= v@.len(),
                s@ == views(v@.subrange(0, i as int)).to_set(),
            decreases v@.len() - i,
        {
            let _ = s.insert(v[i].copy_view());
            proof {
                assert(views(v@.subrange(0, i + 1)) =~= views(v@.subrange(0, i as int)).push(v@[i as int]@));
                views(v@.subrange(0, i as int)).lemma_push_to_set_commute(v@[i as int]@);
            }
            i = i + 1;
        }
        proof { assert(v@.subrange(0, v@.len() as int) =~= v@); }
        s
    }
}
} // verus!
