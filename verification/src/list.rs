//! An immutable singly linked list whose tails are shared.
use vstd::prelude::*;
use std::rc::Rc;
use crate::view_eq::ViewEq;

verus! {

/// `Rc::clone`: a second pointer to the same allocation, so the same value.
#[verifier::external_body]
fn rc_share<T>(r: &Rc<T>) -> (s: Rc<T>)
    ensures
        s == *r,
{
    Rc::clone(r)
}

#[derive(Debug)]
pub struct List<T>(Option<Rc<(T, List<T>)>>);

impl<T> List<T> {
    /// The elements, front first.
    pub closed spec fn as_seq(self) -> Seq<T>
        decreases self,
    {
        match self.0 {
            None => Seq::empty(),
            Some(node) => seq![node.0] + node.1.as_seq(),
        }
    }

    /// Puts `x` in front.
    pub fn _push(&mut self, x: T)
        ensures
            final(self).as_seq() == seq![x] + old(self).as_seq(),
    {
        let tail = self.share();
        *self = List(Some(Rc::new((x, tail))))
    }

    /// The list with `x` in front.
    pub fn cons(self, x: T) -> (l: List<T>)
        ensures
            l.as_seq() == seq![x] + self.as_seq(),
    {
        List(Some(Rc::new((x, self))))
    }

    /// The same list, sharing all its nodes.
    pub fn _iter(&self) -> (l: Self)
        ensures
            l.as_seq() == self.as_seq(),
    {
        self.share()
    }

    pub fn empty() -> (l: Self)
        ensures
            l.as_seq() == Seq::<T>::empty(),
    {
        List(None)
    }

    /// The same list, sharing all its nodes.
    pub fn share(&self) -> (l: Self)
        ensures
            l == *self,
    {
        match &self.0 {
            None => List(None),
            Some(x) => List(Some(rc_share(x))),
        }
    }

    /// Takes off the first element, if any: the list then holds the rest.
    pub fn next(&mut self) -> (r: Option<T>)
        where
            T: Copy,
        ensures
            old(self).as_seq().len() == 0 ==> r is None && final(self).as_seq() == old(self).as_seq(),
            old(self).as_seq().len() > 0 ==> r == Some(old(self).as_seq()[0])
                && final(self).as_seq() == old(self).as_seq().drop_first(),
    {
        match &self.0 {
            None => None,
            Some(p) => {
                let t = p.0;
                let rest = p.1.share();
                proof {
                    assert(self.as_seq() == seq![t] + rest.as_seq());
                    assert((seq![t] + rest.as_seq()).drop_first() =~= rest.as_seq());
                }
                *self = rest;
                Some(t)
            },
        }
    }

    /// The list whose front is the last element of `v`: each element of `v`
    /// in turn is put in front.
    pub fn from_vec(v: Vec<T>) -> (l: List<T>)
        ensures
            l.as_seq() == v@.reverse(),
    {
        let mut v = v;
        let ghost orig = v@;
        let mut rev: Vec<T> = Vec::new();
        while v.len() > 0
            invariant
                orig == v@ + rev@.reverse(),
            decreases v@.len(),
        {
            let x = v.pop().unwrap();
            let ghost before = rev@;
            rev.push(x);
            proof {
                assert(rev@.reverse() =~= seq![x] + before.reverse());
            }
        }
        // `rev` holds the elements back to front: build from its end.
        let mut l = List::empty();
        let ghost total = rev@;
        while rev.len() > 0
            invariant
                total == rev@ + l.as_seq(),
            decreases rev@.len(),
        {
            let x = rev.pop().unwrap();
            let ghost before = l.as_seq();
            l = l.cons(x);
        }
        proof {
            assert(orig =~= total.reverse());
        }
        l
    }
}

/// The value of the first pair whose key has the view `k`.
pub open spec fn assoc<K: View, V: View>(s: Seq<(K, V)>, k: K::V) -> Option<V::V>
    decreases s.len(),
{
    if s.len() == 0 {
        None
    } else if s[0].0@ == k {
        Some(s[0].1@)
    } else {
        assoc(s.drop_first(), k)
    }
}

impl<K: ViewEq, V: ViewEq> List<(K, V)> {
    /// The value bound to `key` nearest the front.
    pub fn lookup(&self, key: K) -> (r: Option<V>)
        ensures
            match r {
                Some(v) => assoc(self.as_seq(), key@) == Some(v@),
                None => assoc(self.as_seq(), key@) is None,
            },
        decreases self,
    {
        match &self.0 {
            None => None,
            Some(node) => {
                proof {
                    assert(self.as_seq().drop_first() =~= node.1.as_seq());
                }
                if key.eq_view(&node.0.0) {
                    Some(node.0.1.copy_view())
                } else {
                    node.1.lookup(key)
                }
            },
        }
    }
}

} // verus!
