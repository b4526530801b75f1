//! Values that can be compared and copied by their views.
use vstd::prelude::*;

verus! {

/// A type whose values can be compared and duplicated exactly as far as
/// their views go.
pub trait ViewEq: View + Sized {
    /// Whether two values have the same view.
    fn eq_view(&self, other: &Self) -> (b: bool)
        ensures
            b == (self@ == other@);

    /// A copy with the same view.
    fn copy_view(&self) -> (c: Self)
        ensures
            c@ == self@;
}

impl ViewEq for String {
    fn eq_view(&self, other: &Self) -> (b: bool) {
        *self == *other
    }

    fn copy_view(&self) -> (c: Self) {
        self.clone()
    }
}

impl ViewEq for u32 {
    fn eq_view(&self, other: &Self) -> (b: bool) {
        *self == *other
    }

    fn copy_view(&self) -> (c: Self) {
        *self
    }
}

impl ViewEq for usize {
    fn eq_view(&self, other: &Self) -> (b: bool) {
        *self == *other
    }

    fn copy_view(&self) -> (c: Self) {
        *self
    }
}

} // verus!
