use vstd::prelude::*;

use core::cmp::Ordering;

verus! {

/// Convenience trait for supplying a total order through a single
/// comparison function.
///
/// The order an implementation realises is pinned down by an integer
/// rank, `ord_key`: `cmp` must answer exactly as the ranks compare.
/// Tying the order to an integer rank keeps the usual laws of a total
/// order (totality, transitivity, antisymmetry up to equal rank) free
/// of charge for every implementation.
pub trait EasyOrd: Sized {
    /// The rank realised by the comparison: a greater rank means a
    /// greater element.
    spec fn ord_key(&self) -> int;

    fn cmp(&self, other: &Self) -> (r: Ordering)
        ensures
            (r == Ordering::Less) == (self.ord_key() < other.ord_key()),
            (r == Ordering::Equal) == (self.ord_key() == other.ord_key()),
            (r == Ordering::Greater) == (self.ord_key() > other.ord_key()),
    ;
}

impl EasyOrd for u32 {
    open spec fn ord_key(&self) -> int {
        *self as int
    }

    fn cmp(&self, other: &Self) -> (r: Ordering) {
        if *self < *other {
            Ordering::Less
        } else if *self == *other {
            Ordering::Equal
        } else {
            Ordering::Greater
        }
    }
}

/// Lifts an `EasyOrd` comparison into the standard equality and
/// ordering operators: two wrapped values are equal exactly when their
/// comparison answers `Equal`.
#[derive(Clone, Copy, Debug)]
pub struct OrdWrapper<T>(pub T);

impl<T: EasyOrd> EasyOrd for OrdWrapper<T> {
    open spec fn ord_key(&self) -> int {
        self.0.ord_key()
    }

    fn cmp(&self, other: &Self) -> (r: Ordering) {
        self.0.cmp(&other.0)
    }
}

impl<T: EasyOrd> PartialEq for OrdWrapper<T> {
    fn eq(&self, other: &Self) -> (r: bool) {
        matches!(self.0.cmp(&other.0), Ordering::Equal)
    }
}

impl<T: EasyOrd> Eq for OrdWrapper<T> {

}

impl<T: EasyOrd> vstd::std_specs::cmp::PartialEqSpecImpl for OrdWrapper<T> {
    open spec fn obeys_eq_spec() -> bool {
        true
    }

    open spec fn eq_spec(&self, other: &Self) -> bool {
        self.0.ord_key() == other.0.ord_key()
    }
}

impl<T: EasyOrd> PartialOrd for OrdWrapper<T> {
    fn partial_cmp(&self, other: &Self) -> (r: Option<Ordering>) {
        Some(self.0.cmp(&other.0))
    }
}

impl<T: EasyOrd> vstd::std_specs::cmp::PartialOrdSpecImpl for OrdWrapper<T> {
    open spec fn obeys_partial_cmp_spec() -> bool {
        true
    }

    open spec fn partial_cmp_spec(&self, other: &Self) -> Option<Ordering> {
        if self.0.ord_key() < other.0.ord_key() {
            Some(Ordering::Less)
        } else if self.0.ord_key() == other.0.ord_key() {
            Some(Ordering::Equal)
        } else {
            Some(Ordering::Greater)
        }
    }
}

} // verus!
