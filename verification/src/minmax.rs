//! Keeping the smaller or the larger of two values in place, and telling
//! whether a value lies within bounds.

use vstd::prelude::*;
use vstd::std_specs::cmp::{PartialOrdIs, PartialOrdSpec};

verus! {

/// Replaces a value by another one where that is smaller, or larger.
pub trait SetMinMax: Sized {
    /// Whether `self` is above `v` in the order that the type compares by.
    spec fn above(&self, v: &Self) -> bool;

    /// Whether `self` is below `v` in the order that the type compares by.
    spec fn below(&self, v: &Self) -> bool;

    /// Whether comparisons of this type go by `above` and `below`.
    spec fn ordered() -> bool;

    /// Puts `v` in place of `self` where `self` is above it, and says
    /// whether it did.
    fn setmin(&mut self, v: Self) -> (changed: bool)
        ensures
            Self::ordered() ==> changed == old(self).above(&v),
            *final(self) == if changed {
                v
            } else {
                *old(self)
            },
    ;

    /// Puts `v` in place of `self` where `self` is below it, and says
    /// whether it did.
    fn setmax(&mut self, v: Self) -> (changed: bool)
        ensures
            Self::ordered() ==> changed == old(self).below(&v),
            *final(self) == if changed {
                v
            } else {
                *old(self)
            },
    ;
}

impl<T: PartialOrd> SetMinMax for T {
    open spec fn above(&self, v: &T) -> bool {
        self.is_gt(v)
    }

    open spec fn below(&self, v: &T) -> bool {
        self.is_lt(v)
    }

    open spec fn ordered() -> bool {
        T::obeys_partial_cmp_spec()
    }

    fn setmin(&mut self, v: T) -> (changed: bool) {
        if *self > v {
            *self = v;
            true
        } else {
            false
        }
    }

    fn setmax(&mut self, v: T) -> (changed: bool) {
        if *self < v {
            *self = v;
            true
        } else {
            false
        }
    }
}

/// Whether `v` lies below `lb` or above `ub` in the order that the type
/// compares by.
pub open spec fn outside<T: PartialOrd>(v: T, lb: T, ub: T) -> bool {
    v.is_lt(&lb) || ub.is_lt(&v)
}

/// Whether `v` lies outside the bounds `lb` and `ub`, which both count as
/// inside.
pub fn out_of_range<T: Copy + PartialOrd>(v: T, lb: T, ub: T) -> (out: bool)
    ensures
        T::obeys_partial_cmp_spec() ==> out == outside(v, lb, ub),
{
    v < lb || ub < v
}

/// For numbers, to lie outside the bounds is to be smaller than the lower
/// or larger than the upper one.
pub proof fn lemma_outside_numbers(v: usize, lb: usize, ub: usize)
    ensures
        usize::obeys_partial_cmp_spec(),
        outside(v, lb, ub) == (v < lb || ub < v),
{
}

} // verus!
