//! Total orders that the grouping algebra relies on.
use vstd::prelude::*;
use core::cmp::Ordering;
use crate::Timestamp;

verus! {

/// A type with a total order that executable code can decide and copy values of.
///
/// Two values are equivalent when each is `le` the other; for plain integers that is equality.
pub trait Ordered: Sized {
    /// `self` is ordered at or before `other`.
    spec fn ordered_le(self, other: Self) -> bool;

    /// `le` is reflexive, transitive and total.
    proof fn lemma_total_order(a: Self, b: Self, c: Self)
        ensures
            Self::ordered_le(a, a),
            Self::ordered_le(a, b) && Self::ordered_le(b, c) ==> Self::ordered_le(a, c),
            Self::ordered_le(a, b) || Self::ordered_le(b, a),
    ;

    /// Three-way comparison that agrees with `le`.
    fn compare(&self, other: &Self) -> (r: Ordering)
        ensures
            r == Ordering::Less <==> Self::ordered_le(*self, *other) && !Self::ordered_le(*other, *self),
            r == Ordering::Equal <==> Self::ordered_le(*self, *other) && Self::ordered_le(*other, *self),
            r == Ordering::Greater <==> Self::ordered_le(*other, *self) && !Self::ordered_le(*self, *other),
    ;

    /// A copy of `self`.
    fn duplicate(&self) -> (r: Self)
        ensures
            Self::ordered_le(r, *self),
            Self::ordered_le(*self, r),
    ;
}

/// The strict order derived from `le`.
pub open spec fn lt<T: Ordered>(a: T, b: T) -> bool {
    T::ordered_le(a, b) && !T::ordered_le(b, a)
}

/// Each of the two values is ordered at or before the other.
pub open spec fn equiv<T: Ordered>(a: T, b: T) -> bool {
    T::ordered_le(a, b) && T::ordered_le(b, a)
}

/// The order is antisymmetric: equivalent values are equal.
pub open spec fn antisymmetric<T: Ordered>() -> bool {
    forall|a: T, b: T| #[trigger] T::ordered_le(a, b) && #[trigger] T::ordered_le(b, a) ==> a == b
}

/// The greater of two values under `le`.
pub open spec fn max_of<T: Ordered>(a: T, b: T) -> T {
    if T::ordered_le(a, b) { b } else { a }
}

/// The lesser of two values under `le`.
pub open spec fn min_of<T: Ordered>(a: T, b: T) -> T {
    if T::ordered_le(a, b) { a } else { b }
}

/// A type that has a value less than or equal to every other value of it.
pub trait Least: Ordered {
    /// The least value.
    fn least() -> (r: Self)
        ensures
            forall|v: Self| #[trigger] Self::ordered_le(r, v),
    ;
}

impl Ordered for u64 {
    open spec fn ordered_le(self, other: u64) -> bool {
        self <= other
    }

    proof fn lemma_total_order(a: u64, b: u64, c: u64) {
    }

    fn compare(&self, other: &u64) -> (r: Ordering) {
        if *self < *other {
            Ordering::Less
        } else if *self == *other {
            Ordering::Equal
        } else {
            Ordering::Greater
        }
    }

    fn duplicate(&self) -> (r: u64) {
        *self
    }
}

impl Least for u64 {
    fn least() -> (r: u64) {
        0
    }
}

impl Ordered for i32 {
    open spec fn ordered_le(self, other: i32) -> bool {
        self <= other
    }

    proof fn lemma_total_order(a: i32, b: i32, c: i32) {
    }

    fn compare(&self, other: &i32) -> (r: Ordering) {
        if *self < *other {
            Ordering::Less
        } else if *self == *other {
            Ordering::Equal
        } else {
            Ordering::Greater
        }
    }

    fn duplicate(&self) -> (r: i32) {
        *self
    }
}

impl Least for i32 {
    fn least() -> (r: i32) {
        i32::MIN
    }
}

impl Ordered for i64 {
    open spec fn ordered_le(self, other: i64) -> bool {
        self <= other
    }

    proof fn lemma_total_order(a: i64, b: i64, c: i64) {
    }

    fn compare(&self, other: &i64) -> (r: Ordering) {
        if *self < *other {
            Ordering::Less
        } else if *self == *other {
            Ordering::Equal
        } else {
            Ordering::Greater
        }
    }

    fn duplicate(&self) -> (r: i64) {
        *self
    }
}

impl Least for i64 {
    fn least() -> (r: i64) {
        i64::MIN
    }
}

impl Ordered for Timestamp {
    open spec fn ordered_le(self, other: Timestamp) -> bool {
        self.us_since_epoch <= other.us_since_epoch
    }

    proof fn lemma_total_order(a: Timestamp, b: Timestamp, c: Timestamp) {
    }

    fn compare(&self, other: &Timestamp) -> (r: Ordering) {
        if self.us_since_epoch < other.us_since_epoch {
            Ordering::Less
        } else if self.us_since_epoch == other.us_since_epoch {
            Ordering::Equal
        } else {
            Ordering::Greater
        }
    }

    fn duplicate(&self) -> (r: Timestamp) {
        *self
    }
}

impl Least for Timestamp {
    fn least() -> (r: Timestamp) {
        Timestamp { us_since_epoch: 0 }
    }
}

} // verus!
