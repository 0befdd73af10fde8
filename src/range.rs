//! One-dimensional ranges: a start value and an optional exclusive end value.
use vstd::prelude::*;
use core::cmp::Ordering;
use crate::order::{Least, Ordered, antisymmetric, equiv, lt, max_of, min_of};

verus! {

/// Whether a [`Range`] is closed (has an exclusive end value) or open.
#[derive(Copy, Clone, Debug, PartialEq, Eq, PartialOrd, Ord, Hash)]
pub enum End<T> {
    /// The range ends just before this value.
    Closed(T),
    /// The range has no end value.
    Open,
}

/// A range of values: those at least `start` and, when `end` is closed, less than its value.
#[derive(Copy, Clone, Debug, PartialEq, Eq, PartialOrd, Ord, Hash)]
pub struct Range<T> {
    /// A value must be greater than or equal to this to be included.
    pub start: T,
    /// When closed, a value must be strictly less than this to be included.
    pub end: End<T>,
}

impl<T: Ordered> Range<T> {
    /// `value` lies in the range.
    pub open spec fn contains(self, value: T) -> bool {
        &&& T::ordered_le(self.start, value)
        &&& match self.end {
            End::Closed(e) => lt(value, e),
            End::Open => true,
        }
    }

    /// The range holds no value: its end does not exceed its start.
    pub open spec fn spec_is_empty(self) -> bool {
        match self.end {
            End::Closed(e) => T::ordered_le(e, self.start),
            End::Open => false,
        }
    }

    /// Every value of `other` lies in `self`.
    pub open spec fn spec_includes_range(self, other: Range<T>) -> bool {
        other.spec_is_empty() || (T::ordered_le(self.start, other.start) && match (self.end, other.end) {
            (End::Closed(se), End::Closed(oe)) => T::ordered_le(oe, se),
            (End::Closed(_), End::Open) => false,
            (End::Open, _) => true,
        })
    }

    /// The two ranges have equivalent starts, and equivalent end values or both are open.
    pub open spec fn same(self, other: Range<T>) -> bool {
        &&& equiv(self.start, other.start)
        &&& match (self.end, other.end) {
            (End::Closed(a), End::Closed(b)) => equiv(a, b),
            (End::Open, End::Open) => true,
            _ => false,
        }
    }

    /// The intersection as `intersection` builds it.
    pub open spec fn spec_intersection(self, other: Range<T>) -> Range<T> {
        Range {
            start: max_of(self.start, other.start),
            end: match (self.end, other.end) {
                (End::Closed(a), End::Closed(b)) => End::Closed(min_of(a, b)),
                (End::Closed(a), End::Open) => End::Closed(a),
                (End::Open, End::Closed(b)) => End::Closed(b),
                (End::Open, End::Open) => End::Open,
            },
        }
    }

    /// `value` is at least `start` and, for a closed range, less than the end value.
    pub fn includes(&self, value: &T) -> (r: bool)
        ensures
            r == self.contains(*value),
    {
        proof {
            T::lemma_total_order(self.start, *value, self.start);
        }
        let above_start = match self.start.compare(value) {
            Ordering::Greater => false,
            _ => true,
        };
        above_start && match &self.end {
            End::Closed(end) => match value.compare(end) {
                Ordering::Less => true,
                _ => false,
            },
            End::Open => true,
        }
    }

    /// A range is empty when it includes no value.
    pub fn is_empty(&self) -> (r: bool)
        ensures
            r == self.spec_is_empty(),
            r <==> forall|v: T| !#[trigger] self.contains(v),
    {
        proof {
            if !self.spec_is_empty() {
                T::lemma_total_order(self.start, self.start, self.start);
                if self.end is Closed {
                    T::lemma_total_order(self.start, self.end->Closed_0, self.start);
                }
                assert(self.contains(self.start));
            } else {
                assert forall|v: T| !#[trigger] self.contains(v) by {
                    if self.end is Closed {
                        let e = self.end->Closed_0;
                        T::lemma_total_order(e, self.start, v);
                        T::lemma_total_order(v, e, self.start);
                    }
                }
            }
        }
        match &self.end {
            End::Closed(end) => match end.compare(&self.start) {
                Ordering::Greater => false,
                _ => true,
            },
            End::Open => false,
        }
    }

    /// Every value that `other` includes is included by `self`.
    pub fn includes_range(&self, other: &Range<T>) -> (r: bool)
        ensures
            r == self.spec_includes_range(*other),
    {
        if other.is_empty() {
            return true;
        }
        proof {
            T::lemma_total_order(self.start, other.start, self.start);
            if self.end is Closed && other.end is Closed {
                T::lemma_total_order(self.end->Closed_0, other.end->Closed_0, self.start);
            }
        }
        let start_ok = match self.start.compare(&other.start) {
            Ordering::Greater => false,
            _ => true,
        };
        start_ok && match (&self.end, &other.end) {
            (End::Closed(self_end), End::Closed(other_end)) => match other_end.compare(self_end) {
                Ordering::Greater => false,
                _ => true,
            },
            (End::Closed(_), End::Open) => false,
            (End::Open, _) => true,
        }
    }

    /// The range whose start is the greater of the two starts and whose end is the lesser of
    /// the two end values (both closed), the one end value (one closed), or open (none closed).
    pub fn intersection(&self, other: &Range<T>) -> (r: Range<T>)
        ensures
            r.same(self.spec_intersection(*other)),
            antisymmetric::<T>() ==> r == self.spec_intersection(*other),
            forall|v: T| #[trigger] r.contains(v) <==> self.contains(v) && other.contains(v),
    {
        proof {
            T::lemma_total_order(self.start, other.start, self.start);
        }
        let start = match self.start.compare(&other.start) {
            Ordering::Less => other.start.duplicate(),
            _ => self.start.duplicate(),
        };
        let end = match (&self.end, &other.end) {
            (End::Closed(a), End::Closed(b)) => {
                proof {
                    T::lemma_total_order(*a, *b, *a);
                }
                match a.compare(b) {
                    Ordering::Greater => End::Closed(b.duplicate()),
                    _ => End::Closed(a.duplicate()),
                }
            },
            (End::Closed(a), End::Open) => End::Closed(a.duplicate()),
            (End::Open, End::Closed(b)) => End::Closed(b.duplicate()),
            (End::Open, End::Open) => End::Open,
        };
        let r = Range { start, end };
        proof {
            let si = self.spec_intersection(*other);
            lemma_order3(r.start, self.start, other.start);
            if r.end is Closed {
                lemma_order3(r.end->Closed_0, si.end->Closed_0, r.end->Closed_0);
                if self.end is Closed && other.end is Closed {
                    lemma_order3(r.end->Closed_0, self.end->Closed_0, other.end->Closed_0);
                }
            }
            assert forall|v: T| #[trigger] r.contains(v) <==> self.contains(v) && other.contains(v)
                by {
                lemma_order3(v, r.start, self.start);
                lemma_order3(v, r.start, other.start);
                lemma_order3(v, self.start, other.start);
                if r.end is Closed {
                    let e = r.end->Closed_0;
                    if self.end is Closed {
                        lemma_order3(v, e, self.end->Closed_0);
                    }
                    if other.end is Closed {
                        lemma_order3(v, e, other.end->Closed_0);
                    }
                    if self.end is Closed && other.end is Closed {
                        lemma_order3(v, self.end->Closed_0, other.end->Closed_0);
                        lemma_order3(e, self.end->Closed_0, other.end->Closed_0);
                    }
                }
            }
        }
        r
    }
}

/// The intersection of two ranges includes exactly the values that both include.
pub proof fn lemma_intersection_contents<T: Ordered>(a: Range<T>, b: Range<T>)
    ensures
        forall|v: T| #[trigger] a.spec_intersection(b).contains(v) <==> a.contains(v) && b.contains(
            v,
        ),
{
    let r = a.spec_intersection(b);
    assert forall|v: T| #[trigger] r.contains(v) <==> a.contains(v) && b.contains(v) by {
        lemma_order3(v, a.start, b.start);
        if a.end is Closed && b.end is Closed {
            lemma_order3(v, a.end->Closed_0, b.end->Closed_0);
        }
    }
}

/// Intersection is commutative: both orders give ranges with equivalent bounds that include
/// the same values, and equal ranges where the order is antisymmetric; and every value that
/// the intersection includes is included by both ranges.
pub proof fn lemma_intersection_commutative<T: Ordered>(a: Range<T>, b: Range<T>)
    ensures
        a.spec_intersection(b).same(b.spec_intersection(a)),
        antisymmetric::<T>() ==> a.spec_intersection(b) == b.spec_intersection(a),
        forall|v: T| #[trigger] a.spec_intersection(b).contains(v) <==> b.spec_intersection(
            a,
        ).contains(v),
        forall|v: T| #[trigger] a.spec_intersection(b).contains(v) ==> a.contains(v) && b.contains(
            v,
        ),
{
    lemma_intersection_contents(a, b);
    lemma_intersection_contents(b, a);
    lemma_order3(a.start, b.start, a.start);
    if a.end is Closed {
        lemma_order3(a.end->Closed_0, a.end->Closed_0, a.end->Closed_0);
    }
    if b.end is Closed {
        lemma_order3(b.end->Closed_0, b.end->Closed_0, b.end->Closed_0);
    }
    if a.end is Closed && b.end is Closed {
        lemma_order3(a.end->Closed_0, b.end->Closed_0, a.end->Closed_0);
    }
    if antisymmetric::<T>() {
        assert(T::ordered_le(a.start, b.start) && T::ordered_le(b.start, a.start) ==> a.start == b.start);
        if a.end is Closed && b.end is Closed {
            let (x, y) = (a.end->Closed_0, b.end->Closed_0);
            assert(T::ordered_le(x, y) && T::ordered_le(y, x) ==> x == y);
        }
    }
}

/// The range made from `start..end` includes a value exactly when the value is at least
/// `start` and less than `end`.
pub proof fn lemma_from_std_range<T: Ordered>(start: T, end: T, x: T)
    ensures
        (Range { start, end: End::Closed(end) }).contains(x) <==> T::ordered_le(start, x) && lt(x, end),
{
}

/// The order laws for every arrangement of three values.
pub proof fn lemma_order3<T: Ordered>(a: T, b: T, c: T)
    ensures
        T::ordered_le(a, a) && T::ordered_le(b, b) && T::ordered_le(c, c),
        T::ordered_le(a, b) || T::ordered_le(b, a),
        T::ordered_le(a, c) || T::ordered_le(c, a),
        T::ordered_le(b, c) || T::ordered_le(c, b),
        T::ordered_le(a, b) && T::ordered_le(b, c) ==> T::ordered_le(a, c),
        T::ordered_le(a, c) && T::ordered_le(c, b) ==> T::ordered_le(a, b),
        T::ordered_le(b, a) && T::ordered_le(a, c) ==> T::ordered_le(b, c),
        T::ordered_le(b, c) && T::ordered_le(c, a) ==> T::ordered_le(b, a),
        T::ordered_le(c, a) && T::ordered_le(a, b) ==> T::ordered_le(c, b),
        T::ordered_le(c, b) && T::ordered_le(b, a) ==> T::ordered_le(c, a),
{
    T::lemma_total_order(a, b, c);
    T::lemma_total_order(a, c, b);
    T::lemma_total_order(b, a, c);
    T::lemma_total_order(b, c, a);
    T::lemma_total_order(c, a, b);
    T::lemma_total_order(c, b, a);
}

impl<T: Ordered + Least> Range<T> {
    /// The open range that starts at the least value: it includes every value.
    pub fn full() -> (r: Range<T>)
        ensures
            r.end == End::<T>::Open,
            forall|v: T| #[trigger] r.contains(v),
    {
        Range { start: T::least(), end: End::Open }
    }

    /// An empty range: start and end are both the least value.
    pub fn empty() -> (r: Range<T>)
        ensures
            r.spec_is_empty(),
            forall|v: T| !#[trigger] r.contains(v),
    {
        let start = T::least();
        let end = start.duplicate();
        proof {
            T::lemma_total_order(start, start, start);
            assert forall|v: T| !#[trigger] Range { start, end: End::Closed(end) }.contains(v) by {
                lemma_order3(v, end, start);
            }
        }
        Range { start, end: End::Closed(end) }
    }
}

impl<T> From<core::ops::Range<T>> for Range<T> {
    fn from(value: core::ops::Range<T>) -> (r: Range<T>)
        ensures
            r == (Range { start: value.start, end: End::Closed(value.end) }),
    {
        Range { start: value.start, end: End::Closed(value.end) }
    }
}

impl<T> vstd::std_specs::convert::FromSpecImpl<core::ops::Range<T>> for Range<T> {
    open spec fn obeys_from_spec() -> bool {
        true
    }

    open spec fn from_spec(v: core::ops::Range<T>) -> Range<T> {
        Range { start: v.start, end: End::Closed(v.end) }
    }
}

/// Declares std's `RangeFrom` (`start..`), whose one public field `start` is read by `from`.
#[verifier::external_type_specification]
#[verifier::reject_recursive_types(Idx)]
pub struct ExRangeFrom<Idx>(core::ops::RangeFrom<Idx>);

impl<T> From<core::ops::RangeFrom<T>> for Range<T> {
    fn from(value: core::ops::RangeFrom<T>) -> (r: Range<T>)
        ensures
            r == (Range { start: value.start, end: End::<T>::Open }),
    {
        Range { start: value.start, end: End::Open }
    }
}

impl<T> vstd::std_specs::convert::FromSpecImpl<core::ops::RangeFrom<T>> for Range<T> {
    open spec fn obeys_from_spec() -> bool {
        true
    }

    open spec fn from_spec(v: core::ops::RangeFrom<T>) -> Range<T> {
        Range { start: v.start, end: End::Open }
    }
}

} // verus!
