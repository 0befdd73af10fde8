//! Three-dimensional ranges: boxes of subspaces, paths and times. They rely on the order of
//! subspaces and paths, so they serve only where neither is encrypted.
use vstd::prelude::*;
use crate::{SubspaceId, Timestamp};
use crate::entry::{Entry, EntryView};
use crate::order::{Least, Ordered};
use crate::path::Path;
use crate::range::{End, Range};

verus! {

/// A box that includes every entry whose subspace, path and timestamp lie in the respective
/// range.
#[derive(Clone, Debug, PartialEq, Eq, PartialOrd, Ord)]
pub struct ThreeDimRange<S, P> {
    /// The range of subspaces.
    pub subspaces: Range<S>,
    /// The range of paths.
    pub paths: Range<P>,
    /// The range of timestamps.
    pub times: Range<Timestamp>,
}

impl<S: Ordered, P: Ordered> ThreeDimRange<S, P> {
    /// Any one of the three ranges is empty.
    pub open spec fn spec_is_empty(self) -> bool {
        self.subspaces.spec_is_empty() || self.paths.spec_is_empty()
            || self.times.spec_is_empty()
    }

    /// The box includes no point: one of its ranges is empty.
    pub fn is_empty(&self) -> (r: bool)
        ensures
            r == self.spec_is_empty(),
    {
        self.subspaces.is_empty() || self.paths.is_empty() || self.times.is_empty()
    }

    /// The box of the per-dimension intersections: it includes exactly the points that both
    /// boxes include, in each dimension.
    pub fn intersection(&self, other: &ThreeDimRange<S, P>) -> (r: ThreeDimRange<S, P>)
        ensures
            r.subspaces.same(self.subspaces.spec_intersection(other.subspaces)),
            r.paths.same(self.paths.spec_intersection(other.paths)),
            r.times == self.times.spec_intersection(other.times),
            forall|s: S| #[trigger] r.subspaces.contains(s) <==> self.subspaces.contains(s)
                && other.subspaces.contains(s),
            forall|p: P| #[trigger] r.paths.contains(p) <==> self.paths.contains(p)
                && other.paths.contains(p),
            forall|t: Timestamp| #[trigger] r.times.contains(t) <==> self.times.contains(t)
                && other.times.contains(t),
    {
        proof {
            crate::area::lemma_timestamp_antisymmetric();
        }
        ThreeDimRange {
            subspaces: self.subspaces.intersection(&other.subspaces),
            paths: self.paths.intersection(&other.paths),
            times: self.times.intersection(&other.times),
        }
    }
}

impl<S: Ordered + Least, P: Ordered + Least> ThreeDimRange<S, P> {
    /// An empty box: each range is empty.
    pub fn empty() -> (r: ThreeDimRange<S, P>)
        ensures
            r.spec_is_empty(),
            forall|s: S| !#[trigger] r.subspaces.contains(s),
            forall|p: P| !#[trigger] r.paths.contains(p),
            forall|t: Timestamp| !#[trigger] r.times.contains(t),
    {
        ThreeDimRange { subspaces: Range::empty(), paths: Range::empty(), times: Range::empty() }
    }

    /// The box of the whole space: each range is open and starts at the least value.
    pub fn full() -> (r: ThreeDimRange<S, P>)
        ensures
            !r.spec_is_empty(),
            forall|s: S| #[trigger] r.subspaces.contains(s),
            forall|p: P| #[trigger] r.paths.contains(p),
            forall|t: Timestamp| #[trigger] r.times.contains(t),
    {
        ThreeDimRange { subspaces: Range::full(), paths: Range::full(), times: Range::full() }
    }
}

impl ThreeDimRange<SubspaceId, Path> {
    /// The box includes `e`: its subspace, path and timestamp each lie in their range.
    pub open spec fn spec_includes(self, e: EntryView) -> bool {
        &&& self.subspaces.contains(e.subspace_id)
        &&& self.paths.start.le_path(e.path)
        &&& match self.paths.end {
            End::Closed(p) => !p.le_path(e.path),
            End::Open => true,
        }
        &&& self.times.contains(Timestamp { us_since_epoch: e.timestamp })
    }

    /// The box includes `entry`: its subspace, path and timestamp each lie in their range.
    pub fn includes(&self, entry: &Entry) -> (r: bool)
        ensures
            r == self.spec_includes(entry@),
    {
        proof {
            if self.paths.end is Closed {
                crate::path::lemma_path_total(entry.path@, self.paths.end->Closed_0@, entry.path@);
            }
        }
        self.subspaces.includes(&entry.subspace_id) && self.paths.includes(&entry.path)
            && self.times.includes(&entry.timestamp)
    }
}

} // verus!
