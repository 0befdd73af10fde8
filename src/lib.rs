//! The data model of a replicated, content-addressed entry store: entries placed in a
//! three-dimensional space (subspace, path, time), the grouping algebra used to select subsets
//! of that space, and a store that keeps the newest entries under prefix pruning and merges with
//! other replicas.
use vstd::prelude::*;

pub mod area;
pub mod entry;
pub mod of_interest;
pub mod order;
pub mod path;
pub mod range;
pub mod store;
pub mod three_dim;

verus! {

/// Identifies a namespace.
pub type NamespaceId = u64;

/// Identifies a subspace within a namespace.
pub type SubspaceId = u64;

/// The digest of a payload, as the deployment's hash function gives it.
pub type PayloadDigest = u64;

/// Proves that a write is permitted.
pub type AuthorisationToken = u64;

/// A time in microseconds since the Unix epoch.
#[derive(Copy, Clone, Debug, PartialEq, Eq, Structural, PartialOrd, Ord, Hash)]
pub struct Timestamp {
    /// The microseconds since the Unix epoch.
    pub us_since_epoch: u64,
}

impl From<u64> for Timestamp {
    fn from(value: u64) -> (r: Timestamp)
        ensures
            r.us_since_epoch == value,
    {
        Timestamp { us_since_epoch: value }
    }
}

impl vstd::std_specs::convert::FromSpecImpl<u64> for Timestamp {
    open spec fn obeys_from_spec() -> bool {
        true
    }

    open spec fn from_spec(v: u64) -> Timestamp {
        Timestamp { us_since_epoch: v }
    }
}

} // verus!
