//! Areas of interest: an area together with budgets on how many of a store's newest entries,
//! and how many payload bytes, it takes in.
use vstd::prelude::*;
use crate::area::{Area, area_includes_entry, area_intersection};
use crate::entry::{Entry, EntryView};
use crate::store::{Store, ahead, count_ahead, lemma_count_ahead_zero, size_newer};

verus! {

/// A budget: a positive limit, or none.
#[derive(Copy, Clone, Debug, PartialEq, Eq, Structural, PartialOrd, Ord, Hash)]
pub enum Max {
    /// At most this many (meant to be positive).
    Limit(u64),
    /// No limit.
    Unlimited,
}

impl Max {
    /// The tighter of two budgets: the lesser limit, the one limit, or no limit.
    pub open spec fn spec_min(self, other: Max) -> Max {
        match (self, other) {
            (Max::Limit(a), Max::Limit(b)) => Max::Limit(if a <= b { a } else { b }),
            (Max::Limit(a), Max::Unlimited) => Max::Limit(a),
            (Max::Unlimited, o) => o,
        }
    }

    /// The tighter of two budgets: the lesser limit, the one limit, or no limit.
    pub fn min(self, other: Max) -> (r: Max)
        ensures
            r == self.spec_min(other),
    {
        match (self, other) {
            (Max::Limit(a), Max::Limit(b)) => Max::Limit(if a <= b { a } else { b }),
            (Max::Limit(a), Max::Unlimited) => Max::Limit(a),
            (Max::Unlimited, o) => o,
        }
    }
}

/// An area whose entries are further limited to the newest of a store, by count and by total
/// payload size.
#[derive(Clone, Debug)]
pub struct AreaOfInterest {
    /// An included entry must be included in this area.
    pub area: Area,
    /// Unless unlimited, an included entry must be among this many newest entries of the store.
    pub max_count: Max,
    /// Unless unlimited, the payload lengths of an included entry and of all newer entries of
    /// the store add up to at most this.
    pub max_size: Max,
}

impl PartialEq for AreaOfInterest {
    fn eq(&self, other: &AreaOfInterest) -> (r: bool) {
        self.area == other.area && self.max_count == other.max_count && self.max_size
            == other.max_size
    }
}

impl vstd::std_specs::cmp::PartialEqSpecImpl for AreaOfInterest {
    open spec fn obeys_eq_spec() -> bool {
        true
    }

    open spec fn eq_spec(&self, other: &AreaOfInterest) -> bool {
        self.area@ == other.area@ && self.max_count == other.max_count && self.max_size
            == other.max_size
    }
}

/// `e` lies within the count budget `max_count` relative to `store`.
pub open spec fn within_count(max_count: Max, e: EntryView, store: &Store) -> bool {
    match max_count {
        Max::Unlimited => true,
        Max::Limit(n) => store.entries().contains(e) && count_ahead(
            store.entry_seq(),
            store.spec_len() as int,
            e,
        ) < n,
    }
}

/// `e` lies within the size budget `max_size` relative to `store`.
pub open spec fn within_size(max_size: Max, e: EntryView, store: &Store) -> bool {
    match max_size {
        Max::Unlimited => true,
        Max::Limit(n) => e.payload_length + size_newer(
            store.entry_seq(),
            store.spec_len() as int,
            e,
        ) <= n,
    }
}

impl AreaOfInterest {
    /// `self` includes `entry` of `store`: the entry is of the store's namespace, the area
    /// includes it, it is among the `max_count` newest entries of the store, and its payload
    /// length with those of all newer entries of the store fits in `max_size`.
    pub fn includes(&self, entry: &Entry, store: &Store) -> (r: bool)
        requires
            store.wf(),
        ensures
            r == (entry@.namespace_id == store.spec_namespace_id() && area_includes_entry(
                self.area@,
                entry@,
            ) && within_count(self.max_count, entry@, store) && within_size(
                self.max_size,
                entry@,
                store,
            )),
    {
        if entry.namespace_id != *store.namespace_id() {
            return false;
        }
        if !self.area.includes(entry) {
            return false;
        }
        let count_ok = match self.max_count {
            Max::Unlimited => true,
            Max::Limit(n) => store.newest_entries_include(n, entry),
        };
        if !count_ok {
            return false;
        }
        match self.max_size {
            Max::Unlimited => true,
            Max::Limit(n) => store.payloads_total_size_of_entry_to_newest(entry) <= n as u128,
        }
    }

    /// The intersection of the areas with the tighter of each budget.
    pub fn intersection(&self, other: &AreaOfInterest) -> (r: AreaOfInterest)
        ensures
            r.area@ == area_intersection(self.area@, other.area@),
            r.max_count == self.max_count.spec_min(other.max_count),
            r.max_size == self.max_size.spec_min(other.max_size),
    {
        AreaOfInterest {
            area: self.area.intersection(&other.area),
            max_count: self.max_count.min(other.max_count),
            max_size: self.max_size.min(other.max_size),
        }
    }
}

/// With a count budget of one and no size budget, an area of interest includes an entry of the
/// store exactly when the entry is of the store's namespace, inside the area, retained, and no
/// retained entry comes before it in the newest-first order: it is the single newest entry.
pub proof fn lemma_count_of_one_is_newest(aoi: &AreaOfInterest, e: EntryView, store: &Store)
    requires
        store.wf(),
        aoi.max_count == Max::Limit(1),
        aoi.max_size == Max::Unlimited,
    ensures
        (e.namespace_id == store.spec_namespace_id() && area_includes_entry(aoi.area@, e)
            && within_count(aoi.max_count, e, store) && within_size(aoi.max_size, e, store)) <==> (
        e.namespace_id == store.spec_namespace_id() && area_includes_entry(aoi.area@, e)
            && store.entries().contains(e) && forall|f: EntryView| #[trigger]
            store.entries().contains(f) ==> !ahead(f, e)),
{
    let es = store.entry_seq();
    let n = store.spec_len() as int;
    lemma_count_ahead_zero(es, n, e);
    if forall|f: EntryView| #[trigger] store.entries().contains(f) ==> !ahead(f, e) {
        assert forall|i: int| 0 <= i < n implies !#[trigger] ahead(es[i], e) by {
            assert(store.entries().contains(store.entry_at(i)));
        }
    }
    if forall|i: int| 0 <= i < n ==> !#[trigger] ahead(es[i], e) {
        assert forall|f: EntryView| #[trigger] store.entries().contains(f) implies !ahead(f, e) by {
            let i = choose|i: int| 0 <= i < n && store.entry_at(i) == f;
            assert(es[i] == f);
        }
    }
}

} // verus!
