//! Areas: groupings of entries by subspace, path prefix and time range, usable even where
//! subspaces and paths are encrypted, since they rely on no order of either.
use vstd::prelude::*;
use crate::{SubspaceId, Timestamp};
use crate::entry::{Entry, EntryView};
use crate::path::{Path, is_prefix};
use crate::range::{End, Range};

verus! {

/// Whether an [`Area`] selects one subspace or all of them.
#[derive(Copy, Clone, Debug, PartialEq, Eq, Structural, PartialOrd, Ord, Hash)]
pub enum Subspace {
    /// A single subspace.
    Id(SubspaceId),
    /// All subspaces.
    Any,
}

impl Subspace {
    /// Every subspace that `other` selects is selected by `self`.
    pub open spec fn spec_includes(self, other: Subspace) -> bool {
        match (self, other) {
            (Subspace::Any, _) => true,
            (Subspace::Id(a), Subspace::Id(b)) => a == b,
            (Subspace::Id(_), Subspace::Any) => false,
        }
    }

    /// Every subspace that `other` selects is selected by `self`.
    pub fn includes(&self, other: &Subspace) -> (r: bool)
        ensures
            r == self.spec_includes(*other),
    {
        match (self, other) {
            (Subspace::Any, _) => true,
            (Subspace::Id(a), Subspace::Id(b)) => *a == *b,
            (Subspace::Id(_), Subspace::Any) => false,
        }
    }
}

/// A grouping of entries: a subspace selector, a path prefix and a range of times.
#[derive(Clone, Debug, Eq, PartialOrd, Ord)]
pub struct Area {
    /// An entry's subspace must be this one, unless this is `Any`.
    pub subspace: Subspace,
    /// An entry's path must be prefixed by this.
    pub path: Path,
    /// An entry's timestamp must lie in this range.
    pub times: Range<Timestamp>,
}

/// The value of an area, with its path as a sequence of byte strings.
pub struct AreaView {
    pub subspace: Subspace,
    pub path: Seq<Seq<u8>>,
    pub times: Range<Timestamp>,
}

impl View for Area {
    type V = AreaView;

    open spec fn view(&self) -> AreaView {
        AreaView { subspace: self.subspace, path: self.path@, times: self.times }
    }
}

impl PartialEq for Area {
    fn eq(&self, other: &Area) -> (r: bool) {
        self.subspace == other.subspace && self.path.eq_components(&other.path)
            && self.times.start.us_since_epoch == other.times.start.us_since_epoch && match (
            &self.times.end,
            &other.times.end,
        ) {
            (End::Closed(a), End::Closed(b)) => a.us_since_epoch == b.us_since_epoch,
            (End::Open, End::Open) => true,
            _ => false,
        }
    }
}

impl vstd::std_specs::cmp::PartialEqSpecImpl for Area {
    open spec fn obeys_eq_spec() -> bool {
        true
    }

    open spec fn eq_spec(&self, other: &Area) -> bool {
        self@ == other@
    }
}

/// The time range `[0, 0)`, which includes no time.
pub open spec fn empty_times() -> Range<Timestamp> {
    Range { start: Timestamp { us_since_epoch: 0 }, end: End::Closed(Timestamp { us_since_epoch: 0 }) }
}

/// The canonical empty area.
pub open spec fn empty_area() -> AreaView {
    AreaView { subspace: Subspace::Any, path: Seq::empty(), times: empty_times() }
}

/// The area that includes every entry.
pub open spec fn full_area() -> AreaView {
    AreaView {
        subspace: Subspace::Any,
        path: Seq::empty(),
        times: Range { start: Timestamp { us_since_epoch: 0 }, end: End::Open },
    }
}

/// `a` includes the entry `e`: the subspace matches, `a.path` prefixes the entry's path, and
/// `a.times` includes its timestamp.
pub open spec fn area_includes_entry(a: AreaView, e: EntryView) -> bool {
    &&& a.subspace.spec_includes(Subspace::Id(e.subspace_id))
    &&& is_prefix(a.path, e.path)
    &&& a.times.contains(Timestamp { us_since_epoch: e.timestamp })
}

/// `a` includes the area `b`: `b` is empty, or `a`'s subspace selector accepts `b`'s, `a.path`
/// prefixes `b.path`, and `a.times` includes `b.times` as a sub-range.
pub open spec fn area_includes_area(a: AreaView, b: AreaView) -> bool {
    ||| b.times.spec_is_empty()
    ||| {
        &&& a.subspace.spec_includes(b.subspace)
        &&& is_prefix(a.path, b.path)
        &&& a.times.spec_includes_range(b.times)
    }
}

/// The intersection of two areas: empty unless the subspaces agree and one path prefixes the
/// other; otherwise the more specific subspace and path, and the intersection of the times,
/// canonicalised to the empty area when that is empty.
pub open spec fn area_intersection(a: AreaView, b: AreaView) -> AreaView {
    let subspace = match (a.subspace, b.subspace) {
        (Subspace::Any, s) => Some(s),
        (s, Subspace::Any) => Some(s),
        (Subspace::Id(x), Subspace::Id(y)) => if x == y {
            Some(Subspace::Id(x))
        } else {
            None
        },
    };
    let path = if is_prefix(a.path, b.path) {
        Some(b.path)
    } else if is_prefix(b.path, a.path) {
        Some(a.path)
    } else {
        None
    };
    let times = a.times.spec_intersection(b.times);
    if subspace is None || path is None || times.spec_is_empty() {
        empty_area()
    } else {
        AreaView { subspace: subspace->Some_0, path: path->Some_0, times }
    }
}

/// The full area includes every entry, and the empty area includes none.
pub proof fn lemma_full_and_empty(e: EntryView)
    ensures
        area_includes_entry(full_area(), e),
        !area_includes_entry(empty_area(), e),
{
    assert(e.path.subrange(0, 0) =~= Seq::<Seq<u8>>::empty());
}

/// An area that includes another by selector, prefix and sub-range includes every entry that
/// the other includes.
pub proof fn lemma_includes_area_sound(a: AreaView, b: AreaView, e: EntryView)
    requires
        area_includes_area(a, b),
        area_includes_entry(b, e),
    ensures
        area_includes_entry(a, e),
{
    let t = Timestamp { us_since_epoch: e.timestamp };
    if b.times.spec_is_empty() {
        if b.times.end is Closed {
            crate::range::lemma_order3(t, b.times.start, b.times.end->Closed_0);
        }
        return;
    }
    lemma_prefix_trans(a.path, b.path, e.path);
    crate::range::lemma_order3(a.times.start, b.times.start, t);
    if a.times.end is Closed && b.times.end is Closed {
        crate::range::lemma_order3(t, a.times.end->Closed_0, b.times.end->Closed_0);
    }
}

/// An area includes another exactly when it includes every entry that the other includes.
pub proof fn lemma_includes_area_exact(a: AreaView, b: AreaView)
    ensures
        area_includes_area(a, b) <==> forall|e: EntryView| #[trigger] area_includes_entry(b, e)
            ==> area_includes_entry(a, e),
{
    if area_includes_area(a, b) {
        assert forall|e: EntryView| #[trigger] area_includes_entry(b, e) implies area_includes_entry(
            a,
            e,
        ) by {
            lemma_includes_area_sound(a, b, e);
        }
    }
    if !area_includes_area(a, b) && forall|e: EntryView| #[trigger] area_includes_entry(b, e)
        ==> area_includes_entry(a, e) {
        let s = b.times.start.us_since_epoch;
        let other_id: u64 = match a.subspace {
            Subspace::Id(x) => if x == 0 {
                1
            } else {
                0
            },
            Subspace::Any => 0,
        };
        let sub: u64 = match b.subspace {
            Subspace::Id(y) => y,
            Subspace::Any => other_id,
        };
        let witness = |t: u64|
            EntryView {
                namespace_id: 0,
                subspace_id: sub,
                path: b.path,
                timestamp: t,
                payload_digest: 0,
                payload_length: 0,
            };
        assert(b.path.subrange(0, b.path.len() as int) =~= b.path);
        assert(area_includes_entry(b, witness(s)));
        assert(area_includes_entry(a, witness(s)));
        let t = match (a.times.end, b.times.end) {
            (End::Closed(ae), _) => if ae.us_since_epoch >= s {
                ae.us_since_epoch
            } else {
                s
            },
            _ => s,
        };
        assert(area_includes_entry(b, witness(t)) ==> area_includes_entry(a, witness(t)));
    }
}

/// Two prefixes of one path are prefixes of each other, one way or the other.
pub proof fn lemma_prefixes_nest(a: Seq<Seq<u8>>, b: Seq<Seq<u8>>, p: Seq<Seq<u8>>)
    requires
        is_prefix(a, p),
        is_prefix(b, p),
    ensures
        is_prefix(a, b) || is_prefix(b, a),
{
    if a.len() <= b.len() {
        assert(b.subrange(0, a.len() as int) =~= p.subrange(0, a.len() as int));
    } else {
        assert(a.subrange(0, b.len() as int) =~= p.subrange(0, b.len() as int));
    }
}

/// Prefixing is transitive.
pub proof fn lemma_prefix_trans(a: Seq<Seq<u8>>, b: Seq<Seq<u8>>, c: Seq<Seq<u8>>)
    requires
        is_prefix(a, b),
        is_prefix(b, c),
    ensures
        is_prefix(a, c),
{
    assert(c.subrange(0, a.len() as int) =~= b.subrange(0, a.len() as int));
}

/// The timestamp orders of `Range<Timestamp>` are antisymmetric.
pub proof fn lemma_timestamp_antisymmetric()
    ensures
        crate::order::antisymmetric::<Timestamp>(),
{
}

/// A value that an [`Area`] can include: an entry or another area.
pub trait Includable {
    /// `area` includes `self`.
    spec fn spec_included_in(&self, area: AreaView) -> bool;

    /// `area` includes `self`.
    fn included_in(&self, area: &Area) -> (r: bool)
        ensures
            r == self.spec_included_in(area@),
    ;
}

impl Includable for Entry {
    open spec fn spec_included_in(&self, area: AreaView) -> bool {
        area_includes_entry(area, self@)
    }

    fn included_in(&self, area: &Area) -> (r: bool) {
        area.subspace.includes(&Subspace::Id(self.subspace_id)) && area.path.is_prefix_of(
            &self.path,
        ) && area.times.includes(&self.timestamp)
    }
}

impl Includable for Area {
    open spec fn spec_included_in(&self, area: AreaView) -> bool {
        area_includes_area(area, self@)
    }

    fn included_in(&self, area: &Area) -> (r: bool) {
        self.times.is_empty() || (area.subspace.includes(&self.subspace)
            && area.path.is_prefix_of(&self.path) && area.times.includes_range(&self.times))
    }
}

impl Area {
    /// The canonical empty area: any subspace, the empty path, and the empty time range
    /// `[0, 0)`.
    pub fn empty() -> (r: Area)
        ensures
            r@ == empty_area(),
            forall|e: EntryView| !#[trigger] area_includes_entry(r@, e),
    {
        Area {
            subspace: Subspace::Any,
            path: Path::empty(),
            times: Range {
                start: Timestamp { us_since_epoch: 0 },
                end: End::Closed(Timestamp { us_since_epoch: 0 }),
            },
        }
    }

    /// The full area: any subspace, the empty path, and the open time range from `0`. It
    /// includes every entry.
    pub fn full() -> (r: Area)
        ensures
            r@ == full_area(),
            forall|e: EntryView| #[trigger] area_includes_entry(r@, e),
    {
        let r = Area {
            subspace: Subspace::Any,
            path: Path::empty(),
            times: Range { start: Timestamp { us_since_epoch: 0 }, end: End::Open },
        };
        proof {
            assert forall|e: EntryView| #[trigger] area_includes_entry(r@, e) by {
                assert(e.path.subrange(0, 0) =~= r@.path);
            }
        }
        r
    }

    /// The area of the subspace `sub`: that subspace, the empty path, and the open time range
    /// from `0`. It includes exactly the entries of that subspace.
    pub fn subspace(sub: SubspaceId) -> (r: Area)
        ensures
            r@ == (AreaView { subspace: Subspace::Id(sub), ..full_area() }),
            forall|e: EntryView| #[trigger] area_includes_entry(r@, e) <==> e.subspace_id == sub,
    {
        let r = Area {
            subspace: Subspace::Id(sub),
            path: Path::empty(),
            times: Range { start: Timestamp { us_since_epoch: 0 }, end: End::Open },
        };
        proof {
            assert forall|e: EntryView| #[trigger] area_includes_entry(r@, e) <==> e.subspace_id
                == sub by {
                assert(e.path.subrange(0, 0) =~= r@.path);
            }
        }
        r
    }

    /// `self` includes `value`: for an entry, by the point rule; for an area, when every entry
    /// that the other could include is included by `self` by selector, prefix and sub-range.
    pub fn includes<V: Includable>(&self, value: &V) -> (r: bool)
        ensures
            r == value.spec_included_in(self@),
    {
        value.included_in(self)
    }

    /// An area is empty when its time range is: then it includes no entry.
    pub fn is_empty(&self) -> (r: bool)
        ensures
            r == self.times.spec_is_empty(),
            r <==> forall|e: EntryView| !#[trigger] area_includes_entry(self@, e),
    {
        let r = self.times.is_empty();
        proof {
            if !r {
                let t = self.times.start;
                assert(self.times.contains(t));
                let e = EntryView {
                    namespace_id: 0,
                    subspace_id: match self.subspace {
                        Subspace::Id(s) => s,
                        Subspace::Any => 0,
                    },
                    path: self@.path,
                    timestamp: t.us_since_epoch,
                    payload_digest: 0,
                    payload_length: 0,
                };
                assert(e.path.subrange(0, self@.path.len() as int) =~= self@.path);
                assert(area_includes_entry(self@, e));
            }
        }
        r
    }

    /// The intersection of `self` and `other`: it includes exactly the entries that both
    /// include, and it is the canonical empty area when there are none.
    pub fn intersection(&self, other: &Area) -> (r: Area)
        ensures
            r@ == area_intersection(self@, other@),
            forall|e: EntryView| #[trigger] area_includes_entry(r@, e) <==> area_includes_entry(
                self@,
                e,
            ) && area_includes_entry(other@, e),
    {
        proof {
            lemma_timestamp_antisymmetric();
        }
        let subspace = match (&self.subspace, &other.subspace) {
            (Subspace::Any, s) => *s,
            (s, Subspace::Any) => *s,
            (Subspace::Id(x), Subspace::Id(y)) => {
                if *x == *y {
                    Subspace::Id(*x)
                } else {
                    let r = Area::empty();
                    proof {
                        self.lemma_intersection_contents(other, r@);
                    }
                    return r;
                }
            },
        };
        let self_prefixes = self.path.is_prefix_of(&other.path);
        let other_prefixes = other.path.is_prefix_of(&self.path);
        if !self_prefixes && !other_prefixes {
            let r = Area::empty();
            proof {
                self.lemma_intersection_contents(other, r@);
            }
            return r;
        }
        let times = self.times.intersection(&other.times);
        if times.is_empty() {
            let r = Area::empty();
            proof {
                self.lemma_intersection_contents(other, r@);
            }
            return r;
        }
        let path = if self_prefixes {
            other.path.duplicate_path()
        } else {
            self.path.duplicate_path()
        };
        let r = Area { subspace, path, times };
        proof {
            self.lemma_intersection_contents(other, r@);
        }
        r
    }

    proof fn lemma_intersection_contents(&self, other: &Area, r: AreaView)
        requires
            r == area_intersection(self@, other@),
        ensures
            forall|e: EntryView| #[trigger] area_includes_entry(r, e) <==> area_includes_entry(
                self@,
                e,
            ) && area_includes_entry(other@, e),
    {
        lemma_timestamp_antisymmetric();
        let times = self.times.spec_intersection(other.times);
        assert forall|e: EntryView| #[trigger] area_includes_entry(r, e) <==> area_includes_entry(
            self@,
            e,
        ) && area_includes_entry(other@, e) by {
            let t = Timestamp { us_since_epoch: e.timestamp };
            if area_includes_entry(self@, e) && area_includes_entry(other@, e) {
                lemma_prefixes_nest(self@.path, other@.path, e.path);
                assert(times.contains(t));
            }
            if area_includes_entry(r, e) {
                if is_prefix(self@.path, other@.path) {
                    lemma_prefix_trans(self@.path, other@.path, e.path);
                } else if is_prefix(other@.path, self@.path) {
                    lemma_prefix_trans(other@.path, self@.path, e.path);
                }
            }
        }
    }
}

} // verus!
