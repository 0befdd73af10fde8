//! The store: the authorised entries of one namespace, kept under prefix pruning, with the
//! join that merges two replicas.
use vstd::prelude::*;
use crate::{NamespaceId, PayloadDigest, SubspaceId};
use crate::area::lemma_prefix_trans;
use crate::entry::{AuthorisedEntry, Entry, EntryView, entry_lt, newer, same_newness};
use crate::path::{Path, is_prefix};

verus! {

/// `f` prunes `e`: same subspace, `f`'s path prefixes `e`'s, and `f` is newer.
pub open spec fn dominates(f: EntryView, e: EntryView) -> bool {
    &&& f.subspace_id == e.subspace_id
    &&& is_prefix(f.path, e.path)
    &&& newer(f, e)
}

/// No entry of `s` prunes another entry of `s`.
pub open spec fn is_pruned(s: Set<EntryView>) -> bool {
    forall|f: EntryView, e: EntryView| #[trigger] s.contains(f) && #[trigger] s.contains(e)
        ==> !dominates(f, e)
}

/// The entries of `s` that no entry of `s` prunes.
pub open spec fn pruned(s: Set<EntryView>) -> Set<EntryView> {
    s.filter(|e: EntryView| !exists|f: EntryView| #[trigger] s.contains(f) && dominates(f, e))
}

/// Pruning is transitive: what prunes a pruner prunes its victims too.
pub proof fn lemma_dominates_trans(a: EntryView, b: EntryView, c: EntryView)
    requires
        dominates(a, b),
        dominates(b, c),
    ensures
        dominates(a, c),
{
    lemma_prefix_trans(a.path, b.path, c.path);
}

/// Joining is commutative: `a` joined with `b` retains the same set as `b` joined with `a`.
pub proof fn lemma_join_commutative(a: &Store, b: &Store)
    ensures
        pruned(a.entries().union(b.entries())) == pruned(b.entries().union(a.entries())),
{
    assert(a.entries().union(b.entries()) =~= b.entries().union(a.entries()));
}

/// Joining a store with itself leaves its retained set unchanged.
pub proof fn lemma_join_self(a: &Store)
    requires
        a.wf(),
    ensures
        pruned(a.entries().union(a.entries())) == a.entries(),
{
    a.lemma_valid();
    let s = a.entries();
    assert(s.union(s) =~= s);
    assert(pruned(s) =~= s);
}

/// Putting into a pruned set, then putting again, gives the pruned union of the set and both
/// entries.
pub proof fn lemma_put_put(s: Set<EntryView>, x: EntryView, y: EntryView)
    requires
        is_pruned(s),
    ensures
        pruned(pruned(s.insert(x)).insert(y)) == pruned(s.insert(x).insert(y)),
{
    let p1 = pruned(s.insert(x));
    let u = s.insert(x).insert(y);
    assert forall|z: EntryView| #[trigger] pruned(p1.insert(y)).contains(z) <==> pruned(u).contains(z) by {
        if pruned(p1.insert(y)).contains(z) {
            assert forall|f: EntryView| #[trigger] u.contains(f) implies !dominates(f, z) by {
                if dominates(f, z) && f != y {
                    if p1.contains(f) {
                        assert(p1.insert(y).contains(f));
                    } else {
                        let g = choose|g: EntryView| #[trigger] s.insert(x).contains(g) && dominates(g, f);
                        lemma_dominates_trans(g, f, z);
                        if p1.contains(g) {
                            assert(p1.insert(y).contains(g));
                        } else {
                            let h = choose|h: EntryView| #[trigger] s.insert(x).contains(h) && dominates(h, g);
                            lemma_dominates_trans(h, g, f);
                        }
                    }
                }
            }
        }
        if pruned(u).contains(z) {
            assert forall|f: EntryView| #[trigger] p1.insert(y).contains(f) implies !dominates(f, z) by {
                assert(u.contains(f));
            }
            if z != y {
                assert forall|f: EntryView| #[trigger] s.insert(x).contains(f) implies !dominates(f, z) by {
                    assert(u.contains(f));
                }
            }
        }
    }
    assert(pruned(p1.insert(y)) =~= pruned(u));
}

/// Two puts converge whatever their order; and where `e1` prunes `e2` (same subspace, `e1`'s
/// path prefixes `e2`'s, `e1` newer), `e2` is not retained after both.
pub proof fn lemma_put_order(s: Set<EntryView>, e1: EntryView, e2: EntryView)
    requires
        is_pruned(s),
    ensures
        pruned(pruned(s.insert(e1)).insert(e2)) == pruned(pruned(s.insert(e2)).insert(e1)),
        dominates(e1, e2) ==> !pruned(pruned(s.insert(e1)).insert(e2)).contains(e2),
{
    lemma_put_put(s, e1, e2);
    lemma_put_put(s, e2, e1);
    assert(s.insert(e1).insert(e2) =~= s.insert(e2).insert(e1));
    if dominates(e1, e2) {
        assert(s.insert(e1).insert(e2).contains(e1));
    }
}

/// A payload's bytes with the digest that the deployment's hash function gave for them.
#[derive(Clone, Debug)]
pub struct Payload {
    /// The content.
    pub bytes: Vec<u8>,
    /// The digest of `bytes`.
    pub digest: PayloadDigest,
}

/// Why `put` refused an entry.
#[derive(Copy, Clone, Debug, PartialEq, Eq, Structural, Hash)]
pub enum PutError {
    /// The entry belongs to another namespace.
    DifferentNamespace,
    /// The payload's digest or length is not the one the entry claims.
    PayloadMismatch,
}

/// Why `join` refused the other store.
#[derive(Copy, Clone, Debug, PartialEq, Eq, Structural, Hash)]
pub enum JoinError {
    /// The other store is for another namespace.
    DifferentNamespace,
}

/// Why `get` could not hand out a payload.
#[derive(Copy, Clone, Debug, PartialEq, Eq, Structural, Hash)]
pub enum GetError {
    /// An entry is retained at that place, but its payload has not been attached yet.
    MissingPayload,
}

/// The authorised entries of one namespace, with the payloads attached so far. No retained
/// entry is pruned by another: storing a newer entry at a path removes the older entries at
/// paths that it prefixes.
#[derive(Clone, Debug)]
pub struct Store {
    namespace_id: NamespaceId,
    entries: Vec<AuthorisedEntry>,
    payloads: Vec<Option<Vec<u8>>>,
}

impl Store {
    /// The namespace that the store is for.
    pub closed spec fn spec_namespace_id(&self) -> NamespaceId {
        self.namespace_id
    }

    /// The number of retained entries.
    pub closed spec fn spec_len(&self) -> nat {
        self.entries@.len()
    }

    /// The retained entry at position `i`.
    pub closed spec fn entry_at(&self, i: int) -> EntryView {
        self.entries@[i].spec_entry()
    }

    /// The token of the retained entry at position `i`.
    pub closed spec fn token_at(&self, i: int) -> crate::AuthorisationToken {
        self.entries@[i].spec_auth_token()
    }

    /// The payload attached to the retained entry at position `i`, if any.
    pub closed spec fn payload_at(&self, i: int) -> Option<Seq<u8>> {
        opt_view(self.payloads@[i])
    }

    /// The set of retained entries.
    pub open spec fn entries(&self) -> Set<EntryView> {
        Set::new(|e: EntryView| exists|i: int| 0 <= i < self.spec_len() && self.entry_at(i) == e)
    }

    /// The store's invariant: payloads line up with entries, every entry is of the store's
    /// namespace, no entry is retained twice, none prunes another, and each attached payload has
    /// the length that its entry claims.
    pub closed spec fn wf(&self) -> bool {
        &&& self.payloads@.len() == self.entries@.len()
        &&& forall|i: int| 0 <= i < self.entries@.len() ==> (#[trigger] self.entry_at(
            i,
        )).namespace_id == self.namespace_id
        &&& forall|i: int, j: int|
            0 <= i < self.entries@.len() && 0 <= j < self.entries@.len() && i != j
                ==> #[trigger] self.entry_at(i) != #[trigger] self.entry_at(j)
        &&& forall|i: int, j: int|
            0 <= i < self.entries@.len() && 0 <= j < self.entries@.len() ==> !dominates(
                #[trigger] self.entry_at(i),
                #[trigger] self.entry_at(j),
            )
        &&& forall|i: int| 0 <= i < self.entries@.len() ==> match #[trigger] self.payloads@[i] {
            Some(p) => p@.len() == self.entry_at(i).payload_length,
            None => true,
        }
    }

    /// What every store satisfies: one namespace, and no retained entry pruned by another.
    pub proof fn lemma_valid(&self)
        requires
            self.wf(),
        ensures
            is_pruned(self.entries()),
            forall|e: EntryView| #[trigger] self.entries().contains(e) ==> e.namespace_id
                == self.spec_namespace_id(),
            forall|i: int| 0 <= i < self.spec_len() ==> #[trigger] self.entries().contains(
                self.entry_at(i),
            ),
            forall|i: int, j: int|
                0 <= i < self.spec_len() && 0 <= j < self.spec_len() && i != j
                    ==> #[trigger] self.entry_at(i) != #[trigger] self.entry_at(j),
    {
        assert forall|i: int| 0 <= i < self.spec_len() implies #[trigger] self.entries().contains(
            self.entry_at(i),
        ) by {}
    }

    /// A store retains at most one entry at each (subspace, path) place.
    pub proof fn lemma_one_per_place(&self, i: int, j: int)
        requires
            self.wf(),
            0 <= i < self.spec_len(),
            0 <= j < self.spec_len(),
            self.entry_at(i).subspace_id == self.entry_at(j).subspace_id,
            self.entry_at(i).path == self.entry_at(j).path,
        ensures
            i == j,
    {
        let (a, b) = (self.entry_at(i), self.entry_at(j));
        assert(a.path.subrange(0, a.path.len() as int) =~= b.path);
        if i != j {
            assert(!dominates(a, b));
            assert(!dominates(b, a));
            assert(a == b);
        }
    }

    /// An empty store for `namespace_id`.
    pub fn new(namespace_id: NamespaceId) -> (r: Store)
        ensures
            r.wf(),
            r.spec_namespace_id() == namespace_id,
            r.entries() == Set::<EntryView>::empty(),
            r.spec_len() == 0,
    {
        let r = Store { namespace_id, entries: Vec::new(), payloads: Vec::new() };
        proof {
            assert(r.entries() =~= Set::<EntryView>::empty());
        }
        r
    }

    /// The namespace that the store is for.
    pub fn namespace_id(&self) -> (r: &NamespaceId)
        ensures
            *r == self.spec_namespace_id(),
    {
        &self.namespace_id
    }

    /// The number of retained entries.
    pub fn len(&self) -> (r: usize)
        ensures
            r == self.spec_len(),
    {
        self.entries.len()
    }

    /// Copies of all retained entries with their tokens.
    pub fn iter(&self) -> (r: Vec<AuthorisedEntry>)
        ensures
            r@.len() == self.spec_len(),
            forall|i: int| 0 <= i < r@.len() ==> (#[trigger] r@[i]).spec_entry() == self.entry_at(
                i,
            ) && r@[i].spec_auth_token() == self.token_at(i),
    {
        let mut out: Vec<AuthorisedEntry> = Vec::new();
        let mut i: usize = 0;
        while i < self.entries.len()
            invariant
                i <= self.entries@.len(),
                out@.len() == i,
                forall|j: int| 0 <= j < i ==> (#[trigger] out@[j]).spec_entry() == self.entry_at(j)
                    && out@[j].spec_auth_token() == self.entries@[j].spec_auth_token(),
            decreases self.entries@.len() - i,
        {
            out.push(self.entries[i].duplicate());
            i = i + 1;
        }
        out
    }

    /// Some retained entry prunes `e`.
    fn dominated(&self, e: &Entry) -> (r: bool)
        ensures
            r == exists|i: int| 0 <= i < self.spec_len() && #[trigger] dominates(
                self.entry_at(i),
                e@,
            ),
    {
        let mut i: usize = 0;
        while i < self.entries.len()
            invariant
                i <= self.entries@.len(),
                forall|j: int| 0 <= j < i ==> !#[trigger] dominates(self.entry_at(j), e@),
            decreases self.entries@.len() - i,
        {
            let f = self.entries[i].entry();
            if f.subspace_id == e.subspace_id && f.path.is_prefix_of(&e.path) && f.is_newer_than(
                e,
            ) {
                proof {
                    assert(dominates(self.entry_at(i as int), e@));
                }
                return true;
            }
            i = i + 1;
        }
        false
    }

    /// The position of the retained entry equal to `e`, if there is one.
    fn position(&self, e: &Entry) -> (r: Option<usize>)
        ensures
            match r {
                Some(i) => i < self.spec_len() && self.entry_at(i as int) == e@,
                None => forall|i: int| 0 <= i < self.spec_len() ==> #[trigger] self.entry_at(i)
                    != e@,
            },
    {
        let mut i: usize = 0;
        while i < self.entries.len()
            invariant
                i <= self.entries@.len(),
                forall|j: int| 0 <= j < i ==> #[trigger] self.entry_at(j) != e@,
            decreases self.entries@.len() - i,
        {
            if *self.entries[i].entry() == *e {
                return Some(i);
            }
            i = i + 1;
        }
        None
    }
}

impl Store {
    /// Inserts `auth_entry`, then prunes: the retained set becomes the pruned union of the old
    /// set and the entry. An entry that a retained entry prunes leaves the store as it was. A
    /// payload that is given must have the digest and length that the entry claims; it is then
    /// attached to the entry if the entry is retained.
    pub fn put(&mut self, auth_entry: AuthorisedEntry, payload: Option<Payload>) -> (r: Result<
        (),
        PutError,
    >)
        requires
            old(self).wf(),
        ensures
            final(self).wf(),
            final(self).spec_namespace_id() == old(self).spec_namespace_id(),
            auth_entry.spec_entry().namespace_id != old(self).spec_namespace_id() ==> r == Err::<
                (),
                PutError,
            >(PutError::DifferentNamespace) && *final(self) == *old(self),
            auth_entry.spec_entry().namespace_id == old(self).spec_namespace_id() ==> match payload {
                Some(p) => if p.digest != auth_entry.spec_entry().payload_digest || p.bytes@.len()
                    != auth_entry.spec_entry().payload_length {
                    r == Err::<(), PutError>(PutError::PayloadMismatch) && *final(self) == *old(self)
                } else {
                    r is Ok
                },
                None => r is Ok,
            },
            r is Ok ==> final(self).entries() == pruned(
                old(self).entries().insert(auth_entry.spec_entry()),
            ),
            r is Ok ==> forall|i: int|
                0 <= i < final(self).spec_len() && #[trigger] final(self).entry_at(i)
                    != auth_entry.spec_entry() ==> exists|j: int|
                    0 <= j < old(self).spec_len() && old(self).entry_at(j) == final(self).entry_at(
                        i,
                    ) && #[trigger] old(self).payload_at(j) == final(self).payload_at(i),
            r is Ok ==> forall|i: int|
                0 <= i < final(self).spec_len() && #[trigger] final(self).entry_at(i)
                    == auth_entry.spec_entry() ==> match payload {
                    Some(p) => final(self).payload_at(i) == Some(p.bytes@),
                    None => (exists|j: int|
                        0 <= j < old(self).spec_len() && old(self).entry_at(j) == final(self).entry_at(i) && #[trigger] old(self).payload_at(j) == final(self).payload_at(i)) || final(self).payload_at(i) is None,
                },
    {
        let ghost ev = auth_entry.spec_entry();
        let ghost s0 = self.entries();
        if auth_entry.entry().namespace_id != self.namespace_id {
            return Err(PutError::DifferentNamespace);
        }
        match &payload {
            Some(p) => {
                if p.digest != auth_entry.entry().payload_digest || p.bytes.len() as u64
                    != auth_entry.entry().payload_length {
                    return Err(PutError::PayloadMismatch);
                }
            },
            None => {},
        }
        proof {
            self.lemma_valid();
        }
        if self.dominated(auth_entry.entry()) {
            proof {
                let i = choose|i: int| 0 <= i < self.spec_len() && dominates(self.entry_at(i), ev);
                assert(s0.contains(self.entry_at(i)));
                assert forall|x: EntryView| s0.contains(x) implies #[trigger] pruned(
                    s0.insert(ev),
                ).contains(x) by {
                    assert forall|f: EntryView| #[trigger] s0.insert(ev).contains(f) implies !dominates(
                        f,
                        x,
                    ) by {
                        if f == ev && dominates(ev, x) {
                            lemma_dominates_trans(self.entry_at(i), ev, x);
                        }
                    }
                }
                assert forall|x: EntryView| #[trigger] pruned(s0.insert(ev)).contains(x) implies s0.contains(
                    x,
                ) by {
                    if x == ev {
                        assert(s0.insert(ev).contains(self.entry_at(i)));
                    }
                }
                assert(self.entries() =~= pruned(s0.insert(ev)));
            }
            return Ok(());
        }
        match self.position(auth_entry.entry()) {
            Some(k) => {
                let ghost before = *self;
                match payload {
                    Some(p) => {
                        self.payloads.set(k, Some(p.bytes));
                    },
                    None => {},
                }
                proof {
                    assert(self.entries@ == before.entries@);
                    assert forall|q: int| 0 <= q < self.entries@.len() implies match #[trigger] self.payloads@[q] {
                        Some(b) => b@.len() == self.entry_at(q).payload_length,
                        None => true,
                    } by {
                        assert(self.entry_at(q) == before.entry_at(q));
                        if q != k {
                            assert(self.payloads@[q] == before.payloads@[q]);
                        }
                    }
                    assert forall|q: int| 0 <= q < self.entries@.len() implies #[trigger] self.entry_at(q) == before.entry_at(q) by {}
                    assert forall|x: EntryView| #[trigger] self.entries().contains(x) <==> s0.contains(x) by {
                        if s0.contains(x) {
                            let q = choose|q: int| 0 <= q < before.spec_len() && before.entry_at(q) == x;
                            assert(self.entry_at(q) == x);
                        }
                        if self.entries().contains(x) {
                            let q = choose|q: int| 0 <= q < self.spec_len() && self.entry_at(q) == x;
                            assert(before.entry_at(q) == x);
                        }
                    }
                    assert(self.entries() =~= s0);
                    assert(s0.insert(ev) =~= s0);
                    assert(pruned(s0) =~= s0);
                }
                return Ok(());
            },
            None => {},
        }
        let mut new_entries: Vec<AuthorisedEntry> = Vec::new();
        let mut new_payloads: Vec<Option<Vec<u8>>> = Vec::new();
        let ghost mut idx: Seq<int> = Seq::empty();
        let mut i: usize = 0;
        while i < self.entries.len()
            invariant
                self.wf(),
                i <= self.entries@.len(),
                new_entries@.len() == idx.len(),
                new_payloads@.len() == idx.len(),
                forall|j: int| 0 <= j < idx.len() ==> 0 <= #[trigger] idx[j] < i,
                forall|j: int, l: int| 0 <= j < l < idx.len() ==> idx[j] < idx[l],
                forall|j: int|
                    0 <= j < idx.len() ==> (#[trigger] new_entries@[j]).spec_entry()
                        == self.entry_at(idx[j]) && !dominates(ev, self.entry_at(idx[j])),
                forall|j: int|
                    0 <= j < idx.len() ==> match (#[trigger] new_payloads@[j], self.payloads@[idx[j]]) {
                        (Some(a), Some(b)) => a@ == b@,
                        (None, None) => true,
                        _ => false,
                    },
                forall|m: int|
                    0 <= m < i && !dominates(ev, #[trigger] self.entry_at(m)) ==> exists|j: int|
                        0 <= j < idx.len() && idx[j] == m,
                ev == auth_entry.spec_entry(),
            decreases self.entries@.len() - i,
        {
            if !auth_entry.entry().prunes(self.entries[i].entry()) {
                new_entries.push(self.entries[i].duplicate());
                new_payloads.push(copy_payload(&self.payloads[i]));
                proof {
                    let old_idx = idx;
                    idx = idx.push(i as int);
                    assert(idx[idx.len() - 1] == i);
                    assert forall|m: int|
                        0 <= m < i && !dominates(ev, #[trigger] self.entry_at(m)) implies exists|j: int|
                            0 <= j < idx.len() && idx[j] == m by {
                        let j = choose|j: int| 0 <= j < old_idx.len() && old_idx[j] == m;
                        assert(idx[j] == m);
                    }
                }
            }
            i = i + 1;
        }
        let ghost n = new_entries@.len();
        new_entries.push(auth_entry);
        match payload {
            Some(p) => new_payloads.push(Some(p.bytes)),
            None => new_payloads.push(None),
        }
        let ghost old_self = *self;
        self.entries = new_entries;
        self.payloads = new_payloads;
        proof {
            let o = old_self;
            assert forall|j: int| 0 <= j < self.spec_len() implies #[trigger] self.entry_at(j)
                == ev || (0 <= idx[j] < o.spec_len() && self.entry_at(j) == o.entry_at(idx[j])
                && !dominates(ev, o.entry_at(idx[j]))) by {}
            assert forall|a: int, b: int|
                0 <= a < self.spec_len() && 0 <= b < self.spec_len() && a != b implies #[trigger] self.entry_at(a)
                != #[trigger] self.entry_at(b) by {
                if a < n && b < n {
                    assert(idx[a] != idx[b]);
                }
                if a == n {
                    assert(o.entries().contains(self.entry_at(b)));
                }
                if b == n {
                    assert(o.entries().contains(self.entry_at(a)));
                }
            }
            assert forall|a: int, b: int|
                0 <= a < self.spec_len() && 0 <= b < self.spec_len() implies !dominates(
                #[trigger] self.entry_at(a),
                #[trigger] self.entry_at(b),
            ) by {
                if a == n && b == n {
                } else if a == n {
                } else if b == n {
                    assert(dominates(o.entry_at(idx[a]), ev) ==> exists|q: int|
                        0 <= q < o.spec_len() && #[trigger] dominates(o.entry_at(q), ev));
                } else {
                }
            }
            assert(self.entries() =~= pruned(s0.insert(ev))) by {
                assert forall|x: EntryView| #[trigger] self.entries().contains(x) implies pruned(
                    s0.insert(ev),
                ).contains(x) by {
                    let j = choose|j: int| 0 <= j < self.spec_len() && self.entry_at(j) == x;
                    if j < n {
                        assert(s0.contains(o.entry_at(idx[j])));
                    }
                    assert forall|f: EntryView| #[trigger] s0.insert(ev).contains(f) implies !dominates(
                        f,
                        x,
                    ) by {
                        if f != ev {
                            let q = choose|q: int| 0 <= q < o.spec_len() && o.entry_at(q) == f;
                            if j < n {
                            } else {
                                assert(dominates(o.entry_at(q), ev) ==> exists|q: int|
                                    0 <= q < o.spec_len() && #[trigger] dominates(o.entry_at(q), ev));
                            }
                        }
                    }
                }
                assert forall|x: EntryView| #[trigger] pruned(s0.insert(ev)).contains(x) implies self.entries().contains(x) by {
                    if x == ev {
                        assert(self.entry_at(n as int) == x);
                    } else {
                        let m = choose|m: int| 0 <= m < o.spec_len() && o.entry_at(m) == x;
                        assert(s0.insert(ev).contains(ev));
                        let j = choose|j: int| 0 <= j < idx.len() && idx[j] == m;
                        assert(self.entry_at(j) == x);
                    }
                }
            }
            assert forall|q: int| 0 <= q < self.spec_len() && #[trigger] self.entry_at(q) != ev implies exists|j: int|
                0 <= j < o.spec_len() && o.entry_at(j) == self.entry_at(q) && #[trigger] o.payload_at(j)
                    == self.payload_at(q) by {
                assert(q < n);
                assert(o.payload_at(idx[q]) == self.payload_at(q));
            }
        }
        Ok(())
    }
}

impl Store {
    /// Some retained entry of `self` prunes `x`.
    pub open spec fn prunes_entry(&self, x: EntryView) -> bool {
        exists|q: int| 0 <= q < self.spec_len() && #[trigger] dominates(self.entry_at(q), x)
    }

    /// Merges `other` into `self`: the retained set becomes the pruned union of both sets.
    /// Each retained entry keeps the payload that it had in the store it came from.
    pub fn join(&mut self, other: &Store) -> (r: Result<(), JoinError>)
        requires
            old(self).wf(),
            other.wf(),
        ensures
            final(self).wf(),
            final(self).spec_namespace_id() == old(self).spec_namespace_id(),
            other.spec_namespace_id() != old(self).spec_namespace_id() ==> r == Err::<
                (),
                JoinError,
            >(JoinError::DifferentNamespace) && *final(self) == *old(self),
            other.spec_namespace_id() == old(self).spec_namespace_id() ==> r is Ok,
            r is Ok ==> final(self).entries() == pruned(
                old(self).entries().union(other.entries()),
            ),
            r is Ok ==> forall|i: int|
                #![trigger final(self).payload_at(i)]
                0 <= i < final(self).spec_len() ==> (exists|j: int|
                    0 <= j < old(self).spec_len() && old(self).entry_at(j) == final(self).entry_at(
                        i,
                    ) && #[trigger] old(self).payload_at(j) == final(self).payload_at(i)) || (exists|
                    j: int,
                |
                    0 <= j < other.spec_len() && other.entry_at(j) == final(self).entry_at(i)
                        && #[trigger] other.payload_at(j) == final(self).payload_at(i)),
    {
        if self.namespace_id != other.namespace_id {
            return Err(JoinError::DifferentNamespace);
        }
        proof {
            self.lemma_valid();
            other.lemma_valid();
        }
        let ghost sa = self.entries();
        let ghost sb = other.entries();
        let mut new_entries: Vec<AuthorisedEntry> = Vec::new();
        let mut new_payloads: Vec<Option<Vec<u8>>> = Vec::new();
        let ghost mut ia: Seq<int> = Seq::empty();
        let mut i: usize = 0;
        while i < self.entries.len()
            invariant
                self.wf(),
                other.wf(),
                i <= self.entries@.len(),
                new_entries@.len() == ia.len(),
                new_payloads@.len() == ia.len(),
                forall|k: int| 0 <= k < ia.len() ==> 0 <= #[trigger] ia[k] < i,
                forall|k: int, l: int| 0 <= k < l < ia.len() ==> ia[k] < ia[l],
                forall|k: int|
                    0 <= k < ia.len() ==> (#[trigger] new_entries@[k]).spec_entry()
                        == self.entry_at(ia[k]) && !other.prunes_entry(self.entry_at(ia[k]))
                        && opt_view(new_payloads@[k]) == self.payload_at(ia[k]),
                forall|m: int|
                    0 <= m < i && !other.prunes_entry(#[trigger] self.entry_at(m)) ==> exists|k: int|
                        0 <= k < ia.len() && ia[k] == m,
            decreases self.entries@.len() - i,
        {
            if !other.dominated(self.entries[i].entry()) {
                let ghost pre_e = new_entries@;
                let ghost pre_p = new_payloads@;
                new_entries.push(self.entries[i].duplicate());
                new_payloads.push(copy_payload(&self.payloads[i]));
                proof {
                    assert forall|k: int| 0 <= k < pre_e.len() implies new_entries@[k] == pre_e[k] && new_payloads@[k] == pre_p[k] by {}
                    let old_ia = ia;
                    ia = ia.push(i as int);
                    assert(ia[ia.len() - 1] == i);
                    assert forall|m: int|
                        0 <= m < i && !other.prunes_entry(#[trigger] self.entry_at(m)) implies exists|k: int|
                            0 <= k < ia.len() && ia[k] == m by {
                        let k = choose|k: int| 0 <= k < old_ia.len() && old_ia[k] == m;
                        assert(ia[k] == m);
                    }
                }
            }
            i = i + 1;
        }
        let ghost n1 = new_entries@.len();
        let ghost mut ib: Seq<int> = Seq::empty();
        proof {
            reveal(appended_from);
        }
        let mut j: usize = 0;
        while j < other.entries.len()
            invariant
                self.wf(),
                other.wf(),
                j <= other.entries@.len(),
                n1 == ia.len(),
                new_entries@.len() == n1 + ib.len(),
                new_payloads@.len() == n1 + ib.len(),
                forall|k: int|
                    0 <= k < ia.len() ==> (#[trigger] new_entries@[k]).spec_entry()
                        == self.entry_at(ia[k]) && !other.prunes_entry(self.entry_at(ia[k]))
                        && opt_view(new_payloads@[k]) == self.payload_at(ia[k]),
                forall|k: int| 0 <= k < ia.len() ==> 0 <= #[trigger] ia[k] < self.spec_len(),
                forall|k: int, l: int| 0 <= k < l < ia.len() ==> ia[k] < ia[l],
                forall|m: int|
                    0 <= m < self.spec_len() && !other.prunes_entry(#[trigger] self.entry_at(m))
                        ==> exists|k: int| 0 <= k < ia.len() && ia[k] == m,
                forall|k: int| 0 <= k < ib.len() ==> 0 <= #[trigger] ib[k] < j,
                forall|k: int, l: int| 0 <= k < l < ib.len() ==> ib[k] < ib[l],
                appended_from(self, other, sa, new_entries@, new_payloads@, n1 as int, ib),
                forall|m: int|
                    0 <= m < j && !self.prunes_entry(#[trigger] other.entry_at(m)) && !sa.contains(
                        other.entry_at(m),
                    ) ==> exists|k: int| 0 <= k < ib.len() && ib[k] == m,
                sa == self.entries(),
            decreases other.entries@.len() - j,
        {
            let e = other.entries[j].entry();
            let fresh = match self.position(e) {
                Some(q) => {
                    proof {
                        assert(sa.contains(self.entry_at(q as int)));
                    }
                    false
                },
                None => true,
            };
            if !self.dominated(e) && fresh {
                let ghost pre_e = new_entries@;
                let ghost pre_p = new_payloads@;
                let ghost old_ib = ib;
                new_entries.push(other.entries[j].duplicate());
                new_payloads.push(copy_payload(&other.payloads[j]));
                proof {
                    ib = ib.push(j as int);
                    lemma_join_step(self, other, sa, pre_e, pre_p, new_entries@, new_payloads@, n1 as int, old_ib, ib, j as int);
                }
            }
            j = j + 1;
        }
        let ghost a = *self;
        let ghost ne = new_entries@;
        let ghost np = new_payloads@;
        self.entries = new_entries;
        self.payloads = new_payloads;
        proof {
            reveal(appended_from);
            assert(appended_from(&a, other, sa, ne, np, n1 as int, ib));
            let u = sa.union(sb);
            assert forall|x: EntryView| #[trigger] self.entries().contains(x) <==> pruned(u).contains(x) by {
                if self.entries().contains(x) {
                    let k = choose|k: int| 0 <= k < self.spec_len() && self.entry_at(k) == x;
                    if k < n1 {
                        assert(sa.contains(a.entry_at(ia[k])));
                    } else {
                        assert(self.entry_at(n1 + (k - n1)) == x);
                        assert(sb.contains(other.entry_at(ib[k - n1])));
                    }
                    assert forall|f: EntryView| #[trigger] u.contains(f) implies !dominates(f, x) by {
                        if sa.contains(f) {
                            let q = choose|q: int| 0 <= q < a.spec_len() && a.entry_at(q) == f;
                            if k >= n1 {
                                assert(self.entry_at(n1 + (k - n1)) == x);
                            }
                        } else {
                            let q = choose|q: int| 0 <= q < other.spec_len() && other.entry_at(q) == f;
                            if k >= n1 {
                                assert(self.entry_at(n1 + (k - n1)) == x);
                            }
                        }
                    }
                }
                if pruned(u).contains(x) {
                    if sa.contains(x) {
                        let m = choose|m: int| 0 <= m < a.spec_len() && a.entry_at(m) == x;
                        assert(!other.prunes_entry(x)) by {
                            if other.prunes_entry(x) {
                                let q = choose|q: int| 0 <= q < other.spec_len() && #[trigger] dominates(other.entry_at(q), x);
                                assert(u.contains(other.entry_at(q)));
                            }
                        }
                        let k = choose|k: int| 0 <= k < ia.len() && ia[k] == m;
                        assert(self.entry_at(k) == x);
                    } else {
                        let m = choose|m: int| 0 <= m < other.spec_len() && other.entry_at(m) == x;
                        assert(!a.prunes_entry(x)) by {
                            if a.prunes_entry(x) {
                                let q = choose|q: int| 0 <= q < a.spec_len() && #[trigger] dominates(a.entry_at(q), x);
                                assert(u.contains(a.entry_at(q)));
                            }
                        }
                        let k = choose|k: int| 0 <= k < ib.len() && ib[k] == m;
                        assert(self.entry_at(n1 + k) == x);
                    }
                }
            }
            assert(self.entries() =~= pruned(u));
            assert forall|p: int, q: int|
                0 <= p < self.spec_len() && 0 <= q < self.spec_len() && p != q implies #[trigger] self.entry_at(p)
                != #[trigger] self.entry_at(q) by {
                if p < n1 && q < n1 {
                    assert(ia[p] != ia[q]);
                } else if p >= n1 && q >= n1 {
                    assert(self.entry_at(n1 + (p - n1)) == self.entry_at(p));
                    assert(self.entry_at(n1 + (q - n1)) == self.entry_at(q));
                    assert(ib[p - n1] != ib[q - n1]);
                } else if p < n1 {
                    assert(self.entry_at(n1 + (q - n1)) == self.entry_at(q));
                    assert(sa.contains(a.entry_at(ia[p])));
                } else {
                    assert(self.entry_at(n1 + (p - n1)) == self.entry_at(p));
                    assert(sa.contains(a.entry_at(ia[q])));
                }
            }
            assert forall|p: int, q: int|
                0 <= p < self.spec_len() && 0 <= q < self.spec_len() implies !dominates(
                #[trigger] self.entry_at(p),
                #[trigger] self.entry_at(q),
            ) by {
                assert(self.entries().contains(self.entry_at(p)));
                assert(self.entries().contains(self.entry_at(q)));
                assert(u.contains(self.entry_at(p)));
            }
            assert forall|p: int| 0 <= p < self.spec_len() implies (#[trigger] self.entry_at(p)).namespace_id
                == self.namespace_id && match self.payloads@[p] {
                Some(b) => b@.len() == self.entry_at(p).payload_length,
                None => true,
            } by {
                if p >= n1 {
                    assert(self.entry_at(n1 + (p - n1)) == self.entry_at(p));
                }
            }
            assert forall|p: int| #![trigger self.payload_at(p)] 0 <= p < self.spec_len() implies (exists|j: int|
                    0 <= j < a.spec_len() && a.entry_at(j) == self.entry_at(p) && #[trigger] a.payload_at(j) == self.payload_at(p)) || (exists|j: int|
                    0 <= j < other.spec_len() && other.entry_at(j) == self.entry_at(p)
                        && #[trigger] other.payload_at(j) == self.payload_at(p)) by {
                if p < n1 {
                    assert(ne[p].spec_entry() == a.entry_at(ia[p]));
                    assert(a.payload_at(ia[p]) == self.payload_at(p));
                } else {
                    assert(self.entry_at(n1 + (p - n1)) == self.entry_at(p));
                    assert(other.payload_at(ib[p - n1]) == self.payload_at(p));
                }
            }
        }
        Ok(())
    }
}

/// `f` comes before `e` in the newest-first order: newer, or equally new and later in the
/// total order of entries.
pub open spec fn ahead(f: EntryView, e: EntryView) -> bool {
    newer(f, e) || (same_newness(f, e) && entry_lt(e, f))
}

/// The number of the first `n` entries of `s` that come before `e` in the newest-first order.
pub open spec fn count_ahead(s: Seq<EntryView>, n: int, e: EntryView) -> nat
    decreases n,
{
    if n <= 0 {
        0
    } else {
        count_ahead(s, n - 1, e) + if ahead(s[n - 1], e) {
            1nat
        } else {
            0nat
        }
    }
}

/// The sum of the payload lengths of the first `n` entries of `s` that are newer than `e`.
pub open spec fn size_newer(s: Seq<EntryView>, n: int, e: EntryView) -> nat
    decreases n,
{
    if n <= 0 {
        0
    } else {
        size_newer(s, n - 1, e) + if newer(s[n - 1], e) {
            s[n - 1].payload_length as nat
        } else {
            0nat
        }
    }
}

/// No entry among the first `n` of `s` comes before `e` exactly when none is counted.
pub proof fn lemma_count_ahead_zero(s: Seq<EntryView>, n: int, e: EntryView)
    requires
        0 <= n <= s.len(),
    ensures
        count_ahead(s, n, e) == 0 <==> forall|i: int| 0 <= i < n ==> !#[trigger] ahead(s[i], e),
    decreases n,
{
    if n > 0 {
        lemma_count_ahead_zero(s, n - 1, e);
    }
}

impl Store {
    /// The retained entries, in storage order.
    pub open spec fn entry_seq(&self) -> Seq<EntryView> {
        Seq::new(self.spec_len(), |i: int| self.entry_at(i))
    }

    /// The payload of the entry retained at (`subspace_id`, `path`): `Ok(None)` when no entry is
    /// retained there (also when it was pruned), `Err(MissingPayload)` when one is but its
    /// payload has not been attached.
    pub fn get(&self, subspace_id: SubspaceId, path: &Path) -> (r: Result<
        Option<Vec<u8>>,
        GetError,
    >)
        requires
            self.wf(),
        ensures
            r matches Ok(None) <==> forall|i: int|
                0 <= i < self.spec_len() ==> !(#[trigger] self.entry_at(i).subspace_id
                    == subspace_id && self.entry_at(i).path == path@),
            r matches Ok(Some(p)) ==> exists|i: int|
                0 <= i < self.spec_len() && #[trigger] self.entry_at(i).subspace_id == subspace_id
                    && self.entry_at(i).path == path@ && self.payload_at(i) == Some(p@),
            r matches Err(_) ==> exists|i: int|
                0 <= i < self.spec_len() && #[trigger] self.entry_at(i).subspace_id == subspace_id
                    && self.entry_at(i).path == path@ && self.payload_at(i) is None,
    {
        let mut i: usize = 0;
        while i < self.entries.len()
            invariant
                self.wf(),
                i <= self.entries@.len(),
                forall|k: int|
                    0 <= k < i ==> !(#[trigger] self.entry_at(k).subspace_id == subspace_id
                        && self.entry_at(k).path == path@),
            decreases self.entries@.len() - i,
        {
            let e = self.entries[i].entry();
            if e.subspace_id == subspace_id && e.path.eq_components(path) {
                proof {
                    assert(self.entry_at(i as int).subspace_id == subspace_id);
                }
                return match copy_payload(&self.payloads[i]) {
                    Some(p) => Ok(Some(p)),
                    None => Err(GetError::MissingPayload),
                };
            }
            i = i + 1;
        }
        Ok(None)
    }

    /// `entry` is retained and among the `max_count` first retained entries in the
    /// newest-first order (ties in newness broken by the total order of entries, the greater
    /// first).
    pub fn newest_entries_include(&self, max_count: u64, entry: &Entry) -> (r: bool)
        requires
            self.wf(),
        ensures
            r == (self.entries().contains(entry@) && count_ahead(
                self.entry_seq(),
                self.spec_len() as int,
                entry@,
            ) < max_count),
    {
        let ghost es = self.entry_seq();
        let mut found = false;
        let mut count: u64 = 0;
        let mut i: usize = 0;
        while i < self.entries.len()
            invariant
                self.wf(),
                es == self.entry_seq(),
                i <= self.entries@.len(),
                count <= max_count,
                count < max_count ==> count == count_ahead(es, i as int, entry@),
                count == max_count ==> count_ahead(es, i as int, entry@) >= max_count,
                found == exists|k: int| 0 <= k < i && self.entry_at(k) == entry@,
            decreases self.entries@.len() - i,
        {
            let f = self.entries[i].entry();
            let is_ahead = match f.cmp_newer_than(entry) {
                core::cmp::Ordering::Greater => true,
                core::cmp::Ordering::Equal => match entry.cmp(f) {
                    core::cmp::Ordering::Less => true,
                    _ => false,
                },
                core::cmp::Ordering::Less => false,
            };
            proof {
                assert(es[i as int] == self.entry_at(i as int));
                assert(is_ahead == ahead(es[i as int], entry@));
            }
            if is_ahead && count < max_count {
                count = count + 1;
            }
            if *f == *entry {
                found = true;
            }
            i = i + 1;
        }
        proof {
            if found {
                let k = choose|k: int| 0 <= k < i && self.entry_at(k) == entry@;
                assert(self.entries().contains(entry@));
            }
        }
        found && count < max_count
    }

    /// `entry` is among the `max_count` newest retained entries, and the payload lengths of
    /// `entry` and of every newer retained entry add up to at most `max_size`; `None` leaves
    /// that budget unlimited.
    pub fn newest_includes_within_total_size(
        &self,
        max_count: Option<u64>,
        entry: &Entry,
        max_size: Option<u64>,
    ) -> (r: bool)
        requires
            self.wf(),
        ensures
            r == ((match max_count {
                Some(n) => self.entries().contains(entry@) && count_ahead(
                    self.entry_seq(),
                    self.spec_len() as int,
                    entry@,
                ) < n,
                None => true,
            }) && (match max_size {
                Some(n) => entry@.payload_length + size_newer(
                    self.entry_seq(),
                    self.spec_len() as int,
                    entry@,
                ) <= n,
                None => true,
            })),
    {
        let count_ok = match max_count {
            Some(n) => self.newest_entries_include(n, entry),
            None => true,
        };
        count_ok && match max_size {
            Some(n) => self.payloads_total_size_of_entry_to_newest(entry) <= n as u128,
            None => true,
        }
    }

    /// The sum of the payload lengths of `entry` and of every retained entry newer than it.
    pub fn payloads_total_size_of_entry_to_newest(&self, entry: &Entry) -> (r: u128)
        requires
            self.wf(),
        ensures
            r == entry@.payload_length + size_newer(
                self.entry_seq(),
                self.spec_len() as int,
                entry@,
            ),
    {
        let ghost es = self.entry_seq();
        let mut total: u128 = entry.payload_length as u128;
        let mut i: usize = 0;
        while i < self.entries.len()
            invariant
                self.wf(),
                es == self.entry_seq(),
                i <= self.entries@.len(),
                total == entry@.payload_length + size_newer(es, i as int, entry@),
                size_newer(es, i as int, entry@) <= i * 0x1_0000_0000_0000_0000,
            decreases self.entries@.len() - i,
        {
            let f = self.entries[i].entry();
            proof {
                assert(es[i as int] == self.entry_at(i as int));
            }
            if f.is_newer_than(entry) {
                total = total + f.payload_length as u128;
            }
            i = i + 1;
        }
        total
    }
}

/// The entries appended after position `n1` are those of `other` at the positions `ib`, none
/// of them pruned by `a` or held by it, each with its payload.
#[verifier::opaque]
spec fn appended_from(
    a: &Store,
    other: &Store,
    sa: Set<EntryView>,
    ne: Seq<AuthorisedEntry>,
    np: Seq<Option<Vec<u8>>>,
    n1: int,
    ib: Seq<int>,
) -> bool {
    forall|k: int|
        0 <= k < ib.len() ==> (#[trigger] ne[n1 + k]).spec_entry() == other.entry_at(ib[k])
            && !a.prunes_entry(other.entry_at(ib[k])) && !sa.contains(other.entry_at(ib[k]))
            && opt_view(np[n1 + k]) == other.payload_at(ib[k])
}

/// One step of the second pass of `join`: appending the `j`th entry of `other`, which `a`
/// neither holds nor prunes, keeps the facts about the appended part.
proof fn lemma_join_step(
    a: &Store,
    other: &Store,
    sa: Set<EntryView>,
    pre_e: Seq<AuthorisedEntry>,
    pre_p: Seq<Option<Vec<u8>>>,
    ne: Seq<AuthorisedEntry>,
    np: Seq<Option<Vec<u8>>>,
    n1: int,
    old_ib: Seq<int>,
    ib: Seq<int>,
    j: int,
)
    requires
        a.wf(),
        other.wf(),
        sa == a.entries(),
        0 <= j < other.spec_len(),
        0 <= n1,
        ne.len() > 0,
        np.len() > 0,
        pre_e.len() == n1 + old_ib.len(),
        pre_p.len() == n1 + old_ib.len(),
        ne == pre_e.push(ne.last()),
        np == pre_p.push(np.last()),
        ne.last().spec_entry() == other.entry_at(j),
        opt_view(np.last()) == other.payload_at(j),
        !a.prunes_entry(other.entry_at(j)),
        forall|q: int| 0 <= q < a.spec_len() ==> #[trigger] a.entry_at(q) != other.entry_at(j),
        ib == old_ib.push(j),
        forall|k: int| 0 <= k < old_ib.len() ==> 0 <= #[trigger] old_ib[k] < j,
        forall|k: int, l: int| 0 <= k < l < old_ib.len() ==> old_ib[k] < old_ib[l],
        appended_from(a, other, sa, pre_e, pre_p, n1, old_ib),
        forall|m: int|
            0 <= m < j && !a.prunes_entry(#[trigger] other.entry_at(m)) && !sa.contains(
                other.entry_at(m),
            ) ==> exists|k: int| 0 <= k < old_ib.len() && old_ib[k] == m,
    ensures
        forall|k: int| 0 <= k < ib.len() ==> 0 <= #[trigger] ib[k] < j + 1,
        forall|k: int, l: int| 0 <= k < l < ib.len() ==> ib[k] < ib[l],
        appended_from(a, other, sa, ne, np, n1, ib),
        forall|m: int|
            0 <= m < j + 1 && !a.prunes_entry(#[trigger] other.entry_at(m)) && !sa.contains(
                other.entry_at(m),
            ) ==> exists|k: int| 0 <= k < ib.len() && ib[k] == m,
        forall|k: int| 0 <= k < n1 ==> ne[k] == pre_e[k] && np[k] == pre_p[k],
{
    reveal(appended_from);
    assert forall|x: EntryView| sa.contains(x) implies x != other.entry_at(j) by {
        let q = choose|q: int| 0 <= q < a.spec_len() && a.entry_at(q) == x;
    }
    assert forall|k: int| 0 <= k < ib.len() implies (#[trigger] ne[n1 + k]).spec_entry()
        == other.entry_at(ib[k]) && !a.prunes_entry(other.entry_at(ib[k])) && !sa.contains(
        other.entry_at(ib[k]),
    ) && opt_view(np[n1 + k]) == other.payload_at(ib[k]) by {
        if k < old_ib.len() {
            assert(ib[k] == old_ib[k]);
            assert(ne[n1 + k] == pre_e[n1 + k]);
            assert(np[n1 + k] == pre_p[n1 + k]);
        } else {
            assert(ne[n1 + k] == ne.last());
            assert(np[n1 + k] == np.last());
        }
    }
    assert forall|m: int|
        0 <= m < j + 1 && !a.prunes_entry(#[trigger] other.entry_at(m)) && !sa.contains(
            other.entry_at(m),
        ) implies exists|k: int| 0 <= k < ib.len() && ib[k] == m by {
        if m < j {
            let k = choose|k: int| 0 <= k < old_ib.len() && old_ib[k] == m;
            assert(ib[k] == m);
        } else {
            assert(ib[ib.len() - 1] == m);
        }
    }
}

/// The bytes of an optional payload.
pub open spec fn opt_view(p: Option<Vec<u8>>) -> Option<Seq<u8>> {
    match p {
        Some(v) => Some(v@),
        None => None,
    }
}

/// A copy of an optional payload.
fn copy_payload(p: &Option<Vec<u8>>) -> (r: Option<Vec<u8>>)
    ensures
        opt_view(r) == opt_view(*p),
        match (r, *p) {
            (Some(a), Some(b)) => a@ == b@,
            (None, None) => true,
            _ => false,
        },
{
    match p {
        Some(b) => {
            let c = b.clone();
            proof {
                assert(c@ =~= b@);
            }
            Some(c)
        },
        None => None,
    }
}

} // verus!
