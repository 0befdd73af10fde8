//! Entries: points of the three-dimensional space with the digest and length of a payload.
use vstd::prelude::*;
use core::cmp::Ordering;
use crate::{AuthorisationToken, NamespaceId, PayloadDigest, SubspaceId, Timestamp};
use crate::path::{Path, lemma_path_antisymmetric, lemma_path_total, path_le};

verus! {

/// The metadata of a stored payload: where it was written, when, and its digest and length.
#[derive(Clone, Debug)]
pub struct Entry {
    /// The namespace to which the entry belongs.
    pub namespace_id: NamespaceId,
    /// The subspace to which the entry belongs.
    pub subspace_id: SubspaceId,
    /// The path to which the entry was written.
    pub path: Path,
    /// The claimed creation time of the entry.
    pub timestamp: Timestamp,
    /// The digest of the entry's payload.
    pub payload_digest: PayloadDigest,
    /// The length of the entry's payload in bytes.
    pub payload_length: u64,
}

/// The value of an entry, with its path as a sequence of byte strings.
pub struct EntryView {
    pub namespace_id: NamespaceId,
    pub subspace_id: SubspaceId,
    pub path: Seq<Seq<u8>>,
    pub timestamp: u64,
    pub payload_digest: PayloadDigest,
    pub payload_length: u64,
}

impl View for Entry {
    type V = EntryView;

    open spec fn view(&self) -> EntryView {
        EntryView {
            namespace_id: self.namespace_id,
            subspace_id: self.subspace_id,
            path: self.path@,
            timestamp: self.timestamp.us_since_epoch,
            payload_digest: self.payload_digest,
            payload_length: self.payload_length,
        }
    }
}

/// `a` is newer than `b`: its (timestamp, payload digest, payload length) is lexicographically
/// greater.
pub open spec fn newer(a: EntryView, b: EntryView) -> bool {
    ||| a.timestamp > b.timestamp
    ||| a.timestamp == b.timestamp && a.payload_digest > b.payload_digest
    ||| a.timestamp == b.timestamp && a.payload_digest == b.payload_digest && a.payload_length
        > b.payload_length
}

/// `a` and `b` have the same (timestamp, payload digest, payload length).
pub open spec fn same_newness(a: EntryView, b: EntryView) -> bool {
    a.timestamp == b.timestamp && a.payload_digest == b.payload_digest && a.payload_length
        == b.payload_length
}

/// `a` comes strictly before `b` in the total order of entries: lexicographic on namespace,
/// subspace, path (by components), timestamp, payload digest and payload length.
pub open spec fn entry_lt(a: EntryView, b: EntryView) -> bool {
    ||| a.namespace_id < b.namespace_id
    ||| a.namespace_id == b.namespace_id && a.subspace_id < b.subspace_id
    ||| a.namespace_id == b.namespace_id && a.subspace_id == b.subspace_id && path_le(a.path, b.path)
        && a.path != b.path
    ||| a.namespace_id == b.namespace_id && a.subspace_id == b.subspace_id && a.path == b.path
        && newer(b, a)
}

/// The order of entries is a strict total order.
pub proof fn lemma_entry_order(a: EntryView, b: EntryView, c: EntryView)
    ensures
        !entry_lt(a, a),
        a == b || entry_lt(a, b) || entry_lt(b, a),
        entry_lt(a, b) ==> !entry_lt(b, a),
        entry_lt(a, b) && entry_lt(b, c) ==> entry_lt(a, c),
{
    lemma_path_total(a.path, b.path, c.path);
    lemma_path_total(b.path, c.path, a.path);
    lemma_path_total(c.path, a.path, b.path);
    if path_le(a.path, b.path) && path_le(b.path, a.path) {
        lemma_path_antisymmetric(a.path, b.path);
    }
    if path_le(b.path, c.path) && path_le(c.path, b.path) {
        lemma_path_antisymmetric(b.path, c.path);
    }
    if path_le(a.path, c.path) && path_le(c.path, a.path) {
        lemma_path_antisymmetric(a.path, c.path);
    }
}

impl Entry {
    /// A copy of this entry.
    pub fn duplicate(&self) -> (r: Entry)
        ensures
            r@ == self@,
    {
        Entry {
            namespace_id: self.namespace_id,
            subspace_id: self.subspace_id,
            path: self.path.duplicate_path(),
            timestamp: self.timestamp,
            payload_digest: self.payload_digest,
            payload_length: self.payload_length,
        }
    }

    /// `self` is newer than `other`: a later timestamp, or an equal timestamp and a greater
    /// payload digest, or both equal and a greater payload length.
    pub fn is_newer_than(&self, other: &Entry) -> (r: bool)
        ensures
            r == newer(self@, other@),
    {
        match self.cmp_newer_than(other) {
            Ordering::Greater => true,
            _ => false,
        }
    }

    /// Compares the (timestamp, payload digest, payload length) of `self` and `other`.
    pub fn cmp_newer_than(&self, other: &Entry) -> (r: Ordering)
        ensures
            r == Ordering::Greater <==> newer(self@, other@),
            r == Ordering::Equal <==> same_newness(self@, other@),
            r == Ordering::Less <==> newer(other@, self@),
    {
        let (a, b) = (self.timestamp.us_since_epoch, other.timestamp.us_since_epoch);
        if a != b {
            return if a < b { Ordering::Less } else { Ordering::Greater };
        }
        if self.payload_digest != other.payload_digest {
            return if self.payload_digest < other.payload_digest {
                Ordering::Less
            } else {
                Ordering::Greater
            };
        }
        if self.payload_length < other.payload_length {
            Ordering::Less
        } else if self.payload_length == other.payload_length {
            Ordering::Equal
        } else {
            Ordering::Greater
        }
    }

    /// `self` prunes `other`: same subspace, `self`'s path prefixes `other`'s, and `self` is
    /// newer.
    pub fn prunes(&self, other: &Entry) -> (r: bool)
        ensures
            r == (self.subspace_id == other.subspace_id && crate::path::is_prefix(
                self.path@,
                other.path@,
            ) && newer(self@, other@)),
    {
        self.subspace_id == other.subspace_id && self.path.is_prefix_of(&other.path)
            && self.is_newer_than(other)
    }

    /// Compares `self` and `other` in the total order of entries.
    pub fn cmp(&self, other: &Entry) -> (r: Ordering)
        ensures
            r == Ordering::Less <==> entry_lt(self@, other@),
            r == Ordering::Equal <==> self@ == other@,
            r == Ordering::Greater <==> entry_lt(other@, self@),
    {
        proof {
            lemma_entry_order(self@, other@, self@);
        }
        if self.namespace_id != other.namespace_id {
            return if self.namespace_id < other.namespace_id {
                Ordering::Less
            } else {
                Ordering::Greater
            };
        }
        if self.subspace_id != other.subspace_id {
            return if self.subspace_id < other.subspace_id {
                Ordering::Less
            } else {
                Ordering::Greater
            };
        }
        match self.path.cmp_components(&other.path) {
            Ordering::Equal => self.cmp_newer_than(other),
            unequal => unequal,
        }
    }
}

impl PartialEq for Entry {
    fn eq(&self, other: &Entry) -> (r: bool) {
        self.namespace_id == other.namespace_id && self.subspace_id == other.subspace_id
            && self.path.eq_components(&other.path) && self.timestamp.us_since_epoch
            == other.timestamp.us_since_epoch && self.payload_digest == other.payload_digest
            && self.payload_length == other.payload_length
    }
}

impl vstd::std_specs::cmp::PartialEqSpecImpl for Entry {
    open spec fn obeys_eq_spec() -> bool {
        true
    }

    open spec fn eq_spec(&self, other: &Entry) -> bool {
        self@ == other@
    }
}

/// The deployment's rule for which writes are permitted.
pub trait Params {
    /// `auth_token` proves that writing `entry` is permitted.
    fn is_authorised_write(entry: &Entry, auth_token: &AuthorisationToken) -> bool;
}

/// An entry together with a token that the deployment's [`Params`] accepted for it. The only
/// way to make one is [`AuthorisedEntry::new`], which asks the deployment's rule.
#[derive(Clone, Debug)]
pub struct AuthorisedEntry {
    entry: Entry,
    auth_token: AuthorisationToken,
}

impl AuthorisedEntry {
    /// The entry that was authorised.
    pub closed spec fn spec_entry(&self) -> EntryView {
        self.entry@
    }

    /// The token that authorised the entry.
    pub closed spec fn spec_auth_token(&self) -> AuthorisationToken {
        self.auth_token
    }

    /// Pairs `entry` with `auth_token` when `P` accepts the token for the entry, and gives
    /// nothing otherwise.
    pub fn new<P: Params>(entry: Entry, auth_token: AuthorisationToken) -> (r: Option<
        AuthorisedEntry,
    >)
        ensures
            r matches Some(a) ==> a.spec_entry() == entry@ && a.spec_auth_token() == auth_token,
    {
        if P::is_authorised_write(&entry, &auth_token) {
            Some(AuthorisedEntry { entry, auth_token })
        } else {
            None
        }
    }

    /// The entry that was authorised.
    pub fn entry(&self) -> (r: &Entry)
        ensures
            r@ == self.spec_entry(),
    {
        &self.entry
    }

    /// The token that authorises the entry.
    pub fn auth_token(&self) -> (r: &AuthorisationToken)
        ensures
            *r == self.spec_auth_token(),
    {
        &self.auth_token
    }

    /// The entry and the token, taken apart.
    pub fn into_parts(self) -> (r: (Entry, AuthorisationToken))
        ensures
            r.0@ == self.spec_entry(),
            r.1 == self.spec_auth_token(),
    {
        (self.entry, self.auth_token)
    }

    /// Compares by entry in the total order of entries, then by token.
    pub fn cmp(&self, other: &AuthorisedEntry) -> (r: Ordering)
        ensures
            r == Ordering::Less <==> entry_lt(self.spec_entry(), other.spec_entry()) || (
            self.spec_entry() == other.spec_entry() && self.spec_auth_token()
                < other.spec_auth_token()),
            r == Ordering::Equal <==> self.spec_entry() == other.spec_entry()
                && self.spec_auth_token() == other.spec_auth_token(),
            r == Ordering::Greater <==> entry_lt(other.spec_entry(), self.spec_entry()) || (
            self.spec_entry() == other.spec_entry() && self.spec_auth_token()
                > other.spec_auth_token()),
    {
        proof {
            lemma_entry_order(self.spec_entry(), other.spec_entry(), self.spec_entry());
        }
        match self.entry.cmp(&other.entry) {
            Ordering::Equal => if self.auth_token < other.auth_token {
                Ordering::Less
            } else if self.auth_token == other.auth_token {
                Ordering::Equal
            } else {
                Ordering::Greater
            },
            unequal => unequal,
        }
    }

    /// A copy of this authorised entry.
    pub fn duplicate(&self) -> (r: AuthorisedEntry)
        ensures
            r.spec_entry() == self.spec_entry(),
            r.spec_auth_token() == self.spec_auth_token(),
    {
        AuthorisedEntry { entry: self.entry.duplicate(), auth_token: self.auth_token }
    }
}

} // verus!
