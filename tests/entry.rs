use sailce_data_model::entry::{AuthorisedEntry, Entry, Params};
use sailce_data_model::path::Path;
use sailce_data_model::{AuthorisationToken, Timestamp};
use std::cmp::Ordering;

fn p(cs: &[&str]) -> Path {
    Path::from_components(cs.iter().map(|c| c.as_bytes().to_vec()).collect())
}

fn e(ns: u64, ss: u64, path: &[&str], t: u64, digest: u64, len: u64) -> Entry {
    Entry {
        namespace_id: ns,
        subspace_id: ss,
        path: p(path),
        timestamp: Timestamp { us_since_epoch: t },
        payload_digest: digest,
        payload_length: len,
    }
}

fn e0() -> Entry {
    e(0, 0, &[], 0, 0, 0)
}

fn e1() -> Entry {
    e(1, 2, &["3"], 4, 0x0505_0505_0505_0505, 6)
}

fn e2() -> Entry {
    e(42, 321, &["fooba", "rzab", "oof"], 11111, 0x0908_0706_0504_0302, 0x4000)
}

fn greater(x: &Entry) -> bool {
    e0().cmp(x) == Ordering::Less
}

fn newer(x: &Entry) -> bool {
    x.is_newer_than(&e0())
}

fn greater_and_eq_newer(x: &Entry) -> bool {
    greater(x) && newer(x)
}

#[test]
fn newer_than() {
    assert!(!newer(&e(0, 0, &[], 0, 0, 0)));
    assert!(!newer(&e(1, 2, &["3"], 0, 0, 0)));
    assert!(Entry { payload_length: 7, ..e1() }.is_newer_than(&e1()));
    assert!(Entry { payload_digest: 0x0707_0707_0707_0707, ..e1() }.is_newer_than(&e1()));
    assert!(Entry { timestamp: Timestamp { us_since_epoch: 7 }, ..e1() }.is_newer_than(&e1()));
    assert!(!Entry { path: p(&["7"]), ..e1() }.is_newer_than(&e1()));
    assert!(!Entry { subspace_id: 7, ..e1() }.is_newer_than(&e1()));
    assert!(!Entry { namespace_id: 7, ..e1() }.is_newer_than(&e1()));
}

#[test]
fn entry_ordering() {
    assert!(!greater(&e(0, 0, &[], 0, 0, 0)));
    assert!(greater(&e(0, 0, &[], 0, 0, 1)));
    assert!(greater(&e(0, 0, &[], 0, 0x0101_0101_0101_0101, 0)));
    assert!(greater(&e(0, 0, &[], 1, 0, 0)));
    assert!(greater(&e(0, 0, &[""], 0, 0, 0)));
    assert!(greater(&e(0, 1, &[], 0, 0, 0)));
    assert!(greater(&e(1, 0, &[], 0, 0, 0)));

    assert!(greater_and_eq_newer(&e(0, 0, &[], 0, 0, 1)));
    assert!(greater_and_eq_newer(&e(0, 0, &[], 0, 1, 0)));
    assert!(greater_and_eq_newer(&e(0, 0, &[], 1, 0, 0)));

    assert!(greater_and_eq_newer(&e(1, 2, &["3"], 0, 0, 6)));
    assert!(greater_and_eq_newer(&e(1, 2, &["3"], 0, 0x0505_0505_0505_0505, 0)));
    assert!(greater_and_eq_newer(&e(1, 2, &["3"], 4, 0, 0)));

    let x = e(77, 66, &["5", "5"], 0, 0, 0);
    assert!(greater(&x) && !newer(&x));

    assert_eq!(e1().cmp(&Entry { payload_length: 7, ..e1() }), Ordering::Less);
    assert_eq!(e1().cmp(&Entry { payload_digest: 0x0707_0707_0707_0707, ..e1() }), Ordering::Less);
    assert_eq!(e1().cmp(&Entry { timestamp: Timestamp { us_since_epoch: 7 }, ..e1() }), Ordering::Less);
    assert_eq!(e1().cmp(&Entry { path: p(&["7"]), ..e1() }), Ordering::Less);
    assert_eq!(e1().cmp(&Entry { subspace_id: 7, ..e1() }), Ordering::Less);
    assert_eq!(e1().cmp(&Entry { namespace_id: 7, ..e1() }), Ordering::Less);

    assert_eq!(e2().cmp(&Entry { namespace_id: 17, ..e2() }), Ordering::Greater);
    assert_eq!(e2().cmp(&Entry { subspace_id: 123, ..e2() }), Ordering::Greater);
    assert_eq!(e2().cmp(&Entry { path: p(&["fooba", "rzab"]), ..e2() }), Ordering::Greater);
    assert_eq!(
        e2().cmp(&Entry { path: p(&["abcdef", "fooba", "rzab", "oof"]), ..e2() }),
        Ordering::Greater
    );
    assert_eq!(e2().cmp(&Entry { timestamp: Timestamp { us_since_epoch: 1111 }, ..e2() }), Ordering::Greater);
    assert_eq!(e2().cmp(&Entry { payload_digest: 0x0807_0605_0403_0201, ..e2() }), Ordering::Greater);
    assert_eq!(e2().cmp(&Entry { payload_length: 0x3000, ..e2() }), Ordering::Greater);
    assert_eq!(e2().cmp(&e2()), Ordering::Equal);
    assert!(e2() == e2());
    assert!(e2() != e1());
}

#[test]
fn cmp_newer_than_orders_by_newness_only() {
    let a = e(1, 1, &["a"], 5, 9, 1);
    let b = e(9, 9, &["z"], 5, 9, 1);
    assert_eq!(a.cmp_newer_than(&b), Ordering::Equal);
    assert_eq!(Entry { payload_length: 0, ..a.clone() }.cmp_newer_than(&b), Ordering::Less);
    assert_eq!(Entry { payload_digest: 10, ..a.clone() }.cmp_newer_than(&b), Ordering::Greater);
    assert!(a.prunes(&Entry { path: p(&["a", "b"]), payload_length: 0, ..a.clone() }));
    assert!(!a.prunes(&Entry { path: p(&["ab"]), payload_length: 0, ..a.clone() }));
    assert_eq!(a.duplicate(), a);
}

struct Everyone;

impl Params for Everyone {
    fn is_authorised_write(_entry: &Entry, _auth_token: &AuthorisationToken) -> bool {
        true
    }
}

struct OwnerOnly;

impl Params for OwnerOnly {
    fn is_authorised_write(entry: &Entry, auth_token: &AuthorisationToken) -> bool {
        entry.subspace_id == *auth_token
    }
}

#[test]
fn new() {
    let entry = e(64, 54321, &["blah", "foo", "bar"], 1, 2, 3);
    let ae = AuthorisedEntry::new::<OwnerOnly>(entry.clone(), 54321).expect("owner writes");
    assert_eq!(ae.entry(), &entry);
    assert_eq!(*ae.auth_token(), 54321);
    assert!(AuthorisedEntry::new::<OwnerOnly>(entry.clone(), 12345).is_none());
    assert!(AuthorisedEntry::new::<Everyone>(entry.clone(), 12345).is_some());
    let other = AuthorisedEntry::new::<Everyone>(entry.clone(), 1).unwrap();
    assert_eq!(ae.cmp(&other), Ordering::Greater);
    assert_eq!(ae.cmp(&ae.clone()), Ordering::Equal);
    let (back, token) = ae.into_parts();
    assert_eq!(back, entry);
    assert_eq!(token, 54321);
}
