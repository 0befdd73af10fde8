use sailce_data_model::area::{Area, Subspace};
use sailce_data_model::entry::Entry;
use sailce_data_model::path::Path;
use sailce_data_model::range::Range;
use sailce_data_model::Timestamp;

fn p(cs: &[&str]) -> Path {
    Path::from_components(cs.iter().map(|c| c.as_bytes().to_vec()).collect())
}

fn a(subspace: Subspace, path: &[&str], times: Range<Timestamp>) -> Area {
    Area { subspace, path: p(path), times }
}

fn t(start: u64, end: u64) -> Range<Timestamp> {
    Range::from(Timestamp::from(start)..Timestamp::from(end))
}

fn t_from(start: u64) -> Range<Timestamp> {
    Range::from(Timestamp::from(start)..)
}

#[test]
fn subspace_ordering() {
    assert_eq!(Subspace::Id(1), Subspace::Id(1));
    assert_ne!(Subspace::Id(1), Subspace::Id(2));
    assert_ne!(Subspace::Id(0), Subspace::Any);
    assert!(Subspace::Id(0) < Subspace::Id(1));
    assert!(Subspace::Id(u64::MAX) < Subspace::Any);
    assert!(Subspace::Any.includes(&Subspace::Id(3)));
    assert!(!Subspace::Id(3).includes(&Subspace::Any));
    assert!(Subspace::Id(3).includes(&Subspace::Id(3)));
}

#[test]
fn area_includes() {
    let empty = Area::empty();
    let full = Area::full();
    let e = Entry {
        namespace_id: 7,
        subspace_id: 123,
        path: p(&["ab", "c"]),
        timestamp: 9876.into(),
        payload_digest: 42,
        payload_length: 5678,
    };

    assert!(!empty.includes(&e));
    assert!(full.includes(&e));
    assert!(Area::subspace(123).includes(&e));
    assert!(!Area::subspace(456).includes(&e));
    assert!(a(Subspace::Id(123), &["ab"], t(9000, 10000)).includes(&e));
    assert!(!a(Subspace::Id(123), &["ab"], t(9, 10)).includes(&e));
    assert!(!a(Subspace::Any, &["ab", "c", ""], t(9000, 10000)).includes(&e));
    assert!(a(Subspace::Any, &["ab", "c"], t(9876, 9877)).includes(&e));

    let x = a(Subspace::Id(99), &["z", "yx", "wvu"], t_from(789));

    assert!(!empty.includes(&x));
    assert!(full.includes(&x));
    assert!(Area::subspace(99).includes(&x));
    assert!(!Area::subspace(100).includes(&x));
    assert!(x.includes(&x));
    assert!(a(Subspace::Id(99), &["z", "yx", "wvu"], t_from(5)).includes(&x));
    assert!(!a(Subspace::Any, &[], t(0, u64::MAX)).includes(&x));
    assert!(a(Subspace::Any, &["z"], t_from(0)).includes(&x));
    assert!(!a(Subspace::Id(99), &["z", "a"], t_from(0)).includes(&x));
    assert!(a(Subspace::Id(99), &["z"], t_from(0)).includes(&x));
    assert!(!a(Subspace::Id(1), &[], t_from(0)).includes(&x));
    assert!(!x.includes(&a(Subspace::Any, &["z", "yx", "wvu"], t(1000, 2000))));
    assert!(x.includes(&a(Subspace::Id(99), &["z", "yx", "wvu", "tsrq"], t(1000, 2000))));

    let sub = Area::subspace(3);

    assert!(empty.includes(&empty));
    assert!(!empty.includes(&full));
    assert!(!empty.includes(&sub));
    assert!(full.includes(&full));
    assert!(full.includes(&empty));
    assert!(full.includes(&sub));
    assert!(sub.includes(&sub));
    assert!(sub.includes(&empty));
    assert!(!sub.includes(&full));

    let a2 = a(Subspace::Any, &[], t(1, 2));
    assert!(a2.includes(&a2));
}

#[test]
fn area_is_empty() {
    assert!(Area::empty().is_empty());
    assert!(!Area::full().is_empty());
    assert!(!Area::subspace(5).is_empty());
    assert!(a(Subspace::Any, &["a"], t(8, 8)).is_empty());
    assert!(!a(Subspace::Id(0), &["a"], t(7, 8)).is_empty());
}

#[test]
fn area_intersection() {
    let empty = Area::empty();
    let full = Area::full();
    let sub = Area::subspace(3);
    let a1 = a(Subspace::Any, &["bb"], t(22, 33));
    let a2 = a(Subspace::Id(4), &["bb", "ccc"], t_from(27));
    let a3 = a(Subspace::Id(4), &[], t_from(1));

    assert_eq!(empty.intersection(&empty), empty);

    assert_eq!(empty.intersection(&full), empty);
    assert_eq!(full.intersection(&empty), empty);
    assert_eq!(full.intersection(&full), full);

    assert_eq!(empty.intersection(&sub), empty);
    assert_eq!(sub.intersection(&empty), empty);
    assert_eq!(full.intersection(&sub), sub);
    assert_eq!(sub.intersection(&full), sub);
    assert_eq!(sub.intersection(&sub), sub);

    assert_eq!(empty.intersection(&a1), empty);
    assert_eq!(a1.intersection(&empty), empty);
    assert_eq!(full.intersection(&a1), a1);
    assert_eq!(a1.intersection(&full), a1);
    {
        let i = a(Subspace::Id(3), &["bb"], t(22, 33));
        assert_eq!(sub.intersection(&a1), i);
        assert_eq!(a1.intersection(&sub), i);
    }
    assert_eq!(a1.intersection(&a1), a1);

    assert_eq!(empty.intersection(&a2), empty);
    assert_eq!(a2.intersection(&empty), empty);
    assert_eq!(full.intersection(&a2), a2);
    assert_eq!(a2.intersection(&full), a2);
    assert_eq!(sub.intersection(&a2), empty);
    assert_eq!(a2.intersection(&sub), empty);
    assert_eq!(a2.intersection(&a2), a2);
    {
        let i = a(Subspace::Id(4), &["bb", "ccc"], t(27, 33));
        assert_eq!(a1.intersection(&a2), i);
        assert_eq!(a2.intersection(&a1), i);
    }

    assert_eq!(empty.intersection(&a3), empty);
    assert_eq!(a3.intersection(&empty), empty);
    assert_eq!(full.intersection(&a3), a3);
    assert_eq!(a3.intersection(&full), a3);
    assert_eq!(sub.intersection(&a3), empty);
    assert_eq!(a3.intersection(&sub), empty);
    assert_eq!(a3.intersection(&a3), a3);
    {
        let i = a(Subspace::Id(4), &["bb"], t(22, 33));
        assert_eq!(a1.intersection(&a3), i);
        assert_eq!(a3.intersection(&a1), i);
    }
    {
        let i = a(Subspace::Id(4), &["bb", "ccc"], t_from(27));
        assert_eq!(a2.intersection(&a3), i);
        assert_eq!(a3.intersection(&a2), i);
    }
    let disjoint_paths = a(Subspace::Any, &["cc"], t_from(0));
    assert_eq!(a1.intersection(&disjoint_paths), empty);
    let disjoint_times = a(Subspace::Any, &["bb"], t(40, 50));
    assert_eq!(a1.intersection(&disjoint_times), empty);
}

#[test]
fn full_and_empty_areas_on_any_entry() {
    for (ss, path, time) in [(0u64, vec![], 0u64), (9, vec!["x"], u64::MAX), (u64::MAX, vec!["", "y"], 77)] {
        let e = Entry {
            namespace_id: 1,
            subspace_id: ss,
            path: p(&path),
            timestamp: time.into(),
            payload_digest: 0,
            payload_length: 0,
        };
        assert!(Area::full().includes(&e));
        assert!(!Area::empty().includes(&e));
    }
}

#[test]
fn area_ordering() {
    let empty = a(Subspace::Any, &[], t(0, 0));
    assert_eq!(empty, empty);
    assert_ne!(a(Subspace::Id(0), &[], t(0, 0)), empty);
    assert_ne!(a(Subspace::Any, &[""], t(0, 0)), empty);
    assert_ne!(a(Subspace::Any, &[], t(0, 1)), empty);
    assert!(a(Subspace::Id(0), &[], t(0, 1)) < a(Subspace::Id(0), &[], t(0, 2)));
    assert!(a(Subspace::Id(0), &[], t_from(0)) < a(Subspace::Id(0), &["foo"], t_from(0)));
    assert!(a(Subspace::Id(2), &[], t_from(0)) < a(Subspace::Id(42), &[], t_from(0)));
    assert!(a(Subspace::Id(u64::MAX), &["foo", "bar"], t(123, 456)) < a(Subspace::Any, &[], t(0, 1)));
}
