use sailce_data_model::entry::Entry;
use sailce_data_model::path::Path;
use sailce_data_model::range::Range;
use sailce_data_model::three_dim::ThreeDimRange;
use sailce_data_model::Timestamp;

fn p(cs: &[&str]) -> Path {
    Path::from_components(cs.iter().map(|c| c.as_bytes().to_vec()).collect())
}

fn d3(s: Range<u64>, paths: Range<Path>, times: (u64, u64)) -> ThreeDimRange<u64, Path> {
    ThreeDimRange { subspaces: s, paths, times: Range::from(Timestamp::from(times.0)..Timestamp::from(times.1)) }
}

fn pr(a: &[&str], b: &[&str]) -> Range<Path> {
    Range::from(p(a)..p(b))
}

fn e(subspace_id: u64, path: &[&str], t: u64) -> Entry {
    Entry {
        namespace_id: 0,
        subspace_id,
        path: p(path),
        timestamp: Timestamp::from(t),
        payload_digest: 0,
        payload_length: 0,
    }
}

#[test]
fn three_dim_includes() {
    assert!(!d3((0..0).into(), pr(&[], &[]), (0, 0)).includes(&e(0, &[], 0)));
    assert!(!d3((0..0).into(), pr(&[], &[]), (0, 1)).includes(&e(0, &[], 0)));
    assert!(!d3((0..0).into(), pr(&[], &["a"]), (0, 0)).includes(&e(0, &[], 0)));
    assert!(!d3((0..1).into(), pr(&[], &[]), (0, 0)).includes(&e(0, &[], 0)));
    assert!(d3((0..1).into(), pr(&[], &["a"]), (0, 1)).includes(&e(0, &[], 0)));
    let open = ThreeDimRange {
        subspaces: Range::from(10u64..),
        paths: Range::from(p(&["foo"])..),
        times: Range::from(Timestamp::from(123)..),
    };
    assert!(!open.includes(&e(1, &["bar"], 42)));
    assert!(open.includes(&e(15, &["zab"], 456)));
}

#[test]
fn three_dim_is_empty() {
    let empty = d3((0..0).into(), pr(&[], &[]), (0, 0));
    assert!(empty.is_empty());
    assert!(d3((0..0).into(), pr(&[], &[]), (0, 100)).is_empty());
    assert!(d3((0..0).into(), pr(&["a"], &["bb"]), (0, 0)).is_empty());
    assert!(d3((0..0).into(), pr(&["a"], &["bb"]), (0, 100)).is_empty());
    assert!(d3((0..100).into(), pr(&[], &[]), (0, 0)).is_empty());
    assert!(d3((0..100).into(), pr(&["a"], &["bb"]), (0, 0)).is_empty());
    assert!(d3((0..100).into(), pr(&[], &[]), (0, 100)).is_empty());
    assert!(!d3((0..100).into(), pr(&["a"], &["bb"]), (0, 100)).is_empty());
    assert!(ThreeDimRange::<u64, Path>::empty().is_empty());
    assert!(!ThreeDimRange::<u64, Path>::full().is_empty());
    assert!(ThreeDimRange::<u64, Path>::full().includes(&e(u64::MAX, &["q"], 5)));
}

#[test]
fn three_dim_intersection() {
    let x = d3((12..34).into(), pr(&["az"], &["za"]), (12, 34));
    let y = d3((23..45).into(), pr(&["b"], &["x"]), (23, 45));
    let expected = d3((23..34).into(), pr(&["b"], &["x"]), (23, 34));
    assert_eq!(x.intersection(&y), expected);
    assert_eq!(y.intersection(&x), expected);
    let z = ThreeDimRange {
        subspaces: Range::from(12u64..),
        paths: pr(&["az"], &["za"]),
        times: Range::from(Timestamp::from(12)..),
    };
    let w = ThreeDimRange {
        subspaces: Range::from(1u64..45),
        paths: Range::from(p(&["b"])..),
        times: Range::from(Timestamp::from(23)..Timestamp::from(45)),
    };
    assert_eq!(z.intersection(&w), d3((12..45).into(), pr(&["b"], &["za"]), (23, 45)));
}

#[test]
fn three_dim() {
    assert!(ThreeDimRange::<u64, Path>::empty().is_empty());
    assert_eq!(
        ThreeDimRange::<u64, Path>::empty(),
        ThreeDimRange {
            subspaces: (0..0).into(),
            paths: Range::from(Path::empty()..Path::empty()),
            times: Range::from(Timestamp::from(0)..Timestamp::from(0)),
        }
    );
}

#[test]
fn three_dim_ordering() {
    let empty = d3((0..0).into(), pr(&[], &[]), (0, 0));
    assert_eq!(empty, empty.clone());
    assert!(empty < ThreeDimRange { times: Range::from(Timestamp::from(0)..Timestamp::from(1)), ..empty.clone() });
    assert!(empty < ThreeDimRange { times: Range::from(Timestamp::from(1)..Timestamp::from(0)), ..empty.clone() });
    assert!(empty < ThreeDimRange { paths: pr(&[], &["\u{1}"]), ..empty.clone() });
    assert!(empty < ThreeDimRange { paths: pr(&["\u{1}"], &[]), ..empty.clone() });
    assert!(empty < ThreeDimRange { subspaces: (0..1).into(), ..empty.clone() });
    assert!(empty < ThreeDimRange { subspaces: (1..0).into(), ..empty.clone() });
    assert!(empty < ThreeDimRange { times: Range::from(Timestamp::from(0)..), ..empty.clone() });
    assert!(empty < ThreeDimRange { paths: Range::from(Path::empty()..), ..empty.clone() });
    assert!(empty < ThreeDimRange { subspaces: Range::from(0u64..), ..empty.clone() });
}
