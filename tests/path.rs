use sailce_data_model::order::{Least, Ordered};
use sailce_data_model::path::{Component, Path, PathLimitError, PathLimits, StrComponent};
use std::cmp::Ordering;

fn p(cs: &[&str]) -> Path {
    Path::from_components(cs.iter().map(|c| c.as_bytes().to_vec()).collect())
}

#[test]
fn path_is_prefix_of() {
    fn is(prefix: &[&str], of: &[&str]) -> bool {
        p(prefix).is_prefix_of(&p(of))
    }

    assert!(is(&[], &[]));
    assert!(is(&[], &[""]));
    assert!(is(&[], &["a"]));
    assert!(is(&[], &["", ""]));
    assert!(is(&[], &["a", "b"]));
    assert!(!is(&[""], &[]));
    assert!(!is(&["a"], &[]));
    assert!(is(&[""], &[""]));
    assert!(is(&[""], &["", ""]));
    assert!(!is(&[""], &["a"]));
    assert!(is(&["a"], &["a"]));
    assert!(!is(&[""], &["a", "b"]));
    assert!(is(&["a"], &["a", "b"]));
    assert!(!is(&["a"], &["ab"]));
    assert!(!is(&["a"], &["", "ab"]));
    assert!(!is(&["a"], &["ab", ""]));
    assert!(is(&["aaaa", "bbb", "cc"], &["aaaa", "bbb", "cc"]));
    assert!(is(&["aaaa", "bbb", "cc"], &["aaaa", "bbb", "cc", "d"]));
    assert!(!is(&["aaaa", "bbb", "cc", "d"], &["aaaa", "bbb", "cc"]));
}

#[test]
fn path_types() {
    let path = p(&["a", "bb", "ccc"]);
    assert_eq!(path.component_count(), 3);
    assert_eq!(path.component(0).bytes(), b"a");
    assert_eq!(path.component(1).bytes(), b"bb");
    assert_eq!(path.component(2).bytes(), b"ccc");
    assert_eq!(Path::empty().component_count(), 0);
    assert_eq!(Component::new(b"xyz".to_vec()).bytes(), b"xyz");
    assert_eq!(path.duplicate_path(), path);
}

#[test]
fn from_path() {
    let limits = PathLimits { max_component_length: 4, max_component_count: 3, max_path_length: 6 };
    let ok = Path::from_path_limited(limits, vec![vec![97], vec![98]]).unwrap();
    assert_eq!(ok, p(&["a", "b"]));
    assert_eq!(
        Path::from_path_limited(limits, vec![vec![97], vec![98; 5]]),
        Err(PathLimitError {
            index: 1,
            within_max_component_length: false,
            within_max_component_count: true,
            within_max_path_length: true,
        })
    );
}

#[test]
fn path_limits_each_kind() {
    let limits = PathLimits { max_component_length: 3, max_component_count: 2, max_path_length: 4 };
    let too_many = Path::from_path_limited(limits, vec![vec![1], vec![2], vec![3]]);
    assert_eq!(
        too_many,
        Err(PathLimitError {
            index: 2,
            within_max_component_length: true,
            within_max_component_count: false,
            within_max_path_length: true,
        })
    );
    let too_long = Path::from_path_limited(limits, vec![vec![1, 2, 3], vec![4, 5]]);
    assert_eq!(
        too_long,
        Err(PathLimitError {
            index: 1,
            within_max_component_length: true,
            within_max_component_count: true,
            within_max_path_length: false,
        })
    );
    let all_three = Path::from_path_limited(
        PathLimits { max_component_length: 1, max_component_count: 0, max_path_length: 1 },
        vec![vec![1, 2]],
    );
    assert_eq!(
        all_three,
        Err(PathLimitError {
            index: 0,
            within_max_component_length: false,
            within_max_component_count: false,
            within_max_path_length: false,
        })
    );
    let exact = Path::from_path_limited(limits, vec![vec![1, 2, 3], vec![4]]);
    assert_eq!(exact, Ok(p(&["\u{1}\u{2}\u{3}", "\u{4}"])));
    assert_eq!(Path::from_path_limited(limits, vec![]), Ok(Path::empty()));
}

#[test]
fn path_order() {
    assert_eq!(p(&[]).cmp_components(&p(&[""])), Ordering::Less);
    assert_eq!(p(&["a"]).cmp_components(&p(&["a", ""])), Ordering::Less);
    assert_eq!(p(&["ab"]).cmp_components(&p(&["a", "z"])), Ordering::Greater);
    assert_eq!(p(&["a", "b"]).cmp_components(&p(&["a", "b"])), Ordering::Equal);
    assert_eq!(p(&["fooba", "rzab"]).compare(&p(&["fooba", "rzab", "oof"])), Ordering::Less);
    assert!(p(&["x"]).eq_components(&p(&["x"])));
    assert!(!p(&["x"]).eq_components(&p(&["x", ""])));
    assert_eq!(Path::least(), Path::empty());
    assert_eq!(
        Component::new(b"ab".to_vec()).compare(&Component::new(b"b".to_vec())),
        Ordering::Less
    );
}

#[test]
fn str_components() {
    let ok = StrComponent::try_from_bytes(b"caf\xc3\xa9").unwrap();
    assert_eq!(ok.str, "café");
    assert_eq!(ok.as_bytes(), b"caf\xc3\xa9");
    assert!(StrComponent::try_from_bytes(b"\xff\xfe").is_err());
    assert!(StrComponent::try_from_bytes(b"\xed\xa0\x80").is_err());
    assert!(StrComponent::try_from_bytes(b"\xc0\xaf").is_err());
    let c = Component::new(b"stuff".to_vec());
    assert_eq!(StrComponent::try_from_component(&c).unwrap().str, "stuff");
    assert_eq!(StrComponent::try_from_bytes(b"").unwrap().str, "");
}
