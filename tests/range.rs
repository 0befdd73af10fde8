use sailce_data_model::order::Ordered;
use sailce_data_model::range::{End, Range};
use sailce_data_model::Timestamp;

#[test]
fn includes_range() {
    let r1 = Range { start: 1, end: End::Closed(4) };
    let r2 = Range { start: -9, end: End::Open };

    assert!(r1.includes_range(&r1));
    assert!(r1.includes_range(&(2..3).into()));
    assert!(r1.includes_range(&(2..4).into()));
    assert!(!r1.includes_range(&(0..3).into()));
    assert!(!r1.includes_range(&(2..5).into()));
    assert!(!r1.includes_range(&(2..).into()));

    assert!(r2.includes_range(&r2));
    assert!(r2.includes_range(&(-9..-9).into()));
    assert!(r2.includes_range(&(-8..5).into()));
    assert!(r2.includes_range(&(-8..i32::MAX).into()));
    assert!(r2.includes_range(&(-8..).into()));
    assert!(r2.includes_range(&(i32::MAX..i32::MAX).into()));
    assert!(r2.includes_range(&(-10..-10).into()));
    assert!(!r2.includes_range(&(-10..i32::MAX).into()));
    assert!(!r2.includes_range(&(-10..).into()));

    let empty1 = Range { start: 1, end: End::Closed(1) };
    let empty2 = Range { start: -9, end: End::Closed(-11) };

    assert!(r1.includes_range(&empty1));
    assert!(r1.includes_range(&empty2));
    assert!(r2.includes_range(&empty1));
    assert!(r2.includes_range(&empty2));

    assert!(empty1.includes_range(&empty1));
    assert!(empty1.includes_range(&empty2));
    assert!(!empty1.includes_range(&r1));
    assert!(!empty1.includes_range(&r2));

    assert!(empty2.includes_range(&empty2));
    assert!(empty2.includes_range(&empty1));
    assert!(!empty2.includes_range(&r1));
    assert!(!empty2.includes_range(&r2));
}

#[test]
fn end_ordering() {
    assert_eq!(End::Closed(123), End::Closed(123));
    assert_eq!(End::<i32>::Open, End::Open);
    assert_ne!(End::Closed(1), End::Open);
    assert!(End::Closed(0) < End::Closed(1));
    assert!(End::Closed(i64::MIN) < End::Closed(-1));
    assert!(End::Closed(u64::MAX) < End::Open);
}

#[test]
fn range_ordering() {
    assert_eq!(Range::from(0..0), (0..0).into());
    assert_ne!(Range::<u64>::from(0..), Range::from(0..u64::MAX));
    assert!(Range::from(0..0) < (0..1).into());
    assert!(Range::from(0..3) < (1..2).into());
    assert!(Range::from(42..u64::MAX) < (42..).into());
}

#[test]
fn range_includes() {
    assert!(Range::from(42..99).includes(&77));
    assert!(!Range::from(0..10).includes(&-1));
    assert!(!Range::from(i64::MIN..0).includes(&0));
    assert!(Range::from(i64::MIN..).includes(&i64::MAX));
    assert!(!Range::<u64>::from(98..).includes(&97));
    assert!(Range::<u64>::from(98..).includes(&98));
    assert!(!Range::<u64>::from(10..20).includes(&20));
}

#[test]
fn range_is_empty() {
    assert!(Range::from(0..0).is_empty());
    assert!(!Range::<i32>::from(0..).is_empty());
    assert!(Range::from(2..1).is_empty());
    assert!(!Range::from(2..3).is_empty());
    assert!(Range::from(u64::MAX..u64::MAX).is_empty());
    assert!(!Range::<u64>::from(u64::MAX..).is_empty());
    assert!(Range::<i32>::empty().is_empty());
    assert!(Range::<Timestamp>::empty().is_empty());
    assert!(!Range::<i64>::full().is_empty());
}

#[test]
fn range_intersection() {
    fn case(a: Range<i64>, b: Range<i64>, expected: Range<i64>) {
        assert_eq!(a.intersection(&b), expected);
    }
    case((0..0).into(), (0..0).into(), (0..0).into());
    case((0..10).into(), (1..9).into(), (1..9).into());
    case((0..9).into(), (1..10).into(), (1..9).into());
    case((-123..).into(), (-2..88).into(), (-2..88).into());
    case((-123..).into(), (-2..).into(), (-2..).into());
    case((-32..-12).into(), (-44..).into(), (-32..-12).into());
    case((10..12).into(), (32..44).into(), (32..12).into());
    case((10..).into(), (88..123).into(), (88..123).into());
}

#[test]
fn intersection_commutes_and_narrows() {
    let a: Range<u64> = (5..50).into();
    let b: Range<u64> = (20..).into();
    let ab = a.intersection(&b);
    assert_eq!(ab, b.intersection(&a));
    assert_eq!(ab, (20..50).into());
    for v in 0..60u64 {
        if ab.includes(&v) {
            assert!(a.includes(&v) && b.includes(&v));
        }
        assert_eq!(ab.includes(&v), a.includes(&v) && b.includes(&v));
    }
}

#[test]
fn from_std_range_round_trip() {
    for a in 0..6u64 {
        for b in 0..6u64 {
            let r = Range::from(a..b);
            for x in 0..7u64 {
                assert_eq!(r.includes(&x), a <= x && x < b);
            }
        }
    }
    let t: Range<Timestamp> = Range::from(Timestamp::from(3)..Timestamp::from(5));
    assert!(t.includes(&Timestamp::from(4)));
    assert!(!t.includes(&Timestamp::from(5)));
}

#[test]
fn compare_and_duplicate() {
    assert_eq!(3u64.compare(&4), core::cmp::Ordering::Less);
    assert_eq!((-3i32).compare(&-3), core::cmp::Ordering::Equal);
    assert_eq!(Timestamp::from(9).compare(&Timestamp::from(2)), core::cmp::Ordering::Greater);
    assert_eq!(7i64.duplicate(), 7);
}

#[test]
fn range() {
    assert!(Range::<u64>::empty().is_empty());
    assert_eq!(Range::<i32>::empty(), Range { start: i32::MIN, end: End::Closed(i32::MIN) });
}
