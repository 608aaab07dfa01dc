use chrono::NaiveDate;
use siapla::interval::{Interval, Intervals};

/// Seconds since the epoch of a UTC date and time.
fn ndt(date: &str, time: &str) -> i64 {
    NaiveDate::parse_from_str(date, "%Y-%m-%d")
        .unwrap()
        .and_hms_opt(
            time[0..2].parse().unwrap(),
            time[3..5].parse().unwrap(),
            time[6..8].parse().unwrap(),
        )
        .unwrap()
        .and_utc()
        .timestamp()
}

#[test]
fn test_interval_contains() {
    let a = Interval::new_lcro(ndt("2023-01-01", "00:00:00"), ndt("2023-01-01", "12:00:00"));
    assert!(a.contains(&ndt("2023-01-01", "00:00:00")));
    assert!(a.contains(&ndt("2023-01-01", "11:59:59")));
    assert!(!a.contains(&ndt("2023-01-01", "12:00:00")));
    assert!(!a.contains(&ndt("2022-12-31", "23:59:59")));
}

#[test]
fn test_interval_is_disjoint() {
    let a = Interval::new_lcro(ndt("2023-01-01", "00:00:00"), ndt("2023-01-01", "12:00:00"));
    let b = Interval::new_lcro(ndt("2023-01-01", "12:00:00"), ndt("2023-01-01", "13:00:00"));
    let c = Interval::new_lcro(ndt("2023-01-01", "11:00:00"), ndt("2023-01-01", "13:00:00"));
    let d = Interval::new_lcro(ndt("2023-01-01", "13:00:00"), ndt("2023-01-01", "15:00:00"));
    assert!(a.is_disjoint(&b));
    assert!(!a.is_disjoint(&c));
    assert!(a.is_disjoint(&d));
    assert!(b.is_disjoint(&d));
    assert!(!a.is_separate(&b));
    assert!(!a.is_separate(&c));
    assert!(a.is_separate(&d));
    assert!(!b.is_separate(&d));
}

#[test]
fn test_interval_union() {
    let a = Interval::new_lcro(ndt("2023-01-01", "00:00:00"), ndt("2023-01-01", "12:00:00"));
    let b = Interval::new_lcro(ndt("2023-01-01", "11:00:00"), ndt("2023-01-01", "13:00:00"));
    let u = a.union(&b).unwrap();
    assert_eq!(u.start().value(), Some(ndt("2023-01-01", "00:00:00")));
    assert_eq!(u.end().value(), Some(ndt("2023-01-01", "13:00:00")));
}

#[test]
fn test_union_touching_intervals() {
    let a = Interval::new_lcro(ndt("2023-01-01", "00:00:00"), ndt("2023-01-01", "06:00:00"));
    let b = Interval::new_lcro(ndt("2023-01-01", "06:00:00"), ndt("2023-01-01", "10:00:00"));
    let u = a.union(&b).unwrap();
    assert_eq!(u.start().value(), Some(ndt("2023-01-01", "00:00:00")));
    assert_eq!(u.end().value(), Some(ndt("2023-01-01", "10:00:00")));
}

#[test]
fn test_union_separate_intervals() {
    let a = Interval::new_lcro(ndt("2023-01-01", "00:00:00"), ndt("2023-01-01", "06:00:00"));
    let b = Interval::new_lcro(ndt("2023-01-01", "07:00:00"), ndt("2023-01-01", "10:00:00"));
    assert!(a.union(&b).is_none());
}

#[test]
fn test_interval_intersection() {
    let a = Interval::new_lcro(ndt("2023-01-01", "00:00:00"), ndt("2023-01-01", "12:00:00"));
    let b = Interval::new_lcro(ndt("2023-01-01", "11:00:00"), ndt("2023-01-01", "13:00:00"));
    let i = a.intersection(&b).unwrap();
    assert_eq!(i.start().value(), Some(ndt("2023-01-01", "11:00:00")));
    assert_eq!(i.end().value(), Some(ndt("2023-01-01", "12:00:00")));
}

#[test]
fn test_intersection_touching_intervals() {
    let a = Interval::new_lcro(ndt("2023-01-01", "00:00:00"), ndt("2023-01-01", "06:00:00"));
    let b = Interval::new_lcro(ndt("2023-01-01", "06:00:00"), ndt("2023-01-01", "10:00:00"));
    assert!(a.intersection(&b).is_none());
}

#[test]
fn test_interval_difference() {
    let a = Interval::new_lcro(ndt("2023-01-01", "00:00:00"), ndt("2023-01-01", "12:00:00"));
    let b = Interval::new_lcro(ndt("2023-01-01", "06:00:00"), ndt("2023-01-01", "08:00:00"));
    let diff = a.difference(&b);
    assert_eq!(diff.len(), 2);
    assert_eq!(diff[0].start().value(), Some(ndt("2023-01-01", "00:00:00")));
    assert_eq!(diff[0].end().value(), Some(ndt("2023-01-01", "06:00:00")));
    assert_eq!(diff[1].start().value(), Some(ndt("2023-01-01", "08:00:00")));
    assert_eq!(diff[1].end().value(), Some(ndt("2023-01-01", "12:00:00")));
}

#[test]
fn test_interval_difference_stretch_right() {
    let a = Interval::new_lcro(ndt("2023-01-01", "00:00:00"), ndt("2023-01-01", "12:00:00"));
    let b = Interval::new_lcro(ndt("2023-01-01", "06:00:00"), ndt("2023-01-01", "15:00:00"));
    let diff = a.difference(&b);
    assert_eq!(diff.len(), 1);
    assert_eq!(diff[0].start().value(), Some(ndt("2023-01-01", "00:00:00")));
    assert_eq!(diff[0].end().value(), Some(ndt("2023-01-01", "06:00:00")));
}

#[test]
fn test_interval_difference_stretch_left() {
    let a = Interval::new_lcro(ndt("2023-01-01", "06:00:00"), ndt("2023-01-01", "12:00:00"));
    let b = Interval::new_lcro(ndt("2023-01-01", "00:00:00"), ndt("2023-01-01", "08:00:00"));
    let diff = a.difference(&b);
    assert_eq!(diff.len(), 1);
    assert_eq!(diff[0].start().value(), Some(ndt("2023-01-01", "08:00:00")));
    assert_eq!(diff[0].end().value(), Some(ndt("2023-01-01", "12:00:00")));
}

#[test]
fn test_interval_difference_touching() {
    let a = Interval::new_lcro(ndt("2023-01-01", "06:00:00"), ndt("2023-01-01", "12:00:00"));
    let b = Interval::new_lcro(ndt("2023-01-01", "12:00:00"), ndt("2023-01-01", "15:00:00"));
    let c = Interval::new_lcro(ndt("2023-01-01", "00:00:00"), ndt("2023-01-01", "06:00:00"));
    let diff = a.difference(&b);
    assert_eq!(diff.len(), 1);
    assert_eq!(diff[0], a);
    let diff = a.difference(&c);
    assert_eq!(diff.len(), 1);
    assert_eq!(diff[0], a);
}

#[test]
fn test_intervals_insert_and_contains() {
    let mut intervals = Intervals::new();
    intervals.insert(Interval::new_lcro(
        ndt("2023-01-01", "00:00:00"),
        ndt("2023-01-01", "06:00:00"),
    ));
    intervals.insert(Interval::new_lcro(
        ndt("2023-01-01", "08:00:00"),
        ndt("2023-01-01", "10:00:00"),
    ));
    intervals.insert(Interval::new_lcro(
        ndt("2023-01-01", "05:00:00"),
        ndt("2023-01-01", "09:00:00"),
    ));
    // Should merge to [00:00:00, 10:00:00)
    assert_eq!(intervals.len(), 1);
    assert!(intervals.contains(&ndt("2023-01-01", "09:59:59")));
    assert!(!intervals.contains(&ndt("2023-01-01", "10:00:00")));
}

#[test]
fn test_intervals_find_index() {
    let mut intervals = Intervals::new();
    intervals.insert(Interval::new_lcro(
        ndt("2023-01-01", "00:00:00"),
        ndt("2023-01-01", "06:00:00"),
    ));
    intervals.insert(Interval::new_lcro(
        ndt("2023-01-01", "08:00:00"),
        ndt("2023-01-01", "10:00:00"),
    ));
    intervals.insert(Interval::new_lcro(
        ndt("2023-01-01", "10:00:00"),
        ndt("2023-01-01", "11:00:00"),
    ));
    assert_eq!(intervals.len(), 2);
    assert_eq!(intervals.find_index(&ndt("2023-01-01", "05:00:00")).ok(), Some(0));
    assert_eq!(intervals.find_index(&ndt("2023-01-01", "08:30:00")).ok(), Some(1));
    assert_eq!(intervals.find_index(&ndt("2023-01-01", "10:00:00")).ok(), Some(1));
    assert_eq!(intervals.find_index(&ndt("2023-01-01", "10:30:00")).ok(), Some(1));
    assert_eq!(intervals.find_index(&ndt("2022-12-23", "23:59:59")).err(), Some(0));
    assert_eq!(intervals.find_index(&ndt("2023-01-01", "07:00:00")).err(), Some(1));
    assert_eq!(intervals.find_index(&ndt("2023-01-01", "12:00:00")).err(), Some(2));
}

#[test]
fn test_intervals_union() {
    let mut a = Intervals::new();
    a.insert(Interval::new_lcro(ndt("2023-01-01", "00:00:00"), ndt("2023-01-01", "06:00:00")));
    let mut b = Intervals::new();
    b.insert(Interval::new_lcro(ndt("2023-01-01", "05:00:00"), ndt("2023-01-01", "10:00:00")));
    let u = a.union(&b);
    assert_eq!(u.len(), 1);
    assert_eq!(u.get(0).start().value(), Some(ndt("2023-01-01", "00:00:00")));
    assert_eq!(u.get(0).end().value(), Some(ndt("2023-01-01", "10:00:00")));
}

#[test]
fn test_intervals_intersection() {
    let mut a = Intervals::new();
    a.insert(Interval::new_lcro(ndt("2023-01-01", "00:00:00"), ndt("2023-01-01", "06:00:00")));
    let mut b = Intervals::new();
    b.insert(Interval::new_lcro(ndt("2023-01-01", "05:00:00"), ndt("2023-01-01", "10:00:00")));
    let i = a.intersection(&b);
    assert_eq!(i.len(), 1);
    assert_eq!(i.get(0).start().value(), Some(ndt("2023-01-01", "05:00:00")));
    assert_eq!(i.get(0).end().value(), Some(ndt("2023-01-01", "06:00:00")));
}

#[test]
fn test_intervals_difference() {
    let mut a = Intervals::new();
    a.insert(Interval::new_lcro(ndt("2023-01-01", "00:00:00"), ndt("2023-01-01", "10:00:00")));
    let mut b = Intervals::new();
    b.insert(Interval::new_lcro(ndt("2023-01-01", "05:00:00"), ndt("2023-01-01", "07:00:00")));
    let d = a.difference(&b);
    assert_eq!(d.len(), 2);
    assert_eq!(d.get(0).start().value(), Some(ndt("2023-01-01", "00:00:00")));
    assert_eq!(d.get(0).end().value(), Some(ndt("2023-01-01", "05:00:00")));
    assert_eq!(d.get(1).start().value(), Some(ndt("2023-01-01", "07:00:00")));
    assert_eq!(d.get(1).end().value(), Some(ndt("2023-01-01", "10:00:00")));
}

#[test]
fn test_intervals_insert_merge_two_disjoint_int() {
    let mut intervals = Intervals::new();
    intervals.insert(Interval::new_lcro(1, 3));
    intervals.insert(Interval::new_lcro(5, 9));
    assert_eq!(intervals.len(), 2);
    // Insert a third interval that touches both
    intervals.insert(Interval::new_lcro(3, 5));
    // Should merge to [00:00:00, 12:00:00)
    assert_eq!(intervals.len(), 1);
    assert_eq!(intervals.get(0).start().value(), Some(1));
    assert_eq!(intervals.get(0).end().value(), Some(9));
}

#[test]
fn test_intervals_insert_merge_two_disjoint() {
    let mut intervals = Intervals::new();
    intervals.insert(Interval::new_lcro(
        ndt("2023-01-01", "00:00:00"),
        ndt("2023-01-01", "06:00:00"),
    ));
    intervals.insert(Interval::new_lcro(
        ndt("2023-01-01", "10:00:00"),
        ndt("2023-01-01", "12:00:00"),
    ));
    assert_eq!(intervals.len(), 2);
    // Insert a third interval that touches both
    intervals.insert(Interval::new_lcro(
        ndt("2023-01-01", "06:00:00"),
        ndt("2023-01-01", "10:00:00"),
    ));
    // Should merge to [00:00:00, 12:00:00)
    assert_eq!(intervals.len(), 1);
    assert_eq!(intervals.get(0).start().value(), Some(ndt("2023-01-01", "00:00:00")));
    assert_eq!(intervals.get(0).end().value(), Some(ndt("2023-01-01", "12:00:00")));
}

#[test]
fn test_intervals_remove_subinterval() {
    let mut intervals = Intervals::new();
    intervals.insert(Interval::new_lcro(
        ndt("2023-01-01", "00:00:00"),
        ndt("2023-01-01", "10:00:00"),
    ));
    intervals.remove(Interval::new_lcro(
        ndt("2023-01-01", "03:00:00"),
        ndt("2023-01-01", "07:00:00"),
    ));
    assert_eq!(intervals.len(), 2);
    assert_eq!(intervals.get(0).start().value(), Some(ndt("2023-01-01", "00:00:00")));
    assert_eq!(intervals.get(0).end().value(), Some(ndt("2023-01-01", "03:00:00")));
    assert_eq!(intervals.get(1).start().value(), Some(ndt("2023-01-01", "07:00:00")));
    assert_eq!(intervals.get(1).end().value(), Some(ndt("2023-01-01", "10:00:00")));
}

#[test]
fn test_intervals_remove_overlap_multiple() {
    let mut intervals = Intervals::new();
    intervals.insert(Interval::new_lcro(
        ndt("2023-01-01", "00:00:00"),
        ndt("2023-01-01", "04:00:00"),
    ));
    intervals.insert(Interval::new_lcro(
        ndt("2023-01-01", "06:00:00"),
        ndt("2023-01-01", "10:00:00"),
    ));
    intervals.remove(Interval::new_lcro(
        ndt("2023-01-01", "03:00:00"),
        ndt("2023-01-01", "07:00:00"),
    ));
    assert_eq!(intervals.len(), 2);
    assert_eq!(intervals.get(0).start().value(), Some(ndt("2023-01-01", "00:00:00")));
    assert_eq!(intervals.get(0).end().value(), Some(ndt("2023-01-01", "03:00:00")));
    assert_eq!(intervals.get(1).start().value(), Some(ndt("2023-01-01", "07:00:00")));
    assert_eq!(intervals.get(1).end().value(), Some(ndt("2023-01-01", "10:00:00")));
}

#[test]
fn test_intervals_remove_disjoint() {
    let mut intervals = Intervals::new();
    intervals.insert(Interval::new_lcro(
        ndt("2023-01-01", "00:00:00"),
        ndt("2023-01-01", "04:00:00"),
    ));
    intervals.remove(Interval::new_lcro(
        ndt("2023-01-01", "05:00:00"),
        ndt("2023-01-01", "06:00:00"),
    ));
    assert_eq!(intervals.len(), 1);
    assert_eq!(intervals.get(0).start().value(), Some(ndt("2023-01-01", "00:00:00")));
    assert_eq!(intervals.get(0).end().value(), Some(ndt("2023-01-01", "04:00:00")));
}

#[test]
fn test_intervals_remove_exact() {
    let mut intervals = Intervals::new();
    intervals.insert(Interval::new_lcro(
        ndt("2023-01-01", "00:00:00"),
        ndt("2023-01-01", "04:00:00"),
    ));
    intervals.remove(Interval::new_lcro(
        ndt("2023-01-01", "00:00:00"),
        ndt("2023-01-01", "04:00:00"),
    ));
    assert!(intervals.is_empty());
}
