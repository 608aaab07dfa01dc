use siapla::interval::{Bound, EndBound, Interval, Intervals, StartBound};
use siapla::issue::{IssueCode, IssueType, PlanningIssue, SiaplaError};

fn coll(v: &[(i64, i64)]) -> Intervals {
    let mut r = Intervals::new();
    for (a, b) in v {
        r.insert(Interval::new_lcro(*a, *b));
    }
    r
}

fn spans(iv: &Intervals) -> Vec<(Option<i64>, Option<i64>)> {
    (0..iv.len()).map(|i| (iv.get(i).start().value(), iv.get(i).end().value())).collect()
}

fn total(v: &[Interval]) -> u64 {
    v.iter().map(|i| i.length().unwrap()).sum()
}

#[test]
fn lengths_partition() {
    let a = Interval::new_lcro(0, 10);
    let b = Interval::new_closed(5, 15);
    let i = a.intersection(&b).map(|x| x.length().unwrap()).unwrap_or(0);
    assert_eq!(i, 5);
    assert_eq!(i + total(&a.difference(&b)) + total(&b.difference(&a)) + i, a.length().unwrap() + b.length().unwrap());
}

#[test]
fn union_distributes_over_intersection() {
    let a = coll(&[(0, 5), (10, 15)]);
    let b = coll(&[(3, 12)]);
    let c = coll(&[(4, 11), (14, 20)]);
    let left = a.union(&b).intersection(&c);
    let right = a.intersection(&c).union(&b.intersection(&c));
    assert_eq!(spans(&left), spans(&right));
    assert_eq!(spans(&left), vec![(Some(4), Some(11)), (Some(14), Some(15))]);
}

#[test]
fn difference_is_intersection_with_complement() {
    let a = coll(&[(0, 5), (10, 15)]);
    let b = coll(&[(3, 12)]);
    let u = coll(&[(0, 100)]);
    assert_eq!(spans(&a.difference(&b)), spans(&a.intersection(&u.difference(&b))));
}

#[test]
fn insert_covered_interval_is_idempotent() {
    let mut a = coll(&[(0, 5), (10, 15)]);
    let before = spans(&a);
    a.insert(Interval::new_lcro(11, 14));
    assert_eq!(spans(&a), before);
}

#[test]
fn find_index_matches_contains() {
    let a = coll(&[(0, 5), (10, 15)]);
    for v in -2..18 {
        match a.find_index(&v) {
            Ok(i) => assert!(a.get(i).contains(&v)),
            Err(_) => assert!((0..a.len()).all(|i| !a.get(i).contains(&v))),
        }
    }
}

#[test]
fn split_remove_keeps_outer_parts() {
    let a = coll(&[(0, 5), (10, 15), (20, 25)]);
    let (l, r) = a.split_remove(Interval::new_lcro(3, 12));
    assert_eq!(spans(&l), vec![(Some(0), Some(3))]);
    assert_eq!(spans(&r), vec![(Some(12), Some(15)), (Some(20), Some(25))]);
}

#[test]
fn separate_and_disjoint_collections() {
    let a = coll(&[(0, 5)]);
    let b = coll(&[(5, 9)]);
    let c = coll(&[(6, 9)]);
    assert!(a.is_disjoint(&b));
    assert!(!a.is_separate(&b));
    assert!(a.is_separate(&c));
    assert!(!a.is_disjoint(&coll(&[(4, 9)])));
}

#[test]
fn hull_and_touching() {
    let a = coll(&[(0, 5), (10, 15)]);
    let h = a.hull().unwrap();
    assert_eq!((h.start().value(), h.end().value()), (Some(0), Some(15)));
    assert!(a.touches(&5));
    assert!(!a.contains(&5));
    assert!(a.find_touching(&7).is_none());
    assert!(Intervals::new().hull().is_none());
}

#[test]
fn issue_codes_round_trip() {
    assert_eq!(IssueCode::NoSlotFound.number(), 301);
    assert_eq!(IssueCode::from_number(203), IssueCode::ResourceMissing);
    assert_eq!(IssueCode::from_number(5), IssueCode::Unknown);
    let p = PlanningIssue { code: IssueCode::NoEffort, description: "x".to_string(), task_id: Some(3) };
    assert_eq!(p.issue_type(), IssueType::PlanningTask);
    assert_eq!(SiaplaError::new("boom".to_string()).message(), "boom");
}

#[test]
fn bound_kinds_and_constructors() {
    let a = Interval::new_open(0, 10);
    assert!(!a.contains(&0));
    assert!(a.contains(&5));
    assert!(!a.contains(&10));
    let b = Interval::new_lorc(0, 10);
    assert!(!b.contains(&0));
    assert!(b.contains(&10));
    assert!(b.end().is_closed());
    assert!(!b.start().is_closed());
    assert_eq!(b.closed().start().value(), Some(0));
    assert!(b.closed().contains(&0));
    let c = Interval::new_closed(0, 10);
    assert!(c.contains(&0) && c.contains(&10));
    // closed [0,10] and open-start (10,20] touch without a common point
    let d = Interval::new_lorc(10, 20);
    assert!(c.is_disjoint(&d));
    assert!(!c.is_separate(&d));
    assert_eq!(c.union(&d).map(|u| (u.start().value(), u.end().value())), Some((Some(0), Some(20))));
}

#[test]
fn bounds_order_by_position() {
    assert!(StartBound(Bound::Closed(5)) < StartBound(Bound::Open(5)));
    assert!(StartBound(Bound::Unbounded()) < StartBound(Bound::Closed(i64::MIN)));
    assert!(StartBound(Bound::Open(4)) < StartBound(Bound::Closed(5)));
    assert!(EndBound(Bound::Open(5)) < EndBound(Bound::Closed(5)));
    assert!(EndBound(Bound::Closed(i64::MAX)) < EndBound(Bound::Unbounded()));
    assert_eq!(StartBound(Bound::Closed(3)).partial_cmp(&StartBound(Bound::Closed(3))), Some(std::cmp::Ordering::Equal));
    assert!(EndBound(Bound::Closed(6)).touches(&StartBound(Bound::Open(6))));
    assert!(!EndBound(Bound::Open(6)).touches(&StartBound(Bound::Open(6))));
    assert_eq!(StartBound(Bound::Closed(6)).touching_end(), EndBound(Bound::Open(6)));
    assert_eq!(EndBound(Bound::Closed(6)).touching_start(), StartBound(Bound::Open(6)));
    assert_eq!(Bound::Open(2).switch(), Bound::Closed(2));
    assert!(Bound::Unbounded().is_unbounded());
}
