use chrono::NaiveDate;
use siapla::availability::free_time;
use siapla::interval::{Interval, Intervals};
use siapla::issue::IssueCode;
use siapla::placer::{plan_task, task_start};
use siapla::slot::{add_slot_availability, reduce_intervals, remove_slot, Slot};

/// Seconds since the epoch of a UTC date and time.
fn ts(date: &str, h: u32, m: u32) -> i64 {
    NaiveDate::parse_from_str(date, "%Y-%m-%d")
        .unwrap()
        .and_hms_opt(h, m, 0)
        .unwrap()
        .and_utc()
        .timestamp()
}

const HOUR: u64 = 3600;

fn week(days: [u64; 7]) -> Vec<u64> {
    days.iter().map(|h| h * HOUR).collect()
}

fn slots_for(tz: &str, hours: [u64; 7], vacations: &Vec<(i64, i64)>, start: i64, end: i64) -> Vec<Slot> {
    let free = free_time(tz, &week(hours), vacations, &vec![], start, end).unwrap();
    let mut slots = Vec::new();
    add_slot_availability(&mut slots, free, start, end);
    slots
}

fn spans(iv: &Intervals) -> Vec<(Option<i64>, Option<i64>)> {
    (0..iv.len()).map(|i| (iv.get(i).start().value(), iv.get(i).end().value())).collect()
}

#[test]
fn single_task_single_resource() {
    let start = ts("2025-01-06", 0, 0);
    let target = ts("2025-01-06", 23, 59);
    let end = start + 2 * (target - start);
    let mut res = vec![slots_for("UTC", [8, 8, 8, 8, 8, 0, 0], &vec![], start, end)];
    let a = plan_task(start, end, 8 * HOUR, &vec![0], &vec![], &mut res).unwrap();
    assert_eq!(a.resources, vec![0]);
    assert_eq!(a.slot.range.start().value(), Some(ts("2025-01-06", 8, 0)));
    assert_eq!(a.slot.range.end().value(), Some(ts("2025-01-06", 16, 0)));
    assert_eq!(a.slot.intervals.length(), Some(8 * HOUR));
    // the time is gone from the resource
    assert!(!res[0][0].intervals.contains(&ts("2025-01-06", 9, 0)));
    assert!(res[0].iter().any(|s| s.intervals.contains(&ts("2025-01-07", 9, 0))));
}

#[test]
fn vacation_splits_the_week() {
    let start = ts("2025-01-06", 0, 0);
    let end = ts("2025-01-11", 0, 0);
    let vac = vec![(ts("2025-01-07", 0, 0), ts("2025-01-08", 0, 0))];
    let mut res = vec![slots_for("UTC", [8, 8, 8, 8, 8, 0, 0], &vac, start, end)];
    let a = plan_task(start, end, 16 * HOUR, &vec![0], &vec![], &mut res).unwrap();
    assert_eq!(
        spans(&a.slot.intervals),
        vec![
            (Some(ts("2025-01-06", 8, 0)), Some(ts("2025-01-06", 16, 0))),
            (Some(ts("2025-01-08", 8, 0)), Some(ts("2025-01-08", 16, 0))),
        ]
    );
    assert_eq!(a.slot.intervals.length(), Some(16 * HOUR));
    let tuesday = Interval::new_lcro(ts("2025-01-07", 0, 0), ts("2025-01-08", 0, 0));
    let mut tue = Intervals::new();
    tue.insert(tuesday);
    assert!(a.slot.intervals.is_disjoint(&tue));
}

#[test]
fn two_required_resources_meet_on_wednesday() {
    let start = ts("2025-01-06", 0, 0);
    let end = ts("2025-01-11", 0, 0);
    let mut res = vec![
        slots_for("UTC", [8, 8, 8, 0, 0, 0, 0], &vec![], start, end),
        slots_for("UTC", [0, 0, 8, 8, 8, 0, 0], &vec![], start, end),
    ];
    let a = plan_task(start, end, 4 * HOUR, &vec![0, 1], &vec![], &mut res).unwrap();
    assert_eq!(a.resources, vec![0, 1]);
    assert_eq!(
        spans(&a.slot.intervals),
        vec![(Some(ts("2025-01-08", 8, 0)), Some(ts("2025-01-08", 12, 0)))]
    );
}

#[test]
fn selectable_resource_with_earliest_end_wins() {
    let start = ts("2025-01-06", 0, 0);
    let end = ts("2025-01-11", 0, 0);
    let mut res = vec![
        slots_for("UTC", [0, 0, 8, 0, 0, 0, 0], &vec![], start, end),
        slots_for("UTC", [0, 8, 0, 0, 0, 0, 0], &vec![], start, end),
    ];
    let a = plan_task(start, end, 8 * HOUR, &vec![], &vec![0, 1], &mut res).unwrap();
    assert_eq!(a.resources, vec![1]);
    assert_eq!(a.slot.range.start().value(), Some(ts("2025-01-07", 8, 0)));
}

#[test]
fn task_without_resources_finds_no_slot() {
    let start = ts("2025-01-06", 0, 0);
    let end = ts("2025-01-11", 0, 0);
    let mut res: Vec<Vec<Slot>> = vec![];
    assert!(matches!(
        plan_task(start, end, HOUR, &vec![], &vec![], &mut res),
        Err(IssueCode::NoSlotFound)
    ));
}

#[test]
fn too_long_task_finds_no_slot() {
    let start = ts("2025-01-06", 0, 0);
    let end = ts("2025-01-08", 0, 0);
    let mut res = vec![slots_for("UTC", [8, 8, 8, 8, 8, 0, 0], &vec![], start, end)];
    let before = res[0].len();
    assert!(matches!(
        plan_task(start, end, 17 * HOUR, &vec![0], &vec![], &mut res),
        Err(IssueCode::NoSlotFound)
    ));
    assert_eq!(res[0].len(), before);
}

#[test]
fn two_tasks_do_not_overlap() {
    let start = ts("2025-01-06", 0, 0);
    let end = ts("2025-01-11", 0, 0);
    let mut res = vec![slots_for("UTC", [8, 8, 8, 8, 8, 0, 0], &vec![], start, end)];
    let a = plan_task(start, end, 6 * HOUR, &vec![0], &vec![], &mut res).unwrap();
    let b = plan_task(start, end, 6 * HOUR, &vec![0], &vec![], &mut res).unwrap();
    assert!(a.slot.intervals.is_disjoint(&b.slot.intervals));
    assert_eq!(
        spans(&b.slot.intervals),
        vec![
            (Some(ts("2025-01-06", 14, 0)), Some(ts("2025-01-06", 16, 0))),
            (Some(ts("2025-01-07", 8, 0)), Some(ts("2025-01-07", 12, 0))),
        ]
    );
}

#[test]
fn task_start_from_predecessors() {
    assert_eq!(task_start(&vec![], 5), Some(5));
    assert_eq!(task_start(&vec![Some(3), Some(9), Some(7)], 5), Some(9));
    assert_eq!(task_start(&vec![Some(3), None], 5), None);
}

#[test]
fn reduce_takes_earliest_time() {
    let mut iv = Intervals::new();
    iv.insert(Interval::new_lcro(0, 10));
    iv.insert(Interval::new_lcro(20, 30));
    let r = reduce_intervals(iv, 15);
    assert_eq!(spans(&r), vec![(Some(0), Some(10)), (Some(20), Some(25))]);
    assert_eq!(r.length(), Some(15));
}

#[test]
fn remove_slot_splits_around_range() {
    let mut iv = Intervals::new();
    iv.insert(Interval::new_lcro(10, 20));
    iv.insert(Interval::new_lcro(30, 40));
    let mut slots = Vec::new();
    add_slot_availability(&mut slots, iv, 0, 100);
    let mut used = Intervals::new();
    used.insert(Interval::new_lcro(12, 18));
    let taken = Slot { range: Interval::new_lcro(12, 18), extensible: false, duration: 6, intervals: used };
    remove_slot(&mut slots, 0, &taken);
    assert_eq!(slots.len(), 2);
    assert_eq!(slots[0].range.end().value(), Some(12));
    assert!(!slots[0].extensible);
    assert_eq!(slots[0].duration, 2);
    assert_eq!(slots[1].range.start().value(), Some(18));
    assert_eq!(slots[1].duration, 12);
}

#[test]
fn add_slot_extends_tail() {
    let mut a = Intervals::new();
    a.insert(Interval::new_lcro(10, 20));
    let mut b = Intervals::new();
    b.insert(Interval::new_lcro(110, 120));
    let mut slots = Vec::new();
    add_slot_availability(&mut slots, a, 0, 100);
    add_slot_availability(&mut slots, b, 100, 200);
    assert_eq!(slots.len(), 1);
    assert_eq!(slots[0].range.start().value(), Some(0));
    assert_eq!(slots[0].range.end().value(), Some(200));
    assert_eq!(slots[0].duration, 20);
    assert!(slots[0].extensible);
}

#[test]
fn add_slot_appends_after_gap() {
    let mut a = Intervals::new();
    a.insert(Interval::new_lcro(10, 20));
    let mut b = Intervals::new();
    b.insert(Interval::new_lcro(210, 220));
    let mut slots = Vec::new();
    add_slot_availability(&mut slots, a, 0, 100);
    add_slot_availability(&mut slots, b, 200, 300);
    assert_eq!(slots.len(), 2);
    assert_eq!(slots[1].range.start().value(), Some(200));
    assert_eq!(slots[1].duration, 10);
}

#[test]
fn single_resource_without_room_fails_and_with_room_succeeds() {
    let start = ts("2025-01-06", 0, 0);
    let end = ts("2025-01-08", 0, 0);
    // two days of 8 h: 8 h fit, 9 h in one slot do not
    let mut res = vec![slots_for("UTC", [8, 8, 8, 8, 8, 0, 0], &vec![], start, end)];
    assert!(plan_task(start, end, 16 * HOUR, &vec![0], &vec![], &mut res).is_ok());
    let mut res = vec![slots_for("UTC", [8, 8, 8, 8, 8, 0, 0], &vec![], start, end)];
    assert!(plan_task(start, end, 17 * HOUR, &vec![0], &vec![], &mut res).is_err());
    let a = {
        let mut res = vec![slots_for("UTC", [8, 8, 8, 8, 8, 0, 0], &vec![], start, end)];
        plan_task(start, end, 4 * HOUR, &vec![0], &vec![], &mut res).unwrap()
    };
    assert_eq!(a.slot.duration, 4 * HOUR);
    assert!(!a.slot.extensible);
}
