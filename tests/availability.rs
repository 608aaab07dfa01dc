use chrono::NaiveDate;
use siapla::availability::{free_time, working_time, AvailabilityError};
use siapla::interval::Intervals;

fn ts(date: &str, h: u32, m: u32) -> i64 {
    NaiveDate::parse_from_str(date, "%Y-%m-%d")
        .unwrap()
        .and_hms_opt(h, m, 0)
        .unwrap()
        .and_utc()
        .timestamp()
}

fn spans(iv: &Intervals) -> Vec<(Option<i64>, Option<i64>)> {
    (0..iv.len()).map(|i| (iv.get(i).start().value(), iv.get(i).end().value())).collect()
}

#[test]
fn eight_hours_centred_on_noon() {
    let week = vec![8 * 3600, 0, 0, 0, 0, 0, 0];
    let w = working_time("UTC", &week, ts("2025-01-06", 0, 0), ts("2025-01-13", 0, 0)).unwrap();
    assert_eq!(spans(&w), vec![(Some(ts("2025-01-06", 8, 0)), Some(ts("2025-01-06", 16, 0)))]);
}

#[test]
fn idle_weekday_gives_nothing() {
    let week = vec![0, 0, 0, 0, 0, 0, 0];
    let w = working_time("UTC", &week, ts("2025-01-06", 0, 0), ts("2025-01-13", 0, 0)).unwrap();
    assert!(w.is_empty());
}

#[test]
fn full_day_in_local_time() {
    // Berlin is one hour ahead of UTC in January
    let week = vec![24 * 3600, 0, 0, 0, 0, 0, 0];
    let w = working_time("Europe/Berlin", &week, ts("2025-01-05", 0, 0), ts("2025-01-08", 0, 0)).unwrap();
    assert_eq!(spans(&w), vec![(Some(ts("2025-01-05", 23, 0)), Some(ts("2025-01-06", 23, 0)))]);
}

#[test]
fn local_noon_follows_zone() {
    let week = vec![2 * 3600, 0, 0, 0, 0, 0, 0];
    let w = working_time("America/New_York", &week, ts("2025-01-06", 0, 0), ts("2025-01-07", 12, 0)).unwrap();
    assert_eq!(spans(&w), vec![(Some(ts("2025-01-06", 16, 0)), Some(ts("2025-01-06", 18, 0)))]);
}

#[test]
fn window_clips_days() {
    let week = vec![8 * 3600, 0, 0, 0, 0, 0, 0];
    let w = working_time("UTC", &week, ts("2025-01-06", 10, 0), ts("2025-01-06", 12, 0)).unwrap();
    assert_eq!(spans(&w), vec![(Some(ts("2025-01-06", 10, 0)), Some(ts("2025-01-06", 12, 0)))]);
}

#[test]
fn unknown_zone_is_an_error() {
    let week = vec![8 * 3600; 7];
    assert_eq!(
        working_time("Nowhere/Atlantis", &week, ts("2025-01-06", 0, 0), ts("2025-01-07", 0, 0)).err(),
        Some(AvailabilityError::Conversion)
    );
}

#[test]
fn vacations_and_holidays_subtract() {
    let week = vec![8 * 3600, 8 * 3600, 8 * 3600, 0, 0, 0, 0];
    let vac = vec![(ts("2025-01-06", 0, 0), ts("2025-01-06", 12, 0))];
    // 2025-01-08 is day 739_259 counted from January 1 of year 1
    let wednesday = NaiveDate::from_ymd_opt(2025, 1, 8).unwrap();
    let day = chrono::Datelike::num_days_from_ce(&wednesday);
    let f = free_time("UTC", &week, &vac, &vec![day], ts("2025-01-06", 0, 0), ts("2025-01-13", 0, 0)).unwrap();
    assert_eq!(
        spans(&f),
        vec![
            (Some(ts("2025-01-06", 12, 0)), Some(ts("2025-01-06", 16, 0))),
            (Some(ts("2025-01-07", 8, 0)), Some(ts("2025-01-07", 16, 0))),
        ]
    );
}

#[test]
fn local_date_past_the_calendar_is_an_error() {
    // 23:00 UTC on the last representable day is already the next day in Tokyo
    let last = NaiveDate::MAX.and_hms_opt(23, 0, 0).unwrap().and_utc().timestamp();
    let week = vec![8 * 3600; 7];
    assert_eq!(working_time("Asia/Tokyo", &week, last - 3600, last).err(), Some(AvailabilityError::Conversion));
}
