//! Free time of a resource: weekly working hours centred on local noon, minus
//! vacations and holidays.
use vstd::prelude::*;
use chrono::{Datelike, NaiveDate, NaiveDateTime, NaiveTime, Offset, TimeZone};
use crate::interval::{covers, span_in, Interval, Intervals, Span};

verus! {

/// Seconds in a day.
pub const DAY_SECS: u32 = 86400;

/// Seconds from midnight to noon.
pub const NOON_SECS: u32 = 43200;

/// The local date (days from January 1 of year 1, which is day 1) of the UTC
/// instant `instant` in time zone `tz`.
pub uninterp spec fn tz_local_day(tz: Seq<char>, instant: int) -> Option<int>;

/// The UTC instant of local day `day` at `secs` seconds after midnight in time
/// zone `tz` (the earliest one when the clock is set back).
pub uninterp spec fn tz_local_instant(tz: Seq<char>, day: int, secs: int) -> Option<int>;

/// Relies on chrono-tz's `Tz::from_str` and `offset_from_utc_datetime`, and
/// chrono's `DateTime::from_timestamp`, `Offset::fix`, `checked_add_offset` and
/// `num_days_from_ce`: the local date of an instant; `None` when the zone name is
/// unknown or the instant or its local time is out of range.
#[verifier::external_body]
fn local_day(tz: &str, instant: i64) -> (r: Option<i32>)
    ensures
        r matches Some(d) ==> tz_local_day(tz@, instant as int) == Some(d as int),
        r is None ==> tz_local_day(tz@, instant as int) is None,
{
    let zone: chrono_tz::Tz = tz.parse().ok()?;
    let utc = chrono::DateTime::from_timestamp(instant, 0)?.naive_utc();
    let off = zone.offset_from_utc_datetime(&utc).fix();
    Some(utc.checked_add_offset(off)?.date().num_days_from_ce())
}

/// Relies on chrono-tz's `Tz::from_str` and chrono's `from_num_days_from_ce_opt`,
/// `from_num_seconds_from_midnight_opt`, `and_local_timezone(..).earliest()` and
/// `timestamp`: the instant of a local day and time; `None` when the zone name is
/// unknown, the day or time out of range, or the local time skipped.
#[verifier::external_body]
fn local_instant(tz: &str, day: i32, secs: u32) -> (r: Option<i64>)
    ensures
        r matches Some(t) ==> tz_local_instant(tz@, day as int, secs as int) == Some(t as int),
        r is None ==> tz_local_instant(tz@, day as int, secs as int) is None,
{
    let zone: chrono_tz::Tz = tz.parse().ok()?;
    let date = NaiveDate::from_num_days_from_ce_opt(day)?;
    let time = NaiveTime::from_num_seconds_from_midnight_opt(secs, 0)?;
    let local = NaiveDateTime::new(date, time).and_local_timezone(zone).earliest()?;
    Some(local.timestamp())
}

/// Weekday of a day number, Monday being 0: day 1 (January 1 of year 1) was a Monday.
pub open spec fn weekday_of(day: int) -> int {
    (day - 1) % 7
}

/// Half the working time of a day with `secs` working seconds, at most half a day.
pub open spec fn half_width(secs: u64) -> int {
    if secs / 2 < NOON_SECS {
        (secs / 2) as int
    } else {
        NOON_SECS as int
    }
}

/// The instant that closes the working time of day `day`; at midnight that is the
/// start of the next day.
pub open spec fn day_end_instant(tz: Seq<char>, day: int, half: int) -> Option<int> {
    if half == NOON_SECS {
        if day + 1 > i32::MAX {
            None
        } else {
            tz_local_instant(tz, day + 1, 0)
        }
    } else {
        tz_local_instant(tz, day, NOON_SECS + half)
    }
}

/// The conversions day `day` needs can all be made.
pub open spec fn day_defined(tz: Seq<char>, week: Seq<u64>, day: int) -> bool {
    let half = half_width(week[weekday_of(day)]);
    half == 0 || (tz_local_instant(tz, day, NOON_SECS - half) is Some && day_end_instant(tz, day, half) is Some)
}

/// The working time of day `day`: `[12:00 - w/2, 12:00 + w/2)` local time for `w`
/// working seconds (at most a day), clipped to `[start, end)`; `None` when there
/// is none.
pub open spec fn day_span(tz: Seq<char>, week: Seq<u64>, day: int, start: i64, end: i64) -> Option<Span> {
    let half = half_width(week[weekday_of(day)]);
    if half == 0 {
        None
    } else {
        match (tz_local_instant(tz, day, NOON_SECS - half), day_end_instant(tz, day, half)) {
            (Some(s), Some(e)) => {
                let lo = if s < start { start as int } else { s };
                let hi = if e < end { e } else { end as int };
                if lo < hi {
                    Some((2 * lo, 2 * hi - 1))
                } else {
                    None
                }
            },
            _ => None,
        }
    }
}

/// Key `k` lies in the working time of day `d`.
pub open spec fn day_holds(tz: Seq<char>, week: Seq<u64>, d: int, start: i64, end: i64, k: int) -> bool {
    match day_span(tz, week, d, start, end) {
        Some(p) => span_in(p, k),
        None => false,
    }
}

/// Key `k` lies in the working time of some day from `first` to `last`.
pub open spec fn in_working_time(
    tz: Seq<char>,
    week: Seq<u64>,
    first: int,
    last: int,
    start: i64,
    end: i64,
    k: int,
) -> bool {
    exists|d: int| first <= d <= last && #[trigger] day_holds(tz, week, d, start, end, k)
}

/// The days of the window (in the resource's zone) and their conversions are defined.
pub open spec fn window_defined(tz: Seq<char>, week: Seq<u64>, start: i64, end: i64) -> bool {
    &&& tz_local_day(tz, start as int) is Some
    &&& tz_local_day(tz, end as int) is Some
    &&& forall|d: int|
        tz_local_day(tz, start as int).unwrap() <= d <= tz_local_day(tz, end as int).unwrap() ==> #[trigger] day_defined(
            tz,
            week,
            d,
        )
}

/// Why the free time of a resource could not be computed.
#[derive(Clone, Copy, Debug, PartialEq, Eq, Structural)]
pub enum AvailabilityError {
    /// The time zone is unknown, or a local time cannot be turned into an instant.
    Conversion,
}

/// The working time within `[start, end)` of a resource in zone `tz` that works
/// `week[i]` seconds on weekday `i` (Monday first), as intervals.
pub fn working_time(tz: &str, week: &Vec<u64>, start: i64, end: i64) -> (r: Result<
    Intervals,
    AvailabilityError,
>)
    requires
        week@.len() == 7,
        start < end,
    ensures
        r is Ok <==> window_defined(tz@, week@, start, end),
        r matches Ok(iv) ==> iv.wf() && forall|k: int|
            #[trigger] covers(iv@, k) <==> in_working_time(
                tz@,
                week@,
                tz_local_day(tz@, start as int).unwrap(),
                tz_local_day(tz@, end as int).unwrap(),
                start,
                end,
                k,
            ),
{
    let first = match local_day(tz, start) {
        Some(d) => d,
        None => return Err(AvailabilityError::Conversion),
    };
    let last = match local_day(tz, end) {
        Some(d) => d,
        None => return Err(AvailabilityError::Conversion),
    };
    let ghost f = first as int;
    let ghost l = last as int;
    let mut result = Intervals::new();
    if first > last {
        assert forall|k: int| #[trigger] covers(result@, k) <==> in_working_time(tz@, week@, f, l, start, end, k) by {
            assert(covers(result@, k) == false);
        }
        return Ok(result);
    }
    let mut d: i64 = first as i64;
    while d <= last as i64
        invariant
            f <= d <= l + 1,
            l == last as int,
            f == first as int,
            f == tz_local_day(tz@, start as int).unwrap(),
            l == tz_local_day(tz@, end as int).unwrap(),
            tz_local_day(tz@, start as int) is Some,
            tz_local_day(tz@, end as int) is Some,
            i32::MIN <= f && l <= i32::MAX,
            week@.len() == 7,
            result.wf(),
            forall|x: int| f <= x < d ==> #[trigger] day_defined(tz@, week@, x),
            forall|k: int| #[trigger] covers(result@, k) <==> in_working_time(tz@, week@, f, d - 1, start, end, k),
        decreases l + 1 - d,
    {
        let day = d as i32;
        let m = (d - 1) % 7;
        let wd: usize = if m < 0 {
            (m + 7) as usize
        } else {
            m as usize
        };
        proof {
            assert(wd as int == weekday_of(d as int));
        }
        let secs = week[wd];
        let half: u32 = if secs / 2 < NOON_SECS as u64 {
            (secs / 2) as u32
        } else {
            NOON_SECS
        };
        let ghost before = result@;
        if half > 0 {
            let s = match local_instant(tz, day, NOON_SECS - half) {
                Some(t) => t,
                None => {
                    proof {
                        assert(!day_defined(tz@, week@, d as int));
                        assert(f <= d <= l);
                        assert(!window_defined(tz@, week@, start, end));
                    }
                    return Err(AvailabilityError::Conversion);
                },
            };
            let e_opt = if half == NOON_SECS {
                if d + 1 > i32::MAX as i64 {
                    None
                } else {
                    local_instant(tz, (d + 1) as i32, 0)
                }
            } else {
                local_instant(tz, day, NOON_SECS + half)
            };
            let e = match e_opt {
                Some(t) => t,
                None => {
                    proof {
                        assert(!day_defined(tz@, week@, d as int));
                        assert(f <= d <= l);
                        assert(!window_defined(tz@, week@, start, end));
                    }
                    return Err(AvailabilityError::Conversion);
                },
            };
            let lo = if s < start {
                start
            } else {
                s
            };
            let hi = if e < end {
                e
            } else {
                end
            };
            if lo < hi {
                let iv = Interval::new_lcro(lo, hi);
                result.insert(iv);
            }
        }
        proof {
            assert forall|k: int| #[trigger] covers(result@, k) <==> in_working_time(tz@, week@, f, d as int, start, end, k) by {
                if in_working_time(tz@, week@, f, d as int, start, end, k) {
                    let x = choose|x: int| f <= x <= d && #[trigger] day_holds(tz@, week@, x, start, end, k);
                    if x < d {
                        assert(in_working_time(tz@, week@, f, d - 1, start, end, k));
                    }
                }
                if covers(result@, k) && !covers(before, k) {
                    assert(day_holds(tz@, week@, d as int, start, end, k));
                }
                if covers(before, k) {
                    let x = choose|x: int| f <= x <= d - 1 && #[trigger] day_holds(tz@, week@, x, start, end, k);
                    assert(f <= x <= d);
                }
            }
        }
        d = d + 1;
    }
    Ok(result)
}

/// A weekday without working time contributes no interval.
pub proof fn lemma_idle_day(tz: Seq<char>, week: Seq<u64>, day: int, start: i64, end: i64)
    requires
        week[weekday_of(day)] == 0,
    ensures
        day_span(tz, week, day, start, end) is None,
{
}

/// A weekday with 24 working hours (or more) yields the whole local day, from
/// 00:00 to 24:00 (the next day's 00:00), clipped to the window.
pub proof fn lemma_full_day(tz: Seq<char>, week: Seq<u64>, day: int, start: i64, end: i64)
    requires
        week[weekday_of(day)] >= DAY_SECS,
        day + 1 <= i32::MAX,
        tz_local_instant(tz, day, 0) matches Some(s) && tz_local_instant(tz, day + 1, 0) matches Some(e)
            && start <= s && e <= end && s < e,
    ensures
        day_span(tz, week, day, start, end) == Some(
            (2 * tz_local_instant(tz, day, 0).unwrap(), 2 * tz_local_instant(tz, day + 1, 0).unwrap() - 1),
        ),
{
}

/// Some vacation `[from, until)` holds key `k`.
pub open spec fn vacation_holds(vacations: Seq<(i64, i64)>, k: int) -> bool {
    exists|i: int| 0 <= i < vacations.len() && 2 * (#[trigger] vacations[i]).0 <= k <= 2 * vacations[i].1 - 1
}

/// The local day `day` of zone `tz`, from 00:00 to the next day's 00:00.
pub open spec fn holiday_span(tz: Seq<char>, day: int) -> Option<Span> {
    if day + 1 > i32::MAX {
        None
    } else {
        match (tz_local_instant(tz, day, 0), tz_local_instant(tz, day + 1, 0)) {
            (Some(s), Some(e)) => if s < e {
                Some((2 * s, 2 * e - 1))
            } else {
                None
            },
            _ => None,
        }
    }
}

pub open spec fn holidays_defined(tz: Seq<char>, holidays: Seq<i32>) -> bool {
    forall|i: int|
        0 <= i < holidays.len() ==> #[trigger] holidays[i] + 1 <= i32::MAX && tz_local_instant(
            tz,
            holidays[i] as int,
            0,
        ) is Some && tz_local_instant(tz, holidays[i] + 1, 0) is Some
}

/// Some holiday holds key `k`.
pub open spec fn holiday_holds(tz: Seq<char>, holidays: Seq<i32>, k: int) -> bool {
    exists|i: int| 0 <= i < holidays.len() && (match holiday_span(tz, #[trigger] holidays[i] as int) {
        Some(p) => span_in(p, k),
        None => false,
    })
}

/// The free time within `[start, end)` of a resource in zone `tz` working
/// `week[i]` seconds on weekday `i` (Monday first): its working time without its
/// vacations and holidays (local day numbers, January 1 of year 1 being day 1).
pub fn free_time(
    tz: &str,
    week: &Vec<u64>,
    vacations: &Vec<(i64, i64)>,
    holidays: &Vec<i32>,
    start: i64,
    end: i64,
) -> (r: Result<Intervals, AvailabilityError>)
    requires
        week@.len() == 7,
        start < end,
        forall|i: int| 0 <= i < vacations@.len() ==> (#[trigger] vacations@[i]).0 < vacations@[i].1,
    ensures
        r is Ok <==> window_defined(tz@, week@, start, end) && holidays_defined(tz@, holidays@),
        r matches Ok(iv) ==> iv.wf() && forall|k: int|
            #[trigger] covers(iv@, k) <==> in_working_time(
                tz@,
                week@,
                tz_local_day(tz@, start as int).unwrap(),
                tz_local_day(tz@, end as int).unwrap(),
                start,
                end,
                k,
            ) && !vacation_holds(vacations@, k) && !holiday_holds(tz@, holidays@, k),
{
    let work = match working_time(tz, week, start, end) {
        Ok(w) => w,
        Err(e) => return Err(e),
    };
    let mut away = Intervals::new();
    let mut i: usize = 0;
    while i < vacations.len()
        invariant
            i <= vacations@.len(),
            away.wf(),
            forall|j: int| 0 <= j < vacations@.len() ==> (#[trigger] vacations@[j]).0 < vacations@[j].1,
            forall|k: int| #[trigger] covers(away@, k) <==> vacation_holds(vacations@.subrange(0, i as int), k),
        decreases vacations.len() - i,
    {
        let (from, until) = vacations[i];
        let ghost before = away@;
        away.insert(Interval::new_lcro(from, until));
        proof {
            let sub = vacations@.subrange(0, i + 1);
            assert forall|k: int| #[trigger] covers(away@, k) <==> vacation_holds(sub, k) by {
                assert(sub[i as int] == vacations@[i as int]);
                if vacation_holds(sub, k) {
                    let j = choose|j: int| 0 <= j < sub.len() && 2 * (#[trigger] sub[j]).0 <= k <= 2 * sub[j].1 - 1;
                    if j < i {
                        assert(sub[j] == vacations@.subrange(0, i as int)[j]);
                    }
                }
                if covers(before, k) {
                    let j = choose|j: int| 0 <= j < i && 2 * (#[trigger] vacations@.subrange(0, i as int)[j]).0 <= k <= 2 * vacations@.subrange(0, i as int)[j].1 - 1;
                    assert(sub[j] == vacations@.subrange(0, i as int)[j]);
                }
            }
        }
        i += 1;
    }
    proof {
        assert(vacations@.subrange(0, vacations@.len() as int) =~= vacations@);
    }
    let mut off = Intervals::new();
    let mut i: usize = 0;
    while i < holidays.len()
        invariant
            i <= holidays@.len(),
            off.wf(),
            forall|j: int| 0 <= j < i ==> #[trigger] holidays@[j] + 1 <= i32::MAX && tz_local_instant(
                tz@,
                holidays@[j] as int,
                0,
            ) is Some && tz_local_instant(tz@, holidays@[j] + 1, 0) is Some,
            forall|k: int| #[trigger] covers(off@, k) <==> holiday_holds(tz@, holidays@.subrange(0, i as int), k),
        decreases holidays.len() - i,
    {
        let day = holidays[i];
        if day == i32::MAX {
            return Err(AvailabilityError::Conversion);
        }
        let s = match local_instant(tz, day, 0) {
            Some(t) => t,
            None => return Err(AvailabilityError::Conversion),
        };
        let e = match local_instant(tz, day + 1, 0) {
            Some(t) => t,
            None => return Err(AvailabilityError::Conversion),
        };
        let ghost before = off@;
        if s < e {
            off.insert(Interval::new_lcro(s, e));
        }
        proof {
            let sub = holidays@.subrange(0, i + 1);
            let prev = holidays@.subrange(0, i as int);
            assert forall|k: int| #[trigger] covers(off@, k) <==> holiday_holds(tz@, sub, k) by {
                assert(sub[i as int] == holidays@[i as int]);
                if holiday_holds(tz@, sub, k) {
                    let j = choose|j: int| 0 <= j < sub.len() && (match holiday_span(tz@, #[trigger] sub[j] as int) {
                        Some(p) => span_in(p, k),
                        None => false,
                    });
                    if j < i {
                        assert(sub[j] == prev[j]);
                        assert(holiday_holds(tz@, prev, k));
                    }
                }
                if covers(before, k) {
                    let j = choose|j: int| 0 <= j < prev.len() && (match holiday_span(tz@, #[trigger] prev[j] as int) {
                        Some(p) => span_in(p, k),
                        None => false,
                    });
                    assert(sub[j] == prev[j]);
                }
            }
        }
        i += 1;
    }
    proof {
        assert(holidays@.subrange(0, holidays@.len() as int) =~= holidays@);
    }
    let r = work.difference(&away).difference(&off);
    Ok(r)
}

/// The free time holds no key of a vacation or a holiday.
pub proof fn lemma_free_time_avoids_absences(
    free: Seq<Span>,
    tz: Seq<char>,
    week: Seq<u64>,
    vacations: Seq<(i64, i64)>,
    holidays: Seq<i32>,
    first: int,
    last: int,
    start: i64,
    end: i64,
)
    requires
        forall|k: int|
            #[trigger] covers(free, k) <==> in_working_time(tz, week, first, last, start, end, k)
                && !vacation_holds(vacations, k) && !holiday_holds(tz, holidays, k),
    ensures
        forall|k: int| #[trigger] covers(free, k) ==> !vacation_holds(vacations, k),
        forall|k: int| #[trigger] covers(free, k) ==> !holiday_holds(tz, holidays, k),
{
}

} // verus!
