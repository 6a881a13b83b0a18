//! Wall-clock timestamps, the proleptic Gregorian calendar they live in, and
//! the calls into chrono that parse and shift them.

use chrono::{Datelike, NaiveDate, NaiveDateTime, TimeDelta, Timelike};
use vstd::prelude::*;

verus! {

/// Smallest year chrono can represent.
pub const MIN_YEAR: i32 = -262143;

/// Largest year chrono can represent.
pub const MAX_YEAR: i32 = 262142;

/// Number of seconds in a day.
pub const SECONDS_PER_DAY: i64 = 86400;

/// A local date and time at second precision.
#[derive(Clone, Copy, Debug, PartialEq, Eq, Structural)]
pub struct Stamp {
    pub year: i32,
    pub month: u32,
    pub day: u32,
    pub hour: u32,
    pub minute: u32,
    pub second: u32,
}

pub open spec fn is_leap(y: int) -> bool {
    (y % 4 == 0 && y % 100 != 0) || y % 400 == 0
}

/// Number of days of month `m` (1 to 12) of year `y`.
pub open spec fn month_len(y: int, m: int) -> int {
    if m == 2 {
        if is_leap(y) { 29 } else { 28 }
    } else if m == 4 || m == 6 || m == 9 || m == 11 {
        30
    } else {
        31
    }
}

/// Days in the months of year `y` before month `m`.
pub open spec fn days_before_month(y: int, m: int) -> int
    decreases m,
{
    if m <= 1 {
        0
    } else {
        days_before_month(y, m - 1) + month_len(y, m - 1)
    }
}

/// Days from 1 January of year 0 to 1 January of year `y` (negative before it).
pub open spec fn days_before_year(y: int) -> int {
    365 * y + (y + 3) / 4 - (y + 99) / 100 + (y + 399) / 400
}

/// Day number of the date of `t`, counted from 1 January of year 0.
pub open spec fn day_number(t: Stamp) -> int {
    days_before_year(t.year as int) + days_before_month(t.year as int, t.month as int) + t.day - 1
}

/// The instant of `t`, in seconds from midnight of 1 January of year 0.
pub open spec fn instant(t: Stamp) -> int {
    day_number(t) * 86400 + t.hour * 3600 + t.minute * 60 + t.second
}

/// Earliest instant that chrono can represent.
pub open spec fn min_instant() -> int {
    instant(Stamp { year: MIN_YEAR, month: 1, day: 1, hour: 0, minute: 0, second: 0 })
}

/// Latest instant that chrono can represent (at second precision).
pub open spec fn max_instant() -> int {
    instant(Stamp { year: MAX_YEAR, month: 12, day: 31, hour: 23, minute: 59, second: 59 })
}

impl Stamp {
    /// A real calendar date and time of day within chrono's range.
    pub open spec fn wf(self) -> bool {
        &&& MIN_YEAR <= self.year <= MAX_YEAR
        &&& 1 <= self.month <= 12
        &&& 1 <= self.day <= month_len(self.year as int, self.month as int)
        &&& self.hour < 24
        &&& self.minute < 60
        &&& self.second < 60
    }

    /// Whether this is a real date and time within chrono's range.
    pub fn is_valid(&self) -> (r: bool)
        ensures
            r == self.wf(),
    {
        MIN_YEAR <= self.year && self.year <= MAX_YEAR && 1 <= self.month && self.month <= 12
            && 1 <= self.day && self.day <= nb_days_in_month(self.year, self.month)
            && self.hour < 24 && self.minute < 60 && self.second < 60
    }
}

/// What chrono's parser yields for a text in the log's timestamp format: the
/// date and time, and the nanoseconds past the second (one second's worth or
/// more only for a leap second, written as second 60).
pub uninterp spec fn parsed_stamp(s: Seq<char>) -> Option<(Stamp, u32)>;

/// Relies on `NaiveDateTime::parse_from_str` with the format
/// `%Y-%m-%d %H:%M:%S`, and on its `nanosecond`: the outcome depends on the
/// text alone, and a parsed value is a valid date and time of chrono's range.
#[verifier::external_body]
pub(crate) fn parse_stamp(s: &str) -> (r: Option<(Stamp, u32)>)
    ensures
        r == parsed_stamp(s@),
        r matches Some(p) ==> p.0.wf(),
{
    match NaiveDateTime::parse_from_str(s, "%Y-%m-%d %H:%M:%S") {
        Ok(d) => Some((
            Stamp {
                year: d.year(),
                month: d.month(),
                day: d.day(),
                hour: d.hour(),
                minute: d.minute(),
                second: d.second(),
            },
            d.nanosecond(),
        )),
        Err(_) => None,
    }
}

/// Relies on `NaiveDateTime::signed_duration_since` and
/// `TimeDelta::num_seconds`: the signed number of seconds from `a` to `b`.
#[verifier::external_body]
pub(crate) fn seconds_between(a: &Stamp, b: &Stamp) -> (r: i64)
    requires
        a.wf(),
        b.wf(),
    ensures
        r == instant(*b) - instant(*a),
{
    let x = NaiveDate::from_ymd_opt(a.year, a.month, a.day).unwrap();
    let y = NaiveDate::from_ymd_opt(b.year, b.month, b.day).unwrap();
    let x = x.and_hms_opt(a.hour, a.minute, a.second).unwrap();
    let y = y.and_hms_opt(b.hour, b.minute, b.second).unwrap();
    y.signed_duration_since(x).num_seconds()
}

/// Relies on `NaiveDateTime::checked_add_signed` with `TimeDelta::seconds`:
/// the time `secs` seconds after `t`, or `None` when that leaves chrono's
/// range.
#[verifier::external_body]
pub(crate) fn shift_stamp(t: &Stamp, secs: i64) -> (r: Option<Stamp>)
    requires
        t.wf(),
        0 <= secs <= SECONDS_PER_DAY,
    ensures
        r is Some <==> min_instant() <= instant(*t) + secs <= max_instant(),
        r matches Some(u) ==> u.wf() && instant(u) == instant(*t) + secs,
{
    let d = NaiveDate::from_ymd_opt(t.year, t.month, t.day).unwrap();
    let d = d.and_hms_opt(t.hour, t.minute, t.second).unwrap();
    match d.checked_add_signed(TimeDelta::seconds(secs)) {
        Some(u) => Some(Stamp {
            year: u.year(),
            month: u.month(),
            day: u.day(),
            hour: u.hour(),
            minute: u.minute(),
            second: u.second(),
        }),
        None => None,
    }
}

/// Number of days of `month` in `year`.
pub fn nb_days_in_month(year: i32, month: u32) -> (r: u32)
    requires
        1 <= month <= 12,
    ensures
        r == month_len(year as int, month as int),
        28 <= r <= 31,
{
    if month == 2 {
        if (year % 4 == 0 && year % 100 != 0) || year % 400 == 0 {
            29
        } else {
            28
        }
    } else if month == 4 || month == 6 || month == 9 || month == 11 {
        30
    } else {
        31
    }
}

} // verus!
