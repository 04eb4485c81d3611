//! Pure calendar arithmetic: leap-year-aware month lengths and the
//! conversion of a validated `(year, month, day, hour, minute, second)`
//! tuple into an absolute [`Time`].
//!
//! The supported range is the Unix epoch through the last four-digit year:
//! anything before 1970 or after 9999 is rejected as [`Error::BadDERTime`].

use vstd::prelude::*;

use crate::Error;

verus! {

/// A normalized absolute point in time, counted in seconds since the Unix
/// epoch (1970-01-01T00:00:00Z).
#[derive(Clone, Copy, Debug, PartialEq, Eq, Structural)]
pub struct Time {
    seconds: u64,
}

impl Time {
    /// The number of seconds since the Unix epoch that this value denotes.
    pub closed spec fn spec_seconds(self) -> int {
        self.seconds as int
    }

    /// Wraps a count of seconds since the Unix epoch.
    pub fn from_seconds_since_unix_epoch(seconds: u64) -> (r: Time)
        ensures
            r.spec_seconds() == seconds,
    {
        Time { seconds }
    }

    /// Reads the count of seconds since the Unix epoch back out.
    pub fn seconds_since_unix_epoch(&self) -> (r: u64)
        ensures
            r == self.spec_seconds(),
    {
        self.seconds
    }
}

/// A [`Time`] is nothing but its second count: two values with the same
/// count are the same value, so a contract that pins the count pins the
/// whole result.
pub proof fn lemma_time_eq(a: Time, b: Time)
    ensures
        a.spec_seconds() == b.spec_seconds() ==> a == b,
{
}

/// Whether `year` is a leap year in the proleptic Gregorian calendar.
pub open spec fn spec_is_leap_year(year: int) -> bool {
    (year % 4 == 0 && year % 100 != 0) || year % 400 == 0
}

/// How many days the given month of the given year has.
pub open spec fn spec_days_in_month(year: int, month: int) -> int {
    if month == 2 {
        if spec_is_leap_year(year) {
            29
        } else {
            28
        }
    } else if month == 4 || month == 6 || month == 9 || month == 11 {
        30
    } else {
        31
    }
}

/// Days from the Unix epoch up to January 1 of `year`.
pub open spec fn spec_days_before_year(year: int) -> int
    decreases year - 1970,
{
    if year <= 1970 {
        0
    } else {
        spec_days_before_year(year - 1) + if spec_is_leap_year(year - 1) {
            366int
        } else {
            365int
        }
    }
}

/// Days from January 1 of `year` up to the first day of `month`.
pub open spec fn spec_days_before_month(year: int, month: int) -> int
    decreases month,
{
    if month <= 1 {
        0
    } else {
        spec_days_before_month(year, month - 1) + spec_days_in_month(year, month - 1)
    }
}

/// Seconds since the Unix epoch of the given calendar instant.
pub open spec fn spec_time_seconds(
    year: int,
    month: int,
    day: int,
    hours: int,
    minutes: int,
    seconds: int,
) -> int {
    (spec_days_before_year(year) + spec_days_before_month(year, month) + (day - 1)) * 86400
        + hours * 3600 + minutes * 60 + seconds
}

/// Whether the six fields form a calendar-valid instant in the supported
/// range (1970 through 9999).
pub open spec fn spec_ymdhms_valid(
    year: int,
    month: int,
    day: int,
    hours: int,
    minutes: int,
    seconds: int,
) -> bool {
    &&& 1970 <= year <= 9999
    &&& 1 <= month <= 12
    &&& 1 <= day <= spec_days_in_month(year, month)
    &&& 0 <= hours <= 23
    &&& 0 <= minutes <= 59
    &&& 0 <= seconds <= 59
}

/// How many days the given month has; leap years give February 29.
pub fn days_in_month(year: u64, month: u64) -> (r: u64)
    requires
        1 <= month <= 12,
    ensures
        r == spec_days_in_month(year as int, month as int),
{
    if month == 2 {
        let leap = (year % 4 == 0 && year % 100 != 0) || year % 400 == 0;
        if leap {
            29
        } else {
            28
        }
    } else if month == 4 || month == 6 || month == 9 || month == 11 {
        30
    } else {
        31
    }
}

proof fn lemma_days_before_year_bound(year: int)
    requires
        1970 <= year,
    ensures
        0 <= spec_days_before_year(year) <= (year - 1970) * 366,
    decreases year - 1970,
{
    if year > 1970 {
        lemma_days_before_year_bound(year - 1);
    }
}

proof fn lemma_days_before_month_bound(year: int, month: int)
    requires
        1 <= month <= 13,
    ensures
        0 <= spec_days_before_month(year, month) <= (month - 1) * 31,
    decreases month,
{
    if month > 1 {
        lemma_days_before_month_bound(year, month - 1);
    }
}

fn days_before_year(year: u64) -> (r: u64)
    requires
        1970 <= year <= 9999,
    ensures
        r == spec_days_before_year(year as int),
        r <= (year - 1970) * 366,
{
    let mut y: u64 = 1970;
    let mut d: u64 = 0;
    while y < year
        invariant
            1970 <= y <= year <= 9999,
            d == spec_days_before_year(y as int),
            d <= (y - 1970) * 366,
        decreases year - y,
    {
        let leap = (y % 4 == 0 && y % 100 != 0) || y % 400 == 0;
        d = d + if leap { 366 } else { 365 };
        y = y + 1;
    }
    d
}

fn days_before_month(year: u64, month: u64) -> (r: u64)
    requires
        1 <= month <= 12,
    ensures
        r == spec_days_before_month(year as int, month as int),
        r <= 11 * 31,
{
    let mut m: u64 = 1;
    let mut d: u64 = 0;
    while m < month
        invariant
            1 <= m <= month <= 12,
            d == spec_days_before_month(year as int, m as int),
            d <= (m - 1) * 31,
        decreases month - m,
    {
        d = d + days_in_month(year, m);
        m = m + 1;
    }
    d
}

/// Converts a calendar instant to a [`Time`], rejecting anything
/// calendar-invalid or outside the supported range as `BadDERTime`.
pub fn time_from_ymdhms_utc(
    year: u64,
    month: u64,
    day_of_month: u64,
    hours: u64,
    minutes: u64,
    seconds: u64,
) -> (res: Result<Time, Error>)
    ensures
        spec_ymdhms_valid(
            year as int,
            month as int,
            day_of_month as int,
            hours as int,
            minutes as int,
            seconds as int,
        ) ==> (res matches Ok(t) && t.spec_seconds() == spec_time_seconds(
            year as int,
            month as int,
            day_of_month as int,
            hours as int,
            minutes as int,
            seconds as int,
        )),
        !spec_ymdhms_valid(
            year as int,
            month as int,
            day_of_month as int,
            hours as int,
            minutes as int,
            seconds as int,
        ) ==> res == Err::<Time, Error>(Error::BadDERTime),
{
    if year < 1970 || year > 9999 {
        return Err(Error::BadDERTime);
    }
    if month < 1 || month > 12 {
        return Err(Error::BadDERTime);
    }
    if day_of_month < 1 || day_of_month > days_in_month(year, month) {
        return Err(Error::BadDERTime);
    }
    if hours > 23 || minutes > 59 || seconds > 59 {
        return Err(Error::BadDERTime);
    }
    proof {
        lemma_days_before_year_bound(year as int);
        lemma_days_before_month_bound(year as int, month as int);
    }
    let days = days_before_year(year) + days_before_month(year, month) + (day_of_month - 1);
    let secs = days * 86400 + hours * 3600 + minutes * 60 + seconds;
    Ok(Time::from_seconds_since_unix_epoch(secs))
}

} // verus!
