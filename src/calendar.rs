//! Dates, clock times and weeks, held as plain values.

use vstd::prelude::*;

verus! {

/// Whether `year` is a leap year of the proleptic Gregorian calendar.
pub open spec fn is_leap_year(year: int) -> bool {
    (year % 4 == 0 && year % 100 != 0) || year % 400 == 0
}

/// The number of days in `month` (1 to 12) of `year`.
pub open spec fn month_length(year: int, month: int) -> int {
    if month == 2 {
        if is_leap_year(year) { 29 } else { 28 }
    } else if month == 4 || month == 6 || month == 9 || month == 11 {
        30
    } else {
        31
    }
}

/// A calendar date. Week files write the year with four digits, so a
/// well-formed date lies in the years 0 to 9999.
#[derive(Clone, Copy, Debug, PartialEq, Eq, Hash, Structural)]
pub struct Date {
    pub year: i32,
    pub month: u32,
    pub day: u32,
}

impl Date {
    pub open spec fn wf(&self) -> bool {
        &&& 0 <= self.year <= 9999
        &&& 1 <= self.month <= 12
        &&& 1 <= self.day <= month_length(self.year as int, self.month as int)
    }

    /// Calendar order: by year, then month, then day.
    pub open spec fn spec_before(&self, other: Date) -> bool {
        ||| self.year < other.year
        ||| self.year == other.year && self.month < other.month
        ||| self.year == other.year && self.month == other.month && self.day < other.day
    }

    /// Whether the date exists in the calendar and fits in a week file.
    pub fn is_valid(year: i32, month: u32, day: u32) -> (r: bool)
        ensures
            r == (Date { year, month, day }).wf(),
    {
        if year < 0 || year > 9999 || month < 1 || month > 12 || day < 1 {
            return false;
        }
        let leap = (year % 4 == 0 && year % 100 != 0) || year % 400 == 0;
        let length: u32 = if month == 2 {
            if leap { 29 } else { 28 }
        } else if month == 4 || month == 6 || month == 9 || month == 11 {
            30
        } else {
            31
        };
        day <= length
    }

    /// Whether `self` comes strictly before `other` in the calendar.
    pub fn before(&self, other: &Date) -> (r: bool)
        ensures
            r == self.spec_before(*other),
    {
        self.year < other.year || (self.year == other.year && self.month < other.month) || (
        self.year == other.year && self.month == other.month && self.day < other.day)
    }
}

/// A time of day with second precision.
#[derive(Clone, Copy, Debug, PartialEq, Eq, Hash, Structural)]
pub struct Time {
    pub hour: u32,
    pub minute: u32,
    pub second: u32,
}

impl Time {
    pub open spec fn wf(&self) -> bool {
        self.hour < 24 && self.minute < 60 && self.second < 60
    }

    /// Seconds since midnight.
    pub open spec fn seconds(&self) -> int {
        self.hour * 3600 + self.minute * 60 + self.second
    }

    /// The time `hour:minute:00`.
    pub fn hm(hour: u32, minute: u32) -> (r: Time)
        ensures
            r == (Time { hour, minute, second: 0 }),
    {
        Time { hour, minute, second: 0 }
    }

    /// The signed length of the span from `start` to `self`, in seconds.
    pub fn seconds_since(&self, start: &Time) -> (r: i64)
        ensures
            r == self.seconds() - start.seconds(),
    {
        let a = (self.hour as i64) * 3600 + (self.minute as i64) * 60 + self.second as i64;
        let b = (start.hour as i64) * 3600 + (start.minute as i64) * 60 + start.second as i64;
        a - b
    }
}

/// A date together with a time of day.
#[derive(Clone, Copy, Debug, PartialEq, Eq, Hash, Structural)]
pub struct DateTime {
    pub date: Date,
    pub time: Time,
}

impl DateTime {
    pub open spec fn wf(&self) -> bool {
        self.date.wf() && self.time.wf()
    }
}

/// An ISO week, held as the date of its Monday.
#[derive(Clone, Copy, Debug, PartialEq, Eq, Hash, Structural)]
pub struct IsoWeek {
    pub monday: Date,
}

impl IsoWeek {
    pub open spec fn wf(&self) -> bool {
        self.monday.wf()
    }
}

/// The day count of chrono's `num_days_from_ce` for a date: 0001-01-01 is day 1.
pub uninterp spec fn day_count(year: int, month: int, day: int) -> int;

/// The weekday index of chrono's `num_days_from_monday`: Monday is 0.
pub uninterp spec fn weekday_index(year: int, month: int, day: int) -> int;

/// Relies on chrono's `NaiveDate::from_ymd_opt`, which yields a date for every
/// well-formed `Date`, and `Datelike::num_days_from_ce` on it.
#[verifier::external_body]
pub(crate) fn days_from_ce(d: &Date) -> (r: i32)
    requires
        d.wf(),
    ensures
        r == day_count(d.year as int, d.month as int, d.day as int),
{
    match chrono::NaiveDate::from_ymd_opt(d.year, d.month, d.day) {
        Some(nd) => chrono::Datelike::num_days_from_ce(&nd),
        None => 0,
    }
}

/// Relies on chrono's `NaiveDate::from_ymd_opt`, which yields a date for every
/// well-formed `Date`, and `Weekday::num_days_from_monday` of its weekday.
#[verifier::external_body]
pub(crate) fn weekday_of(d: &Date) -> (r: u32)
    requires
        d.wf(),
    ensures
        r == weekday_index(d.year as int, d.month as int, d.day as int),
        r < 7,
{
    match chrono::NaiveDate::from_ymd_opt(d.year, d.month, d.day) {
        Some(nd) => chrono::Datelike::weekday(&nd).num_days_from_monday(),
        None => 0,
    }
}

} // verus!
