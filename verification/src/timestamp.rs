//! Instants at minute resolution, and the calendar they are read from.
//!
//! An instant is a count of minutes since 1970-01-01 00:00 in the proleptic
//! Gregorian calendar. The calendar itself is stated here as spec functions;
//! the day number of a calendar date is computed by `chrono`.

use vstd::prelude::*;

verus! {

/// The first year that has a day number.
pub const MIN_YEAR: i32 = -262_143;

/// The last year that has a day number.
pub const MAX_YEAR: i32 = 262_142;

pub const MINUTES_PER_DAY: i64 = 1440;

pub open spec fn is_leap_year(year: int) -> bool {
    year % 4 == 0 && (year % 100 != 0 || year % 400 == 0)
}

pub open spec fn days_in_year(year: int) -> int {
    if is_leap_year(year) {
        366
    } else {
        365
    }
}

/// The length of a month; `month` counts from 1.
pub open spec fn days_in_month(year: int, month: int) -> int {
    if month == 2 {
        if is_leap_year(year) {
            29
        } else {
            28
        }
    } else if month == 4 || month == 6 || month == 9 || month == 11 {
        30
    } else {
        31
    }
}

/// The days between 1970-01-01 and the first of January of `year`,
/// negative for the years before 1970.
pub open spec fn days_before_year(year: int) -> int
    decreases
        (if year >= 1970 {
            year - 1970
        } else {
            1970 - year
        }),
{
    if year == 1970 {
        0
    } else if year > 1970 {
        days_before_year(year - 1) + days_in_year(year - 1)
    } else {
        days_before_year(year + 1) - days_in_year(year)
    }
}

/// The days of `year` that lie before the first of `month`.
pub open spec fn days_before_month(year: int, month: int) -> int
    decreases month,
{
    if month <= 1 {
        0
    } else {
        days_before_month(year, month - 1) + days_in_month(year, month - 1)
    }
}

/// Whether year, month and day name a day of the calendar, in the years
/// that have a day number.
pub open spec fn is_calendar_date(year: int, month: int, day: int) -> bool {
    &&& MIN_YEAR <= year <= MAX_YEAR
    &&& 1 <= month <= 12
    &&& 1 <= day <= days_in_month(year, month)
}

/// The day number of a calendar date: 1970-01-01 is day 0.
pub open spec fn epoch_day(year: int, month: int, day: int) -> int {
    days_before_year(year) + days_before_month(year, month) + day - 1
}

/// Whether hour and minute name a minute of a day.
pub open spec fn is_clock_time(hour: int, minute: int) -> bool {
    0 <= hour < 24 && 0 <= minute < 60
}

/// The minute number of a calendar date and clock time: 1970-01-01 00:00 is
/// minute 0.
pub open spec fn epoch_minute(year: int, month: int, day: int, hour: int, minute: int) -> int {
    epoch_day(year, month, day) * 1440 + hour * 60 + minute
}

/// The day number that `chrono` gives a calendar date.
///
/// Calls `chrono::NaiveDate::from_ymd_opt` and reads the date back with
/// `NaiveDate::to_epoch_days`. Trusted: the call succeeds exactly on the
/// dates of the proleptic Gregorian calendar in the years -262143 to 262142,
/// and the number is the count of days since 1970-01-01.
#[verifier::external_body]
pub(crate) fn calendar_epoch_day(year: i32, month: u32, day: u32) -> (r: Option<i32>)
    ensures
        r.is_some() == is_calendar_date(year as int, month as int, day as int),
        r matches Some(n) ==> n == epoch_day(year as int, month as int, day as int),
{
    match chrono::NaiveDate::from_ymd_opt(year, month, day) {
        Some(date) => Some(date.to_epoch_days()),
        None => None,
    }
}

/// A calendar instant at minute resolution.
#[derive(Clone, Copy, Debug, PartialEq, Eq, Structural, Hash)]
pub struct Timestamp {
    /// Minutes since 1970-01-01 00:00.
    pub minutes: i64,
}

impl View for Timestamp {
    type V = int;

    open spec fn view(&self) -> int {
        self.minutes as int
    }
}

impl Timestamp {
    /// The first minute of the day with the given day number.
    pub fn from_epoch_day(day: i32) -> (t: Timestamp)
        ensures
            t@ == day * 1440,
    {
        let wide: i64 = day as i64;
        Timestamp { minutes: wide * MINUTES_PER_DAY }
    }

    /// The given minute of the day with the given day number.
    pub fn from_day_and_minute(day: i32, minute_of_day: u32) -> (t: Timestamp)
        ensures
            t@ == day * 1440 + minute_of_day,
    {
        let wide: i64 = day as i64;
        Timestamp { minutes: wide * MINUTES_PER_DAY + minute_of_day as i64 }
    }

    /// The instant named by a calendar date and a clock time, if they name
    /// one.
    pub fn from_civil(year: i32, month: u32, day: u32, hour: u32, minute: u32) -> (r: Option<
        Timestamp,
    >)
        ensures
            r.is_some() == (is_calendar_date(year as int, month as int, day as int)
                && is_clock_time(hour as int, minute as int)),
            r matches Some(t) ==> t@ == epoch_minute(
                year as int,
                month as int,
                day as int,
                hour as int,
                minute as int,
            ),
    {
        if hour >= 24 || minute >= 60 {
            return None;
        }
        match calendar_epoch_day(year, month, day) {
            Some(n) => Some(Timestamp::from_day_and_minute(n, hour * 60 + minute)),
            None => None,
        }
    }

    /// Whether this instant is before `other`.
    pub fn lt(&self, other: &Timestamp) -> (b: bool)
        ensures
            b == (self@ < other@),
    {
        self.minutes < other.minutes
    }

    /// Whether this instant is not after `other`.
    pub fn le(&self, other: &Timestamp) -> (b: bool)
        ensures
            b == (self@ <= other@),
    {
        self.minutes <= other.minutes
    }
}

/// A year is as long as the distance between its first day and the next
/// year's.
pub proof fn lemma_year_length(year: int)
    ensures
        days_before_year(year + 1) - days_before_year(year) == days_in_year(year),
{
}

/// A month is as long as the distance between its first day and the next
/// month's, across the end of the year too.
pub proof fn lemma_month_length(year: int, month: int)
    requires
        1 <= month <= 12,
    ensures
        month < 12 ==> epoch_day(year, month + 1, 1) - epoch_day(year, month, 1) == days_in_month(
            year,
            month,
        ),
        month == 12 ==> epoch_day(year + 1, 1, 1) - epoch_day(year, 12, 1) == days_in_month(
            year,
            12,
        ),
{
    reveal_with_fuel(days_before_month, 13);
    lemma_year_length(year);
}

} // verus!
