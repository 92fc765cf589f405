//! Calendar dates of observations.
//!
//! A date is held as the number of days since 1 January 1970, so that dates
//! are ordered and compared as integers. The calendar itself (which timestamps
//! have a date, how a date is written) is chrono's.

use vstd::prelude::*;

verus! {

/// Seconds in one day.
pub const SECONDS_PER_DAY: i64 = 86_400;

/// The first day that chrono's calendar holds: 1 January of the year -262143.
pub const MIN_EPOCH_DAY: i32 = -96_465_292;

/// The last day that chrono's calendar holds: 31 December of the year 262142.
pub const MAX_EPOCH_DAY: i32 = 95_026_236;

/// The first second of `MIN_EPOCH_DAY`.
pub const MIN_TIMESTAMP: i64 = -8_334_601_228_800;

/// The last second of `MAX_EPOCH_DAY`.
pub const MAX_TIMESTAMP: i64 = 8_210_266_876_799;

/// The day, counted from 1 January 1970, on which the instant `secs` seconds
/// after the epoch falls in UTC, if the calendar reaches that far.
pub open spec fn date_of_timestamp(secs: int) -> Option<int> {
    if MIN_TIMESTAMP <= secs <= MAX_TIMESTAMP {
        Some(secs / 86_400)
    } else {
        None
    }
}

/// How chrono writes the day `day` (counted from 1 January 1970): year, month
/// and day of the proleptic Gregorian calendar, as in `1970-01-01`.
pub uninterp spec fn iso_date_text(day: int) -> Seq<char>;

/// Calls chrono's `DateTime::from_timestamp` with no nanoseconds and reads the
/// date of the result as a day count (`date_naive`, `to_epoch_days`).
///
/// Trusted: chrono divides the seconds by 86 400, rounding down, and has a
/// date for the quotient exactly when its year lies between -262143 and
/// 262142, which are the days `MIN_EPOCH_DAY` to `MAX_EPOCH_DAY`.
#[verifier::external_body]
fn utc_epoch_day(secs: i64) -> (day: Option<i32>)
    ensures
        day == (if MIN_TIMESTAMP <= secs <= MAX_TIMESTAMP {
            Some((secs as int / 86_400) as i32)
        } else {
            None
        }),
{
    match chrono::DateTime::from_timestamp(secs, 0) {
        Some(moment) => Some(moment.date_naive().to_epoch_days()),
        None => None,
    }
}

/// Calls chrono's `NaiveDate::from_epoch_days` and writes the date with its
/// `Display` implementation.
///
/// Trusted: the text depends on the day alone. What the text is, is chrono's
/// business; it is only given a name here.
#[verifier::external_body]
fn epoch_day_text(day: i32) -> (text: String)
    requires
        MIN_EPOCH_DAY <= day <= MAX_EPOCH_DAY,
    ensures
        text@ == iso_date_text(day as int),
{
    match chrono::NaiveDate::from_epoch_days(day) {
        Some(date) => date.to_string(),
        None => String::new(),
    }
}

/// A calendar date without time of day or time zone.
#[derive(Clone, Copy, Debug, PartialEq, Eq, Structural, PartialOrd, Ord, Hash)]
pub struct ObservationDate {
    days: i32,
}

impl View for ObservationDate {
    type V = int;

    /// The date as a number of days since 1 January 1970.
    closed spec fn view(&self) -> int {
        self.days as int
    }
}

impl ObservationDate {
    #[verifier::type_invariant]
    spec fn in_calendar(self) -> bool {
        MIN_EPOCH_DAY <= self.days <= MAX_EPOCH_DAY
    }

    /// The UTC date of the instant `secs` seconds after the epoch.
    pub fn from_timestamp(secs: i64) -> (date: Option<ObservationDate>)
        ensures
            date is Some <==> date_of_timestamp(secs as int) is Some,
            date matches Some(d) ==> Some(d@) == date_of_timestamp(secs as int),
    {
        match utc_epoch_day(secs) {
            Some(days) => Some(ObservationDate { days }),
            None => None,
        }
    }

    /// The date `days` days after 1 January 1970, if the calendar holds it.
    pub fn from_epoch_days(days: i32) -> (date: Option<ObservationDate>)
        ensures
            date is Some <==> MIN_EPOCH_DAY <= days <= MAX_EPOCH_DAY,
            date matches Some(d) ==> d@ == days,
    {
        if MIN_EPOCH_DAY <= days && days <= MAX_EPOCH_DAY {
            Some(ObservationDate { days })
        } else {
            None
        }
    }

    /// Days since 1 January 1970.
    pub fn epoch_days(&self) -> (days: i32)
        ensures
            days == self@,
            MIN_EPOCH_DAY <= days <= MAX_EPOCH_DAY,
    {
        proof {
            use_type_invariant(self);
        }
        self.days
    }

    /// The date as text, year first, as in `1970-01-01`.
    pub fn iso_text(&self) -> (text: String)
        ensures
            text@ == iso_date_text(self@),
    {
        proof {
            use_type_invariant(self);
        }
        epoch_day_text(self.days)
    }
}

} // verus!
