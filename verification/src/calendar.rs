//! Conversions into chrono's validated calendar types.
//!
//! The parser deliberately accepts dates the calendar rejects (a February
//! 30th, a 53rd week); these conversions hand the parsed fields to chrono,
//! which checks them against the proleptic Gregorian calendar and answers
//! with `None` where the calendar disagrees.

use vstd::prelude::*;

use chrono::TimeZone;

use crate::date::Date;
use crate::time::Time;

verus! {

#[verifier::external_type_specification]
#[verifier::external_body]
pub struct ExNaiveDate(chrono::NaiveDate);

#[verifier::external_type_specification]
#[verifier::external_body]
pub struct ExNaiveTime(chrono::NaiveTime);

#[verifier::external_type_specification]
#[verifier::external_body]
pub struct ExNaiveDateTime(chrono::NaiveDateTime);

#[verifier::external_type_specification]
#[verifier::external_body]
pub struct ExWeekday(chrono::Weekday);

#[verifier::external_type_specification]
#[verifier::external_body]
pub struct ExFixedOffset(chrono::FixedOffset);

/// Relies on `chrono::NaiveDate::from_ymd_opt`: `Some` exactly for a valid
/// calendar date, `None` otherwise.
#[verifier::external_body]
fn naive_date_from_ymd(year: i32, month: u32, day: u32) -> Option<chrono::NaiveDate> {
    chrono::NaiveDate::from_ymd_opt(year, month, day)
}

/// Relies on `num_traits::FromPrimitive::from_u32` for `chrono::Weekday`:
/// `Some` for 0 to 6, `None` otherwise.
#[verifier::external_body]
fn weekday_from_u32(d: u32) -> Option<chrono::Weekday> {
    <chrono::Weekday as num_traits::FromPrimitive>::from_u32(d)
}

/// Relies on `chrono::NaiveDate::from_isoywd_opt`: `Some` exactly for a
/// valid ISO week date, `None` otherwise.
#[verifier::external_body]
fn naive_date_from_isoywd(year: i32, week: u32, weekday: chrono::Weekday) -> Option<
    chrono::NaiveDate,
> {
    chrono::NaiveDate::from_isoywd_opt(year, week, weekday)
}

/// Relies on `chrono::NaiveDate::from_yo_opt`: `Some` exactly for a valid
/// ordinal date, `None` otherwise.
#[verifier::external_body]
fn naive_date_from_ordinal(year: i32, ordinal: u32) -> Option<chrono::NaiveDate> {
    chrono::NaiveDate::from_yo_opt(year, ordinal)
}

/// Relies on `chrono::NaiveTime::from_hms_opt`: `Some` exactly for a valid
/// wall-clock time, `None` otherwise.
#[verifier::external_body]
fn naive_time_from_hms(hour: u32, minute: u32, second: u32) -> Option<chrono::NaiveTime> {
    chrono::NaiveTime::from_hms_opt(hour, minute, second)
}

/// Relies on `chrono::FixedOffset::east_opt`: `Some` exactly for offsets
/// strictly within one day of seconds, `None` otherwise.
#[verifier::external_body]
fn fixed_offset_east(seconds: i32) -> Option<chrono::FixedOffset> {
    chrono::FixedOffset::east_opt(seconds)
}

/// Relies on `chrono::NaiveDate::and_time`: joins a date and a time.
#[verifier::external_body]
fn naive_date_and_time(date: &chrono::NaiveDate, time: chrono::NaiveTime) -> chrono::NaiveDateTime {
    date.and_time(time)
}

/// Relies on `chrono::TimeZone::from_local_datetime` for `FixedOffset`,
/// where a local datetime maps to at most one instant, and on
/// `chrono::DateTime::naive_local`, which reads that instant back as a local
/// datetime.
#[verifier::external_body]
fn resolve_local(offset: &chrono::FixedOffset, local: &chrono::NaiveDateTime) -> Option<
    chrono::NaiveDateTime,
> {
    match offset.from_local_datetime(local).single() {
        Some(fixed) => Some(fixed.naive_local()),
        None => None,
    }
}

impl Date {
    /// Create a [`chrono::NaiveDate`] if the calendar has this date.
    pub fn into_naive(&self) -> Option<chrono::NaiveDate> {
        match *self {
            Date::YMD { year, month, day } => naive_date_from_ymd(year, month, day),
            Date::Week { year, ww, d } => {
                match weekday_from_u32(d) {
                    Some(weekday) => naive_date_from_isoywd(year, ww, weekday),
                    None => None,
                }
            },
            Date::Ordinal { year, ddd } => naive_date_from_ordinal(year, ddd),
        }
    }
}

impl Time {
    /// Create a [`chrono::NaiveTime`] if the clock has this time.
    pub fn into_naive(self) -> Option<chrono::NaiveTime> {
        naive_time_from_hms(self.hour, self.minute, self.second)
    }
}

impl crate::datetime::DateTime {
    /// The timezone offset in seconds, when it stays within a day: hours
    /// times 3600 plus the raw minute field in seconds, as the historical
    /// conversion counted it.
    pub fn offset_seconds(&self) -> (r: Option<i32>)
        ensures
            ({
                let total = self.time.timezone.offset_hours * 3600
                    + self.time.timezone.offset_minutes;
                if -86_400 < total < 86_400 {
                    r == Some(total as i32)
                } else {
                    r is None
                }
            }),
    {
        let total: i64 = (self.time.timezone.offset_hours as i64) * 3600 + (
        self.time.timezone.offset_minutes as i64);
        if -86_400 < total && total < 86_400 {
            Some(total as i32)
        } else {
            None
        }
    }

    /// Create a [`chrono::NaiveDateTime`] if the calendar has this datetime
    /// and the offset stays within what [`chrono::FixedOffset`] accepts.
    pub fn into_naive(self) -> Option<chrono::NaiveDateTime> {
        let seconds = match self.offset_seconds() {
            Some(s) => s,
            None => {
                return None;
            },
        };
        let offset = match fixed_offset_east(seconds) {
            Some(o) => o,
            None => {
                return None;
            },
        };
        let naive_time = match self.time.into_naive() {
            Some(t) => t,
            None => {
                return None;
            },
        };
        let naive_date = match self.date.into_naive() {
            Some(d) => d,
            None => {
                return None;
            },
        };
        let naive_date_time = naive_date_and_time(&naive_date, naive_time);
        resolve_local(&offset, &naive_date_time)
    }
}

} // verus!
