//! The `Duration` type and the public duration parser.

use vstd::prelude::*;
use vstd::string::{StringExecFns, StringSliceAdditionalSpecFns};

use crate::parsers::sp_parse_duration;

verus! {

/// A time duration.
///
/// Unit fields are unsigned magnitudes and are not checked against each
/// other or against calendar bounds: `P600M` is as acceptable as `P6M`.
#[derive(Eq, PartialEq, Debug, Copy, Clone, Structural)]
pub enum Duration {
    /// A duration specified by year, month, day, hour, minute and second
    /// units
    YMDHMS {
        /// Number of calendar years
        year: u32,
        /// Number of months
        month: u32,
        /// Number of days
        day: u32,
        /// Number of hours
        hour: u32,
        /// Number of minutes
        minute: u32,
        /// Number of seconds
        second: u32,
        /// Number of milliseconds
        millisecond: u32,
    },
    /// consists of week units
    Weeks(u32),
}

impl Duration {
    /// The bound that a successful parse guarantees: a fractional second has
    /// at most three digits, so the millisecond field stays under a thousand.
    pub open spec fn wf(self) -> bool {
        match self {
            Duration::YMDHMS { millisecond, .. } => millisecond <= 999,
            Duration::Weeks(_) => true,
        }
    }

    /// Whether this value denotes a zero-length duration.
    pub open spec fn is_zero_spec(self) -> bool {
        self == (Duration::YMDHMS {
            year: 0,
            month: 0,
            day: 0,
            hour: 0,
            minute: 0,
            second: 0,
            millisecond: 0,
        }) || self == Duration::Weeks(0)
    }

    /// Whether this duration represents a zero duration.
    pub fn is_zero(&self) -> (r: bool)
        ensures
            r == self.is_zero_spec(),
    {
        match *self {
            Duration::YMDHMS { year, month, day, hour, minute, second, millisecond } => year == 0
                && month == 0 && day == 0 && hour == 0 && minute == 0 && second == 0 && millisecond
                == 0,
            Duration::Weeks(w) => w == 0,
        }
    }

    /// The duration as whole seconds and the nanoseconds below them, counting
    /// a year as 365 days and a month as 30 days.
    ///
    /// The pair is what `core::time::Duration::new` takes.
    pub fn as_seconds_and_nanos(&self) -> (r: (u64, u32))
        requires
            self.wf(),
        ensures
            r == self.seconds_and_nanos_spec(),
    {
        match *self {
            Duration::YMDHMS { year, month, day, hour, minute, second, millisecond } => {
                let secs: u64 = (year as u64) * 365 * 86_400 + (month as u64) * 30 * 86_400 + (
                day as u64) * 86_400 + (hour as u64) * 3600 + (minute as u64) * 60 + (
                second as u64);
                let nanos: u32 = millisecond * 1_000_000;
                (secs, nanos)
            },
            Duration::Weeks(week) => {
                let secs: u64 = (week as u64) * 7 * 86_400;
                (secs, 0)
            },
        }
    }

    /// The value that [`Duration::as_seconds_and_nanos`] returns.
    pub open spec fn seconds_and_nanos_spec(self) -> (u64, u32) {
        match self {
            Duration::YMDHMS { year, month, day, hour, minute, second, millisecond } => (
                (year * 365 * 86_400 + month * 30 * 86_400 + day * 86_400 + hour * 3600 + minute
                    * 60 + second) as u64,
                (millisecond * 1_000_000) as u32,
            ),
            Duration::Weeks(week) => ((week * 7 * 86_400) as u64, 0u32),
        }
    }
}

impl Default for Duration {
    /// The zero-length duration, in unit form.
    fn default() -> (du: Duration)
        ensures
            du == (Duration::YMDHMS {
                year: 0,
                month: 0,
                day: 0,
                hour: 0,
                minute: 0,
                second: 0,
                millisecond: 0,
            }),
    {
        Duration::YMDHMS { year: 0, month: 0, day: 0, hour: 0, minute: 0, second: 0, millisecond: 0 }
    }
}

/// Parses a duration string.
///
/// A string starts with `P` and can have one of the following formats:
///
/// * Fully-specified duration: `P1Y2M3DT4H5M6S`, each unit optional but at
///   least one present
/// * Duration in weekly intervals: `P1W`
/// * Fully-specified duration in datetime format: `P2015-11-03T21:56:00`
///
/// Both fully-specified formats get parsed into the `YMDHMS` variant; the
/// weekly format gets parsed into the `Weeks` variant.
pub fn duration(string: &str) -> (r: Result<Duration, String>)
    ensures
        sp_parse_duration(string.spec_bytes(), 0) matches Ok((du, _)) ==> r == Ok::<
            Duration,
            String,
        >(du),
        sp_parse_duration(string.spec_bytes(), 0) is Err ==> (r matches Err(m) && m@
            == "Failed to parse duration: "@ + string@),
{
    match crate::parsers::parse_duration(string.as_bytes()) {
        Ok((parsed, _)) => Ok(parsed),
        Err(_) => Err("Failed to parse duration: ".to_owned().concat(string)),
    }
}


impl core::str::FromStr for Duration {
    type Err = String;

    fn from_str(s: &str) -> Result<Duration, String> {
        duration(s)
    }
}

} // verus!
