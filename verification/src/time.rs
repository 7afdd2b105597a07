//! The `Time` type and the public time parser.

use vstd::prelude::*;
use vstd::string::{StringExecFns, StringSliceAdditionalSpecFns};

use crate::parsers::sp_parse_time;
use crate::timezone::Timezone;

verus! {

/// A time of day, to millisecond precision, with its timezone offset.
///
/// `second` may be 60 (leap-second notation). `hour` may be 24 regardless of
/// the other fields: midnight-end-of-day notation is not restricted to
/// `24:00:00` here.
#[derive(Eq, PartialEq, Debug, Copy, Clone, Structural)]
pub struct Time {
    /// a 24th of a day
    pub hour: u32,
    /// 60 discrete parts of an hour
    pub minute: u32,
    /// a minute are 60 of these
    pub second: u32,
    /// everything after a `.`, truncated (not rounded) to three digits
    pub millisecond: u32,
    /// the timezone offset from UTC
    pub timezone: Timezone,
}

impl Time {
    /// The field ranges that a successful parse guarantees.
    pub open spec fn wf(self) -> bool {
        &&& self.hour <= 24
        &&& self.minute <= 59
        &&& self.second <= 60
        &&& self.millisecond <= 999
        &&& self.timezone.wf()
    }

    /// Change this time's timezone offset.
    ///
    /// `tzo` is a pair of `(hours, minutes)` specifying the offset from UTC.
    pub fn set_tz(&self, tzo: (i32, i32)) -> (t: Time)
        ensures
            t == (Time {
                timezone: Timezone { offset_hours: tzo.0, offset_minutes: tzo.1 },
                ..*self
            }),
    {
        let mut t = *self;
        t.timezone = Timezone { offset_hours: tzo.0, offset_minutes: tzo.1 };
        t
    }
}

impl Default for Time {
    /// Midnight, UTC.
    fn default() -> (t: Time)
        ensures
            t == (Time {
                hour: 0,
                minute: 0,
                second: 0,
                millisecond: 0,
                timezone: Timezone::utc(),
            }),
    {
        Time {
            hour: 0,
            minute: 0,
            second: 0,
            millisecond: 0,
            timezone: Timezone { offset_hours: 0, offset_minutes: 0 },
        }
    }
}

/// Parses a time string.
///
/// A string can have one of the following formats:
///
/// * `07:35:[00][.123]` or `0735[00][.123]`
/// * either of the above followed by `Z`, `+HH[:MM]` or `-HH[:MM]`
///
/// Leftover input past the time is ignored.
pub fn time(string: &str) -> (r: Result<Time, String>)
    ensures
        sp_parse_time(string.spec_bytes(), 0) matches Ok((t, _)) ==> r == Ok::<Time, String>(t),
        sp_parse_time(string.spec_bytes(), 0) is Err ==> (r matches Err(m) && m@
            == "Failed to parse time: "@ + string@),
{
    match crate::parsers::parse_time(string.as_bytes()) {
        Ok((parsed, _)) => Ok(parsed),
        Err(_) => Err("Failed to parse time: ".to_owned().concat(string)),
    }
}


impl core::str::FromStr for Time {
    type Err = String;

    fn from_str(s: &str) -> Result<Time, String> {
        time(s)
    }
}

} // verus!
