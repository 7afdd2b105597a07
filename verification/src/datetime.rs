//! The `DateTime` type and the public datetime parser.

use vstd::prelude::*;
use vstd::string::{StringExecFns, StringSliceAdditionalSpecFns};

use crate::date::Date;
use crate::parsers::sp_parse_datetime;
use crate::time::Time;

verus! {

/// A date and a time of day, the two joined by a literal `T` in text form.
#[derive(Eq, PartialEq, Debug, Copy, Clone, Structural)]
pub struct DateTime {
    /// The date part
    pub date: Date,
    /// The time part
    pub time: Time,
}

impl DateTime {
    /// The field ranges that a successful parse guarantees: no cross-field
    /// invariants hold beyond those of the parts.
    pub open spec fn wf(self) -> bool {
        self.date.wf() && self.time.wf()
    }
}

impl Default for DateTime {
    /// The all-zero date at midnight, UTC.
    fn default() -> (dt: DateTime)
        ensures
            dt.date == (Date::YMD { year: 0, month: 0, day: 0 }),
            dt.time == (Time {
                hour: 0,
                minute: 0,
                second: 0,
                millisecond: 0,
                timezone: crate::timezone::Timezone::utc(),
            }),
    {
        DateTime { date: Date::default(), time: Time::default() }
    }
}

/// Parses a datetime string: a date, a mandatory literal `T`, and a time.
///
/// Leftover input past the time is ignored.
pub fn datetime(string: &str) -> (r: Result<DateTime, String>)
    ensures
        sp_parse_datetime(string.spec_bytes(), 0) matches Ok((dt, _)) ==> r == Ok::<
            DateTime,
            String,
        >(dt),
        sp_parse_datetime(string.spec_bytes(), 0) is Err ==> (r matches Err(m) && m@
            == "Failed to parse datetime: "@ + string@),
{
    match crate::parsers::parse_datetime(string.as_bytes()) {
        Ok((parsed, _)) => Ok(parsed),
        Err(_) => Err("Failed to parse datetime: ".to_owned().concat(string)),
    }
}


impl core::str::FromStr for DateTime {
    type Err = String;

    fn from_str(s: &str) -> Result<DateTime, String> {
        datetime(s)
    }
}

} // verus!
