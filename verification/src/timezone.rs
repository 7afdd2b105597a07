//! The `Timezone` type and the public timezone parser.

use vstd::prelude::*;
use vstd::string::{StringExecFns, StringSliceAdditionalSpecFns};

use crate::parsers::sp_parse_timezone;

verus! {

/// A timezone offset from UTC.
///
/// Both fields carry the sign of the offset: `-05:30` is held as hours `-5`
/// and minutes `-30`, never as minutes `+30`.
#[derive(Eq, PartialEq, Debug, Copy, Clone, Structural)]
pub struct Timezone {
    /// hour timezone offset
    pub offset_hours: i32,
    /// minute timezone offset
    pub offset_minutes: i32,
}

impl Timezone {
    /// The field ranges and the shared sign that a successful parse
    /// guarantees.
    pub open spec fn wf(self) -> bool {
        &&& -24 <= self.offset_hours <= 24
        &&& -59 <= self.offset_minutes <= 59
        &&& (self.offset_hours >= 0 && self.offset_minutes >= 0) || (self.offset_hours <= 0
            && self.offset_minutes <= 0)
    }

    /// The zero offset, UTC.
    pub open spec fn utc() -> Timezone {
        Timezone { offset_hours: 0, offset_minutes: 0 }
    }
}

impl Default for Timezone {
    /// The zero offset, UTC.
    fn default() -> (tz: Timezone)
        ensures
            tz == Timezone::utc(),
    {
        Timezone { offset_hours: 0, offset_minutes: 0 }
    }
}

/// Parses a timezone offset string: the literal `Z`, or a sign followed by
/// two offset digits and optional `:` and two minute digits.
pub fn timezone(string: &str) -> (r: Result<Timezone, String>)
    ensures
        sp_parse_timezone(string.spec_bytes(), 0) matches Ok((tz, _)) ==> r == Ok::<
            Timezone,
            String,
        >(tz),
        sp_parse_timezone(string.spec_bytes(), 0) is Err ==> (r matches Err(m) && m@
            == "Failed to parse timezone: "@ + string@),
{
    match crate::parsers::parse_timezone(string.as_bytes()) {
        Ok((parsed, _)) => Ok(parsed),
        Err(_) => Err("Failed to parse timezone: ".to_owned().concat(string)),
    }
}


impl core::str::FromStr for Timezone {
    type Err = String;

    fn from_str(s: &str) -> Result<Timezone, String> {
        timezone(s)
    }
}

} // verus!
