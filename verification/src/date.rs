//! The `Date` type and the public date parser.

use vstd::prelude::*;

use vstd::string::{StringExecFns, StringSliceAdditionalSpecFns};

use crate::parsers::sp_parse_date;

verus! {

/// A date, in one of the three forms the grammar knows.
///
/// Numeric fields are range-checked at parse time; calendar validity (such as
/// day being at most the length of the month) is deliberately not checked, so
/// `2015-02-29` parses even though 2015 was no leap year.
#[derive(Eq, PartialEq, Debug, Copy, Clone, Structural)]
pub enum Date {
    /// consists of year, month and day of month
    YMD { year: i32, month: u32, day: u32 },
    /// consists of year, week and day of week
    Week { year: i32, ww: u32, d: u32 },
    /// consists of year and day of year
    Ordinal { year: i32, ddd: u32 },
}

impl Date {
    /// The field ranges that a successful parse guarantees.
    pub open spec fn wf(self) -> bool {
        match self {
            Date::YMD { year, month, day } => -9999 <= year <= 9999 && 1 <= month <= 12 && 1 <= day
                <= 31,
            Date::Week { year, ww, d } => -9999 <= year <= 9999 && 1 <= ww <= 52 && 1 <= d <= 7,
            Date::Ordinal { year, ddd } => -9999 <= year <= 9999 && 1 <= ddd <= 366,
        }
    }
}

impl Default for Date {
    /// The all-zero calendar date.
    fn default() -> (d: Date)
        ensures
            d == (Date::YMD { year: 0, month: 0, day: 0 }),
    {
        Date::YMD { year: 0, month: 0, day: 0 }
    }
}

/// Parses a date string.
///
/// A string can have one of the following formats:
///
/// * `2015-11-02` or `20151102`
/// * `2015-W45-1` or `2015W451`
/// * `2015-306` or `2015306`
///
/// Leftover input past the date is ignored.
pub fn date(string: &str) -> (r: Result<Date, String>)
    ensures
        sp_parse_date(string.spec_bytes(), 0) matches Ok((d, _)) ==> r == Ok::<Date, String>(d),
        sp_parse_date(string.spec_bytes(), 0) is Err ==> (r matches Err(m) && m@
            == "Failed to parse date: "@ + string@),
{
    match crate::parsers::parse_date(string.as_bytes()) {
        Ok((parsed, _)) => Ok(parsed),
        Err(_) => Err("Failed to parse date: ".to_owned().concat(string)),
    }
}


impl core::str::FromStr for Date {
    type Err = String;

    fn from_str(s: &str) -> Result<Date, String> {
        date(s)
    }
}

} // verus!
