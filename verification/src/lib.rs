//! A parser and renderer for ISO 8601 dates, times, datetimes and durations.
//!
//! Validity of a given date against the calendar is not checked: the parser
//! happily accepts `"2015-02-29"` even though 2015 was no leap year.

pub mod calendar;
pub mod digits;
pub mod display;
pub mod helper;
pub mod parsers;
pub mod round_trip;

mod date;
pub use date::{date, Date};

mod time;
pub use time::{time, Time};

mod timezone;
pub use timezone::{timezone, Timezone};

mod datetime;
pub use datetime::{datetime, DateTime};

mod duration;
pub use duration::{duration, Duration};

pub use parsers::ParseError;
