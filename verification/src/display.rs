//! Canonical textual form of each type.
//!
//! The renderers are the inverse of the parsers: what `render` produces,
//! the matching parser reads back to the very value (see the round-trip
//! lemmas in [`crate::round_trip`]).

use vstd::prelude::*;

use crate::date::Date;
use crate::datetime::DateTime;
use crate::digits::{dec_rep, lemma_dec_rep, lemma_padded, padded, push_dec, push_padded};
use crate::duration::Duration;
use crate::time::Time;
use crate::timezone::Timezone;

verus! {

/// The bytes, read as one ASCII character each.
pub open spec fn bytes_as_chars(s: Seq<u8>) -> Seq<char> {
    s.map(|_k: int, b: u8| b as char)
}

/// Every byte of the sequence is ASCII.
pub open spec fn ascii_bytes(s: Seq<u8>) -> bool {
    forall|k: int| 0 <= k < s.len() ==> #[trigger] s[k] < 128
}

/// The magnitude of a signed number.
pub open spec fn abs_nat(x: int) -> nat {
    if x < 0 {
        (-x) as nat
    } else {
        x as nat
    }
}

/// A year: its magnitude zero-padded to at least four digits, a `-` in
/// front when negative.
pub open spec fn sp_render_year(y: int) -> Seq<u8> {
    if y < 0 {
        seq![45u8] + padded(abs_nat(y), 4)
    } else {
        padded(abs_nat(y), 4)
    }
}

/// A date: `YYYY-MM-DD`, `YYYY-Www-D` or `YYYY-DDD` by variant.
///
/// The week form carries its `W` marker, so that a rendered week date reads
/// back as a week date.
pub open spec fn sp_render_date(d: Date) -> Seq<u8> {
    match d {
        Date::YMD { year, month, day } => sp_render_year(year as int) + seq![45u8] + padded(
            month as nat,
            2,
        ) + seq![45u8] + padded(day as nat, 2),
        Date::Week { year, ww, d } => sp_render_year(year as int) + seq![45u8, 87u8] + padded(
            ww as nat,
            2,
        ) + seq![45u8] + padded(d as nat, 1),
        Date::Ordinal { year, ddd } => sp_render_year(year as int) + seq![45u8] + padded(
            ddd as nat,
            3,
        ),
    }
}

/// A timezone: an explicit sign, then `HH:MM` of the offset's magnitudes.
pub open spec fn sp_render_timezone(tz: Timezone) -> Seq<u8> {
    let sign_byte: u8 = if tz.offset_hours < 0 || tz.offset_minutes < 0 {
        45u8
    } else {
        43u8
    };
    seq![sign_byte] + padded(abs_nat(tz.offset_hours as int), 2) + seq![58u8] + padded(
        abs_nat(tz.offset_minutes as int),
        2,
    )
}

/// A time: `HH:MM:SS.mmm` with the millisecond part unconditionally there,
/// then the timezone.
pub open spec fn sp_render_time(t: Time) -> Seq<u8> {
    padded(t.hour as nat, 2) + seq![58u8] + padded(t.minute as nat, 2) + seq![58u8] + padded(
        t.second as nat,
        2,
    ) + seq![46u8] + padded(t.millisecond as nat, 3) + sp_render_timezone(t.timezone)
}

/// A datetime: the date, a literal `T`, the time.
pub open spec fn sp_render_datetime(dt: DateTime) -> Seq<u8> {
    sp_render_date(dt.date) + seq![84u8] + sp_render_time(dt.time)
}

/// The `T` section of a rendered duration: each non-zero unit with its
/// letter; seconds carry the fraction when milliseconds are non-zero.
pub open spec fn sp_render_duration_time(
    hour: u32,
    minute: u32,
    second: u32,
    millisecond: u32,
) -> Seq<u8> {
    (if hour > 0 {
        dec_rep(hour as nat) + seq![72u8]
    } else {
        Seq::<u8>::empty()
    }) + (if minute > 0 {
        dec_rep(minute as nat) + seq![77u8]
    } else {
        Seq::<u8>::empty()
    }) + (if millisecond > 0 {
        dec_rep(second as nat) + seq![46u8] + padded(millisecond as nat, 3) + seq![83u8]
    } else if second > 0 {
        dec_rep(second as nat) + seq![83u8]
    } else {
        Seq::<u8>::empty()
    })
}

/// A duration: `P`, each non-zero unit in order with `T` before the time
/// units; an all-zero unit duration collapses to `P0D`, and weeks render as
/// `PnW`.
pub open spec fn sp_render_duration(du: Duration) -> Seq<u8> {
    match du {
        Duration::YMDHMS { year, month, day, hour, minute, second, millisecond } => {
            if year == 0 && month == 0 && day == 0 && hour == 0 && minute == 0 && second == 0
                && millisecond == 0 {
                seq![80u8, 48u8, 68u8]
            } else {
                seq![80u8] + (if year > 0 {
                    dec_rep(year as nat) + seq![89u8]
                } else {
                    Seq::<u8>::empty()
                }) + (if month > 0 {
                    dec_rep(month as nat) + seq![77u8]
                } else {
                    Seq::<u8>::empty()
                }) + (if day > 0 {
                    dec_rep(day as nat) + seq![68u8]
                } else {
                    Seq::<u8>::empty()
                }) + (if hour > 0 || minute > 0 || second > 0 || millisecond > 0 {
                    seq![84u8] + sp_render_duration_time(hour, minute, second, millisecond)
                } else {
                    Seq::<u8>::empty()
                })
            }
        },
        Duration::Weeks(w) => seq![80u8] + dec_rep(w as nat) + seq![87u8],
    }
}

/// Builds a `String` from ASCII bytes, one character per byte.
///
/// Relies on `String::from_utf8`: bytes under 128 are valid UTF-8 and decode
/// to exactly one `char` each, with the byte's value.
#[verifier::external_body]
fn string_from_ascii(v: Vec<u8>) -> (r: String)
    requires
        ascii_bytes(v@),
    ensures
        r@ == bytes_as_chars(v@),
{
    match String::from_utf8(v) {
        Ok(s) => s,
        Err(_) => String::new(),
    }
}

/// Appends a rendered year to `out`.
fn push_year(out: &mut Vec<u8>, y: i32)
    ensures
        final(out)@ == old(out)@ + sp_render_year(y as int),
{
    if y < 0 {
        out.push(45u8);
        let mag: u32 = (-(y as i64)) as u32;
        push_padded(out, mag, 4);
        proof {
            assert(final(out)@ =~= old(out)@ + sp_render_year(y as int));
        }
    } else {
        push_padded(out, y as u32, 4);
    }
}

/// Appends a rendered timezone to `out`.
fn push_timezone(out: &mut Vec<u8>, tz: Timezone)
    ensures
        final(out)@ == old(out)@ + sp_render_timezone(tz),
{
    if tz.offset_hours < 0 || tz.offset_minutes < 0 {
        out.push(45u8);
    } else {
        out.push(43u8);
    }
    let hmag: u32 = (if tz.offset_hours < 0 {
        -(tz.offset_hours as i64)
    } else {
        tz.offset_hours as i64
    }) as u32;
    push_padded(out, hmag, 2);
    out.push(58u8);
    let mmag: u32 = (if tz.offset_minutes < 0 {
        -(tz.offset_minutes as i64)
    } else {
        tz.offset_minutes as i64
    }) as u32;
    push_padded(out, mmag, 2);
    proof {
        assert(final(out)@ =~= old(out)@ + sp_render_timezone(tz));
    }
}

/// Appends a rendered date to `out`.
fn push_date(out: &mut Vec<u8>, d: Date)
    ensures
        final(out)@ == old(out)@ + sp_render_date(d),
{
    match d {
        Date::YMD { year, month, day } => {
            push_year(out, year);
            out.push(45u8);
            push_padded(out, month, 2);
            out.push(45u8);
            push_padded(out, day, 2);
            proof {
                assert(final(out)@ =~= old(out)@ + sp_render_date(d));
            }
        },
        Date::Week { year, ww, d: wd } => {
            push_year(out, year);
            out.push(45u8);
            out.push(87u8);
            push_padded(out, ww, 2);
            out.push(45u8);
            push_padded(out, wd, 1);
            proof {
                assert(final(out)@ =~= old(out)@ + sp_render_date(d));
            }
        },
        Date::Ordinal { year, ddd } => {
            push_year(out, year);
            out.push(45u8);
            push_padded(out, ddd, 3);
            proof {
                assert(final(out)@ =~= old(out)@ + sp_render_date(d));
            }
        },
    }
}

/// Appends a rendered time to `out`.
fn push_time(out: &mut Vec<u8>, t: Time)
    ensures
        final(out)@ == old(out)@ + sp_render_time(t),
{
    push_padded(out, t.hour, 2);
    out.push(58u8);
    push_padded(out, t.minute, 2);
    out.push(58u8);
    push_padded(out, t.second, 2);
    out.push(46u8);
    push_padded(out, t.millisecond, 3);
    push_timezone(out, t.timezone);
    proof {
        assert(final(out)@ =~= old(out)@ + sp_render_time(t));
    }
}

/// Appends the `T` section of a rendered duration to `out`.
#[verifier::rlimit(60)]
fn push_duration_time(out: &mut Vec<u8>, hour: u32, minute: u32, second: u32, millisecond: u32)
    ensures
        final(out)@ == old(out)@ + sp_render_duration_time(hour, minute, second, millisecond),
{
    if hour > 0 {
        push_dec(out, hour);
        out.push(72u8);
    }
    if minute > 0 {
        push_dec(out, minute);
        out.push(77u8);
    }
    if millisecond > 0 {
        push_dec(out, second);
        out.push(46u8);
        push_padded(out, millisecond, 3);
        out.push(83u8);
    } else if second > 0 {
        push_dec(out, second);
        out.push(83u8);
    }
    proof {
        assert(final(out)@ =~= old(out)@ + sp_render_duration_time(
            hour,
            minute,
            second,
            millisecond,
        ));
    }
}

/// Appends a rendered duration to `out`.
#[verifier::rlimit(60)]
fn push_duration(out: &mut Vec<u8>, du: Duration)
    ensures
        final(out)@ == old(out)@ + sp_render_duration(du),
{
    match du {
        Duration::YMDHMS { year, month, day, hour, minute, second, millisecond } => {
            if year == 0 && month == 0 && day == 0 && hour == 0 && minute == 0 && second == 0
                && millisecond == 0 {
                out.push(80u8);
                out.push(48u8);
                out.push(68u8);
                proof {
                    assert(final(out)@ =~= old(out)@ + sp_render_duration(du));
                }
            } else {
                out.push(80u8);
                if year > 0 {
                    push_dec(out, year);
                    out.push(89u8);
                }
                if month > 0 {
                    push_dec(out, month);
                    out.push(77u8);
                }
                if day > 0 {
                    push_dec(out, day);
                    out.push(68u8);
                }
                if hour > 0 || minute > 0 || second > 0 || millisecond > 0 {
                    out.push(84u8);
                    push_duration_time(out, hour, minute, second, millisecond);
                }
                proof {
                    assert(final(out)@ =~= old(out)@ + sp_render_duration(du));
                }
            }
        },
        Duration::Weeks(w) => {
            out.push(80u8);
            push_dec(out, w);
            out.push(87u8);
            proof {
                assert(final(out)@ =~= old(out)@ + sp_render_duration(du));
            }
        },
    }
}

/// Rendered years are ASCII.
proof fn lemma_render_year_ascii(y: int)
    ensures
        ascii_bytes(sp_render_year(y)),
{
    lemma_padded(abs_nat(y), 4);
}

/// Rendered dates are ASCII.
pub proof fn lemma_render_date_ascii(d: Date)
    ensures
        ascii_bytes(sp_render_date(d)),
{
    match d {
        Date::YMD { year, month, day } => {
            lemma_render_year_ascii(year as int);
            lemma_padded(month as nat, 2);
            lemma_padded(day as nat, 2);
        },
        Date::Week { year, ww, d } => {
            lemma_render_year_ascii(year as int);
            lemma_padded(ww as nat, 2);
            lemma_padded(d as nat, 1);
        },
        Date::Ordinal { year, ddd } => {
            lemma_render_year_ascii(year as int);
            lemma_padded(ddd as nat, 3);
        },
    }
}

/// Rendered timezones are ASCII.
pub proof fn lemma_render_timezone_ascii(tz: Timezone)
    ensures
        ascii_bytes(sp_render_timezone(tz)),
{
    lemma_padded(abs_nat(tz.offset_hours as int), 2);
    lemma_padded(abs_nat(tz.offset_minutes as int), 2);
}

/// Rendered times are ASCII.
pub proof fn lemma_render_time_ascii(t: Time)
    ensures
        ascii_bytes(sp_render_time(t)),
{
    lemma_padded(t.hour as nat, 2);
    lemma_padded(t.minute as nat, 2);
    lemma_padded(t.second as nat, 2);
    lemma_padded(t.millisecond as nat, 3);
    lemma_render_timezone_ascii(t.timezone);
}

/// Rendered datetimes are ASCII.
pub proof fn lemma_render_datetime_ascii(dt: DateTime)
    ensures
        ascii_bytes(sp_render_datetime(dt)),
{
    lemma_render_date_ascii(dt.date);
    lemma_render_time_ascii(dt.time);
}

/// Rendered durations are ASCII.
#[verifier::rlimit(100)]
pub proof fn lemma_render_duration_ascii(du: Duration)
    ensures
        ascii_bytes(sp_render_duration(du)),
{
    match du {
        Duration::YMDHMS { year, month, day, hour, minute, second, millisecond } => {
            lemma_dec_rep(year as nat);
            lemma_dec_rep(month as nat);
            lemma_dec_rep(day as nat);
            lemma_dec_rep(hour as nat);
            lemma_dec_rep(minute as nat);
            lemma_dec_rep(second as nat);
            lemma_padded(millisecond as nat, 3);
        },
        Duration::Weeks(w) => {
            lemma_dec_rep(w as nat);
        },
    }
}

impl Date {
    /// The canonical textual form of this date.
    pub fn render(&self) -> (r: String)
        ensures
            r@ == bytes_as_chars(sp_render_date(*self)),
    {
        let mut out: Vec<u8> = Vec::new();
        push_date(&mut out, *self);
        proof {
            lemma_render_date_ascii(*self);
            assert(out@ =~= sp_render_date(*self));
        }
        string_from_ascii(out)
    }
}

impl Timezone {
    /// The canonical textual form of this timezone offset.
    pub fn render(&self) -> (r: String)
        ensures
            r@ == bytes_as_chars(sp_render_timezone(*self)),
    {
        let mut out: Vec<u8> = Vec::new();
        push_timezone(&mut out, *self);
        proof {
            lemma_render_timezone_ascii(*self);
            assert(out@ =~= sp_render_timezone(*self));
        }
        string_from_ascii(out)
    }
}

impl Time {
    /// The canonical textual form of this time.
    pub fn render(&self) -> (r: String)
        ensures
            r@ == bytes_as_chars(sp_render_time(*self)),
    {
        let mut out: Vec<u8> = Vec::new();
        push_time(&mut out, *self);
        proof {
            lemma_render_time_ascii(*self);
            assert(out@ =~= sp_render_time(*self));
        }
        string_from_ascii(out)
    }
}

impl DateTime {
    /// The canonical textual form of this datetime.
    pub fn render(&self) -> (r: String)
        ensures
            r@ == bytes_as_chars(sp_render_datetime(*self)),
    {
        let mut out: Vec<u8> = Vec::new();
        push_date(&mut out, self.date);
        out.push(84u8);
        push_time(&mut out, self.time);
        proof {
            lemma_render_datetime_ascii(*self);
            assert(out@ =~= sp_render_datetime(*self));
        }
        string_from_ascii(out)
    }
}

impl Duration {
    /// The canonical textual form of this duration.
    pub fn render(&self) -> (r: String)
        ensures
            r@ == bytes_as_chars(sp_render_duration(*self)),
    {
        let mut out: Vec<u8> = Vec::new();
        push_duration(&mut out, *self);
        proof {
            lemma_render_duration_ascii(*self);
            assert(out@ =~= sp_render_duration(*self));
        }
        string_from_ascii(out)
    }
}

} // verus!
