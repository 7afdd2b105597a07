//! The low-level parsers for date, time, datetime, duration and timezone.
//!
//! Each parser reads the byte slice from a position on and, on success,
//! returns the parsed value together with the position just past what it
//! consumed; leftover input is the caller's to deal with. Alternatives are
//! tried in a fixed order and commit only on full success, so a failed
//! alternative consumes nothing.
//!
//! Every executable parser returns exactly what its spec-level counterpart
//! (the `sp_`-prefixed functions) describes.

use vstd::prelude::*;

use crate::date::Date;
use crate::datetime::DateTime;
use crate::digits::{
    all_digits, lemma_nv_bound, lemma_pow10_mono, lemma_run_len_props, n_digit_in_range, nv,
    pow10, run_len, sp_field, sp_take_digits, sp_take_n_digits, take_digits, take_n_digits,
};
use crate::duration::Duration;
use crate::time::Time;
use crate::timezone::Timezone;

verus! {

/// Why a parse failed.
#[derive(Eq, PartialEq, Debug, Copy, Clone, Structural)]
pub enum ParseError {
    /// The input does not follow any applicable grammar alternative at the
    /// current position.
    MalformedInput,
    /// The syntax matched, but a numeric field violates its inclusive bound.
    OutOfRange,
    /// A duration in designator form contained no designator at all (a bare
    /// `P` or `PT`).
    EmptyDuration,
}

/// The executable result `r` is the spec-level result `sp`, up to the width
/// of the position.
pub open spec fn r_eq<T>(r: Result<(T, usize), ParseError>, sp: Result<(T, int), ParseError>) -> bool {
    match r {
        Ok((v, j)) => sp == Ok::<(T, int), ParseError>((v, j as int)),
        Err(e) => sp == Err::<(T, int), ParseError>(e),
    }
}

/// Ten to the small powers, spelled out.
pub proof fn lemma_pow10_values()
    ensures
        pow10(0) == 1,
        pow10(1) == 10,
        pow10(2) == 100,
        pow10(3) == 1000,
        pow10(4) == 10000,
        pow10(9) == 1000000000,
{
    reveal_with_fuel(pow10, 10);
}

/// A fixed-width read stays under the power of ten of its width.
pub proof fn lemma_take_n_digits_val(s: Seq<u8>, i: int, n: int)
    requires
        1 <= n <= 9,
        sp_take_n_digits(s, i, n) is Ok,
    ensures
        (sp_take_n_digits(s, i, n)->Ok_0).0 == nv(s.subrange(i, i + n)),
        nv(s.subrange(i, i + n)) < pow10(n as nat),
        (sp_take_n_digits(s, i, n)->Ok_0).1 == i + n,
{
    lemma_nv_bound(s.subrange(i, i + n));
    lemma_pow10_mono(n as nat, 9);
    lemma_pow10_values();
}

// LITERALS AND SIGNS

/// The literal byte `b` stands at `i`.
pub open spec fn sp_tag(s: Seq<u8>, i: int, b: u8) -> Result<int, ParseError> {
    if 0 <= i < s.len() && s[i] == b {
        Ok(i + 1)
    } else {
        Err(ParseError::MalformedInput)
    }
}

/// An optional literal byte: consumed when present, skipped when not.
pub open spec fn sp_opt_byte(s: Seq<u8>, i: int, b: u8) -> int {
    if 0 <= i < s.len() && s[i] == b {
        i + 1
    } else {
        i
    }
}

/// A mandatory `+` or `-`, as `+1` or `-1`.
pub open spec fn sp_sign(s: Seq<u8>, i: int) -> Result<(int, int), ParseError> {
    if 0 <= i < s.len() && s[i] == 45 {
        Ok((-1int, i + 1))
    } else if 0 <= i < s.len() && s[i] == 43 {
        Ok((1int, i + 1))
    } else {
        Err(ParseError::MalformedInput)
    }
}

/// An optional `+` or `-`; absence yields `+1`.
pub open spec fn sp_opt_sign(s: Seq<u8>, i: int) -> (int, int) {
    match sp_sign(s, i) {
        Ok((sg, j)) => (sg, j),
        Err(_) => (1int, i),
    }
}

fn tag_byte(s: &[u8], i: usize, b: u8) -> (r: Result<usize, ParseError>)
    requires
        i <= s@.len(),
    ensures
        match r {
            Ok(j) => sp_tag(s@, i as int, b) == Ok::<int, ParseError>(j as int) && i < j <= s@.len(),
            Err(e) => sp_tag(s@, i as int, b) == Err::<int, ParseError>(e),
        },
{
    if i < s.len() && s[i] == b {
        Ok(i + 1)
    } else {
        Err(ParseError::MalformedInput)
    }
}

fn opt_byte(s: &[u8], i: usize, b: u8) -> (j: usize)
    requires
        i <= s@.len(),
    ensures
        j as int == sp_opt_byte(s@, i as int, b),
        i <= j <= s@.len(),
{
    if i < s.len() && s[i] == b {
        i + 1
    } else {
        i
    }
}

/// Recognizes a mandatory leading `+` or `-`.
fn sign(s: &[u8], i: usize) -> (r: Result<(i32, usize), ParseError>)
    requires
        i <= s@.len(),
    ensures
        match r {
            Ok((sg, j)) => sp_sign(s@, i as int) == Ok::<(int, int), ParseError>((sg as int, j as int))
                && i < j <= s@.len(),
            Err(e) => sp_sign(s@, i as int) == Err::<(int, int), ParseError>(e),
        },
{
    if i < s.len() && s[i] == 45 {
        Ok((-1, i + 1))
    } else if i < s.len() && s[i] == 43 {
        Ok((1, i + 1))
    } else {
        Err(ParseError::MalformedInput)
    }
}

// DATE

/// `[+/-]YYYY`: an optional sign and exactly four digits.
pub open spec fn sp_date_year(s: Seq<u8>, i: int) -> Result<(i32, int), ParseError> {
    let (sg, j) = sp_opt_sign(s, i);
    match sp_take_n_digits(s, j, 4) {
        Ok((v, k)) => Ok(((sg * v) as i32, k)),
        Err(e) => Err(e),
    }
}

/// Parses a four digit year, whose sign is optional and defaults to `+`.
fn date_year(s: &[u8], i: usize) -> (r: Result<(i32, usize), ParseError>)
    requires
        i <= s@.len(),
    ensures
        r_eq(r, sp_date_year(s@, i as int)),
        r matches Ok(p) ==> i <= p.1 <= s@.len(),
{
    let (sg, j) = match sign(s, i) {
        Ok((sg, j)) => (sg, j),
        Err(_) => (1i32, i),
    };
    match take_n_digits(s, j, 4) {
        Ok((v, k)) => {
            proof {
                lemma_take_n_digits_val(s@, j as int, 4);
                lemma_pow10_values();
                assert(v == nv(s@.subrange(j as int, j + 4)));
                assert(v < 10000);
                assert(sg == 1 || sg == -1);
            }
            let y: i32 = if sg < 0 {
                -(v as i32)
            } else {
                v as i32
            };
            proof {
                assert(y as int == sp_opt_sign(s@, i as int).0 * v);
                assert(sp_date_year(s@, i as int) == Ok::<(i32, int), ParseError>((y, k as int)));
            }
            Ok((y, k))
        },
        Err(e) => Err(e),
    }
}

/// `MM`, 1 to 12.
fn date_month(s: &[u8], i: usize) -> (r: Result<(u32, usize), ParseError>)
    requires
        i <= s@.len(),
    ensures
        r_eq(r, sp_field(s@, i as int, 2, 1, 12)),
        r matches Ok(p) ==> i <= p.1 <= s@.len(),
{
    n_digit_in_range(s, i, 2, 1, 12)
}

/// `DD`, 1 to 31.
fn date_day(s: &[u8], i: usize) -> (r: Result<(u32, usize), ParseError>)
    requires
        i <= s@.len(),
    ensures
        r_eq(r, sp_field(s@, i as int, 2, 1, 31)),
        r matches Ok(p) ==> i <= p.1 <= s@.len(),
{
    n_digit_in_range(s, i, 2, 1, 31)
}

/// `WW`, 1 to 52.
fn date_week(s: &[u8], i: usize) -> (r: Result<(u32, usize), ParseError>)
    requires
        i <= s@.len(),
    ensures
        r_eq(r, sp_field(s@, i as int, 2, 1, 52)),
        r matches Ok(p) ==> i <= p.1 <= s@.len(),
{
    n_digit_in_range(s, i, 2, 1, 52)
}

/// `D`, a weekday, 1 to 7.
fn date_week_day(s: &[u8], i: usize) -> (r: Result<(u32, usize), ParseError>)
    requires
        i <= s@.len(),
    ensures
        r_eq(r, sp_field(s@, i as int, 1, 1, 7)),
        r matches Ok(p) ==> i <= p.1 <= s@.len(),
{
    n_digit_in_range(s, i, 1, 1, 7)
}

/// `DDD`, an ordinal day of year, 1 to 366.
fn date_ord_day(s: &[u8], i: usize) -> (r: Result<(u32, usize), ParseError>)
    requires
        i <= s@.len(),
    ensures
        r_eq(r, sp_field(s@, i as int, 3, 1, 366)),
        r matches Ok(p) ==> i <= p.1 <= s@.len(),
{
    n_digit_in_range(s, i, 3, 1, 366)
}

/// `YYYY[-]MM[-]DD`: each separator independently optional.
pub open spec fn sp_date_ymd(s: Seq<u8>, i: int) -> Result<(Date, int), ParseError> {
    match sp_date_year(s, i) {
        Err(e) => Err(e),
        Ok((y, j)) => {
            let j1 = sp_opt_byte(s, j, 45);
            match sp_field(s, j1, 2, 1, 12) {
                Err(e) => Err(e),
                Ok((mo, j2)) => {
                    let j3 = sp_opt_byte(s, j2, 45);
                    match sp_field(s, j3, 2, 1, 31) {
                        Err(e) => Err(e),
                        Ok((d, j4)) => Ok((Date::YMD { year: y, month: mo, day: d }, j4)),
                    }
                },
            }
        },
    }
}

fn date_ymd(s: &[u8], i: usize) -> (r: Result<(Date, usize), ParseError>)
    requires
        i <= s@.len(),
    ensures
        r_eq(r, sp_date_ymd(s@, i as int)),
        r matches Ok(p) ==> i <= p.1 <= s@.len(),
{
    let (y, j) = match date_year(s, i) {
        Ok(p) => p,
        Err(e) => {
            return Err(e);
        },
    };
    let j1 = opt_byte(s, j, 45);
    let (mo, j2) = match date_month(s, j1) {
        Ok(p) => p,
        Err(e) => {
            return Err(e);
        },
    };
    let j3 = opt_byte(s, j2, 45);
    let (d, j4) = match date_day(s, j3) {
        Ok(p) => p,
        Err(e) => {
            return Err(e);
        },
    };
    Ok((Date::YMD { year: y, month: mo, day: d }, j4))
}

/// `YYYY[-]"W"WW[-]D`: a week date.
pub open spec fn sp_date_iso_week(s: Seq<u8>, i: int) -> Result<(Date, int), ParseError> {
    match sp_date_year(s, i) {
        Err(e) => Err(e),
        Ok((y, j)) => {
            let j1 = sp_opt_byte(s, j, 45);
            match sp_tag(s, j1, 87) {
                Err(e) => Err(e),
                Ok(j2) => match sp_field(s, j2, 2, 1, 52) {
                    Err(e) => Err(e),
                    Ok((w, j3)) => {
                        let j4 = sp_opt_byte(s, j3, 45);
                        match sp_field(s, j4, 1, 1, 7) {
                            Err(e) => Err(e),
                            Ok((d, j5)) => Ok((Date::Week { year: y, ww: w, d: d }, j5)),
                        }
                    },
                },
            }
        },
    }
}

fn date_iso_week(s: &[u8], i: usize) -> (r: Result<(Date, usize), ParseError>)
    requires
        i <= s@.len(),
    ensures
        r_eq(r, sp_date_iso_week(s@, i as int)),
        r matches Ok(p) ==> i <= p.1 <= s@.len(),
{
    let (y, j) = match date_year(s, i) {
        Ok(p) => p,
        Err(e) => {
            return Err(e);
        },
    };
    let j1 = opt_byte(s, j, 45);
    let j2 = match tag_byte(s, j1, 87) {
        Ok(j2) => j2,
        Err(e) => {
            return Err(e);
        },
    };
    let (w, j3) = match date_week(s, j2) {
        Ok(p) => p,
        Err(e) => {
            return Err(e);
        },
    };
    let j4 = opt_byte(s, j3, 45);
    let (d, j5) = match date_week_day(s, j4) {
        Ok(p) => p,
        Err(e) => {
            return Err(e);
        },
    };
    Ok((Date::Week { year: y, ww: w, d: d }, j5))
}

/// `YYYY[-]DDD`: an ordinal date.
pub open spec fn sp_date_ordinal(s: Seq<u8>, i: int) -> Result<(Date, int), ParseError> {
    match sp_date_year(s, i) {
        Err(e) => Err(e),
        Ok((y, j)) => {
            let j1 = sp_opt_byte(s, j, 45);
            match sp_field(s, j1, 3, 1, 366) {
                Err(e) => Err(e),
                Ok((d, j2)) => Ok((Date::Ordinal { year: y, ddd: d }, j2)),
            }
        },
    }
}

fn date_ordinal(s: &[u8], i: usize) -> (r: Result<(Date, usize), ParseError>)
    requires
        i <= s@.len(),
    ensures
        r_eq(r, sp_date_ordinal(s@, i as int)),
        r matches Ok(p) ==> i <= p.1 <= s@.len(),
{
    let (y, j) = match date_year(s, i) {
        Ok(p) => p,
        Err(e) => {
            return Err(e);
        },
    };
    let j1 = opt_byte(s, j, 45);
    match date_ord_day(s, j1) {
        Ok((d, j2)) => Ok((Date::Ordinal { year: y, ddd: d }, j2)),
        Err(e) => Err(e),
    }
}

/// A date: the calendar, week and ordinal alternatives, tried in that order;
/// the first full match wins, a failed alternative consumes nothing, and when
/// all three fail the collapsed error is `MalformedInput`.
pub open spec fn sp_parse_date(s: Seq<u8>, i: int) -> Result<(Date, int), ParseError> {
    if sp_date_ymd(s, i) is Ok {
        sp_date_ymd(s, i)
    } else if sp_date_iso_week(s, i) is Ok {
        sp_date_iso_week(s, i)
    } else if sp_date_ordinal(s, i) is Ok {
        sp_date_ordinal(s, i)
    } else {
        Err(ParseError::MalformedInput)
    }
}

fn parse_date_at(s: &[u8], i: usize) -> (r: Result<(Date, usize), ParseError>)
    requires
        i <= s@.len(),
    ensures
        r_eq(r, sp_parse_date(s@, i as int)),
        r matches Ok(p) ==> i <= p.1 <= s@.len(),
{
    match date_ymd(s, i) {
        Ok(p) => Ok(p),
        Err(_) => match date_iso_week(s, i) {
            Ok(p) => Ok(p),
            Err(_) => match date_ordinal(s, i) {
                Ok(p) => Ok(p),
                Err(_) => Err(ParseError::MalformedInput),
            },
        },
    }
}

/// Parses a date from the start of the byte slice: the parsed date and the
/// count of bytes consumed; see [`crate::date()`] for the formats.
pub fn parse_date(i: &[u8]) -> (r: Result<(Date, usize), ParseError>)
    ensures
        r_eq(r, sp_parse_date(i@, 0)),
        r matches Ok(p) ==> p.1 <= i@.len(),
{
    parse_date_at(i, 0)
}

// TIME

/// `HH`, 0 to 24.
fn time_hour(s: &[u8], i: usize) -> (r: Result<(u32, usize), ParseError>)
    requires
        i <= s@.len(),
    ensures
        r_eq(r, sp_field(s@, i as int, 2, 0, 24)),
        r matches Ok(p) ==> i <= p.1 <= s@.len(),
{
    n_digit_in_range(s, i, 2, 0, 24)
}

/// `MM`, 0 to 59.
fn time_minute(s: &[u8], i: usize) -> (r: Result<(u32, usize), ParseError>)
    requires
        i <= s@.len(),
    ensures
        r_eq(r, sp_field(s@, i as int, 2, 0, 59)),
        r matches Ok(p) ==> i <= p.1 <= s@.len(),
{
    n_digit_in_range(s, i, 2, 0, 59)
}

/// `SS`, 0 to 60 (a leap second is fine).
fn time_second(s: &[u8], i: usize) -> (r: Result<(u32, usize), ParseError>)
    requires
        i <= s@.len(),
    ensures
        r_eq(r, sp_field(s@, i as int, 2, 0, 60)),
        r matches Ok(p) ==> i <= p.1 <= s@.len(),
{
    n_digit_in_range(s, i, 2, 0, 60)
}

/// The value in milliseconds of the fractional digits starting at `i`, of
/// which `n` stand there: the first three digits, right-padded with zeros
/// when fewer were given, truncating (not rounding) the rest.
pub open spec fn sp_frac_ms(s: Seq<u8>, i: int, n: int) -> u32 {
    let m = if n >= 3 {
        3int
    } else {
        n
    };
    (nv(s.subrange(i, i + m)) * pow10((3 - m) as nat)) as u32
}

/// An optional fraction: a `.` or `,` followed by one or more digits, as
/// milliseconds; absent otherwise, yielding zero.
pub open spec fn sp_fraction_opt(s: Seq<u8>, i: int) -> (u32, int) {
    if 0 <= i < s.len() && (s[i] == 46 || s[i] == 44) && run_len(s, i + 1) > 0 {
        (sp_frac_ms(s, i + 1, run_len(s, i + 1)), i + 1 + run_len(s, i + 1))
    } else {
        (0u32, i)
    }
}

/// The value in milliseconds of `n` fractional digits standing at `i`.
fn frac_value(s: &[u8], i: usize, n: usize) -> (ms: u32)
    requires
        i + n <= s@.len(),
        n >= 1,
        forall|k: int| i <= k < i + n ==> crate::digits::is_digit_byte(#[trigger] s@[k]),
    ensures
        ms == sp_frac_ms(s@, i as int, n as int),
{
    let m: usize = if n >= 3 {
        3
    } else {
        n
    };
    proof {
        assert(all_digits(s@.subrange(i as int, i + m)));
        assert(sp_take_n_digits(s@, i as int, m as int) is Ok);
    }
    let v: u32 = match take_n_digits(s, i, m) {
        Ok((v, _)) => v,
        Err(_) => {
            proof {
                assert(false);
            }
            0
        },
    };
    proof {
        lemma_take_n_digits_val(s@, i as int, m as int);
        lemma_pow10_values();
        assert(v == nv(s@.subrange(i as int, i + m)));
        assert(v < pow10(m as nat));
    }
    if m == 1 {
        proof {
            assert(pow10(1nat) == 10);
            assert(v < 10);
            assert((3 - m as int) as nat == 2nat);
            assert(sp_frac_ms(s@, i as int, n as int) == (nv(s@.subrange(i as int, i + m)) * pow10(
                2nat,
            )) as u32);
        }
        v * 100
    } else if m == 2 {
        proof {
            assert(pow10(2nat) == 100);
            assert(v < 100);
            assert((3 - m as int) as nat == 1nat);
            assert(sp_frac_ms(s@, i as int, n as int) == (nv(s@.subrange(i as int, i + m)) * pow10(
                1nat,
            )) as u32);
        }
        v * 10
    } else {
        proof {
            assert((3 - m as int) as nat == 0nat);
            assert(nv(s@.subrange(i as int, i + m)) * pow10(0nat) == nv(
                s@.subrange(i as int, i + m),
            ));
            assert(sp_frac_ms(s@, i as int, n as int) == (nv(s@.subrange(i as int, i + m)) * pow10(
                0nat,
            )) as u32);
        }
        v
    }
}

/// Converts the fractional part, if any, of a number of seconds to
/// milliseconds, truncating towards zero past the third digit: `"1"` is 100,
/// `"1234"` is 123.
fn fraction_millisecond(s: &[u8], i: usize) -> (r: (u32, usize))
    requires
        i <= s@.len(),
    ensures
        (r.0, r.1 as int) == sp_fraction_opt(s@, i as int),
        i <= r.1 <= s@.len(),
{
    if i < s.len() && (s[i] == 46 || s[i] == 44) {
        proof {
            lemma_run_len_props(s@, i + 1);
        }
        let ghost n = run_len(s@, i + 1);
        // Find the end of the digit run.
        let mut j: usize = i + 1;
        while j < s.len() && 48 <= s[j] && s[j] <= 57
            invariant
                i + 1 <= j <= s@.len(),
                j <= i + 1 + n,
                n == run_len(s@, i + 1),
                i + 1 + n <= s@.len(),
                forall|k: int| i + 1 <= k < i + 1 + n ==> crate::digits::is_digit_byte(
                    #[trigger] s@[k],
                ),
                i + 1 + n == s@.len() || !crate::digits::is_digit_byte(s@[i + 1 + n]),
            decreases s@.len() - j,
        {
            proof {
                if j == i + 1 + n {
                    assert(!crate::digits::is_digit_byte(s@[j as int]));
                    assert(false);
                }
            }
            j = j + 1;
        }
        proof {
            if j < i + 1 + n {
                assert(crate::digits::is_digit_byte(s@[j as int]));
                assert(false);
            }
        }
        if j == i + 1 {
            // No digit follows the separator: no fraction is consumed.
            return (0, i);
        }
        let ms = frac_value(s, i + 1, j - (i + 1));
        proof {
            assert(n == j - (i + 1));
            assert(ms == sp_frac_ms(s@, i + 1, n));
        }
        (ms, j)
    } else {
        (0, i)
    }
}

// TIMEZONE

/// A signed timezone offset: a mandatory sign, two hour digits, optionally a
/// `:` and two minute digits; the sign applies to hours and minutes alike.
pub open spec fn sp_timezone_hour(s: Seq<u8>, i: int) -> Result<(Timezone, int), ParseError> {
    match sp_sign(s, i) {
        Err(e) => Err(e),
        Ok((sg, j)) => match sp_field(s, j, 2, 0, 24) {
            Err(e) => Err(e),
            Ok((h, j1)) => {
                let j2 = sp_opt_byte(s, j1, 58);
                match sp_field(s, j2, 2, 0, 59) {
                    Ok((m, j3)) => Ok(
                        (
                            Timezone {
                                offset_hours: (sg * h) as i32,
                                offset_minutes: (sg * m) as i32,
                            },
                            j3,
                        ),
                    ),
                    Err(_) => Ok((Timezone { offset_hours: (sg * h) as i32, offset_minutes: 0 }, j1)),
                }
            },
        },
    }
}

fn timezone_hour(s: &[u8], i: usize) -> (r: Result<(Timezone, usize), ParseError>)
    requires
        i <= s@.len(),
    ensures
        r_eq(r, sp_timezone_hour(s@, i as int)),
        r matches Ok(p) ==> i <= p.1 <= s@.len(),
{
    let (sg, j) = match sign(s, i) {
        Ok(p) => p,
        Err(e) => {
            return Err(e);
        },
    };
    let (h, j1) = match time_hour(s, j) {
        Ok(p) => p,
        Err(e) => {
            return Err(e);
        },
    };
    proof {
        assert(sg == 1 || sg == -1);
        assert(0 <= h <= 24);
    }
    let j2 = opt_byte(s, j1, 58);
    match time_minute(s, j2) {
        Ok((m, j3)) => {
            proof {
                assert(0 <= m <= 59);
            }
            Ok(
                (
                    Timezone {
                        offset_hours: sg * (h as i32),
                        offset_minutes: sg * (m as i32),
                    },
                    j3,
                ),
            )
        },
        Err(_) => Ok((Timezone { offset_hours: sg * (h as i32), offset_minutes: 0 }, j1)),
    }
}

/// An optional trailing timezone: a signed offset, the literal `Z`, or
/// nothing; the latter two both yield the zero offset, and nothing is
/// consumed in the last case.
pub open spec fn sp_timezone_opt(s: Seq<u8>, i: int) -> (Timezone, int) {
    match sp_timezone_hour(s, i) {
        Ok((tz, j)) => (tz, j),
        Err(_) => if 0 <= i < s.len() && s[i] == 90 {
            (Timezone::utc(), i + 1)
        } else {
            (Timezone::utc(), i)
        },
    }
}

fn timezone_opt(s: &[u8], i: usize) -> (r: (Timezone, usize))
    requires
        i <= s@.len(),
    ensures
        (r.0, r.1 as int) == sp_timezone_opt(s@, i as int),
        i <= r.1 <= s@.len(),
{
    match timezone_hour(s, i) {
        Ok(p) => p,
        Err(_) => {
            if i < s.len() && s[i] == 90 {
                (Timezone { offset_hours: 0, offset_minutes: 0 }, i + 1)
            } else {
                (Timezone { offset_hours: 0, offset_minutes: 0 }, i)
            }
        },
    }
}

/// A standalone timezone: the literal `Z` or a signed offset; unlike the
/// trailing position inside a time, absence is an error here.
pub open spec fn sp_parse_timezone(s: Seq<u8>, i: int) -> Result<(Timezone, int), ParseError> {
    if 0 <= i < s.len() && s[i] == 90 {
        Ok((Timezone::utc(), i + 1))
    } else {
        sp_timezone_hour(s, i)
    }
}

/// Parses a timezone offset from the start of the byte slice: the literal
/// `Z` or a signed `+HH[:MM]` / `-HH[:MM]` offset.
pub fn parse_timezone(i: &[u8]) -> (r: Result<(Timezone, usize), ParseError>)
    ensures
        r_eq(r, sp_parse_timezone(i@, 0)),
        r matches Ok(p) ==> p.1 <= i@.len(),
{
    if i.len() > 0 && i[0] == 90 {
        Ok((Timezone { offset_hours: 0, offset_minutes: 0 }, 1))
    } else {
        timezone_hour(i, 0)
    }
}

/// `HH[:]MM[[:]SS][.frac][timezone]`: seconds, fraction and timezone each
/// optional and defaulting to zero.
pub open spec fn sp_parse_time(s: Seq<u8>, i: int) -> Result<(Time, int), ParseError> {
    match sp_field(s, i, 2, 0, 24) {
        Err(e) => Err(e),
        Ok((h, j0)) => {
            let j1 = sp_opt_byte(s, j0, 58);
            match sp_field(s, j1, 2, 0, 59) {
                Err(e) => Err(e),
                Ok((mi, j2)) => {
                    let j3 = sp_opt_byte(s, j2, 58);
                    let secp = sp_field(s, j3, 2, 0, 60);
                    let sec = if secp is Ok {
                        secp->Ok_0.0
                    } else {
                        0u32
                    };
                    let j4 = if secp is Ok {
                        secp->Ok_0.1
                    } else {
                        j2
                    };
                    let (ms, j5) = sp_fraction_opt(s, j4);
                    let (tz, j6) = sp_timezone_opt(s, j5);
                    Ok(
                        (
                            Time {
                                hour: h,
                                minute: mi,
                                second: sec,
                                millisecond: ms,
                                timezone: tz,
                            },
                            j6,
                        ),
                    )
                },
            }
        },
    }
}

fn parse_time_at(s: &[u8], i: usize) -> (r: Result<(Time, usize), ParseError>)
    requires
        i <= s@.len(),
    ensures
        r_eq(r, sp_parse_time(s@, i as int)),
        r matches Ok(p) ==> i <= p.1 <= s@.len(),
{
    let (h, j0) = match time_hour(s, i) {
        Ok(p) => p,
        Err(e) => {
            return Err(e);
        },
    };
    let j1 = opt_byte(s, j0, 58);
    let (mi, j2) = match time_minute(s, j1) {
        Ok(p) => p,
        Err(e) => {
            return Err(e);
        },
    };
    let j3 = opt_byte(s, j2, 58);
    let (sec, j4) = match time_second(s, j3) {
        Ok(p) => p,
        Err(_) => (0, j2),
    };
    let (ms, j5) = fraction_millisecond(s, j4);
    let (tz, j6) = timezone_opt(s, j5);
    Ok((Time { hour: h, minute: mi, second: sec, millisecond: ms, timezone: tz }, j6))
}

/// Parses a time from the start of the byte slice: the parsed time and the
/// count of bytes consumed; see [`crate::time()`] for the formats.
pub fn parse_time(i: &[u8]) -> (r: Result<(Time, usize), ParseError>)
    ensures
        r_eq(r, sp_parse_time(i@, 0)),
        r matches Ok(p) ==> p.1 <= i@.len(),
{
    parse_time_at(i, 0)
}

// DATETIME

/// A date, a mandatory literal `T`, and a time.
pub open spec fn sp_parse_datetime(s: Seq<u8>, i: int) -> Result<(DateTime, int), ParseError> {
    match sp_parse_date(s, i) {
        Err(e) => Err(e),
        Ok((d, j)) => match sp_tag(s, j, 84) {
            Err(e) => Err(e),
            Ok(j1) => match sp_parse_time(s, j1) {
                Err(e) => Err(e),
                Ok((t, j2)) => Ok((DateTime { date: d, time: t }, j2)),
            },
        },
    }
}

fn parse_datetime_at(s: &[u8], i: usize) -> (r: Result<(DateTime, usize), ParseError>)
    requires
        i <= s@.len(),
    ensures
        r_eq(r, sp_parse_datetime(s@, i as int)),
        r matches Ok(p) ==> i <= p.1 <= s@.len(),
{
    let (d, j) = match parse_date_at(s, i) {
        Ok(p) => p,
        Err(e) => {
            return Err(e);
        },
    };
    let j1 = match tag_byte(s, j, 84) {
        Ok(j1) => j1,
        Err(e) => {
            return Err(e);
        },
    };
    match parse_time_at(s, j1) {
        Ok((t, j2)) => Ok((DateTime { date: d, time: t }, j2)),
        Err(e) => Err(e),
    }
}

/// Parses a datetime from the start of the byte slice: the parsed value and
/// the count of bytes consumed; see [`crate::datetime()`] for the formats.
pub fn parse_datetime(i: &[u8]) -> (r: Result<(DateTime, usize), ParseError>)
    ensures
        r_eq(r, sp_parse_datetime(i@, 0)),
        r matches Ok(p) ==> p.1 <= i@.len(),
{
    parse_datetime_at(i, 0)
}

// DURATION

/// `n` followed by the unit letter `u`: one component of a duration in
/// designator form. The magnitude is unbounded (besides fitting in a `u32`).
pub open spec fn sp_dur_unit(s: Seq<u8>, i: int, u: u8) -> Result<(u32, int), ParseError> {
    match sp_take_digits(s, i) {
        Err(e) => Err(e),
        Ok((v, j)) => match sp_tag(s, j, u) {
            Err(e) => Err(e),
            Ok(j1) => Ok((v, j1)),
        },
    }
}

fn dur_unit(s: &[u8], i: usize, u: u8) -> (r: Result<(u32, usize), ParseError>)
    requires
        i <= s@.len(),
    ensures
        r_eq(r, sp_dur_unit(s@, i as int, u)),
        r matches Ok(p) ==> i <= p.1 <= s@.len(),
{
    proof {
        lemma_run_len_props(s@, i as int);
    }
    let (v, j) = match take_digits(s, i) {
        Ok(p) => p,
        Err(e) => {
            return Err(e);
        },
    };
    match tag_byte(s, j, u) {
        Ok(j1) => Ok((v, j1)),
        Err(e) => Err(e),
    }
}

/// `1*DIGIT "Y"`.
fn duration_year(s: &[u8], i: usize) -> (r: Result<(u32, usize), ParseError>)
    requires
        i <= s@.len(),
    ensures
        r_eq(r, sp_dur_unit(s@, i as int, 89)),
        r matches Ok(p) ==> i <= p.1 <= s@.len(),
{
    dur_unit(s, i, 89)
}

/// `1*DIGIT "M"`, a month count.
fn duration_month(s: &[u8], i: usize) -> (r: Result<(u32, usize), ParseError>)
    requires
        i <= s@.len(),
    ensures
        r_eq(r, sp_dur_unit(s@, i as int, 77)),
        r matches Ok(p) ==> i <= p.1 <= s@.len(),
{
    dur_unit(s, i, 77)
}

/// `1*DIGIT "W"`.
fn duration_week(s: &[u8], i: usize) -> (r: Result<(u32, usize), ParseError>)
    requires
        i <= s@.len(),
    ensures
        r_eq(r, sp_dur_unit(s@, i as int, 87)),
        r matches Ok(p) ==> i <= p.1 <= s@.len(),
{
    dur_unit(s, i, 87)
}

/// `1*DIGIT "D"`.
fn duration_day(s: &[u8], i: usize) -> (r: Result<(u32, usize), ParseError>)
    requires
        i <= s@.len(),
    ensures
        r_eq(r, sp_dur_unit(s@, i as int, 68)),
        r matches Ok(p) ==> i <= p.1 <= s@.len(),
{
    dur_unit(s, i, 68)
}

/// `1*DIGIT "H"`.
fn duration_hour(s: &[u8], i: usize) -> (r: Result<(u32, usize), ParseError>)
    requires
        i <= s@.len(),
    ensures
        r_eq(r, sp_dur_unit(s@, i as int, 72)),
        r matches Ok(p) ==> i <= p.1 <= s@.len(),
{
    dur_unit(s, i, 72)
}

/// `1*DIGIT "M"`, a minute count.
fn duration_minute(s: &[u8], i: usize) -> (r: Result<(u32, usize), ParseError>)
    requires
        i <= s@.len(),
    ensures
        r_eq(r, sp_dur_unit(s@, i as int, 77)),
        r matches Ok(p) ==> i <= p.1 <= s@.len(),
{
    dur_unit(s, i, 77)
}

/// `1*DIGIT ["." / "," 1*DIGIT] "S"`: seconds with an optional fraction,
/// the fraction truncated to milliseconds as in a time.
pub open spec fn sp_duration_secms(s: Seq<u8>, i: int) -> Result<((u32, u32), int), ParseError> {
    match sp_dur_unit(s, i, 83) {
        Ok((v, j)) => Ok(((v, 0u32), j)),
        Err(_) => match sp_take_digits(s, i) {
            Err(e) => Err(e),
            Ok((v, j)) => if 0 <= j < s.len() && (s[j] == 46 || s[j] == 44) && run_len(s, j + 1)
                > 0 {
                let n = run_len(s, j + 1);
                let ms = sp_frac_ms(s, j + 1, n);
                match sp_tag(s, j + 1 + n, 83) {
                    Err(e) => Err(e),
                    Ok(j1) => Ok(((v, ms), j1)),
                }
            } else {
                Err(ParseError::MalformedInput)
            },
        },
    }
}

fn duration_second_and_millisecond(s: &[u8], i: usize) -> (r: Result<
    ((u32, u32), usize),
    ParseError,
>)
    requires
        i <= s@.len(),
    ensures
        r_eq(r, sp_duration_secms(s@, i as int)),
        r matches Ok(p) ==> i <= p.1 <= s@.len(),
{
    match dur_unit(s, i, 83) {
        Ok((v, j)) => Ok(((v, 0), j)),
        Err(_) => {
            let (v, j) = match take_digits(s, i) {
                Ok(p) => p,
                Err(e) => {
                    return Err(e);
                },
            };
            let (ms, j1) = fraction_millisecond(s, j);
            if j1 == j {
                // No separator-plus-digit fraction stood there.
                return Err(ParseError::MalformedInput);
            }
            match tag_byte(s, j1, 83) {
                Ok(j2) => Ok(((v, ms), j2)),
                Err(e) => Err(e),
            }
        },
    }
}

/// The `T` part of a designator-form duration: hours, minutes and seconds,
/// each optional; the flag says whether any was present.
pub open spec fn sp_duration_time(s: Seq<u8>, i: int) -> ((u32, u32, u32, u32), int, bool) {
    let hp = sp_dur_unit(s, i, 72);
    let h = if hp is Ok {
        hp->Ok_0.0
    } else {
        0u32
    };
    let j1 = if hp is Ok {
        hp->Ok_0.1
    } else {
        i
    };
    let mp = sp_dur_unit(s, j1, 77);
    let mi = if mp is Ok {
        mp->Ok_0.0
    } else {
        0u32
    };
    let j2 = if mp is Ok {
        mp->Ok_0.1
    } else {
        j1
    };
    let sp = sp_duration_secms(s, j2);
    let sec = if sp is Ok {
        sp->Ok_0.0.0
    } else {
        0u32
    };
    let ms = if sp is Ok {
        sp->Ok_0.0.1
    } else {
        0u32
    };
    let j3 = if sp is Ok {
        sp->Ok_0.1
    } else {
        j2
    };
    ((h, mi, sec, ms), j3, hp is Ok || mp is Ok || sp is Ok)
}

fn duration_time(s: &[u8], i: usize) -> (r: ((u32, u32, u32, u32), usize, bool))
    requires
        i <= s@.len(),
    ensures
        (r.0, r.1 as int, r.2) == sp_duration_time(s@, i as int),
        i <= r.1 <= s@.len(),
{
    let (h, j1, anyh) = match duration_hour(s, i) {
        Ok((v, j)) => (v, j, true),
        Err(_) => (0, i, false),
    };
    let (mi, j2, anym) = match duration_minute(s, j1) {
        Ok((v, j)) => (v, j, true),
        Err(_) => (0, j1, false),
    };
    let (sec, ms, j3, anys) = match duration_second_and_millisecond(s, j2) {
        Ok(((sec, ms), j)) => (sec, ms, j, true),
        Err(_) => (0, 0, j2, false),
    };
    ((h, mi, sec, ms), j3, anyh || anym || anys)
}

/// The optional `T` section of a designator-form duration: a literal `T`
/// followed by at least one time designator, or nothing.
pub open spec fn sp_duration_tsection(s: Seq<u8>, i: int) -> Option<((u32, u32, u32, u32), int)> {
    match sp_tag(s, i, 84) {
        Err(_) => None,
        Ok(j) => {
            let (q, j1, any) = sp_duration_time(s, j);
            if any {
                Some((q, j1))
            } else {
                None
            }
        },
    }
}

/// A duration in designator form: a mandatory leading `P`, then optional
/// year, month and day components, then an optional `T` section; at least
/// one designator must be present, or the parse fails as `EmptyDuration`.
pub open spec fn sp_duration_ymdhms(s: Seq<u8>, i: int) -> Result<(Duration, int), ParseError> {
    match sp_tag(s, i, 80) {
        Err(e) => Err(e),
        Ok(j) => {
            let yp = sp_dur_unit(s, j, 89);
            let y = if yp is Ok {
                yp->Ok_0.0
            } else {
                0u32
            };
            let j1 = if yp is Ok {
                yp->Ok_0.1
            } else {
                j
            };
            let mp = sp_dur_unit(s, j1, 77);
            let mo = if mp is Ok {
                mp->Ok_0.0
            } else {
                0u32
            };
            let j2 = if mp is Ok {
                mp->Ok_0.1
            } else {
                j1
            };
            let dp = sp_dur_unit(s, j2, 68);
            let d = if dp is Ok {
                dp->Ok_0.0
            } else {
                0u32
            };
            let j3 = if dp is Ok {
                dp->Ok_0.1
            } else {
                j2
            };
            match sp_duration_tsection(s, j3) {
                Some((q, j4)) => Ok(
                    (
                        Duration::YMDHMS {
                            year: y,
                            month: mo,
                            day: d,
                            hour: q.0,
                            minute: q.1,
                            second: q.2,
                            millisecond: q.3,
                        },
                        j4,
                    ),
                ),
                None => if yp is Ok || mp is Ok || dp is Ok {
                    Ok(
                        (
                            Duration::YMDHMS {
                                year: y,
                                month: mo,
                                day: d,
                                hour: 0,
                                minute: 0,
                                second: 0,
                                millisecond: 0,
                            },
                            j3,
                        ),
                    )
                } else {
                    Err(ParseError::EmptyDuration)
                },
            }
        },
    }
}

fn duration_ymdhms(s: &[u8], i: usize) -> (r: Result<(Duration, usize), ParseError>)
    requires
        i <= s@.len(),
    ensures
        r_eq(r, sp_duration_ymdhms(s@, i as int)),
        r matches Ok(p) ==> i <= p.1 <= s@.len(),
{
    let j = match tag_byte(s, i, 80) {
        Ok(j) => j,
        Err(e) => {
            return Err(e);
        },
    };
    let (y, j1, anyy) = match duration_year(s, j) {
        Ok((v, k)) => (v, k, true),
        Err(_) => (0, j, false),
    };
    let (mo, j2, anymo) = match duration_month(s, j1) {
        Ok((v, k)) => (v, k, true),
        Err(_) => (0, j1, false),
    };
    let (d, j3, anyd) = match duration_day(s, j2) {
        Ok((v, k)) => (v, k, true),
        Err(_) => (0, j2, false),
    };
    // The T section: a literal T followed by at least one time designator.
    match tag_byte(s, j3, 84) {
        Ok(j4) => {
            let ((h, mi, sec, ms), j5, anyt) = duration_time(s, j4);
            if anyt {
                return Ok(
                    (
                        Duration::YMDHMS {
                            year: y,
                            month: mo,
                            day: d,
                            hour: h,
                            minute: mi,
                            second: sec,
                            millisecond: ms,
                        },
                        j5,
                    ),
                );
            }
            if anyy || anymo || anyd {
                Ok(
                    (
                        Duration::YMDHMS {
                            year: y,
                            month: mo,
                            day: d,
                            hour: 0,
                            minute: 0,
                            second: 0,
                            millisecond: 0,
                        },
                        j3,
                    ),
                )
            } else {
                Err(ParseError::EmptyDuration)
            }
        },
        Err(_) => {
            if anyy || anymo || anyd {
                Ok(
                    (
                        Duration::YMDHMS {
                            year: y,
                            month: mo,
                            day: d,
                            hour: 0,
                            minute: 0,
                            second: 0,
                            millisecond: 0,
                        },
                        j3,
                    ),
                )
            } else {
                Err(ParseError::EmptyDuration)
            }
        },
    }
}

/// `P` followed by a week count: `P26W`.
pub open spec fn sp_duration_weeks(s: Seq<u8>, i: int) -> Result<(Duration, int), ParseError> {
    match sp_tag(s, i, 80) {
        Err(e) => Err(e),
        Ok(j) => match sp_dur_unit(s, j, 87) {
            Err(e) => Err(e),
            Ok((w, j1)) => Ok((Duration::Weeks(w), j1)),
        },
    }
}

fn duration_weeks(s: &[u8], i: usize) -> (r: Result<(Duration, usize), ParseError>)
    requires
        i <= s@.len(),
    ensures
        r_eq(r, sp_duration_weeks(s@, i as int)),
        r matches Ok(p) ==> i <= p.1 <= s@.len(),
{
    let j = match tag_byte(s, i, 80) {
        Ok(j) => j,
        Err(e) => {
            return Err(e);
        },
    };
    match duration_week(s, j) {
        Ok((w, j1)) => Ok((Duration::Weeks(w), j1)),
        Err(e) => Err(e),
    }
}

/// `P` immediately followed by a datetime whose year carries no sign: the
/// result is normalized into unit form, the timezone discarded.
pub open spec fn sp_duration_datetime(s: Seq<u8>, i: int) -> Result<(Duration, int), ParseError> {
    match sp_tag(s, i, 80) {
        Err(e) => Err(e),
        Ok(j) => if 0 <= j < s.len() && (s[j] == 43 || s[j] == 45) {
            Err(ParseError::MalformedInput)
        } else {
            match sp_take_n_digits(s, j, 4) {
                Err(e) => Err(e),
                Ok((y, j1)) => {
                    let j2 = sp_opt_byte(s, j1, 45);
                    match sp_field(s, j2, 2, 1, 12) {
                        Err(e) => Err(e),
                        Ok((mo, j3)) => {
                            let j4 = sp_opt_byte(s, j3, 45);
                            match sp_field(s, j4, 2, 1, 31) {
                                Err(e) => Err(e),
                                Ok((d, j5)) => match sp_tag(s, j5, 84) {
                                    Err(e) => Err(e),
                                    Ok(j6) => match sp_parse_time(s, j6) {
                                        Err(e) => Err(e),
                                        Ok((t, j7)) => Ok(
                                            (
                                                Duration::YMDHMS {
                                                    year: y,
                                                    month: mo,
                                                    day: d,
                                                    hour: t.hour,
                                                    minute: t.minute,
                                                    second: t.second,
                                                    millisecond: t.millisecond,
                                                },
                                                j7,
                                            ),
                                        ),
                                    },
                                },
                            }
                        },
                    }
                },
            }
        },
    }
}

fn duration_datetime(s: &[u8], i: usize) -> (r: Result<(Duration, usize), ParseError>)
    requires
        i <= s@.len(),
    ensures
        r_eq(r, sp_duration_datetime(s@, i as int)),
        r matches Ok(p) ==> i <= p.1 <= s@.len(),
{
    let j = match tag_byte(s, i, 80) {
        Ok(j) => j,
        Err(e) => {
            return Err(e);
        },
    };
    if j < s.len() && (s[j] == 43 || s[j] == 45) {
        return Err(ParseError::MalformedInput);
    }
    let (y, j1) = match take_n_digits(s, j, 4) {
        Ok(p) => p,
        Err(e) => {
            return Err(e);
        },
    };
    let j2 = opt_byte(s, j1, 45);
    let (mo, j3) = match date_month(s, j2) {
        Ok(p) => p,
        Err(e) => {
            return Err(e);
        },
    };
    let j4 = opt_byte(s, j3, 45);
    let (d, j5) = match date_day(s, j4) {
        Ok(p) => p,
        Err(e) => {
            return Err(e);
        },
    };
    let j6 = match tag_byte(s, j5, 84) {
        Ok(j6) => j6,
        Err(e) => {
            return Err(e);
        },
    };
    match parse_time_at(s, j6) {
        Ok((t, j7)) => Ok(
            (
                Duration::YMDHMS {
                    year: y,
                    month: mo,
                    day: d,
                    hour: t.hour,
                    minute: t.minute,
                    second: t.second,
                    millisecond: t.millisecond,
                },
                j7,
            ),
        ),
        Err(e) => Err(e),
    }
}

/// A duration: the designator, week and datetime alternatives, tried in that
/// order. When all three fail, the error is `EmptyDuration` exactly when the
/// designator alternative matched its leading `P` but held no designator.
pub open spec fn sp_parse_duration(s: Seq<u8>, i: int) -> Result<(Duration, int), ParseError> {
    if sp_duration_ymdhms(s, i) is Ok {
        sp_duration_ymdhms(s, i)
    } else if sp_duration_weeks(s, i) is Ok {
        sp_duration_weeks(s, i)
    } else if sp_duration_datetime(s, i) is Ok {
        sp_duration_datetime(s, i)
    } else if sp_duration_ymdhms(s, i) == Err::<(Duration, int), ParseError>(
        ParseError::EmptyDuration,
    ) {
        Err(ParseError::EmptyDuration)
    } else {
        Err(ParseError::MalformedInput)
    }
}

fn parse_duration_at(s: &[u8], i: usize) -> (r: Result<(Duration, usize), ParseError>)
    requires
        i <= s@.len(),
    ensures
        r_eq(r, sp_parse_duration(s@, i as int)),
        r matches Ok(p) ==> i <= p.1 <= s@.len(),
{
    let first = duration_ymdhms(s, i);
    match first {
        Ok(p) => Ok(p),
        Err(e1) => match duration_weeks(s, i) {
            Ok(p) => Ok(p),
            Err(_) => match duration_datetime(s, i) {
                Ok(p) => Ok(p),
                Err(_) => {
                    if matches!(e1, ParseError::EmptyDuration) {
                        Err(ParseError::EmptyDuration)
                    } else {
                        Err(ParseError::MalformedInput)
                    }
                },
            },
        },
    }
}

/// Parses a duration from the start of the byte slice: the parsed value and
/// the count of bytes consumed; see [`crate::duration()`] for the formats.
pub fn parse_duration(i: &[u8]) -> (r: Result<(Duration, usize), ParseError>)
    ensures
        r_eq(r, sp_parse_duration(i@, 0)),
        r matches Ok(p) ==> p.1 <= i@.len(),
{
    parse_duration_at(i, 0)
}

} // verus!
