//! The round-trip laws: a value rendered and parsed back is the same value.
//!
//! For every value that a parse can produce, parsing its canonical textual
//! form yields the value itself and consumes the whole text. Stated over the
//! spec-level parsers and renderers, which the executable parsers and
//! renderers are proved to implement exactly.

use vstd::prelude::*;

use crate::date::Date;
use crate::datetime::DateTime;
use crate::digits::{
    all_digits, dec_rep, is_digit_byte, lemma_dec_rep, lemma_padded,
    lemma_padded_exact, lemma_run_len_exact, nv, padded, pow10, run_len, sp_field,
    sp_take_digits, sp_take_n_digits,
};
use crate::display::{
    abs_nat, sp_render_date, sp_render_datetime, sp_render_duration, sp_render_duration_time,
    sp_render_time, sp_render_timezone, sp_render_year,
};
use crate::duration::Duration;
use crate::parsers::{
    lemma_pow10_values, lemma_take_n_digits_val, sp_date_ordinal, sp_date_year, sp_date_ymd, sp_date_iso_week,
    sp_dur_unit, sp_duration_secms, sp_duration_time, sp_duration_tsection, sp_duration_weeks,
    sp_duration_ymdhms, sp_fraction_opt, sp_frac_ms, sp_opt_byte, sp_opt_sign, sp_parse_date,
    sp_parse_datetime, sp_parse_duration, sp_parse_time, sp_parse_timezone, sp_sign, sp_tag,
    sp_timezone_hour, sp_timezone_opt, ParseError,
};
use crate::time::Time;
use crate::timezone::Timezone;

verus! {

/// A block of `w` digits standing at `i` that spells `v` is read as `v`.
proof fn lemma_field_of_padded(s: Seq<u8>, i: int, v: u32, w: int, lo: u32, hi: u32)
    requires
        0 <= i,
        1 <= w <= 9,
        i + w <= s.len(),
        (v as nat) < pow10(w as nat),
        lo <= v <= hi,
        s.subrange(i, i + w) == padded(v as nat, w as nat),
    ensures
        sp_field(s, i, w, lo, hi) == Ok::<(u32, int), ParseError>((v, i + w)),
        sp_take_n_digits(s, i, w) == Ok::<(u32, int), ParseError>((v, i + w)),
{
    lemma_padded_exact(v as nat, w as nat);
    lemma_padded(v as nat, w as nat);
    assert(all_digits(s.subrange(i, i + w)));
    assert(nv(s.subrange(i, i + w)) == v as nat);
}

/// A piece of a block of `s` equals the same piece of the block's content.
proof fn lemma_slice_eq(s: Seq<u8>, i: int, r: Seq<u8>, a: int, b: int)
    requires
        0 <= i,
        i + r.len() <= s.len(),
        s.subrange(i, i + r.len()) == r,
        0 <= a <= b <= r.len(),
    ensures
        s.subrange(i + a, i + b) == r.subrange(a, b),
{
    assert forall|k: int| 0 <= k < b - a implies s.subrange(i + a, i + b)[k] == r.subrange(a, b)[k] by {
        assert(s.subrange(i, i + r.len())[a + k] == r[a + k]);
        assert(s.subrange(i + a, i + b)[k] == s[i + a + k]);
        assert(s.subrange(i, i + r.len())[a + k] == s[i + a + k]);
        assert(r.subrange(a, b)[k] == r[a + k]);
    }
    assert(s.subrange(i + a, i + b) =~= r.subrange(a, b));
}

/// A byte of a block of `s` equals the same byte of the block's content.
proof fn lemma_byte_eq(s: Seq<u8>, i: int, r: Seq<u8>, a: int)
    requires
        0 <= i,
        i + r.len() <= s.len(),
        s.subrange(i, i + r.len()) == r,
        0 <= a < r.len(),
    ensures
        s[i + a] == r[a],
{
    assert(s.subrange(i, i + r.len())[a] == s[i + a]);
}

/// A rendered year starting at `i` is read back as that year.
proof fn lemma_year_of_render(s: Seq<u8>, i: int, y: i32)
    requires
        -9999 <= y <= 9999,
        0 <= i,
        i + sp_render_year(y as int).len() <= s.len(),
        s.subrange(i, i + sp_render_year(y as int).len()) == sp_render_year(y as int),
    ensures
        sp_date_year(s, i) == Ok::<(i32, int), ParseError>(
            (y, i + sp_render_year(y as int).len()),
        ),
{
    lemma_pow10_values();
    let ry = sp_render_year(y as int);
    lemma_padded_exact(abs_nat(y as int), 4);
    lemma_padded(abs_nat(y as int), 4);
    if y < 0 {
        assert(ry.len() == 5);
        assert(s[i] == ry[0]);
        assert(s[i] == 45);
        assert(sp_opt_sign(s, i) == (-1int, i + 1));
        assert(s.subrange(i + 1, i + 5) == padded(abs_nat(y as int), 4)) by {
            assert forall|k: int| 0 <= k < 4 implies s.subrange(i + 1, i + 5)[k] == padded(
                abs_nat(y as int),
                4,
            )[k] by {
                assert(s.subrange(i + 1, i + 5)[k] == s[i + 1 + k]);
                assert(s[i + 1 + k] == ry[1 + k]);
            }
            assert(s.subrange(i + 1, i + 5) =~= padded(abs_nat(y as int), 4));
        }
        assert(all_digits(s.subrange(i + 1, i + 5)));
        assert(nv(s.subrange(i + 1, i + 5)) == abs_nat(y as int));
        assert(sp_take_n_digits(s, i + 1, 4) == Ok::<(u32, int), ParseError>(
            ((-y) as u32, i + 5),
        ));
        assert(sp_date_year(s, i) == Ok::<(i32, int), ParseError>((y, i + 5)));
    } else {
        assert(ry == padded(abs_nat(y as int), 4));
        assert(ry.len() == 4);
        assert(s[i] == ry[0]);
        assert(is_digit_byte(s[i]));
        assert(s[i] != 45 && s[i] != 43);
        assert(sp_opt_sign(s, i) == (1int, i));
        assert(s.subrange(i, i + 4) == padded(abs_nat(y as int), 4));
        assert(all_digits(s.subrange(i, i + 4)));
        assert(nv(s.subrange(i, i + 4)) == abs_nat(y as int));
        assert(sp_take_n_digits(s, i, 4) == Ok::<(u32, int), ParseError>((y as u32, i + 4)));
        assert((1int * (y as u32)) as i32 == y);
        assert(sp_date_year(s, i) == Ok::<(i32, int), ParseError>(
            (((1int * (y as u32)) as i32), i + 4),
        ));
    }
}

/// A rendered calendar date parses as itself, by the calendar alternative.
proof fn lemma_ymd_of_render(s: Seq<u8>, i: int, d: Date)
    requires
        d is YMD,
        d.wf(),
        0 <= i,
        i + sp_render_date(d).len() <= s.len(),
        s.subrange(i, i + sp_render_date(d).len()) == sp_render_date(d),
    ensures
        sp_date_ymd(s, i) == Ok::<(Date, int), ParseError>((d, i + sp_render_date(d).len())),
{
    lemma_pow10_values();
    let y = d->YMD_year;
    let mo = d->YMD_month;
    let dy = d->YMD_day;
    let ry = sp_render_year(y as int);
    let rd = sp_render_date(d);
    let yl = ry.len() as int;
    let pm = padded(mo as nat, 2);
    let pd = padded(dy as nat, 2);
    let c1 = ry + seq![45u8];
    let c2 = c1 + pm;
    let c3 = c2 + seq![45u8];
    assert(rd == c3 + pd);
    lemma_padded_exact(mo as nat, 2);
    lemma_padded_exact(dy as nat, 2);
    assert(rd.len() == yl + 6);
    assert(rd.subrange(0, yl) =~= ry);
    assert(rd[yl] == 45) by {
        assert(rd[yl] == c3[yl]);
        assert(c3[yl] == c1[yl]);
    }
    assert(rd.subrange(yl + 1, yl + 3) =~= pm) by {
        assert forall|k: int| 0 <= k < 2 implies rd.subrange(yl + 1, yl + 3)[k] == pm[k] by {
            assert(rd[yl + 1 + k] == c3[yl + 1 + k]);
            assert(c3[yl + 1 + k] == c2[yl + 1 + k]);
            assert(c2[yl + 1 + k] == pm[k]);
        }
    }
    assert(rd[yl + 3] == 45) by {
        assert(rd[yl + 3] == c3[yl + 3]);
    }
    assert(rd.subrange(yl + 4, yl + 6) =~= pd) by {
        assert forall|k: int| 0 <= k < 2 implies rd.subrange(yl + 4, yl + 6)[k] == pd[k] by {
            assert(rd[yl + 4 + k] == pd[k]);
        }
    }
    lemma_slice_eq(s, i, rd, 0, yl);
    lemma_byte_eq(s, i, rd, yl);
    lemma_slice_eq(s, i, rd, yl + 1, yl + 3);
    lemma_byte_eq(s, i, rd, yl + 3);
    lemma_slice_eq(s, i, rd, yl + 4, yl + 6);
    assert(s.subrange(i, i + yl) == ry);
    lemma_year_of_render(s, i, y);
    let j = i + yl;
    assert(s[j] == 45);
    assert(sp_opt_byte(s, j, 45) == j + 1);
    assert(s.subrange(j + 1, j + 3) == pm);
    lemma_field_of_padded(s, j + 1, mo, 2, 1, 12);
    assert(s[j + 3] == 45);
    assert(sp_opt_byte(s, j + 3, 45) == j + 4);
    assert(s.subrange(j + 4, j + 6) == pd);
    lemma_field_of_padded(s, j + 4, dy, 2, 1, 31);
    assert(sp_date_ymd(s, i) == Ok::<(Date, int), ParseError>((d, j + 6)));
}

/// A rendered week date parses as itself, by the week alternative.
proof fn lemma_week_of_render(s: Seq<u8>, i: int, d: Date)
    requires
        d is Week,
        d.wf(),
        0 <= i,
        i + sp_render_date(d).len() <= s.len(),
        s.subrange(i, i + sp_render_date(d).len()) == sp_render_date(d),
    ensures
        sp_date_iso_week(s, i) == Ok::<(Date, int), ParseError>((d, i + sp_render_date(d).len())),
        sp_date_ymd(s, i) is Err,
{
    lemma_pow10_values();
    let y = d->Week_year;
    let ww = d->Week_ww;
    let wd = d->Week_d;
    let ry = sp_render_year(y as int);
    let rd = sp_render_date(d);
    let yl = ry.len() as int;
    let pw = padded(ww as nat, 2);
    let pd = padded(wd as nat, 1);
    let c1 = ry + seq![45u8, 87u8];
    let c2 = c1 + pw;
    let c3 = c2 + seq![45u8];
    assert(rd == c3 + pd);
    lemma_padded_exact(ww as nat, 2);
    lemma_padded_exact(wd as nat, 1);
    assert(rd.len() == yl + 6);
    assert(rd.subrange(0, yl) =~= ry);
    assert(rd[yl] == 45 && rd[yl + 1] == 87) by {
        assert(rd[yl] == c3[yl]);
        assert(c3[yl] == c1[yl]);
        assert(rd[yl + 1] == c3[yl + 1]);
        assert(c3[yl + 1] == c1[yl + 1]);
    }
    assert(rd.subrange(yl + 2, yl + 4) =~= pw) by {
        assert forall|k: int| 0 <= k < 2 implies rd.subrange(yl + 2, yl + 4)[k] == pw[k] by {
            assert(rd[yl + 2 + k] == c3[yl + 2 + k]);
            assert(c3[yl + 2 + k] == c2[yl + 2 + k]);
            assert(c2[yl + 2 + k] == pw[k]);
        }
    }
    assert(rd[yl + 4] == 45) by {
        assert(rd[yl + 4] == c3[yl + 4]);
    }
    assert(rd.subrange(yl + 5, yl + 6) =~= pd) by {
        assert(rd[yl + 5] == pd[0]);
    }
    lemma_slice_eq(s, i, rd, 0, yl);
    lemma_byte_eq(s, i, rd, yl);
    lemma_byte_eq(s, i, rd, yl + 1);
    lemma_slice_eq(s, i, rd, yl + 2, yl + 4);
    lemma_byte_eq(s, i, rd, yl + 4);
    lemma_slice_eq(s, i, rd, yl + 5, yl + 6);
    assert(s.subrange(i, i + yl) == ry);
    lemma_year_of_render(s, i, y);
    let j = i + yl;
    assert(s[j] == 45);
    assert(s[j + 1] == 87);
    assert(sp_opt_byte(s, j, 45) == j + 1);
    assert(sp_tag(s, j + 1, 87) == Ok::<int, ParseError>(j + 2));
    assert(s.subrange(j + 2, j + 4) == pw);
    lemma_field_of_padded(s, j + 2, ww, 2, 1, 52);
    assert(s[j + 4] == 45);
    assert(sp_opt_byte(s, j + 4, 45) == j + 5);
    assert(s.subrange(j + 5, j + 6) == pd);
    lemma_field_of_padded(s, j + 5, wd, 1, 1, 7);
    assert(sp_date_iso_week(s, i) == Ok::<(Date, int), ParseError>((d, j + 6)));
    // The calendar alternative stops at the `W`, which is no digit.
    assert(!is_digit_byte(s[j + 1]));
    assert(sp_take_n_digits(s, j + 1, 2) is Err) by {
        if sp_take_n_digits(s, j + 1, 2) is Ok {
            assert(all_digits(s.subrange(j + 1, j + 3)));
            assert(s.subrange(j + 1, j + 3)[0] == s[j + 1]);
        }
    }
    assert(sp_date_ymd(s, i) is Err);
}

/// A rendered ordinal date parses as itself, by the ordinal alternative,
/// when no digit follows it; the calendar and week alternatives both fail.
proof fn lemma_ordinal_of_render(s: Seq<u8>, i: int, d: Date)
    requires
        d is Ordinal,
        d.wf(),
        0 <= i,
        i + sp_render_date(d).len() <= s.len(),
        s.subrange(i, i + sp_render_date(d).len()) == sp_render_date(d),
        i + sp_render_date(d).len() == s.len() || !is_digit_byte(s[i + sp_render_date(d).len()]),
    ensures
        sp_date_ordinal(s, i) == Ok::<(Date, int), ParseError>((d, i + sp_render_date(d).len())),
        sp_date_ymd(s, i) is Err,
        sp_date_iso_week(s, i) is Err,
{
    lemma_pow10_values();
    let y = d->Ordinal_year;
    let ddd = d->Ordinal_ddd;
    let ry = sp_render_year(y as int);
    let rd = sp_render_date(d);
    let yl = ry.len() as int;
    let p3 = padded(ddd as nat, 3);
    let c1 = ry + seq![45u8];
    assert(rd == c1 + p3);
    lemma_padded_exact(ddd as nat, 3);
    lemma_padded(ddd as nat, 3);
    assert(rd.len() == yl + 4);
    assert(rd.subrange(0, yl) =~= ry);
    assert(rd[yl] == 45) by {
        assert(rd[yl] == c1[yl]);
    }
    assert(rd.subrange(yl + 1, yl + 4) =~= p3) by {
        assert forall|k: int| 0 <= k < 3 implies rd.subrange(yl + 1, yl + 4)[k] == p3[k] by {
            assert(rd[yl + 1 + k] == p3[k]);
        }
    }
    lemma_slice_eq(s, i, rd, 0, yl);
    lemma_byte_eq(s, i, rd, yl);
    lemma_slice_eq(s, i, rd, yl + 1, yl + 4);
    assert(s.subrange(i, i + yl) == ry);
    lemma_year_of_render(s, i, y);
    let j = i + yl;
    assert(s[j] == 45);
    assert(sp_opt_byte(s, j, 45) == j + 1);
    assert(s.subrange(j + 1, j + 4) == p3);
    lemma_field_of_padded(s, j + 1, ddd, 3, 1, 366);
    assert(sp_date_ordinal(s, i) == Ok::<(Date, int), ParseError>((d, j + 4)));
    // The week alternative needs a `W` where a digit stands.
    assert(is_digit_byte(s[j + 1])) by {
        assert(s[j + 1] == p3[0]);
    }
    assert(sp_tag(s, j + 1, 87) is Err);
    assert(sp_date_iso_week(s, i) is Err);
    // The calendar alternative would need two day digits where at most one
    // digit is left before the end or a non-digit.
    assert(is_digit_byte(s[j + 2]) && is_digit_byte(s[j + 3])) by {
        assert(s[j + 2] == p3[1]);
        assert(s[j + 3] == p3[2]);
    }
    let first2 = s.subrange(j + 1, j + 3);
    assert(all_digits(first2));
    let m0 = nv(first2);
    assert(m0 < 100) by {
        crate::digits::lemma_nv_bound(first2);
    }
    assert(sp_take_n_digits(s, j + 1, 2) == Ok::<(u32, int), ParseError>((m0 as u32, j + 3)));
    if 1 <= m0 <= 12 {
        // The month digits pass, but the day read runs into the non-digit.
        assert(sp_field(s, j + 1, 2, 1, 12) == Ok::<(u32, int), ParseError>((m0 as u32, j + 3)));
        assert(s[j + 3] != 45);
        assert(sp_opt_byte(s, j + 3, 45) == j + 3);
        assert(sp_take_n_digits(s, j + 3, 2) is Err) by {
            if j + 5 <= s.len() {
                if all_digits(s.subrange(j + 3, j + 5)) {
                    assert(s.subrange(j + 3, j + 5)[1] == s[j + 4]);
                    assert(is_digit_byte(s[j + 4]));
                }
            }
        }
        assert(sp_date_ymd(s, i) is Err);
    } else {
        assert(sp_field(s, j + 1, 2, 1, 12) is Err);
        assert(sp_date_ymd(s, i) is Err);
    }
}

/// What a parse can produce, a render followed by a parse gives back: the
/// date round trip, stated at any position whose date text no digit follows.
proof fn lemma_date_of_render(s: Seq<u8>, i: int, d: Date)
    requires
        d.wf(),
        0 <= i,
        i + sp_render_date(d).len() <= s.len(),
        s.subrange(i, i + sp_render_date(d).len()) == sp_render_date(d),
        i + sp_render_date(d).len() == s.len() || !is_digit_byte(s[i + sp_render_date(d).len()]),
    ensures
        sp_parse_date(s, i) == Ok::<(Date, int), ParseError>((d, i + sp_render_date(d).len())),
{
    match d {
        Date::YMD { .. } => {
            lemma_ymd_of_render(s, i, d);
        },
        Date::Week { .. } => {
            lemma_week_of_render(s, i, d);
        },
        Date::Ordinal { .. } => {
            lemma_ordinal_of_render(s, i, d);
        },
    }
}

/// **Round trip, dates**: any date a parse can produce, rendered and parsed
/// again, is the same date, and its text is consumed whole.
pub proof fn round_trip_date(d: Date)
    requires
        d.wf(),
    ensures
        sp_parse_date(sp_render_date(d), 0) == Ok::<(Date, int), ParseError>(
            (d, sp_render_date(d).len() as int),
        ),
{
    let s = sp_render_date(d);
    assert(s.subrange(0, s.len() as int) =~= s);
    lemma_date_of_render(s, 0, d);
}


/// A rendered timezone starting at `i` is read back as that timezone.
proof fn lemma_timezone_of_render(s: Seq<u8>, i: int, tz: Timezone)
    requires
        tz.wf(),
        0 <= i,
        i + 6 <= s.len(),
        s.subrange(i, i + 6) == sp_render_timezone(tz),
    ensures
        sp_timezone_hour(s, i) == Ok::<(Timezone, int), ParseError>((tz, i + 6)),
{
    lemma_pow10_values();
    let rt = sp_render_timezone(tz);
    let hm = abs_nat(tz.offset_hours as int);
    let mm = abs_nat(tz.offset_minutes as int);
    let sb: u8 = if tz.offset_hours < 0 || tz.offset_minutes < 0 {
        45u8
    } else {
        43u8
    };
    let ph = padded(hm, 2);
    let pm = padded(mm, 2);
    let c1 = seq![sb] + ph;
    let c2 = c1 + seq![58u8];
    assert(rt == c2 + pm);
    lemma_padded_exact(hm, 2);
    lemma_padded_exact(mm, 2);
    assert(rt.len() == 6);
    assert(rt[0] == sb) by {
        assert(rt[0] == c2[0]);
        assert(c2[0] == c1[0]);
    }
    assert(rt.subrange(1, 3) =~= ph) by {
        assert forall|k: int| 0 <= k < 2 implies rt.subrange(1, 3)[k] == ph[k] by {
            assert(rt[1 + k] == c2[1 + k]);
            assert(c2[1 + k] == c1[1 + k]);
            assert(c1[1 + k] == ph[k]);
        }
    }
    assert(rt[3] == 58) by {
        assert(rt[3] == c2[3]);
    }
    assert(rt.subrange(4, 6) =~= pm) by {
        assert forall|k: int| 0 <= k < 2 implies rt.subrange(4, 6)[k] == pm[k] by {
            assert(rt[4 + k] == pm[k]);
        }
    }
    lemma_byte_eq(s, i, rt, 0);
    lemma_slice_eq(s, i, rt, 1, 3);
    lemma_byte_eq(s, i, rt, 3);
    lemma_slice_eq(s, i, rt, 4, 6);
    let sg: int = if sb == 45 {
        -1int
    } else {
        1int
    };
    assert(sp_sign(s, i) == Ok::<(int, int), ParseError>((sg, i + 1)));
    lemma_field_of_padded(s, i + 1, hm as u32, 2, 0, 24);
    assert(sp_opt_byte(s, i + 3, 58) == i + 4);
    lemma_field_of_padded(s, i + 4, mm as u32, 2, 0, 59);
    assert((sg * (hm as u32)) as i32 == tz.offset_hours);
    assert((sg * (mm as u32)) as i32 == tz.offset_minutes);
    assert(sp_timezone_hour(s, i) == Ok::<(Timezone, int), ParseError>((tz, i + 6)));
}

/// A rendered time starting at `i` is read back as that time.
proof fn lemma_time_of_render(s: Seq<u8>, i: int, t: Time)
    requires
        t.wf(),
        0 <= i,
        i + 18 <= s.len(),
        s.subrange(i, i + 18) == sp_render_time(t),
    ensures
        sp_parse_time(s, i) == Ok::<(Time, int), ParseError>((t, i + 18)),
{
    lemma_pow10_values();
    let rt = sp_render_time(t);
    let ph = padded(t.hour as nat, 2);
    let pmi = padded(t.minute as nat, 2);
    let psec = padded(t.second as nat, 2);
    let pms = padded(t.millisecond as nat, 3);
    let rtz = sp_render_timezone(t.timezone);
    let c1 = ph + seq![58u8];
    let c2 = c1 + pmi;
    let c3 = c2 + seq![58u8];
    let c4 = c3 + psec;
    let c5 = c4 + seq![46u8];
    let c6 = c5 + pms;
    assert(rt == c6 + rtz);
    lemma_padded_exact(t.hour as nat, 2);
    lemma_padded_exact(t.minute as nat, 2);
    lemma_padded_exact(t.second as nat, 2);
    lemma_padded_exact(t.millisecond as nat, 3);
    lemma_padded(t.millisecond as nat, 3);
    lemma_padded_exact(abs_nat(t.timezone.offset_hours as int), 2);
    lemma_padded_exact(abs_nat(t.timezone.offset_minutes as int), 2);
    assert(rtz.len() == 6);
    assert(rt.len() == 18);
    assert(rt.subrange(0, 2) =~= ph) by {
        assert forall|k: int| 0 <= k < 2 implies rt.subrange(0, 2)[k] == ph[k] by {
            assert(rt[k] == c6[k]);
            assert(c6[k] == c5[k]);
            assert(c5[k] == c4[k]);
            assert(c4[k] == c3[k]);
            assert(c3[k] == c2[k]);
            assert(c2[k] == c1[k]);
            assert(c1[k] == ph[k]);
        }
    }
    assert(rt[2] == 58) by {
        assert(rt[2] == c6[2]);
        assert(c6[2] == c5[2]);
        assert(c5[2] == c4[2]);
        assert(c4[2] == c3[2]);
        assert(c3[2] == c2[2]);
        assert(c2[2] == c1[2]);
    }
    assert(rt.subrange(3, 5) =~= pmi) by {
        assert forall|k: int| 0 <= k < 2 implies rt.subrange(3, 5)[k] == pmi[k] by {
            assert(rt[3 + k] == c6[3 + k]);
            assert(c6[3 + k] == c5[3 + k]);
            assert(c5[3 + k] == c4[3 + k]);
            assert(c4[3 + k] == c3[3 + k]);
            assert(c3[3 + k] == c2[3 + k]);
            assert(c2[3 + k] == pmi[k]);
        }
    }
    assert(rt[5] == 58) by {
        assert(rt[5] == c6[5]);
        assert(c6[5] == c5[5]);
        assert(c5[5] == c4[5]);
        assert(c4[5] == c3[5]);
    }
    assert(rt.subrange(6, 8) =~= psec) by {
        assert forall|k: int| 0 <= k < 2 implies rt.subrange(6, 8)[k] == psec[k] by {
            assert(rt[6 + k] == c6[6 + k]);
            assert(c6[6 + k] == c5[6 + k]);
            assert(c5[6 + k] == c4[6 + k]);
            assert(c4[6 + k] == psec[k]);
        }
    }
    assert(rt[8] == 46) by {
        assert(rt[8] == c6[8]);
        assert(c6[8] == c5[8]);
    }
    assert(rt.subrange(9, 12) =~= pms) by {
        assert forall|k: int| 0 <= k < 3 implies rt.subrange(9, 12)[k] == pms[k] by {
            assert(rt[9 + k] == c6[9 + k]);
            assert(c6[9 + k] == pms[k]);
        }
    }
    assert(rt.subrange(12, 18) =~= rtz) by {
        assert forall|k: int| 0 <= k < 6 implies rt.subrange(12, 18)[k] == rtz[k] by {
            assert(rt[12 + k] == rtz[k]);
        }
    }
    lemma_slice_eq(s, i, rt, 0, 2);
    lemma_byte_eq(s, i, rt, 2);
    lemma_slice_eq(s, i, rt, 3, 5);
    lemma_byte_eq(s, i, rt, 5);
    lemma_slice_eq(s, i, rt, 6, 8);
    lemma_byte_eq(s, i, rt, 8);
    lemma_slice_eq(s, i, rt, 9, 12);
    lemma_slice_eq(s, i, rt, 12, 18);
    // Hour, minute, second.
    lemma_field_of_padded(s, i, t.hour, 2, 0, 24);
    assert(sp_opt_byte(s, i + 2, 58) == i + 3);
    lemma_field_of_padded(s, i + 3, t.minute, 2, 0, 59);
    assert(sp_opt_byte(s, i + 5, 58) == i + 6);
    lemma_field_of_padded(s, i + 6, t.second, 2, 0, 60);
    // The fraction: exactly the three millisecond digits.
    assert(s[i + 8] == 46);
    assert(all_digits(s.subrange(i + 9, i + 12))) by {
        lemma_padded(t.millisecond as nat, 3);
    }
    let sb: u8 = if t.timezone.offset_hours < 0 || t.timezone.offset_minutes < 0 {
        45u8
    } else {
        43u8
    };
    assert(s[i + 12] == sb) by {
        lemma_byte_eq(s, i + 12, rtz, 0);
        assert(rtz[0] == sb);
    }
    assert(run_len(s, i + 9) == 3) by {
        assert forall|k: int| i + 9 <= k < i + 12 implies is_digit_byte(#[trigger] s[k]) by {
            assert(s.subrange(i + 9, i + 12)[k - (i + 9)] == s[k]);
        }
        assert(!is_digit_byte(s[i + 12]));
        lemma_run_len_exact(s, i + 9, 3);
    }
    assert(sp_fraction_opt(s, i + 8) == (t.millisecond, i + 12)) by {
        assert(nv(s.subrange(i + 9, i + 12)) == t.millisecond as nat);
        assert(sp_frac_ms(s, i + 9, 3) == (nv(s.subrange(i + 9, i + 12)) * pow10(0)) as u32);
    }
    // The timezone.
    lemma_timezone_of_render(s, i + 12, t.timezone);
    assert(sp_timezone_opt(s, i + 12) == (t.timezone, i + 18));
    assert(sp_parse_time(s, i) == Ok::<(Time, int), ParseError>((t, i + 18)));
}

/// **Round trip, timezones**: any timezone a parse can produce, rendered
/// and parsed again, is the same timezone, and its text is consumed whole.
pub proof fn round_trip_timezone(tz: Timezone)
    requires
        tz.wf(),
    ensures
        sp_parse_timezone(sp_render_timezone(tz), 0) == Ok::<(Timezone, int), ParseError>(
            (tz, sp_render_timezone(tz).len() as int),
        ),
{
    lemma_pow10_values();
    let s = sp_render_timezone(tz);
    lemma_padded_exact(abs_nat(tz.offset_hours as int), 2);
    lemma_padded_exact(abs_nat(tz.offset_minutes as int), 2);
    assert(s.len() == 6);
    assert(s.subrange(0, 6) =~= s);
    lemma_timezone_of_render(s, 0, tz);
    assert(s[0] == 43 || s[0] == 45) by {
        let c1 = seq![if tz.offset_hours < 0 || tz.offset_minutes < 0 {
            45u8
        } else {
            43u8
        }] + padded(abs_nat(tz.offset_hours as int), 2);
        assert(s[0] == (c1 + seq![58u8])[0]);
        assert((c1 + seq![58u8])[0] == c1[0]);
    }
    assert(sp_parse_timezone(s, 0) == sp_timezone_hour(s, 0));
}

/// **Round trip, times**: any time a parse can produce, rendered and parsed
/// again, is the same time, and its text is consumed whole.
pub proof fn round_trip_time(t: Time)
    requires
        t.wf(),
    ensures
        sp_parse_time(sp_render_time(t), 0) == Ok::<(Time, int), ParseError>(
            (t, sp_render_time(t).len() as int),
        ),
{
    lemma_pow10_values();
    let s = sp_render_time(t);
    lemma_padded_exact(t.hour as nat, 2);
    lemma_padded_exact(t.minute as nat, 2);
    lemma_padded_exact(t.second as nat, 2);
    lemma_padded_exact(t.millisecond as nat, 3);
    lemma_padded_exact(abs_nat(t.timezone.offset_hours as int), 2);
    lemma_padded_exact(abs_nat(t.timezone.offset_minutes as int), 2);
    assert(s.len() == 18);
    assert(s.subrange(0, 18) =~= s);
    lemma_time_of_render(s, 0, t);
}

/// **Round trip, datetimes**: any datetime a parse can produce, rendered and
/// parsed again, is the same datetime, and its text is consumed whole.
#[verifier::rlimit(80)]
pub proof fn round_trip_datetime(dt: DateTime)
    requires
        dt.wf(),
    ensures
        sp_parse_datetime(sp_render_datetime(dt), 0) == Ok::<(DateTime, int), ParseError>(
            (dt, sp_render_datetime(dt).len() as int),
        ),
{
    lemma_pow10_values();
    let s = sp_render_datetime(dt);
    let rd = sp_render_date(dt.date);
    let rt = sp_render_time(dt.time);
    let dl = rd.len() as int;
    assert(s == rd + seq![84u8] + rt);
    lemma_padded_exact(dt.time.hour as nat, 2);
    lemma_padded_exact(dt.time.minute as nat, 2);
    lemma_padded_exact(dt.time.second as nat, 2);
    lemma_padded_exact(dt.time.millisecond as nat, 3);
    lemma_padded_exact(abs_nat(dt.time.timezone.offset_hours as int), 2);
    lemma_padded_exact(abs_nat(dt.time.timezone.offset_minutes as int), 2);
    assert(rt.len() == 18);
    assert(s.len() == dl + 19);
    let c1 = rd + seq![84u8];
    assert(s == c1 + rt);
    assert(s.subrange(0, dl) =~= rd) by {
        assert forall|k: int| 0 <= k < dl implies s.subrange(0, dl)[k] == rd[k] by {
            assert(s[k] == c1[k]);
            assert(c1[k] == rd[k]);
        }
    }
    assert(s[dl] == 84) by {
        assert(s[dl] == c1[dl]);
    }
    assert(s.subrange(dl + 1, dl + 19) =~= rt) by {
        assert forall|k: int| 0 <= k < 18 implies s.subrange(dl + 1, dl + 19)[k] == rt[k] by {
            assert(s[dl + 1 + k] == rt[k]);
        }
    }
    assert(!is_digit_byte(s[dl]));
    lemma_date_of_render(s, 0, dt.date);
    assert(sp_tag(s, dl, 84) == Ok::<int, ParseError>(dl + 1));
    lemma_time_of_render(s, dl + 1, dt.time);
    assert(sp_parse_datetime(s, 0) == Ok::<(DateTime, int), ParseError>((dt, dl + 19)));
}


/// A digit run spelling `v` followed by the unit letter `u` is read as the
/// component `v`.
proof fn lemma_dur_unit_of_render(s: Seq<u8>, i: int, v: u32, u: u8)
    requires
        0 <= i,
        !is_digit_byte(u),
        i + dec_rep(v as nat).len() + 1 <= s.len(),
        s.subrange(i, i + dec_rep(v as nat).len()) == dec_rep(v as nat),
        s[i + dec_rep(v as nat).len()] == u,
    ensures
        sp_dur_unit(s, i, u) == Ok::<(u32, int), ParseError>(
            (v, i + dec_rep(v as nat).len() + 1),
        ),
{
    lemma_dec_rep(v as nat);
    let dl = dec_rep(v as nat).len() as int;
    assert forall|k: int| i <= k < i + dl implies is_digit_byte(#[trigger] s[k]) by {
        assert(s.subrange(i, i + dl)[k - i] == s[k]);
    }
    assert(!is_digit_byte(s[i + dl]));
    lemma_run_len_exact(s, i, dl);
    assert(nv(s.subrange(i, i + dl)) == v as nat);
    assert(sp_take_digits(s, i) == Ok::<(u32, int), ParseError>((v, i + dl)));
    assert(sp_tag(s, i + dl, u) == Ok::<int, ParseError>(i + dl + 1));
}

/// No digit stands at `i`, so no duration component starts there.
proof fn lemma_dur_unit_err_nondigit(s: Seq<u8>, i: int, u: u8)
    requires
        0 <= i <= s.len(),
        i == s.len() || !is_digit_byte(s[i]),
    ensures
        sp_dur_unit(s, i, u) is Err,
        run_len(s, i) == 0,
{
    assert(run_len(s, i) == 0);
}

/// A digit run followed by some other letter is not the component `u`, and
/// reading it consumes nothing.
proof fn lemma_dur_unit_err_letter(s: Seq<u8>, i: int, x: u32, c: u8, u: u8)
    requires
        0 <= i,
        !is_digit_byte(c),
        c != u,
        i + dec_rep(x as nat).len() + 1 <= s.len(),
        s.subrange(i, i + dec_rep(x as nat).len()) == dec_rep(x as nat),
        s[i + dec_rep(x as nat).len()] == c,
    ensures
        sp_dur_unit(s, i, u) is Err,
        sp_take_digits(s, i) == Ok::<(u32, int), ParseError>(
            (x, i + dec_rep(x as nat).len()),
        ),
{
    lemma_dec_rep(x as nat);
    let dl = dec_rep(x as nat).len() as int;
    assert forall|k: int| i <= k < i + dl implies is_digit_byte(#[trigger] s[k]) by {
        assert(s.subrange(i, i + dl)[k - i] == s[k]);
    }
    assert(!is_digit_byte(s[i + dl]));
    lemma_run_len_exact(s, i, dl);
    assert(nv(s.subrange(i, i + dl)) == x as nat);
    assert(sp_take_digits(s, i) == Ok::<(u32, int), ParseError>((x, i + dl)));
    assert(sp_tag(s, i + dl, u) is Err);
}

/// The seconds-with-fraction component of a rendered duration, which extends
/// to the end of the text, is read back as its seconds and milliseconds; an
/// empty one leaves the reader at the end with an error.
proof fn lemma_secms_of_render(s: Seq<u8>, i: int, sec: u32, ms: u32)
    requires
        0 <= i <= s.len(),
        ms <= 999,
        s.subrange(i, s.len() as int) == (if ms > 0 {
            dec_rep(sec as nat) + seq![46u8] + padded(ms as nat, 3) + seq![83u8]
        } else if sec > 0 {
            dec_rep(sec as nat) + seq![83u8]
        } else {
            Seq::<u8>::empty()
        }),
    ensures
        (ms > 0 || sec > 0) ==> sp_duration_secms(s, i) == Ok::<((u32, u32), int), ParseError>(
            ((sec, ms), s.len() as int),
        ),
        (ms == 0 && sec == 0) ==> i == s.len() && sp_duration_secms(s, i) is Err,
{
    lemma_pow10_values();
    lemma_dec_rep(sec as nat);
    let dl = dec_rep(sec as nat).len() as int;
    if ms > 0 {
        let piece = dec_rep(sec as nat) + seq![46u8] + padded(ms as nat, 3) + seq![83u8];
        let c1 = dec_rep(sec as nat) + seq![46u8];
        let c2 = c1 + padded(ms as nat, 3);
        assert(piece == c2 + seq![83u8]);
        lemma_padded_exact(ms as nat, 3);
        lemma_padded(ms as nat, 3);
        assert(piece.len() == dl + 5);
        assert(s.len() == i + dl + 5);
        assert(piece.subrange(0, dl) =~= dec_rep(sec as nat)) by {
            assert forall|k: int| 0 <= k < dl implies piece.subrange(0, dl)[k] == dec_rep(
                sec as nat,
            )[k] by {
                assert(piece[k] == c2[k]);
                assert(c2[k] == c1[k]);
            }
        }
        assert(piece[dl] == 46) by {
            assert(piece[dl] == c2[dl]);
            assert(c2[dl] == c1[dl]);
        }
        assert(piece.subrange(dl + 1, dl + 4) =~= padded(ms as nat, 3)) by {
            assert forall|k: int| 0 <= k < 3 implies piece.subrange(dl + 1, dl + 4)[k] == padded(
                ms as nat,
                3,
            )[k] by {
                assert(piece[dl + 1 + k] == c2[dl + 1 + k]);
            }
        }
        assert(piece[dl + 4] == 83);
        lemma_slice_eq(s, i, piece, 0, dl);
        lemma_byte_eq(s, i, piece, dl);
        lemma_slice_eq(s, i, piece, dl + 1, dl + 4);
        lemma_byte_eq(s, i, piece, dl + 4);
        // The plain-seconds alternative stops at the dot.
        lemma_dur_unit_err_letter(s, i, sec, 46, 83);
        // The run after the dot is exactly the three millisecond digits.
        assert forall|k: int| i + dl + 1 <= k < i + dl + 4 implies is_digit_byte(
            #[trigger] s[k],
        ) by {
            assert(s.subrange(i + dl + 1, i + dl + 4)[k - (i + dl + 1)] == s[k]);
        }
        assert(!is_digit_byte(s[i + dl + 4]));
        lemma_run_len_exact(s, i + dl + 1, 3);
        assert(nv(s.subrange(i + dl + 1, i + dl + 4)) == ms as nat);
        assert(sp_frac_ms(s, i + dl + 1, 3) == ms);
        assert(sp_tag(s, i + dl + 4, 83) == Ok::<int, ParseError>(i + dl + 5));
        assert(sp_duration_secms(s, i) == Ok::<((u32, u32), int), ParseError>(
            ((sec, ms), s.len() as int),
        ));
    } else if sec > 0 {
        let piece = dec_rep(sec as nat) + seq![83u8];
        assert(piece.len() == dl + 1);
        assert(s.len() == i + dl + 1);
        assert(piece.subrange(0, dl) =~= dec_rep(sec as nat));
        assert(piece[dl] == 83);
        lemma_slice_eq(s, i, piece, 0, dl);
        lemma_byte_eq(s, i, piece, dl);
        lemma_dur_unit_of_render(s, i, sec, 83);
        assert(sp_duration_secms(s, i) == Ok::<((u32, u32), int), ParseError>(
            ((sec, 0u32), s.len() as int),
        ));
    } else {
        assert(s.len() - i == 0);
        lemma_dur_unit_err_nondigit(s, i, 83);
        assert(sp_take_digits(s, i) is Err);
    }
}

/// The time part of a rendered duration, which extends to the end of the
/// text, is read back as its four fields; the any-flag says whether any
/// field was non-zero.
#[verifier::rlimit(100)]
proof fn lemma_duration_time_of_render(s: Seq<u8>, i: int, h: u32, mi: u32, sec: u32, ms: u32)
    requires
        0 <= i <= s.len(),
        ms <= 999,
        s.subrange(i, s.len() as int) == sp_render_duration_time(h, mi, sec, ms),
    ensures
        sp_duration_time(s, i) == ((h, mi, sec, ms), s.len() as int, h > 0 || mi > 0 || sec > 0
            || ms > 0),
{
    lemma_dec_rep(h as nat);
    lemma_dec_rep(mi as nat);
    lemma_dec_rep(sec as nat);
    let rt = sp_render_duration_time(h, mi, sec, ms);
    let ph = if h > 0 {
        dec_rep(h as nat) + seq![72u8]
    } else {
        Seq::<u8>::empty()
    };
    let pmi = if mi > 0 {
        dec_rep(mi as nat) + seq![77u8]
    } else {
        Seq::<u8>::empty()
    };
    let psms = if ms > 0 {
        dec_rep(sec as nat) + seq![46u8] + padded(ms as nat, 3) + seq![83u8]
    } else if sec > 0 {
        dec_rep(sec as nat) + seq![83u8]
    } else {
        Seq::<u8>::empty()
    };
    assert(rt == ph + pmi + psms);
    let o1 = i + ph.len() as int;
    let o2 = o1 + pmi.len() as int;
    assert(s.len() == o2 + psms.len());
    let c1 = ph + pmi;
    assert(rt == c1 + psms);
    assert(s.subrange(i, o1) =~= ph) by {
        assert forall|k: int| 0 <= k < ph.len() implies s.subrange(i, o1)[k] == ph[k] by {
            assert(s.subrange(i, s.len() as int)[k] == s[i + k]);
            assert(rt[k] == c1[k]);
            assert(c1[k] == ph[k]);
        }
    }
    assert(s.subrange(o1, o2) =~= pmi) by {
        assert forall|k: int| 0 <= k < pmi.len() implies s.subrange(o1, o2)[k] == pmi[k] by {
            assert(s.subrange(i, s.len() as int)[o1 - i + k] == s[o1 + k]);
            assert(rt[o1 - i + k] == c1[o1 - i + k]);
            assert(c1[o1 - i + k] == pmi[k]);
        }
    }
    assert(s.subrange(o2, s.len() as int) =~= psms) by {
        assert forall|k: int| 0 <= k < psms.len() implies s.subrange(o2, s.len() as int)[k]
            == psms[k] by {
            assert(s.subrange(i, s.len() as int)[o2 - i + k] == s[o2 + k]);
            assert(rt[o2 - i + k] == psms[k]);
        }
    }
    // The hour component.
    if h > 0 {
        assert(ph.subrange(0, ph.len() - 1) =~= dec_rep(h as nat));
        assert(ph[ph.len() - 1] == 72);
        lemma_slice_eq(s, i, ph, 0, ph.len() - 1);
        lemma_byte_eq(s, i, ph, ph.len() - 1);
        lemma_dur_unit_of_render(s, i, h, 72);
    } else {
        if mi > 0 {
            assert(pmi.subrange(0, pmi.len() - 1) =~= dec_rep(mi as nat));
            assert(pmi[pmi.len() - 1] == 77);
            lemma_slice_eq(s, o1, pmi, 0, pmi.len() - 1);
            lemma_byte_eq(s, o1, pmi, pmi.len() - 1);
            lemma_dur_unit_err_letter(s, i, mi, 77, 72);
        } else if ms > 0 {
            let dl = dec_rep(sec as nat).len() as int;
            assert(psms.subrange(0, dl) =~= dec_rep(sec as nat)) by {
                let d1 = dec_rep(sec as nat) + seq![46u8];
                let d2 = d1 + padded(ms as nat, 3);
                assert(psms == d2 + seq![83u8]);
                assert forall|k: int| 0 <= k < dl implies psms.subrange(0, dl)[k] == dec_rep(
                    sec as nat,
                )[k] by {
                    assert(psms[k] == d2[k]);
                    assert(d2[k] == d1[k]);
                }
            }
            assert(psms[dl] == 46) by {
                let d1 = dec_rep(sec as nat) + seq![46u8];
                let d2 = d1 + padded(ms as nat, 3);
                assert(psms == d2 + seq![83u8]);
                assert(psms[dl] == d2[dl]);
                assert(d2[dl] == d1[dl]);
            }
            lemma_slice_eq(s, o2, psms, 0, dl);
            lemma_byte_eq(s, o2, psms, dl);
            lemma_dur_unit_err_letter(s, i, sec, 46, 72);
        } else if sec > 0 {
            assert(psms.subrange(0, psms.len() - 1) =~= dec_rep(sec as nat));
            assert(psms[psms.len() - 1] == 83);
            lemma_slice_eq(s, o2, psms, 0, psms.len() - 1);
            lemma_byte_eq(s, o2, psms, psms.len() - 1);
            lemma_dur_unit_err_letter(s, i, sec, 83, 72);
        } else {
            assert(i == s.len());
            lemma_dur_unit_err_nondigit(s, i, 72);
        }
    }
    let j1 = if h > 0 {
        o1
    } else {
        i
    };
    assert(j1 == o1);
    // The minute component.
    if mi > 0 {
        assert(pmi.subrange(0, pmi.len() - 1) =~= dec_rep(mi as nat));
        assert(pmi[pmi.len() - 1] == 77);
        lemma_slice_eq(s, o1, pmi, 0, pmi.len() - 1);
        lemma_byte_eq(s, o1, pmi, pmi.len() - 1);
        lemma_dur_unit_of_render(s, o1, mi, 77);
    } else {
        if ms > 0 {
            let dl = dec_rep(sec as nat).len() as int;
            assert(psms.subrange(0, dl) =~= dec_rep(sec as nat)) by {
                let d1 = dec_rep(sec as nat) + seq![46u8];
                let d2 = d1 + padded(ms as nat, 3);
                assert(psms == d2 + seq![83u8]);
                assert forall|k: int| 0 <= k < dl implies psms.subrange(0, dl)[k] == dec_rep(
                    sec as nat,
                )[k] by {
                    assert(psms[k] == d2[k]);
                    assert(d2[k] == d1[k]);
                }
            }
            assert(psms[dl] == 46) by {
                let d1 = dec_rep(sec as nat) + seq![46u8];
                let d2 = d1 + padded(ms as nat, 3);
                assert(psms == d2 + seq![83u8]);
                assert(psms[dl] == d2[dl]);
                assert(d2[dl] == d1[dl]);
            }
            lemma_slice_eq(s, o2, psms, 0, dl);
            lemma_byte_eq(s, o2, psms, dl);
            lemma_dur_unit_err_letter(s, o1, sec, 46, 77);
        } else if sec > 0 {
            assert(psms.subrange(0, psms.len() - 1) =~= dec_rep(sec as nat));
            assert(psms[psms.len() - 1] == 83);
            lemma_slice_eq(s, o2, psms, 0, psms.len() - 1);
            lemma_byte_eq(s, o2, psms, psms.len() - 1);
            lemma_dur_unit_err_letter(s, o1, sec, 83, 77);
        } else {
            assert(o1 == s.len());
            lemma_dur_unit_err_nondigit(s, o1, 77);
        }
    }
    // The seconds component, which runs to the end.
    lemma_secms_of_render(s, o2, sec, ms);
    if ms == 0 && sec == 0 {
        assert(o2 == s.len());
        assert(sp_duration_time(s, i) == ((h, mi, 0u32, 0u32), o2, h > 0 || mi > 0));
    } else {
        assert(sp_duration_time(s, i) == ((h, mi, sec, ms), s.len() as int, true));
    }
}


/// Splits a five-piece concatenation into its pieces' positions.
proof fn lemma_concat5_slices(s: Seq<u8>, a: Seq<u8>, b: Seq<u8>, c: Seq<u8>, d: Seq<u8>, e: Seq<u8>)
    requires
        s == a + b + c + d + e,
    ensures
        s.len() == a.len() + b.len() + c.len() + d.len() + e.len(),
        s.subrange(0, a.len() as int) == a,
        s.subrange(a.len() as int, (a.len() + b.len()) as int) == b,
        s.subrange((a.len() + b.len()) as int, (a.len() + b.len() + c.len()) as int) == c,
        s.subrange(
            (a.len() + b.len() + c.len()) as int,
            (a.len() + b.len() + c.len() + d.len()) as int,
        ) == d,
        s.subrange((a.len() + b.len() + c.len() + d.len()) as int, s.len() as int) == e,
{
    let c1 = a + b;
    let c2 = c1 + c;
    let c3 = c2 + d;
    assert(s == c3 + e);
    let la = a.len() as int;
    let lb = b.len() as int;
    let lc = c.len() as int;
    let ld = d.len() as int;
    assert(s.subrange(0, la) =~= a) by {
        assert forall|k: int| 0 <= k < la implies s.subrange(0, la)[k] == a[k] by {
            assert(s[k] == c3[k]);
            assert(c3[k] == c2[k]);
            assert(c2[k] == c1[k]);
            assert(c1[k] == a[k]);
        }
    }
    assert(s.subrange(la, la + lb) =~= b) by {
        assert forall|k: int| 0 <= k < lb implies s.subrange(la, la + lb)[k] == b[k] by {
            assert(s[la + k] == c3[la + k]);
            assert(c3[la + k] == c2[la + k]);
            assert(c2[la + k] == c1[la + k]);
            assert(c1[la + k] == b[k]);
        }
    }
    assert(s.subrange(la + lb, la + lb + lc) =~= c) by {
        assert forall|k: int| 0 <= k < lc implies s.subrange(la + lb, la + lb + lc)[k] == c[k] by {
            assert(s[la + lb + k] == c3[la + lb + k]);
            assert(c3[la + lb + k] == c2[la + lb + k]);
            assert(c2[la + lb + k] == c[k]);
        }
    }
    assert(s.subrange(la + lb + lc, la + lb + lc + ld) =~= d) by {
        assert forall|k: int| 0 <= k < ld implies s.subrange(la + lb + lc, la + lb + lc + ld)[k]
            == d[k] by {
            assert(s[la + lb + lc + k] == c3[la + lb + lc + k]);
            assert(c3[la + lb + lc + k] == d[k]);
        }
    }
    assert(s.subrange(la + lb + lc + ld, s.len() as int) =~= e) by {
        assert forall|k: int| 0 <= k < e.len() implies s.subrange(
            la + lb + lc + ld,
            s.len() as int,
        )[k] == e[k] by {
            assert(s[la + lb + lc + ld + k] == e[k]);
        }
    }
}

/// Splits a component piece `digits + letter` of `s` into its two parts.
proof fn lemma_unit_piece(s: Seq<u8>, off: int, x: u32, letter: u8)
    requires
        0 <= off,
        off + dec_rep(x as nat).len() + 1 <= s.len(),
        s.subrange(off, off + dec_rep(x as nat).len() + 1) == dec_rep(x as nat) + seq![letter],
    ensures
        s.subrange(off, off + dec_rep(x as nat).len()) == dec_rep(x as nat),
        s[off + dec_rep(x as nat).len()] == letter,
{
    let piece = dec_rep(x as nat) + seq![letter];
    assert(piece.subrange(0, piece.len() - 1) =~= dec_rep(x as nat));
    assert(piece[piece.len() - 1] == letter);
    lemma_slice_eq(s, off, piece, 0, piece.len() - 1);
    lemma_byte_eq(s, off, piece, piece.len() - 1);
}

/// The collapsed form `P0D` of the zero duration parses back as the zero
/// duration.
proof fn lemma_duration_zero_of_render(s: Seq<u8>, du: Duration)
    requires
        du == (Duration::YMDHMS {
            year: 0,
            month: 0,
            day: 0,
            hour: 0,
            minute: 0,
            second: 0,
            millisecond: 0,
        }),
        s == sp_render_duration(du),
    ensures
        sp_duration_ymdhms(s, 0) == Ok::<(Duration, int), ParseError>((du, s.len() as int)),
{
    assert(s == seq![80u8, 48u8, 68u8]);
    assert(s[0] == 80 && s[1] == 48 && s[2] == 68);
    assert(sp_tag(s, 0, 80) == Ok::<int, ParseError>(1));
    assert(is_digit_byte(s[1]) && !is_digit_byte(s[2]));
    lemma_run_len_exact(s, 1, 1);
    assert(s.subrange(1, 2) =~= seq![48u8]);
    assert(seq![48u8].drop_last() =~= Seq::<u8>::empty());
    assert(seq![48u8].last() == 48);
    assert(nv(Seq::<u8>::empty()) == 0);
    assert(nv(seq![48u8]) == nv(seq![48u8].drop_last()) * 10 + crate::digits::digit_val(48u8));
    assert(nv(seq![48u8]) == 0);
    assert(sp_take_digits(s, 1) == Ok::<(u32, int), ParseError>((0u32, 2)));
    assert(sp_dur_unit(s, 1, 89) is Err);
    assert(sp_dur_unit(s, 1, 77) is Err);
    assert(sp_dur_unit(s, 1, 68) == Ok::<(u32, int), ParseError>((0u32, 3)));
    assert(sp_tag(s, 3, 84) is Err);
    assert(sp_duration_tsection(s, 3) is None);
    assert(sp_duration_ymdhms(s, 0) == Ok::<(Duration, int), ParseError>((du, 3)));
}

/// A rendered unit-form duration parses as itself by the designator
/// alternative.
#[verifier::rlimit(100)]
proof fn lemma_duration_ymdhms_of_render(s: Seq<u8>, du: Duration)
    requires
        du is YMDHMS,
        du.wf(),
        s == sp_render_duration(du),
    ensures
        sp_duration_ymdhms(s, 0) == Ok::<(Duration, int), ParseError>((du, s.len() as int)),
{
    let y = du->YMDHMS_year;
    let mo = du->YMDHMS_month;
    let d = du->YMDHMS_day;
    let h = du->YMDHMS_hour;
    let mi = du->YMDHMS_minute;
    let sec = du->YMDHMS_second;
    let ms = du->YMDHMS_millisecond;
    lemma_dec_rep(y as nat);
    lemma_dec_rep(mo as nat);
    lemma_dec_rep(d as nat);
    if y == 0 && mo == 0 && d == 0 && h == 0 && mi == 0 && sec == 0 && ms == 0 {
        lemma_duration_zero_of_render(s, du);
    } else {
        let timenz = h > 0 || mi > 0 || sec > 0 || ms > 0;
        let py = if y > 0 {
            dec_rep(y as nat) + seq![89u8]
        } else {
            Seq::<u8>::empty()
        };
        let pm = if mo > 0 {
            dec_rep(mo as nat) + seq![77u8]
        } else {
            Seq::<u8>::empty()
        };
        let pd = if d > 0 {
            dec_rep(d as nat) + seq![68u8]
        } else {
            Seq::<u8>::empty()
        };
        let rt = sp_render_duration_time(h, mi, sec, ms);
        let pt = if timenz {
            seq![84u8] + rt
        } else {
            Seq::<u8>::empty()
        };
        assert(s == seq![80u8] + py + pm + pd + pt);
        lemma_concat5_slices(s, seq![80u8], py, pm, pd, pt);
        let o1 = 1 + py.len() as int;
        let o2 = o1 + pm.len() as int;
        let o3 = o2 + pd.len() as int;
        assert(s.len() == o3 + pt.len());
        assert(s[0] == 80) by {
            assert(s.subrange(0, 1)[0] == s[0]);
        }
        assert(sp_tag(s, 0, 80) == Ok::<int, ParseError>(1));
        // The year component.
        if y > 0 {
            lemma_unit_piece(s, 1, y, 89);
            lemma_dur_unit_of_render(s, 1, y, 89);
        } else {
            assert(o1 == 1);
            if mo > 0 {
                lemma_unit_piece(s, o1, mo, 77);
                lemma_dur_unit_err_letter(s, 1, mo, 77, 89);
            } else if d > 0 {
                assert(o2 == 1);
                lemma_unit_piece(s, o2, d, 68);
                lemma_dur_unit_err_letter(s, 1, d, 68, 89);
            } else {
                assert(o3 == 1);
                assert(timenz);
                lemma_byte_eq(s, o3, pt, 0);
                assert(s[1] == 84);
                lemma_dur_unit_err_nondigit(s, 1, 89);
            }
        }
        // The month component.
        if mo > 0 {
            lemma_unit_piece(s, o1, mo, 77);
            lemma_dur_unit_of_render(s, o1, mo, 77);
        } else {
            assert(o2 == o1);
            if d > 0 {
                lemma_unit_piece(s, o2, d, 68);
                lemma_dur_unit_err_letter(s, o1, d, 68, 77);
            } else if timenz {
                assert(o3 == o1);
                lemma_byte_eq(s, o3, pt, 0);
                assert(s[o1] == 84);
                lemma_dur_unit_err_nondigit(s, o1, 77);
            } else {
                assert(o1 == s.len());
                lemma_dur_unit_err_nondigit(s, o1, 77);
            }
        }
        // The day component.
        if d > 0 {
            lemma_unit_piece(s, o2, d, 68);
            lemma_dur_unit_of_render(s, o2, d, 68);
        } else {
            assert(o3 == o2);
            if timenz {
                lemma_byte_eq(s, o3, pt, 0);
                assert(s[o2] == 84);
                lemma_dur_unit_err_nondigit(s, o2, 68);
            } else {
                assert(o2 == s.len());
                lemma_dur_unit_err_nondigit(s, o2, 68);
            }
        }
        // The time section.
        if timenz {
            lemma_byte_eq(s, o3, pt, 0);
            assert(s[o3] == 84);
            assert(sp_tag(s, o3, 84) == Ok::<int, ParseError>(o3 + 1));
            assert(pt.subrange(1, pt.len() as int) =~= rt);
            lemma_slice_eq(s, o3, pt, 1, pt.len() as int);
            lemma_duration_time_of_render(s, o3 + 1, h, mi, sec, ms);
            assert(sp_duration_tsection(s, o3) == Some(((h, mi, sec, ms), s.len() as int)));
            assert(sp_duration_ymdhms(s, 0) == Ok::<(Duration, int), ParseError>(
                (du, s.len() as int),
            ));
        } else {
            assert(o3 == s.len());
            assert(sp_tag(s, o3, 84) is Err);
            assert(sp_duration_tsection(s, o3) is None);
            assert(y > 0 || mo > 0 || d > 0);
            assert(sp_duration_ymdhms(s, 0) == Ok::<(Duration, int), ParseError>(
                (du, s.len() as int),
            ));
        }
    }
}

/// **Round trip, durations**: any duration a parse can produce, rendered and
/// parsed again, is the same duration, and its text is consumed whole.
pub proof fn round_trip_duration(du: Duration)
    requires
        du.wf(),
    ensures
        sp_parse_duration(sp_render_duration(du), 0) == Ok::<(Duration, int), ParseError>(
            (du, sp_render_duration(du).len() as int),
        ),
{
    let s = sp_render_duration(du);
    match du {
        Duration::YMDHMS { .. } => {
            lemma_duration_ymdhms_of_render(s, du);
        },
        Duration::Weeks(w) => {
            lemma_dec_rep(w as nat);
            let dl = dec_rep(w as nat).len() as int;
            let c1 = seq![80u8] + dec_rep(w as nat);
            assert(s == c1 + seq![87u8]);
            assert(s.len() == dl + 2);
            assert(s[0] == 80) by {
                assert(s[0] == c1[0]);
            }
            assert(s.subrange(1, 1 + dl) =~= dec_rep(w as nat)) by {
                assert forall|k: int| 0 <= k < dl implies s.subrange(1, 1 + dl)[k] == dec_rep(
                    w as nat,
                )[k] by {
                    assert(s[1 + k] == c1[1 + k]);
                }
            }
            assert(s[1 + dl] == 87);
            assert(sp_tag(s, 0, 80) == Ok::<int, ParseError>(1));
            // The designator alternative finds no designator at all.
            lemma_dur_unit_err_letter(s, 1, w, 87, 89);
            lemma_dur_unit_err_letter(s, 1, w, 87, 77);
            lemma_dur_unit_err_letter(s, 1, w, 87, 68);
            assert(is_digit_byte(s[1])) by {
                assert(s.subrange(1, 1 + dl)[0] == s[1]);
            }
            assert(sp_tag(s, 1, 84) is Err);
            assert(sp_duration_tsection(s, 1) is None);
            assert(sp_duration_ymdhms(s, 0) == Err::<(Duration, int), ParseError>(
                ParseError::EmptyDuration,
            ));
            // The week alternative reads the whole text.
            lemma_dur_unit_of_render(s, 1, w, 87);
            assert(sp_duration_weeks(s, 0) == Ok::<(Duration, int), ParseError>(
                (du, s.len() as int),
            ));
        },
    }
}


/// Two `0` digits at `i` are read as the value zero.
proof fn lemma_two_zero_digits(s: Seq<u8>, i: int)
    requires
        0 <= i,
        i + 2 <= s.len(),
        s[i] == 48,
        s[i + 1] == 48,
    ensures
        sp_take_n_digits(s, i, 2) == Ok::<(u32, int), ParseError>((0u32, i + 2)),
{
    let sub = s.subrange(i, i + 2);
    assert(sub =~= seq![48u8, 48u8]);
    assert(all_digits(sub));
    assert(seq![48u8, 48u8].drop_last() =~= seq![48u8]);
    assert(seq![48u8].drop_last() =~= Seq::<u8>::empty());
    assert(nv(seq![48u8]) == nv(Seq::<u8>::empty()) * 10 + crate::digits::digit_val(48u8));
    assert(nv(seq![48u8, 48u8]) == nv(seq![48u8]) * 10 + crate::digits::digit_val(48u8));
    assert(nv(sub) == 0);
}

/// **UTC equivalence**: a timezone written as an explicit zero offset (a
/// sign, `00`, an optional `:`, and `00`) and one written as the literal `Z`
/// parse to the same timezone value, the zero offset.
pub proof fn utc_equivalence(s: Seq<u8>, i: int, z: Seq<u8>, zi: int)
    requires
        0 <= i,
        i + 3 <= s.len(),
        s[i] == 43 || s[i] == 45,
        s[i + 1] == 48,
        s[i + 2] == 48,
        sp_opt_byte(s, i + 3, 58) + 2 <= s.len(),
        s[sp_opt_byte(s, i + 3, 58)] == 48,
        s[sp_opt_byte(s, i + 3, 58) + 1] == 48,
        0 <= zi < z.len(),
        z[zi] == 90,
    ensures
        sp_parse_timezone(s, i) matches Ok(p) && p.0 == Timezone::utc(),
        sp_parse_timezone(z, zi) matches Ok(q) && q.0 == Timezone::utc(),
        (sp_parse_timezone(s, i)->Ok_0).0 == (sp_parse_timezone(z, zi)->Ok_0).0,
{
    assert(sp_parse_timezone(z, zi) == Ok::<(Timezone, int), ParseError>(
        (Timezone::utc(), zi + 1),
    ));
    let sg: int = if s[i] == 45 {
        -1int
    } else {
        1int
    };
    assert(sp_sign(s, i) == Ok::<(int, int), ParseError>((sg, i + 1)));
    lemma_two_zero_digits(s, i + 1);
    assert(sp_field(s, i + 1, 2, 0, 24) == Ok::<(u32, int), ParseError>((0u32, i + 3)));
    let j = sp_opt_byte(s, i + 3, 58);
    lemma_two_zero_digits(s, j);
    assert(sp_field(s, j, 2, 0, 59) == Ok::<(u32, int), ParseError>((0u32, j + 2)));
    assert((sg * 0) as i32 == 0);
    assert(sp_timezone_hour(s, i) == Ok::<(Timezone, int), ParseError>((Timezone::utc(), j + 2)));
    assert(s[i] != 90);
}

/// A parsed year lies within four signed digits.
proof fn lemma_date_year_wf(s: Seq<u8>, i: int)
    ensures
        sp_date_year(s, i) matches Ok(p) ==> -9999 <= p.0 <= 9999,
{
    if sp_date_year(s, i) is Ok {
        let (sg, j) = sp_opt_sign(s, i);
        lemma_take_n_digits_val(s, j, 4);
        lemma_pow10_values();
        assert(sg == 1 || sg == -1);
    }
}

/// **Parses are well-formed, dates**: whatever value the date parser
/// returns satisfies the ranges of [`Date::wf`].
pub proof fn parsed_date_wf(s: Seq<u8>, i: int)
    ensures
        sp_parse_date(s, i) matches Ok(p) ==> p.0.wf(),
{
    lemma_date_year_wf(s, i);
}

/// A fraction read from the text stays under a thousand milliseconds.
proof fn lemma_frac_ms_bound(s: Seq<u8>, i: int, n: int)
    requires
        0 <= i,
        n >= 1,
        i + n <= s.len(),
        forall|k: int| i <= k < i + n ==> is_digit_byte(#[trigger] s[k]),
    ensures
        sp_frac_ms(s, i, n) <= 999,
{
    let m = if n >= 3 {
        3int
    } else {
        n
    };
    let sub = s.subrange(i, i + m);
    assert(all_digits(sub)) by {
        assert forall|k: int| 0 <= k < m implies is_digit_byte(#[trigger] sub[k]) by {
            assert(sub[k] == s[i + k]);
        }
    }
    crate::digits::lemma_nv_bound(sub);
    crate::digits::lemma_pow10_add(m as nat, (3 - m) as nat);
    crate::digits::lemma_pow10_pos((3 - m) as nat);
    lemma_pow10_values();
    assert(nv(sub) * pow10((3 - m) as nat) < 1000) by (nonlinear_arith)
        requires
            nv(sub) < pow10(m as nat),
            pow10(m as nat) * pow10((3 - m) as nat) == 1000,
            pow10((3 - m) as nat) >= 1,
    ;
}

/// An optional fraction is at most 999 milliseconds.
proof fn lemma_fraction_opt_bound(s: Seq<u8>, i: int)
    requires
        0 <= i,
    ensures
        sp_fraction_opt(s, i).0 <= 999,
{
    if 0 <= i < s.len() && (s[i] == 46 || s[i] == 44) && run_len(s, i + 1) > 0 {
        crate::digits::lemma_run_len_props(s, i + 1);
        lemma_frac_ms_bound(s, i + 1, run_len(s, i + 1));
    }
}

/// A parsed timezone keeps the offset ranges and the shared sign.
proof fn lemma_timezone_hour_wf(s: Seq<u8>, i: int)
    ensures
        sp_timezone_hour(s, i) matches Ok(p) ==> p.0.wf(),
{
    if sp_timezone_hour(s, i) is Ok {
        let (sg, j) = sp_sign(s, i)->Ok_0;
        assert(sg == 1 || sg == -1);
    }
}

/// **Parses are well-formed, times**: whatever value the time parser
/// returns satisfies the ranges of [`Time::wf`].
pub proof fn parsed_time_wf(s: Seq<u8>, i: int)
    requires
        0 <= i,
    ensures
        sp_parse_time(s, i) matches Ok(p) ==> p.0.wf(),
{
    if sp_parse_time(s, i) is Ok {
        let h = sp_field(s, i, 2, 0, 24)->Ok_0;
        let j1 = sp_opt_byte(s, h.1, 58);
        let mi = sp_field(s, j1, 2, 0, 59)->Ok_0;
        let j3 = sp_opt_byte(s, mi.1, 58);
        let secp = sp_field(s, j3, 2, 0, 60);
        let j4 = if secp is Ok {
            secp->Ok_0.1
        } else {
            mi.1
        };
        lemma_fraction_opt_bound(s, j4);
        let (ms, j5) = sp_fraction_opt(s, j4);
        lemma_timezone_hour_wf(s, j5);
    }
}

/// **Parses are well-formed, timezones**: whatever value the timezone parser
/// returns satisfies the ranges of [`Timezone::wf`].
pub proof fn parsed_timezone_wf(s: Seq<u8>, i: int)
    ensures
        sp_parse_timezone(s, i) matches Ok(p) ==> p.0.wf(),
{
    lemma_timezone_hour_wf(s, i);
}

/// **Parses are well-formed, datetimes**: whatever value the datetime parser
/// returns satisfies the ranges of [`DateTime::wf`].
pub proof fn parsed_datetime_wf(s: Seq<u8>, i: int)
    requires
        0 <= i,
    ensures
        sp_parse_datetime(s, i) matches Ok(p) ==> p.0.wf(),
{
    if sp_parse_datetime(s, i) is Ok {
        parsed_date_wf(s, i);
        let (d, j) = sp_parse_date(s, i)->Ok_0;
        let j1 = sp_tag(s, j, 84)->Ok_0;
        parsed_time_wf(s, j1);
    }
}

/// **Parses are well-formed, durations**: whatever value the duration parser
/// returns satisfies [`Duration::wf`], the millisecond bound.
pub proof fn parsed_duration_wf(s: Seq<u8>, i: int)
    requires
        0 <= i,
    ensures
        sp_parse_duration(s, i) matches Ok(p) ==> p.0.wf(),
{
    lemma_duration_secms_wf(s, i);
    if sp_parse_duration(s, i) is Ok {
        if sp_duration_ymdhms(s, i) is Ok {
            let j = sp_tag(s, i, 80)->Ok_0;
            let yp = sp_dur_unit(s, j, 89);
            let j1 = if yp is Ok {
                yp->Ok_0.1
            } else {
                j
            };
            let mp = sp_dur_unit(s, j1, 77);
            let j2 = if mp is Ok {
                mp->Ok_0.1
            } else {
                j1
            };
            let dp = sp_dur_unit(s, j2, 68);
            let j3 = if dp is Ok {
                dp->Ok_0.1
            } else {
                j2
            };
            if sp_tag(s, j3, 84) is Ok {
                let j4 = sp_tag(s, j3, 84)->Ok_0;
                let hp = sp_dur_unit(s, j4, 72);
                let q1 = if hp is Ok {
                    hp->Ok_0.1
                } else {
                    j4
                };
                let mp2 = sp_dur_unit(s, q1, 77);
                let q2 = if mp2 is Ok {
                    mp2->Ok_0.1
                } else {
                    q1
                };
                lemma_duration_secms_wf(s, q2);
            }
        } else if sp_duration_weeks(s, i) is Ok {
        } else {
            // The datetime form takes its milliseconds from a time parse.
            let j = sp_tag(s, i, 80)->Ok_0;
            let y = sp_take_n_digits(s, j, 4)->Ok_0;
            let j2 = sp_opt_byte(s, y.1, 45);
            let mo = sp_field(s, j2, 2, 1, 12)->Ok_0;
            let j4 = sp_opt_byte(s, mo.1, 45);
            let d = sp_field(s, j4, 2, 1, 31)->Ok_0;
            let j6 = sp_tag(s, d.1, 84)->Ok_0;
            parsed_time_wf(s, j6);
        }
    }
}

/// The seconds-and-fraction component keeps its milliseconds under a
/// thousand.
proof fn lemma_duration_secms_wf(s: Seq<u8>, i: int)
    ensures
        forall|j: int|
            0 <= j ==> (#[trigger] sp_duration_secms(s, j) matches Ok(p) ==> p.0.1 <= 999),
{
    assert forall|j: int| 0 <= j && sp_duration_secms(s, j) is Ok implies (sp_duration_secms(
        s,
        j,
    )->Ok_0).0.1 <= 999 by {
        if sp_dur_unit(s, j, 83) is Err {
            let v = sp_take_digits(s, j)->Ok_0;
            if 0 <= v.1 < s.len() && (s[v.1] == 46 || s[v.1] == 44) && run_len(s, v.1 + 1) > 0 {
                crate::digits::lemma_run_len_props(s, v.1 + 1);
                lemma_frac_ms_bound(s, v.1 + 1, run_len(s, v.1 + 1));
            }
        }
    }
}


/// **Format equivalence, calendar dates**: the basic, separator-free form of
/// a calendar date parses to the same value as its extended form with
/// separators (see [`round_trip_date`]): the separators carry no meaning.
pub proof fn basic_format_date(s: Seq<u8>, d: Date)
    requires
        d is YMD,
        d.wf(),
        s == sp_render_year(d->YMD_year as int) + padded(d->YMD_month as nat, 2) + padded(
            d->YMD_day as nat,
            2,
        ),
    ensures
        sp_parse_date(s, 0) == Ok::<(Date, int), ParseError>((d, s.len() as int)),
{
    lemma_pow10_values();
    let y = d->YMD_year;
    let mo = d->YMD_month;
    let dy = d->YMD_day;
    let ry = sp_render_year(y as int);
    let pm = padded(mo as nat, 2);
    let pd = padded(dy as nat, 2);
    let yl = ry.len() as int;
    lemma_padded_exact(abs_nat(y as int), 4);
    lemma_padded_exact(mo as nat, 2);
    lemma_padded_exact(dy as nat, 2);
    lemma_padded(mo as nat, 2);
    lemma_padded(dy as nat, 2);
    assert(s == ry + pm + pd + Seq::<u8>::empty() + Seq::<u8>::empty());
    lemma_concat5_slices(s, ry, pm, pd, Seq::<u8>::empty(), Seq::<u8>::empty());
    assert(s.len() == yl + 4);
    assert(s.subrange(0, yl) == ry);
    lemma_year_of_render(s, 0, y);
    // No separator stands after the year: a month digit does.
    assert(s[yl] == pm[0]) by {
        assert(s.subrange(yl, yl + 2)[0] == s[yl]);
    }
    assert(is_digit_byte(s[yl]));
    assert(sp_opt_byte(s, yl, 45) == yl);
    lemma_field_of_padded(s, yl, mo, 2, 1, 12);
    assert(s[yl + 2] == pd[0]) by {
        assert(s.subrange(yl + 2, yl + 4)[0] == s[yl + 2]);
    }
    assert(is_digit_byte(s[yl + 2]));
    assert(sp_opt_byte(s, yl + 2, 45) == yl + 2);
    lemma_field_of_padded(s, yl + 2, dy, 2, 1, 31);
    assert(sp_date_ymd(s, 0) == Ok::<(Date, int), ParseError>((d, yl + 4)));
}

} // verus!
