//! Reading runs of ASCII digits and writing numbers back as decimal text.
//!
//! The spec-level model of a digit string is [`nv`], the numeric value of a
//! byte sequence of digits; [`dec_rep`] is its inverse, the shortest decimal
//! representation of a number.

use vstd::prelude::*;

use crate::parsers::ParseError;

verus! {

/// A byte is an ASCII decimal digit (`'0'` to `'9'`).
pub open spec fn is_digit_byte(b: u8) -> bool {
    48 <= b <= 57
}

/// The numeric value of one ASCII digit byte.
pub open spec fn digit_val(b: u8) -> nat {
    (b - 48) as nat
}

/// Every byte of the sequence is an ASCII digit.
pub open spec fn all_digits(s: Seq<u8>) -> bool {
    forall|k: int| 0 <= k < s.len() ==> is_digit_byte(#[trigger] s[k])
}

/// The numeric value of a sequence of ASCII digit bytes, most significant
/// digit first.
pub open spec fn nv(s: Seq<u8>) -> nat
    decreases s.len(),
{
    if s.len() == 0 {
        0
    } else {
        nv(s.drop_last()) * 10 + digit_val(s.last())
    }
}

/// Ten to the `n`.
pub open spec fn pow10(n: nat) -> nat
    decreases n,
{
    if n == 0 {
        1
    } else {
        10 * pow10((n - 1) as nat)
    }
}

/// The length of the maximal run of ASCII digits in `s` that starts at `i`.
pub open spec fn run_len(s: Seq<u8>, i: int) -> int
    decreases s.len() - i,
        when i <= s.len()
{
    if i < 0 || i >= s.len() || !is_digit_byte(s[i]) {
        0
    } else {
        1 + run_len(s, i + 1)
    }
}

pub proof fn lemma_pow10_pos(n: nat)
    ensures
        pow10(n) >= 1,
    decreases n,
{
    if n > 0 {
        lemma_pow10_pos((n - 1) as nat);
    }
}

/// The value of a digit string is bounded by the power of ten of its length.
pub proof fn lemma_nv_bound(s: Seq<u8>)
    requires
        all_digits(s),
    ensures
        nv(s) < pow10(s.len()),
    decreases s.len(),
{
    if s.len() > 0 {
        assert(all_digits(s.drop_last()));
        lemma_nv_bound(s.drop_last());
    }
}

/// Concatenation of digit strings: the left part is shifted by the length of
/// the right part.
pub proof fn lemma_nv_concat(a: Seq<u8>, b: Seq<u8>)
    ensures
        nv(a + b) == nv(a) * pow10(b.len()) + nv(b),
    decreases b.len(),
{
    if b.len() == 0 {
        assert(a + b =~= a);
        assert(pow10(b.len()) == 1);
        assert(nv(b) == 0);
        assert(nv(a) * 1 == nv(a));
        assert(nv(a + b) == nv(a) * pow10(b.len()) + nv(b));
    } else {
        let bd = b.drop_last();
        lemma_nv_concat(a, bd);
        assert((a + b).drop_last() =~= a + bd);
        assert((a + b).last() == b.last());
        assert(nv(a + b) == nv(a + bd) * 10 + digit_val(b.last()));
        assert(nv(b) == nv(bd) * 10 + digit_val(b.last()));
        assert(pow10(b.len()) == 10 * pow10(bd.len()));
        assert(nv(a + b) == nv(a) * pow10(b.len()) + nv(b)) by (nonlinear_arith)
            requires
                nv(a + b) == nv(a + bd) * 10 + digit_val(b.last()),
                nv(a + bd) == nv(a) * pow10(bd.len()) + nv(bd),
                nv(b) == nv(bd) * 10 + digit_val(b.last()),
                pow10(b.len()) == 10 * pow10(bd.len()),
        ;
    }
}

/// The run of digits starting at `i` is exactly `k` long when positions
/// `i..i+k` hold digits and position `i + k` does not (or is the end).
pub proof fn lemma_run_len_exact(s: Seq<u8>, i: int, k: int)
    requires
        0 <= i,
        k >= 0,
        i + k <= s.len(),
        forall|j: int| i <= j < i + k ==> is_digit_byte(#[trigger] s[j]),
        i + k == s.len() || !is_digit_byte(s[i + k]),
    ensures
        run_len(s, i) == k,
    decreases k,
{
    if k == 0 {
    } else {
        lemma_run_len_exact(s, i + 1, k - 1);
    }
}

/// Basic facts about a digit run: it is in bounds, consists of digits, and is
/// maximal.
pub proof fn lemma_run_len_props(s: Seq<u8>, i: int)
    requires
        0 <= i <= s.len(),
    ensures
        0 <= run_len(s, i),
        i + run_len(s, i) <= s.len(),
        forall|j: int| i <= j < i + run_len(s, i) ==> is_digit_byte(#[trigger] s[j]),
        i + run_len(s, i) == s.len() || !is_digit_byte(s[i + run_len(s, i)]),
    decreases s.len() - i,
{
    if i < s.len() && is_digit_byte(s[i]) {
        lemma_run_len_props(s, i + 1);
    }
}

/// Reads the maximal run of ASCII digits of `s` starting at `i` as an
/// unsigned number: `Err` when no digit is there, or when the value does not
/// fit in a `u32`.
pub open spec fn sp_take_digits(s: Seq<u8>, i: int) -> Result<(u32, int), ParseError> {
    let n = run_len(s, i);
    if n == 0 {
        Err(ParseError::MalformedInput)
    } else if nv(s.subrange(i, i + n)) > u32::MAX {
        Err(ParseError::MalformedInput)
    } else {
        Ok((nv(s.subrange(i, i + n)) as u32, i + n))
    }
}

/// Reads exactly `n` ASCII digits of `s` starting at `i` as an unsigned
/// number; `Err` when fewer than `n` digits stand there.
pub open spec fn sp_take_n_digits(s: Seq<u8>, i: int, n: int) -> Result<(u32, int), ParseError> {
    if 0 <= i && i + n <= s.len() && all_digits(s.subrange(i, i + n)) {
        Ok((nv(s.subrange(i, i + n)) as u32, i + n))
    } else {
        Err(ParseError::MalformedInput)
    }
}

/// Reads exactly `n` digits and checks the value against an inclusive range:
/// out-of-range values are rejected as `OutOfRange` without consuming input.
pub open spec fn sp_field(s: Seq<u8>, i: int, n: int, lo: u32, hi: u32) -> Result<
    (u32, int),
    ParseError,
> {
    match sp_take_n_digits(s, i, n) {
        Ok((v, j)) => if lo <= v <= hi {
            Ok((v, j))
        } else {
            Err(ParseError::OutOfRange)
        },
        Err(e) => Err(e),
    }
}

/// Reads the maximal digit run at position `i` and its value.
///
/// Returns `Err(MalformedInput)` when no digit starts at `i` or the run's
/// value exceeds `u32::MAX`.
pub fn take_digits(s: &[u8], i: usize) -> (r: Result<(u32, usize), ParseError>)
    requires
        i <= s@.len(),
    ensures
        sp_take_digits(s@, i as int) matches Ok((v, j)) ==> r matches Ok(p) && p.0 == v && p.1
            == j,
        sp_take_digits(s@, i as int) matches Err(e) ==> r == Err::<(u32, usize), ParseError>(e),
        r matches Ok(p) ==> i <= p.1 <= s@.len(),
{
    proof {
        lemma_run_len_props(s@, i as int);
    }
    let ghost n = run_len(s@, i as int);
    let mut j: usize = i;
    let mut val: u32 = 0;
    while j < s.len() && 48 <= s[j] && s[j] <= 57
        invariant
            i <= j <= s@.len(),
            i + n <= s@.len(),
            j <= i + n,
            n == run_len(s@, i as int),
            forall|k: int| i <= k < i + n ==> is_digit_byte(#[trigger] s@[k]),
            i + n == s@.len() || !is_digit_byte(s@[i + n]),
            val == nv(s@.subrange(i as int, j as int)),
        decreases s@.len() - j,
    {
        proof {
            // The loop condition says a digit stands at `j`, so `j` is still
            // inside the maximal run.
            if j == i + n {
                assert(j < s@.len());
                assert(!is_digit_byte(s@[i + n]));
                assert(false);
            }
            assert(s@.subrange(i as int, j + 1).drop_last() =~= s@.subrange(i as int, j as int));
            assert(s@.subrange(i as int, j + 1).last() == s@[j as int]);
        }
        let d: u32 = (s[j] - 48) as u32;
        let overflowed: bool = match val.checked_mul(10) {
            Some(v10) => {
                match v10.checked_add(d) {
                    Some(v) => {
                        val = v;
                        false
                    },
                    None => true,
                }
            },
            None => true,
        };
        if overflowed {
            // The value of the whole run only grows with more digits, so the
            // run as a whole does not fit in a `u32` either.
            proof {
                let whole = s@.subrange(i as int, i + n);
                let pre = s@.subrange(i as int, j + 1);
                let post = s@.subrange(j + 1, i + n);
                assert(nv(pre) == val * 10 + d);
                assert(nv(pre) > u32::MAX);
                assert(whole =~= pre + post);
                lemma_nv_concat(pre, post);
                lemma_pow10_pos(post.len());
                assert(nv(pre) * pow10(post.len()) >= nv(pre) * 1) by (nonlinear_arith)
                    requires
                        pow10(post.len()) >= 1,
                        nv(pre) >= 0,
                ;
                assert(nv(whole) > u32::MAX);
            }
            return Err(ParseError::MalformedInput);
        }
        j = j + 1;
    }
    proof {
        if j < i + n {
            assert(is_digit_byte(s@[j as int]));
            assert(false);
        }
        assert(j == i + n);
    }
    if j == i {
        Err(ParseError::MalformedInput)
    } else {
        Ok((val, j))
    }
}

/// Reads exactly `n` ASCII digits starting at `i` and their value; fails when
/// fewer are available or a non-digit stands among them.
pub fn take_n_digits(s: &[u8], i: usize, n: usize) -> (r: Result<(u32, usize), ParseError>)
    requires
        i <= s@.len(),
        1 <= n <= 9,
    ensures
        sp_take_n_digits(s@, i as int, n as int) matches Ok((v, j)) ==> r matches Ok(p) && p.0 == v
            && p.1 == j,
        sp_take_n_digits(s@, i as int, n as int) matches Err(e) ==> r == Err::<
            (u32, usize),
            ParseError,
        >(e),
        r matches Ok(p) ==> i <= p.1 <= s@.len(),
{
    if s.len() - i < n {
        return Err(ParseError::MalformedInput);
    }
    let end: usize = i + n;
    let mut j: usize = i;
    let mut val: u32 = 0;
    while j < end
        invariant
            end == i + n,
            i <= j <= i + n,
            i + n <= s@.len(),
            1 <= n <= 9,
            forall|k: int| i <= k < j ==> is_digit_byte(#[trigger] s@[k]),
            val == nv(s@.subrange(i as int, j as int)),
        decreases i + n - j,
    {
        let b = s[j];
        if b < 48 || b > 57 {
            proof {
                assert(s@.subrange(i as int, i + n)[j - i] == s@[j as int]);
                assert(!all_digits(s@.subrange(i as int, i + n)));
            }
            return Err(ParseError::MalformedInput);
        }
        proof {
            let pre = s@.subrange(i as int, j as int);
            assert(all_digits(pre));
            lemma_nv_bound(pre);
            lemma_pow10_mono((j - i) as nat, 8);
            assert(pow10(8) == 100000000) by {
                reveal_with_fuel(pow10, 9);
            }
            assert(val < 100000000);
            assert(s@.subrange(i as int, j + 1).drop_last() =~= pre);
            assert(s@.subrange(i as int, j + 1).last() == s@[j as int]);
        }
        val = val * 10 + ((b - 48) as u32);
        j = j + 1;
    }
    proof {
        assert(all_digits(s@.subrange(i as int, i + n)));
    }
    Ok((val, j))
}

pub proof fn lemma_pow10_mono(a: nat, b: nat)
    requires
        a <= b,
    ensures
        pow10(a) <= pow10(b),
    decreases b,
{
    if a < b {
        lemma_pow10_mono(a, (b - 1) as nat);
        lemma_pow10_pos((b - 1) as nat);
    }
}

/// Reads exactly `n` digits and checks the result against `lo..=hi`.
pub fn n_digit_in_range(s: &[u8], i: usize, n: usize, lo: u32, hi: u32) -> (r: Result<
    (u32, usize),
    ParseError,
>)
    requires
        i <= s@.len(),
        1 <= n <= 9,
    ensures
        sp_field(s@, i as int, n as int, lo, hi) matches Ok((v, j)) ==> r matches Ok(p) && p.0 == v
            && p.1 == j,
        sp_field(s@, i as int, n as int, lo, hi) matches Err(e) ==> r == Err::<
            (u32, usize),
            ParseError,
        >(e),
        r matches Ok(p) ==> i <= p.1 <= s@.len(),
{
    match take_n_digits(s, i, n) {
        Ok((v, j)) => {
            if lo <= v && v <= hi {
                Ok((v, j))
            } else {
                Err(ParseError::OutOfRange)
            }
        },
        Err(e) => Err(e),
    }
}

/// The shortest decimal representation of `n`, in ASCII digit bytes.
pub open spec fn dec_rep(n: nat) -> Seq<u8>
    decreases n,
{
    if n < 10 {
        seq![(48 + n) as u8]
    } else {
        dec_rep(n / 10).push((48 + n % 10) as u8)
    }
}

/// `n` zero-padded to at least `w` ASCII digit bytes.
pub open spec fn padded(n: nat, w: nat) -> Seq<u8> {
    if dec_rep(n).len() >= w {
        dec_rep(n)
    } else {
        Seq::new((w - dec_rep(n).len()) as nat, |i: int| 48u8) + dec_rep(n)
    }
}

/// The decimal representation consists of digits and reads back as `n`.
pub proof fn lemma_dec_rep(n: nat)
    ensures
        dec_rep(n).len() >= 1,
        all_digits(dec_rep(n)),
        nv(dec_rep(n)) == n,
    decreases n,
{
    if n < 10 {
        assert(dec_rep(n).drop_last() =~= Seq::<u8>::empty());
        assert(dec_rep(n)[0] == (48 + n) as u8);
        assert(nv(dec_rep(n)) == nv(Seq::<u8>::empty()) * 10 + digit_val((48 + n) as u8));
    } else {
        lemma_dec_rep(n / 10);
        assert(dec_rep(n).drop_last() =~= dec_rep(n / 10));
        assert(dec_rep(n).last() == (48 + n % 10) as u8);
        assert(nv(dec_rep(n)) == (n / 10) * 10 + n % 10);
        assert forall|k: int| 0 <= k < dec_rep(n).len() implies is_digit_byte(
            #[trigger] dec_rep(n)[k],
        ) by {
            if k < dec_rep(n).len() - 1 {
                assert(dec_rep(n)[k] == dec_rep(n / 10)[k]);
            } else {
                assert(dec_rep(n)[k] == (48 + n % 10) as u8);
            }
        }
    }
}

/// A run of leading zero digits reads as zero.
pub proof fn lemma_nv_zeroes(k: nat)
    ensures
        nv(Seq::new(k, |i: int| 48u8)) == 0,
        all_digits(Seq::new(k, |i: int| 48u8)),
    decreases k,
{
    if k > 0 {
        lemma_nv_zeroes((k - 1) as nat);
        assert(Seq::new(k, |i: int| 48u8).drop_last() =~= Seq::new(
            (k - 1) as nat,
            |i: int| 48u8,
        ));
    }
}

/// The padded representation consists of digits, is at least `w` wide, and
/// reads back as `n`.
pub proof fn lemma_padded(n: nat, w: nat)
    ensures
        padded(n, w).len() >= w,
        padded(n, w).len() >= 1 || w == 0,
        all_digits(padded(n, w)),
        nv(padded(n, w)) == n,
{
    lemma_dec_rep(n);
    if dec_rep(n).len() < w {
        let z = Seq::new((w - dec_rep(n).len()) as nat, |i: int| 48u8);
        lemma_nv_zeroes((w - dec_rep(n).len()) as nat);
        lemma_nv_concat(z, dec_rep(n));
        assert(nv(padded(n, w)) == 0 * pow10(dec_rep(n).len()) + nv(dec_rep(n)));
        assert forall|k: int| 0 <= k < padded(n, w).len() implies is_digit_byte(
            #[trigger] padded(n, w)[k],
        ) by {
            if k < z.len() {
                assert(padded(n, w)[k] == 48u8);
            } else {
                assert(padded(n, w)[k] == dec_rep(n)[k - z.len()]);
            }
        }
    }
}

/// A number under `pow10(w)` pads to exactly `w` digits.
pub proof fn lemma_padded_exact(n: nat, w: nat)
    requires
        n < pow10(w),
        w >= 1,
    ensures
        padded(n, w).len() == w,
{
    lemma_dec_rep_len_le(n, w);
}

/// `dec_rep(n)` has at most `w` digits when `n < pow10(w)`.
pub proof fn lemma_dec_rep_len_le(n: nat, w: nat)
    requires
        n < pow10(w),
        w >= 1,
    ensures
        dec_rep(n).len() <= w,
    decreases n,
{
    if n >= 10 {
        assert(n / 10 < pow10((w - 1) as nat)) by (nonlinear_arith)
            requires
                n < pow10(w),
                pow10(w) == 10 * pow10((w - 1) as nat),
                n >= 10,
        ;
        lemma_dec_rep_len_le(n / 10, (w - 1) as nat);
    }
}

/// Appends the shortest decimal representation of `n` to `out`.
pub fn push_dec(out: &mut Vec<u8>, n: u32)
    ensures
        final(out)@ == old(out)@ + dec_rep(n as nat),
    decreases n,
{
    if n < 10 {
        out.push((48 + n) as u8);
        assert(final(out)@ =~= old(out)@ + dec_rep(n as nat));
    } else {
        push_dec(out, n / 10);
        out.push((48 + n % 10) as u8);
        assert(final(out)@ =~= old(out)@ + dec_rep(n as nat));
    }
}

/// Appends `n` zero-padded to at least `w` digits to `out`.
pub fn push_padded(out: &mut Vec<u8>, n: u32, w: usize)
    requires
        w <= 10,
    ensures
        final(out)@ == old(out)@ + padded(n as nat, w as nat),
{
    proof {
        assert(pow10(10) == 10000000000) by {
            reveal_with_fuel(pow10, 11);
        }
        lemma_dec_rep_len_le(n as nat, 10);
        lemma_dec_rep(n as nat);
    }
    let mut digits: usize = 1;
    let mut x: u32 = n;
    while x >= 10
        invariant
            1 <= digits,
            digits + dec_rep(x as nat).len() == dec_rep(n as nat).len() + 1,
            dec_rep(n as nat).len() <= 10,
        decreases x,
    {
        proof {
            lemma_dec_rep_chop(x as nat);
            lemma_dec_rep((x / 10) as nat);
        }
        x = x / 10;
        digits = digits + 1;
    }
    assert(dec_rep(x as nat).len() == 1);
    assert(digits == dec_rep(n as nat).len());
    let zeros: usize = if w > digits {
        w - digits
    } else {
        0
    };
    let ghost base = out@;
    let mut k: usize = 0;
    while k < zeros
        invariant
            k <= zeros,
            out@ == base + Seq::new(k as nat, |i: int| 48u8),
        decreases zeros - k,
    {
        out.push(48u8);
        proof {
            assert(out@ =~= base + Seq::new((k + 1) as nat, |i: int| 48u8));
        }
        k = k + 1;
    }
    push_dec(out, n);
    proof {
        if dec_rep(n as nat).len() >= w {
            assert(Seq::new(0nat, |i: int| 48u8) =~= Seq::<u8>::empty());
            assert(final(out)@ =~= old(out)@ + padded(n as nat, w as nat));
        } else {
            assert(final(out)@ =~= old(out)@ + padded(n as nat, w as nat));
        }
    }
}

/// Powers of ten multiply by adding exponents.
pub proof fn lemma_pow10_add(a: nat, b: nat)
    ensures
        pow10(a) * pow10(b) == pow10(a + b),
    decreases a,
{
    if a == 0 {
        assert(pow10(0) == 1);
        assert(1 * pow10(b) == pow10(b));
    } else {
        lemma_pow10_add((a - 1) as nat, b);
        assert(pow10(a) == 10 * pow10((a - 1) as nat));
        assert((10 * pow10((a - 1) as nat)) * pow10(b) == 10 * (pow10((a - 1) as nat) * pow10(b)))
            by (nonlinear_arith);
        assert(pow10(a + b) == 10 * pow10((a + b - 1) as nat));
    }
}

/// One decimal digit is chopped off by division by ten.
pub proof fn lemma_dec_rep_chop(n: nat)
    requires
        n >= 10,
    ensures
        dec_rep(n).len() == dec_rep(n / 10).len() + 1,
{
}

} // verus!
