//! Small helpers shared by the parsers.

use vstd::prelude::*;

use crate::digits::{all_digits, nv, pow10};

verus! {

/// Converts a buffer of ASCII digits to an unsigned number.
///
/// The buffer must be non-empty, hold nothing but digits, and denote a value
/// that fits in a `u32`.
pub fn buf_to_u32(s: &[u8]) -> (r: u32)
    requires
        s@.len() >= 1,
        all_digits(s@),
        nv(s@) <= u32::MAX,
    ensures
        r == nv(s@),
{
    let mut j: usize = 0;
    let mut val: u32 = 0;
    while j < s.len()
        invariant
            j <= s@.len(),
            all_digits(s@),
            nv(s@) <= u32::MAX,
            val == nv(s@.subrange(0, j as int)),
        decreases s@.len() - j,
    {
        proof {
            let pre = s@.subrange(0, j + 1);
            let post = s@.subrange(j + 1, s@.len() as int);
            assert(s@ =~= pre + post);
            assert(all_digits(pre));
            assert(all_digits(post));
            crate::digits::lemma_nv_concat(pre, post);
            crate::digits::lemma_pow10_pos(post.len());
            assert(nv(pre) * pow10(post.len()) >= nv(pre) * 1) by (nonlinear_arith)
                requires
                    pow10(post.len()) >= 1,
                    nv(pre) >= 0,
            ;
            assert(pre.drop_last() =~= s@.subrange(0, j as int));
            assert(pre.last() == s@[j as int]);
        }
        val = val * 10 + ((s[j] - 48) as u32);
        j = j + 1;
    }
    proof {
        assert(s@.subrange(0, s@.len() as int) =~= s@);
    }
    val
}

} // verus!
