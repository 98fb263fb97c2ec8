//! Bit-level primitives on 64-bit words: a spec-level bit accessor, a
//! population count, and selection of the (k+1)-th set bit inside a word.

use vstd::prelude::*;
use crate::positions::{count_upto, lemma_count_mono};

verus! {

/// Bit `j` of `w` (false when `j >= 64`, since the shift is masked there).
pub open spec fn word_bit(w: u64, j: u64) -> bool
    recommends
        j < 64,
{
    (w >> j) & 1u64 == 1u64
}

/// The 64 bits of a word, lowest first, as a sequence of booleans.
pub open spec fn bits_of(w: u64) -> Seq<bool> {
    Seq::new(64, |j: int| word_bit(w, j as u64))
}

pub proof fn lemma_mask_low(x: u64, s: u64, j: u64)
    by (bit_vector)
    requires
        s < 64,
        j < 64,
    ensures
        word_bit(x & (u64::MAX << s), j) == (j >= s && word_bit(x, j)),
{
}

pub proof fn lemma_not_bit(x: u64, j: u64)
    by (bit_vector)
    requires
        j < 64,
    ensures
        word_bit(!x, j) == !word_bit(x, j),
{
}

pub proof fn lemma_or_bit(x: u64, s: u64, j: u64)
    by (bit_vector)
    requires
        s < 64,
        j < 64,
    ensures
        word_bit(x | (1u64 << s), j) == (j == s || word_bit(x, j)),
{
}

pub proof fn lemma_zero_bit(j: u64)
    by (bit_vector)
    requires
        j < 64,
    ensures
        !word_bit(0u64, j),
{
}

/// A prefix consisting of cleared bits contributes nothing to the count.
pub proof fn lemma_count_false_prefix(u: Seq<bool>, lo: int)
    requires
        forall|j: int| 0 <= j < lo ==> !u[j],
    ensures
        count_upto(u, true, lo) == 0,
    decreases lo,
{
    if lo > 0 {
        lemma_count_false_prefix(u, lo - 1);
    }
}

/// Counting set bits of a word slice equals counting matches of `vb` in the
/// region of `s` the slice mirrors.
pub proof fn lemma_count_pointwise(u: Seq<bool>, s: Seq<bool>, vb: bool, base: int, lo: int, hi: int)
    requires
        0 <= lo <= hi,
        0 <= base + lo,
        forall|j: int| 0 <= j < lo ==> !u[j],
        forall|j: int| lo <= j < hi ==> u[j] == (s[base + j] == vb),
    ensures
        count_upto(u, true, hi) == count_upto(s, vb, base + hi) - count_upto(s, vb, base + lo),
    decreases hi - lo,
{
    if hi == lo {
        lemma_count_false_prefix(u, lo);
    } else {
        lemma_count_pointwise(u, s, vb, base, lo, hi - 1);
        assert(u[hi - 1] == (s[base + hi - 1] == vb));
        assert(count_upto(u, true, hi) == count_upto(u, true, hi - 1) + if u[hi - 1] {
            1int
        } else {
            0int
        });
        assert(count_upto(s, vb, base + hi) == count_upto(s, vb, base + hi - 1) + if s[base + hi
            - 1] == vb {
            1int
        } else {
            0int
        });
    }
}

/// Number of set bits in `w`.
pub fn popcount(w: u64) -> (c: u64)
    ensures
        c == count_upto(bits_of(w), true, 64),
        c <= 64,
{
    let mut c: u64 = 0;
    let mut j: u64 = 0;
    while j < 64
        invariant
            j <= 64,
            c <= j,
            c == count_upto(bits_of(w), true, j as int),
        decreases 64 - j,
    {
        if (w >> j) & 1u64 == 1u64 {
            c = c + 1;
        }
        j = j + 1;
    }
    c
}

/// Position of the (k+1)-th set bit of `w`: bit `r` is set and exactly `k`
/// set bits lie strictly below it.
pub fn select_in_word(w: u64, k: u64) -> (r: u64)
    requires
        k < count_upto(bits_of(w), true, 64),
    ensures
        r < 64,
        word_bit(w, r),
        count_upto(bits_of(w), true, r as int) == k,
{
    let mut c: u64 = 0;
    let mut j: u64 = 0;
    while j < 64
        invariant
            j <= 64,
            c == count_upto(bits_of(w), true, j as int),
            c <= k,
            k < count_upto(bits_of(w), true, 64),
        decreases 64 - j,
    {
        if (w >> j) & 1u64 == 1u64 {
            if c == k {
                return j;
            }
            c = c + 1;
        }
        proof {
            lemma_count_mono(bits_of(w), true, j + 1, 64);
        }
        j = j + 1;
    }
    proof {
        assert(false);
    }
    0
}

/// The (k+1)-th set bit is the unique bit with `k` set bits below it.
pub proof fn lemma_select_unique(w: u64, a: u64, b: u64)
    requires
        a < 64,
        b < 64,
        word_bit(w, a),
        word_bit(w, b),
        count_upto(bits_of(w), true, a as int) == count_upto(bits_of(w), true, b as int),
    ensures
        a == b,
{
    if a < b {
        crate::positions::lemma_count_strict(bits_of(w), true, a as int, b as int);
    } else if b < a {
        crate::positions::lemma_count_strict(bits_of(w), true, b as int, a as int);
    }
}

} // verus!
