//! A packed binary sequence stored in 64-bit words, with word-aligned reads
//! and extraction of the ascending positions of ones or zeros. This is the
//! container the select index is built over; bits beyond the length are kept
//! cleared in the backing words.

use vstd::prelude::*;
use crate::positions::{pos_seq, lemma_pos_seq_take_step};
use crate::words::{word_bit, lemma_or_bit, lemma_zero_bit};

verus! {

pub struct BitVector {
    words: Vec<u64>,
    len: usize,
}

impl View for BitVector {
    type V = Seq<bool>;

    closed spec fn view(&self) -> Seq<bool> {
        Seq::new(self.len as nat, |p: int| word_bit(self.words@[p / 64], (p % 64) as u64))
    }
}

impl BitVector {
    /// The backing words cover the length exactly and the bits at or beyond
    /// the length are cleared.
    pub closed spec fn wf(&self) -> bool {
        &&& self.len <= 64 * self.words@.len() < self.len + 64
        &&& forall|k: int, j: u64|
            0 <= k < self.words@.len() && j < 64 && k * 64 + j >= self.len ==> !#[trigger] word_bit(
                self.words@[k],
                j,
            )
    }

    pub closed spec fn spec_word(&self, k: int) -> u64 {
        self.words@[k]
    }

    pub closed spec fn num_words(&self) -> int {
        self.words@.len() as int
    }

    /// The length of the view is a `usize` value.
    pub proof fn lemma_len_bound(&self)
        ensures
            self@.len() <= usize::MAX,
    {
    }

    /// How many backing words a well-formed vector has.
    pub proof fn lemma_num_words(&self)
        requires
            self.wf(),
        ensures
            self@.len() <= 64 * self.num_words() < self@.len() + 64,
    {
    }

    /// Bit `j` of word `k` is the sequence bit at position `64k + j`, and is
    /// cleared past the end of the sequence.
    pub proof fn lemma_word_view(&self, k: int, j: u64)
        requires
            self.wf(),
            0 <= k < self.num_words(),
            j < 64,
        ensures
            word_bit(self.spec_word(k), j) == if k * 64 + j < self@.len() {
                self@[k * 64 + j]
            } else {
                false
            },
    {
        assert(self@.len() == self.len);
        if k * 64 + j < self@.len() {
            let p = k * 64 + j;
            assert(p / 64 == k && p % 64 == j) by (nonlinear_arith)
                requires
                    p == k * 64 + j,
                    0 <= j < 64,
                    0 <= k,
            ;
        }
    }

    pub fn new() -> (r: BitVector)
        ensures
            r.wf(),
            r@ =~= Seq::<bool>::empty(),
    {
        BitVector { words: Vec::new(), len: 0 }
    }

    /// Appends one bit at the end of the sequence.
    pub fn push(&mut self, b: bool)
        requires
            old(self).wf(),
            old(self)@.len() < usize::MAX,
        ensures
            final(self).wf(),
            final(self)@ =~= old(self)@.push(b),
    {
        let ghost n0 = self.len as int;
        let ghost w0 = self.words@;
        let shift: u64 = (self.len % 64) as u64;
        let k = self.len / 64;
        proof {
            assert(n0 == 64 * (k as int) + shift && shift < 64) by (nonlinear_arith)
                requires
                    k == n0 / 64,
                    shift == n0 % 64,
                    0 <= n0,
            ;
        }
        if shift == 0 {
            self.words.push(0u64);
            proof {
                assert forall|j: u64| j < 64 implies !word_bit(self.words@[k as int], j) by {
                    lemma_zero_bit(j);
                }
                assert(self.words@.len() == w0.len() + 1);
                assert(k as int == w0.len());
            }
        }
        proof {
            assert((k as int) < self.words@.len());
        }
        let ghost w1 = self.words@;
        let w = self.words[k];
        if b {
            self.words[k] = w | (1u64 << shift);
            proof {
                assert forall|j: u64| j < 64 implies word_bit(self.words@[k as int], j) == (j
                    == shift || word_bit(w, j)) by {
                    lemma_or_bit(w, shift, j);
                }
            }
        }
        self.len = self.len + 1;
        proof {
            // Bits of the touched word that survive from before the call are
            // governed by the old well-formedness; a freshly pushed word is zero.
            assert forall|j: u64| j < 64 && (k as int) * 64 + j >= n0 implies !word_bit(w, j) by {
                if shift == 0 {
                    lemma_zero_bit(j);
                } else {
                    assert(w == w0[k as int]);
                }
            }
            // Well-formedness of the result.
            assert(self.len <= 64 * self.words@.len() < self.len + 64);
            assert forall|kk: int, j: u64|
                0 <= kk < self.words@.len() && j < 64 && kk * 64 + j >= self.len implies !word_bit(
                self.words@[kk],
                j,
            ) by {
                if kk == k as int {
                    if b {
                        assert(word_bit(self.words@[kk], j) == (j == shift || word_bit(w, j)));
                        assert(j != shift);
                    } else {
                        assert(self.words@[kk] == w);
                    }
                } else if kk < w0.len() {
                    assert(self.words@[kk] == w0[kk]);
                } else {
                    lemma_zero_bit(j);
                }
            }
            // The view gained exactly the new bit at the end.
            assert(self@.len() == n0 + 1);
            assert forall|p: int| 0 <= p <= n0 implies self@[p] == old(self)@.push(b)[p] by {
                assert(p / 64 * 64 + p % 64 == p && 0 <= p % 64 < 64) by (nonlinear_arith)
                    requires
                        0 <= p,
                ;
                if p == n0 {
                    assert(p / 64 == k as int && p % 64 == shift) by (nonlinear_arith)
                        requires
                            p == 64 * (k as int) + shift,
                            0 <= shift < 64,
                            0 <= k,
                    ;
                    if b {
                        assert(self.words@[k as int] == w | (1u64 << shift));
                        lemma_or_bit(w, shift, shift);
                    } else {
                        assert(self.words@[k as int] == w);
                        assert(!word_bit(w, shift));
                    }
                } else {
                    assert(p < n0);
                    assert(p / 64 <= k as int) by (nonlinear_arith)
                        requires
                            p < n0,
                            n0 == 64 * (k as int) + shift,
                            0 <= shift < 64,
                            0 <= p,
                            0 <= k,
                    ;
                    if p / 64 == k as int {
                        // Same word as the appended bit: the bit position differs.
                        assert(p % 64 < shift || shift == 0) by (nonlinear_arith)
                            requires
                                p < n0,
                                n0 == 64 * (k as int) + shift,
                                p / 64 == k as int,
                                p / 64 * 64 + p % 64 == p,
                        ;
                        assert(shift != 0);
                        assert(w == w0[k as int]);
                        if b {
                            assert(word_bit(self.words@[k as int], (p % 64) as u64) == word_bit(
                                w0[k as int],
                                (p % 64) as u64,
                            ));
                        }
                    } else {
                        assert(p / 64 < k as int);
                        assert(self.words@[p / 64] == w0[p / 64]);
                    }
                }
            }
        }
    }

    pub fn len(&self) -> (r: usize)
        ensures
            r == self@.len(),
    {
        self.len
    }

    /// Checked access: the bit at `pos`, or nothing past the end.
    pub fn get(&self, pos: usize) -> (r: Option<bool>)
        requires
            self.wf(),
        ensures
            pos < self@.len() ==> r == Some(self@[pos as int]),
            pos >= self@.len() ==> r is None,
    {
        if pos < self.len {
            let k = pos / 64;
            let shift: u64 = (pos % 64) as u64;
            proof {
                assert((pos as int) / 64 < self.words@.len()) by (nonlinear_arith)
                    requires
                        pos < self.len,
                        self.len <= 64 * self.words@.len(),
                        0 <= pos,
                ;
            }
            Some((self.words[k] >> shift) & 1u64 == 1u64)
        } else {
            None
        }
    }

    /// Word-aligned read; bit `p % 64` of word `p / 64` is the bit at
    /// sequence position `p`.
    pub fn get_word(&self, k: usize) -> (r: u64)
        requires
            self.wf(),
            k < self.num_words(),
        ensures
            r == self.spec_word(k as int),
    {
        self.words[k]
    }

    /// Releases spare capacity of the backing words.
    pub fn shrink_to_fit(&mut self)
        ensures
            final(self)@ == old(self)@,
            final(self).wf() == old(self).wf(),
            final(self).num_words() == old(self).num_words(),
            forall|k: int| #[trigger] final(self).spec_word(k) == old(self).spec_word(k),
    {
        crate::shims::shrink_vec(&mut self.words);
    }

    /// Space usage in bytes: the backing words and the length, with 8-byte
    /// words.
    pub fn space_usage_byte(&self) -> (r: usize)
        requires
            self.num_words() * 8 + 8 <= usize::MAX,
        ensures
            r as int == self.num_words() * 8 + 8,
    {
        self.words.len() * 8 + 8
    }

    /// The ascending positions of the bits equal to `bit`.
    pub fn positions(&self, bit: bool) -> (r: Vec<usize>)
        requires
            self.wf(),
        ensures
            r@ == pos_seq(self@, bit),
    {
        let mut r: Vec<usize> = Vec::new();
        let n = self.len;
        let mut p: usize = 0;
        while p < n
            invariant
                self.wf(),
                p <= n,
                n == self@.len(),
                r@ == pos_seq(self@.take(p as int), bit),
            decreases n - p,
    {
            let b = match self.get(p) {
                Some(b) => b,
                None => false,
            };
            proof {
                lemma_pos_seq_take_step(self@, bit, p as int);
            }
            if b == bit {
                r.push(p);
            }
            p = p + 1;
        }
        proof {
            assert(self@.take(n as int) =~= self@);
        }
        r
    }
}

} // verus!
