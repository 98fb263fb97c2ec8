//! A select-only index over a binary sequence. The positions of the chosen
//! bit are grouped into blocks of 1024; a block whose positions span less
//! than 2^16 bits is stored as a base position plus 16-bit offsets of every
//! 32nd position, and a wider block stores all its positions verbatim in an
//! overflow table. `select1(i)` (and optionally `select0`) then answers the
//! position of the (i+1)-th occurrence with at most one short word scan.

use vstd::prelude::*;
use crate::bitvector::BitVector;
use crate::positions::{
    pos_seq, count_upto, lemma_pos_seq_props, lemma_pos_seq_sorted, lemma_count_mono,
    lemma_count_strict, lemma_count_nonneg,
};
use crate::words::{
    word_bit, bits_of, popcount, select_in_word, lemma_mask_low, lemma_not_bit,
    lemma_count_pointwise, lemma_select_unique,
};
use crate::shims::shrink_vec;

verus! {

pub const BLOCK_SIZE: usize = 1024;

pub const SUBBLOCK_SIZE: usize = 32;

pub const MAX_IN_BLOCK_DISTANCE: usize = 65536;

/// The three inventory tables that one call of `flush_block` appends for the
/// block of positions `seg`: the signed block entry, the subblock entries
/// (offsets for a dense block, sentinels for a sparse one), and the overflow
/// positions (sparse blocks only).
pub open spec fn flush_model(
    m: (Seq<i64>, Seq<u16>, Seq<usize>),
    seg: Seq<usize>,
) -> (Seq<i64>, Seq<u16>, Seq<usize>)
    recommends
        1 <= seg.len() <= BLOCK_SIZE,
{
    let subs = ((seg.len() + 31) as int / 32) as nat;
    if seg[seg.len() - 1] - seg[0] < MAX_IN_BLOCK_DISTANCE {
        (
            m.0.push(seg[0] as i64),
            m.1 + Seq::new(subs, |j: int| (seg[32 * j] - seg[0]) as u16),
            m.2,
        )
    } else {
        (
            m.0.push((-(m.2.len() as int) - 1) as i64),
            m.1 + Seq::new(subs, |j: int| 0xFFFFu16),
            m.2 + seg,
        )
    }
}

/// The inventory tables determined by a full position sequence: every
/// complete run of 1024 positions is one block, the tail forms a last short
/// block.
pub open spec fn inv_model(p: Seq<usize>) -> (Seq<i64>, Seq<u16>, Seq<usize>)
    decreases p.len(),
{
    if p.len() == 0 {
        (Seq::empty(), Seq::empty(), Seq::empty())
    } else {
        let lo = (p.len() - 1) as int / 1024 * 1024;
        flush_model(inv_model(p.take(lo)), p.skip(lo))
    }
}

pub open spec fn num_blocks(m: int) -> int {
    (m + 1023) / 1024
}

pub open spec fn block_hi(m: int, b: int) -> int {
    if 1024 * (b + 1) < m {
        1024 * (b + 1)
    } else {
        m
    }
}

/// A block is dense when its first and last positions are less than 2^16 apart.
pub open spec fn block_is_dense(p: Seq<usize>, b: int) -> bool {
    p[block_hi(p.len() as int, b) - 1] - p[1024 * b] < MAX_IN_BLOCK_DISTANCE
}

pub open spec fn sorted_bounded(p: Seq<usize>) -> bool {
    &&& forall|i: int, j: int| 0 <= i < j < p.len() ==> #[trigger] p[i] < #[trigger] p[j]
    &&& forall|i: int| 0 <= i < p.len() ==> #[trigger] p[i] <= 0x7fff_ffff_ffff_ffff
    &&& p.len() + 1 <= 0x7fff_ffff_ffff_ffff
}

/// Unfolding `inv_model` one block at a time, in the order a left-to-right
/// construction visits the blocks.
proof fn lemma_inv_model_step(p: Seq<usize>, lo: int, hi: int)
    requires
        lo % 1024 == 0,
        0 <= lo < hi <= p.len(),
        hi == p.len() || hi == lo + 1024,
        hi <= lo + 1024,
    ensures
        inv_model(p.take(hi)) == flush_model(inv_model(p.take(lo)), p.subrange(lo, hi)),
{
    let u = p.take(hi);
    assert((hi - 1) / 1024 * 1024 == lo) by (nonlinear_arith)
        requires
            lo % 1024 == 0,
            0 <= lo < hi <= lo + 1024,
    ;
    assert(u.take(lo) =~= p.take(lo));
    assert(u.skip(lo) =~= p.subrange(lo, hi));
}

/// Everything `select` needs to know about the inventory tables of a sorted,
/// bounded position sequence: table lengths, and per block either the dense
/// base-plus-offset encoding or the sparse overflow run.
proof fn lemma_inv_model_props(p: Seq<usize>)
    requires
        sorted_bounded(p),
    ensures
        inv_model(p).0.len() == num_blocks(p.len() as int),
        inv_model(p).1.len() == (p.len() + 31) as int / 32,
        inv_model(p).2.len() <= p.len(),
        forall|b: int|
            0 <= b < num_blocks(p.len() as int) && block_is_dense(p, b)
                ==> #[trigger] inv_model(p).0[b] == p[1024 * b] as i64,
        forall|b: int, j: int|
            0 <= b < num_blocks(p.len() as int) && block_is_dense(p, b) && 0 <= j && 1024 * b + 32
                * j < block_hi(p.len() as int, b) ==> {
                &&& #[trigger] inv_model(p).1[32 * b + j] == (p[1024 * b + 32 * j] - p[1024 * b]) as u16
                &&& p[1024 * b + 32 * j] - p[1024 * b] < 65536
            },
        forall|b: int|
            0 <= b < num_blocks(p.len() as int) && !block_is_dense(p, b) ==> {
                &&& #[trigger] inv_model(p).0[b] < 0
                &&& -inv_model(p).0[b] - 1 + (block_hi(p.len() as int, b) - 1024 * b) <= inv_model(
                    p,
                ).2.len()
            },
        forall|b: int, t: int|
            0 <= b < num_blocks(p.len() as int) && !block_is_dense(p, b) && 0 <= t < block_hi(
                p.len() as int,
                b,
            ) - 1024 * b ==> #[trigger] inv_model(p).2[-inv_model(p).0[b] - 1 + t] == p[1024 * b
                + t],
    decreases p.len(),
{
    let n = p.len() as int;
    let nb = num_blocks(n);
    if p.len() == 0 {
    } else {
        let lo = (n - 1) / 1024 * 1024;
        assert(0 <= lo <= n - 1 && lo % 1024 == 0 && n - lo <= 1024) by (nonlinear_arith)
            requires
                lo == (n - 1) / 1024 * 1024,
                n >= 1,
        ;
        let q = p.take(lo);
        assert(sorted_bounded(q));
        lemma_inv_model_props(q);
        assert(nb == lo / 1024 + 1) by (nonlinear_arith)
            requires
                lo == (n - 1) / 1024 * 1024,
                n >= 1,
                nb == (n + 1023) / 1024,
        ;
        assert(num_blocks(lo) == lo / 1024) by (nonlinear_arith)
            requires
                lo % 1024 == 0,
                0 <= lo,
        ;
        let seg = p.skip(lo);
        let prev = inv_model(q);
        assert(inv_model(p) == flush_model(prev, seg)) by {
            assert(p.take(n) =~= p);
            lemma_inv_model_step(p, lo, n);
        }
        let subs = ((seg.len() + 31) as int / 32) as nat;
        assert(prev.1.len() + subs == (n + 31) / 32) by (nonlinear_arith)
            requires
                lo % 1024 == 0,
                0 <= lo < n <= lo + 1024,
                prev.1.len() == (lo + 31) / 32,
                subs == (n - lo + 31) / 32,
        ;
        // Blocks before the last one keep their encoding: their windows lie
        // inside the prefix and the appended tables preserve earlier indices.
        assert forall|b: int| 0 <= b < nb - 1 implies block_hi(n, b) == block_hi(lo, b) && 1024 * (b
            + 1) <= lo by {
            assert(1024 * (b + 1) <= lo) by (nonlinear_arith)
                requires
                    0 <= b < nb - 1,
                    nb == lo / 1024 + 1,
                    lo % 1024 == 0,
                    0 <= lo,
            ;
        }
        assert forall|b: int| 0 <= b < nb - 1 implies (block_is_dense(p, b) == block_is_dense(
            q,
            b,
        )) by {
            assert(q[block_hi(lo, b) - 1] == p[block_hi(lo, b) - 1]);
            assert(q[1024 * b] == p[1024 * b]);
        }
        // The last block, b = nb - 1, is described by the flush of `seg`.
        let bl = nb - 1;
        assert(1024 * (nb - 1) == lo) by (nonlinear_arith)
            requires
                nb == lo / 1024 + 1,
                lo % 1024 == 0,
                0 <= lo,
        ;
        assert(block_hi(n, bl) == n);
        assert(seg.len() == n - lo);
        assert(seg[0] == p[lo] && seg[seg.len() - 1] == p[n - 1]);
        if block_is_dense(p, bl) {
            assert(inv_model(p).0[bl] == seg[0] as i64);
            assert forall|j: int| 0 <= j && lo + 32 * j < n implies #[trigger] inv_model(p).1[32
                * bl + j] == (p[lo + 32 * j] - p[lo]) as u16 && p[lo + 32 * j] - p[lo] < 65536 by {
                assert(j < subs) by (nonlinear_arith)
                    requires
                        0 <= j,
                        lo + 32 * j < n,
                        subs == (n - lo + 31) / 32,
                ;
                assert(32 * bl + j - prev.1.len() == j) by (nonlinear_arith)
                    requires
                        prev.1.len() == (lo + 31) / 32,
                        lo % 1024 == 0,
                        0 <= lo,
                        1024 * bl == lo,
                ;
                assert(seg[32 * j] == p[lo + 32 * j]);
                assert(p[lo + 32 * j] <= p[n - 1]) by {
                    if lo + 32 * j < n - 1 {
                        assert(p[lo + 32 * j] < p[n - 1]);
                    }
                }
                assert(p[lo] <= p[lo + 32 * j]) by {
                    if 0 < 32 * j {
                        assert(p[lo] < p[lo + 32 * j]);
                    }
                }
            }
        } else {
            assert(inv_model(p).0[bl] == (-(prev.2.len() as int) - 1) as i64);
            assert(prev.2.len() <= lo);
            assert((-(prev.2.len() as int) - 1) as i64 == -(prev.2.len() as int) - 1) by {
                assert(prev.2.len() <= 0x7fff_ffff_ffff_ffff);
            }
            assert forall|t: int| 0 <= t < n - lo implies #[trigger] inv_model(p).2[prev.2.len()
                + t] == p[lo + t] by {
                assert(seg[t] == p[lo + t]);
            }
        }
    }
}

/// The per-polarity inventory tables of a `DArray`. `BIT` records which bit
/// value the tables index: the positions fed to the constructor are those of
/// the ones (BIT = true) or of the zeros (BIT = false).
pub struct Inventories<const BIT: bool> {
    n_sets: usize,
    block_inventory: Vec<i64>,
    subblock_inventory: Vec<u16>,
    overflow_positions: Vec<usize>,
}

impl<const BIT: bool> Inventories<BIT> {
    /// The tables are exactly the model of the position sequence `p`.
    pub closed spec fn wf(&self, p: Seq<usize>) -> bool {
        &&& self.n_sets == p.len()
        &&& (self.block_inventory@, self.subblock_inventory@, self.overflow_positions@)
            == inv_model(p)
    }

    pub closed spec fn spec_n_sets(&self) -> int {
        self.n_sets as int
    }

    pub closed spec fn tables(&self) -> (Seq<i64>, Seq<u16>, Seq<usize>) {
        (self.block_inventory@, self.subblock_inventory@, self.overflow_positions@)
    }

    /// Appends the inventory entries of the block of positions
    /// `positions[lo..hi]`.
    fn flush_block(&mut self, positions: &Vec<usize>, lo: usize, hi: usize)
        requires
            sorted_bounded(positions@),
            lo < hi <= positions@.len(),
            hi <= lo + 1024,
            old(self).overflow_positions@.len() <= positions@.len(),
        ensures
            (
                final(self).block_inventory@,
                final(self).subblock_inventory@,
                final(self).overflow_positions@,
            ) == flush_model(
                (
                    old(self).block_inventory@,
                    old(self).subblock_inventory@,
                    old(self).overflow_positions@,
                ),
                positions@.subrange(lo as int, hi as int),
            ),
            final(self).n_sets == old(self).n_sets,
    {
        let ghost seg = positions@.subrange(lo as int, hi as int);
        let ghost subs = ((seg.len() + 31) as int / 32) as nat;
        let first = positions[lo];
        let last = positions[hi - 1];
        proof {
            if lo < hi - 1 {
                assert(positions@[lo as int] < positions@[hi - 1]);
            }
        }
        let count = (hi - lo + 31) / 32;
        if last - first < MAX_IN_BLOCK_DISTANCE {
            self.block_inventory.push(first as i64);
            let ghost s0 = self.subblock_inventory@;
            let mut j: usize = 0;
            while j < count
                invariant
                    sorted_bounded(positions@),
                    lo < hi <= positions@.len(),
                    hi <= lo + 1024,
                    count == (hi - lo + 31) / 32,
                    j <= count,
                    seg == positions@.subrange(lo as int, hi as int),
                    first == positions@[lo as int],
                    last == positions@[hi - 1],
                    last - first < MAX_IN_BLOCK_DISTANCE,
                    self.n_sets == old(self).n_sets,
                    self.block_inventory@ == old(self).block_inventory@.push(first as i64),
                    self.overflow_positions@ == old(self).overflow_positions@,
                    self.subblock_inventory@ =~= s0 + Seq::new(
                        j as nat,
                        |jj: int| (seg[32 * jj] - seg[0]) as u16,
                    ),
                decreases count - j,
            {
                proof {
                    assert(lo + 32 * j < hi) by (nonlinear_arith)
                        requires
                            j < count,
                            count == (hi - lo + 31) / 32,
                            lo < hi,
                    ;
                    assert(positions@[lo as int] <= positions@[lo + 32 * j]) by {
                        if 0 < 32 * j {
                            assert(positions@[lo as int] < positions@[lo + 32 * j]);
                        }
                    }
                    assert(positions@[lo + 32 * j] <= positions@[hi - 1]) by {
                        if lo + 32 * j < hi - 1 {
                            assert(positions@[lo + 32 * j] < positions@[hi - 1]);
                        }
                    }
                }
                let dist = (positions[lo + 32 * j] - first) as u16;
                self.subblock_inventory.push(dist);
                j = j + 1;
                proof {
                    assert(seg[32 * (j - 1)] == positions@[lo + 32 * (j - 1)]);
                    assert(seg[0] == positions@[lo as int]);
                    assert(self.subblock_inventory@ =~= s0 + Seq::new(
                        j as nat,
                        |jj: int| (seg[32 * jj] - seg[0]) as u16,
                    ));
                }
            }
            proof {
                assert(subs == count) by (nonlinear_arith)
                    requires
                        seg.len() == hi - lo,
                        subs == ((seg.len() + 31) as int / 32) as nat,
                        count == (hi - lo + 31) / 32,
                        lo < hi,
                ;
                assert(seg[0] == positions@[lo as int] && seg[seg.len() - 1] == positions@[hi - 1]);
                assert(self.subblock_inventory@ =~= s0 + Seq::new(
                    subs,
                    |jj: int| (seg[32 * jj] - seg[0]) as u16,
                ));
            }
        } else {
            proof {
                assert(self.overflow_positions@.len() <= 0x7fff_ffff_ffff_fffe);
            }
            let v: i64 = -(self.overflow_positions.len() as i64) - 1;
            self.block_inventory.push(v);
            let ghost o0 = self.overflow_positions@;
            let mut t: usize = lo;
            while t < hi
                invariant
                    lo <= t <= hi <= positions@.len(),
                    seg == positions@.subrange(lo as int, hi as int),
                    self.n_sets == old(self).n_sets,
                    self.block_inventory@ == old(self).block_inventory@.push(v),
                    self.subblock_inventory@ == old(self).subblock_inventory@,
                    self.overflow_positions@ =~= o0 + positions@.subrange(lo as int, t as int),
                decreases hi - t,
            {
                let x = positions[t];
                self.overflow_positions.push(x);
                t = t + 1;
                proof {
                    assert(o0 + positions@.subrange(lo as int, t as int) =~= (o0
                        + positions@.subrange(lo as int, t - 1)).push(positions@[t - 1]));
                }
            }
            let ghost s0 = self.subblock_inventory@;
            let ghost o1 = self.overflow_positions@;
            let mut j: usize = 0;
            while j < count
                invariant
                    j <= count,
                    self.n_sets == old(self).n_sets,
                    self.block_inventory@ == old(self).block_inventory@.push(v),
                    self.overflow_positions@ == o1,
                    self.subblock_inventory@ =~= s0 + Seq::new(j as nat, |jj: int| 0xFFFFu16),
                decreases count - j,
            {
                self.subblock_inventory.push(0xFFFFu16);
                j = j + 1;
            }
            proof {
                assert(subs == count) by (nonlinear_arith)
                    requires
                        seg.len() == hi - lo,
                        subs == ((seg.len() + 31) as int / 32) as nat,
                        count == (hi - lo + 31) / 32,
                        lo < hi,
                ;
                assert(seg[0] == positions@[lo as int] && seg[seg.len() - 1] == positions@[hi - 1]);
                assert(self.subblock_inventory@ =~= s0 + Seq::new(subs, |jj: int| 0xFFFFu16));
                assert(o0 + positions@.subrange(lo as int, hi as int) =~= o0 + seg);
            }
        }
    }

    /// Space usage in bytes of the three tables and the count, with 8-byte
    /// words and 2-byte subblock entries.
    pub fn space_usage_byte(&self) -> (r: usize)
        requires
            self.tables().0.len() * 8 + self.tables().1.len() * 2 + self.tables().2.len() * 8 + 8
                <= usize::MAX,
        ensures
            r as int == self.tables().0.len() * 8 + self.tables().1.len() * 2 + self.tables().2.len()
                * 8 + 8,
    {
        8 + self.block_inventory.len() * 8 + self.subblock_inventory.len() * 2
            + self.overflow_positions.len() * 8
    }

    /// Builds the inventories for the positions of `BIT`-valued bits of `bv`.
    pub fn new(bv: &BitVector) -> (r: Self)
        requires
            bv.wf(),
            bv@.len() + 1 <= 0x7fff_ffff_ffff_ffff,
        ensures
            r.wf(pos_seq(bv@, BIT)),
    {
        let positions = bv.positions(BIT);
        proof {
            bv.lemma_len_bound();
            lemma_pos_seq_props(bv@, BIT);
            lemma_pos_seq_sorted(bv@, BIT);
            lemma_count_mono(bv@, BIT, 0, bv@.len() as int);
            assert(sorted_bounded(positions@));
        }
        let n = positions.len();
        let mut me = Inventories::<BIT> {
            n_sets: n,
            block_inventory: Vec::new(),
            subblock_inventory: Vec::new(),
            overflow_positions: Vec::new(),
        };
        let ghost p = positions@;
        let mut lo: usize = 0;
        while lo < n
            invariant
                sorted_bounded(p),
                p == positions@,
                n == p.len(),
                lo <= n,
                lo % 1024 == 0 || lo == n,
                me.n_sets == n,
                (me.block_inventory@, me.subblock_inventory@, me.overflow_positions@) == inv_model(
                    p.take(lo as int),
                ),
            decreases n - lo,
        {
            let hi = if n - lo > 1024 {
                lo + 1024
            } else {
                n
            };
            proof {
                assert(sorted_bounded(p.take(lo as int)));
                lemma_inv_model_props(p.take(lo as int));
                assert(me.overflow_positions@.len() <= lo);
                lemma_inv_model_step(p, lo as int, hi as int);
            }
            me.flush_block(&positions, lo, hi);
            lo = hi;
        }
        proof {
            assert(p.take(n as int) =~= p);
        }
        me
    }

    /// Releases the spare capacity of the three tables.
    pub fn shrink_to_fit(&mut self)
        ensures
            final(self).spec_n_sets() == old(self).spec_n_sets(),
            final(self).tables() == old(self).tables(),
    {
        shrink_vec(&mut self.block_inventory);
        shrink_vec(&mut self.subblock_inventory);
        shrink_vec(&mut self.overflow_positions);
    }
}

/// Bytes taken by one inventory's tables: 8-byte block and overflow entries,
/// 2-byte subblock entries, and the count.
pub open spec fn inv_space(t: (Seq<i64>, Seq<u16>, Seq<usize>)) -> int {
    t.0.len() * 8 + t.1.len() * 2 + t.2.len() * 8 + 8int
}

/// The base sequence position covered by bit 0 of the current scan word is
/// `64 * wi`; positions before `start` were already accounted for.
spec fn scan_base(start: int, wi: int) -> int {
    if start > 64 * wi {
        start
    } else {
        64 * wi
    }
}

/// A select-only index over a binary sequence, optionally with the tables
/// needed to answer `select0` as well.
pub struct DArray<const SELECT0_SUPPORT: bool> {
    bv: BitVector,
    ones_inventories: Inventories<true>,
    zeroes_inventories: Option<Inventories<false>>,
}

impl<const SELECT0_SUPPORT: bool> View for DArray<SELECT0_SUPPORT> {
    type V = Seq<bool>;

    closed spec fn view(&self) -> Seq<bool> {
        self.bv@
    }
}

impl<const SELECT0_SUPPORT: bool> DArray<SELECT0_SUPPORT> {
    /// The owned bit container is well formed and each inventory is exactly
    /// the model of its polarity's position sequence.
    pub closed spec fn wf(&self) -> bool {
        &&& self.bv.wf()
        &&& self.bv@.len() + 1 <= 0x7fff_ffff_ffff_ffff
        &&& self.ones_inventories.wf(pos_seq(self.bv@, true))
        &&& (SELECT0_SUPPORT ==> (self.zeroes_inventories matches Some(z) && z.wf(
            pos_seq(self.bv@, false),
        )))
        &&& (!SELECT0_SUPPORT ==> self.zeroes_inventories is None)
    }

    /// Builds the index over `bv`, with the zeros inventory exactly when
    /// `SELECT0_SUPPORT` asks for it.
    pub fn new(bv: BitVector) -> (r: Self)
        requires
            bv.wf(),
            bv@.len() + 1 <= 0x7fff_ffff_ffff_ffff,
        ensures
            r.wf(),
            r@ == bv@,
    {
        let ones_inventories = Inventories::<true>::new(&bv);
        let zeroes_inventories = if SELECT0_SUPPORT {
            Some(Inventories::<false>::new(&bv))
        } else {
            None
        };
        DArray { bv, ones_inventories, zeroes_inventories }
    }

    /// The bit at `pos`, or nothing past the end of the sequence.
    pub fn access(&self, pos: usize) -> (r: Option<bool>)
        requires
            self.wf(),
        ensures
            pos < self@.len() ==> r == Some(self@[pos as int]),
            pos >= self@.len() ==> r is None,
    {
        self.bv.get(pos)
    }

    pub fn len(&self) -> (r: usize)
        ensures
            r == self@.len(),
    {
        self.bv.len()
    }

    pub fn is_empty(&self) -> (r: bool)
        ensures
            r == (self@.len() == 0),
    {
        self.bv.len() == 0
    }

    /// Answers select for either polarity from the matching inventories:
    /// the position of the (i+1)-th `B`-valued bit, or nothing when fewer
    /// than i+1 such bits exist.
    fn select<const B: bool>(&self, i: usize, inventories: &Inventories<B>) -> (r: Option<usize>)
        requires
            self.bv.wf(),
            self.bv@.len() + 1 <= 0x7fff_ffff_ffff_ffff,
            inventories.wf(pos_seq(self.bv@, B)),
        ensures
            i < pos_seq(self.bv@, B).len() ==> r == Some(pos_seq(self.bv@, B)[i as int]),
            i >= pos_seq(self.bv@, B).len() ==> r is None,
    {
        let ghost s = self.bv@;
        let ghost p = pos_seq(s, B);
        proof {
            self.bv.lemma_len_bound();
            lemma_pos_seq_props(s, B);
            lemma_pos_seq_sorted(s, B);
            lemma_count_mono(s, B, 0, s.len() as int);
            assert(sorted_bounded(p));
            lemma_inv_model_props(p);
        }
        if i >= inventories.n_sets {
            return None;
        }
        let ghost target = p[i as int] as int;
        let ghost n = p.len() as int;
        let ghost nb = num_blocks(n);
        let block = i / 1024;
        let ghost lo = 1024 * (block as int);
        proof {
            assert(lo <= i < n && block < nb) by (nonlinear_arith)
                requires
                    i < n,
                    block == i as int / 1024,
                    lo == 1024 * (block as int),
                    nb == (n + 1023) / 1024,
                    0 <= i,
            ;
        }
        let ghost hi = block_hi(n, block as int);
        let block_pos = inventories.block_inventory[block];
        proof {
            assert(i < hi);
        }

        if block_pos < 0 {
            // Sparse block: the position is stored verbatim in the overflow
            // table, at the block's run plus the offset of i inside its block.
            proof {
                assert(block_is_dense(p, block as int) ==> inventories.tables().0[block as int]
                    == p[lo] as i64);
                assert(!block_is_dense(p, block as int));
            }
            let overflow_pos = ((-block_pos) as usize) - 1;
            let off = i % 1024;
            proof {
                assert(off == i - lo) by (nonlinear_arith)
                    requires
                        off == i as int % 1024,
                        block == i as int / 1024,
                        lo == 1024 * (block as int),
                        0 <= i,
                ;
                assert(inventories.tables().2[overflow_pos + (i - lo)] == p[i as int]);
            }
            return Some(inventories.overflow_positions[overflow_pos + off]);
        }
        // Dense block: base position plus 16-bit subblock offset.
        proof {
            assert(!block_is_dense(p, block as int) ==> inventories.tables().0[block as int] < 0);
            assert(block_is_dense(p, block as int));
        }
        let subblock = i / 32;
        let ghost sb32 = 32 * (subblock as int);
        proof {
            assert(sb32 <= i < sb32 + 32 && lo <= sb32 && subblock as int == 32 * (block as int) + (
            subblock as int - 32 * (block as int)) && 0 <= subblock as int - 32 * (block as int))
                by (nonlinear_arith)
                requires
                    subblock == i as int / 32,
                    block == i as int / 1024,
                    lo == 1024 * (block as int),
                    sb32 == 32 * (subblock as int),
                    0 <= i,
            ;
            assert(subblock < inventories.tables().1.len()) by (nonlinear_arith)
                requires
                    sb32 <= i < n,
                    sb32 == 32 * (subblock as int),
                    inventories.tables().1.len() == (n + 31) / 32,
                    0 <= subblock,
            ;
            let j = subblock as int - 32 * (block as int);
            assert(inventories.tables().1[32 * (block as int) + j] == (p[lo + 32 * j]
                - p[lo]) as u16 && p[lo + 32 * j] - p[lo] < 65536);
            assert(lo + 32 * j == sb32);
        }
        let start = (block_pos as usize) + (inventories.subblock_inventory[subblock] as usize);
        let reminder = i % 32;
        proof {
            assert(block_pos == p[lo] as i64);
            assert(start == p[sb32]);
            assert(reminder == i - sb32) by (nonlinear_arith)
                requires
                    reminder == i as int % 32,
                    subblock == i as int / 32,
                    sb32 == 32 * (subblock as int),
                    0 <= i,
            ;
        }
        if reminder == 0 {
            proof {
                assert(start == p[i as int]);
            }
            return Some(start);
        }
        // Scan words from the subblock's first position, counting B-valued
        // bits until the (reminder+1)-th inside the current word.
        proof {
            assert(p[sb32] <= p[i as int]) by {
                if sb32 < i {
                    assert(p[sb32] < p[i as int]);
                }
            }
            assert(count_upto(s, B, start as int) == sb32);
            assert(count_upto(s, B, target) == i);
            assert(s[target] == B);
            assert(target < s.len());
        }
        let mut word_idx = start / 64;
        let word_shift = start % 64;
        let mut reminder = reminder;
        proof {
            self.bv.lemma_num_words();
            assert(64 * (word_idx as int) + word_shift == start && word_shift < 64)
                by (nonlinear_arith)
                requires
                    word_idx == start as int / 64,
                    word_shift == start as int % 64,
                    0 <= start,
            ;
            assert(word_idx < self.bv.num_words()) by (nonlinear_arith)
                requires
                    64 * (word_idx as int) <= start,
                    start < self.bv@.len(),
                    self.bv@.len() <= 64 * self.bv.num_words(),
            ;
        }
        let ghost raw0 = self.bv.spec_word(word_idx as int);
        let mut word = self.bv.get_word(word_idx);
        if !B {
            word = !word;
        }
        let ghost neg0 = word;
        word = word & (u64::MAX << (word_shift as u64));
        proof {
            let cb = scan_base(start as int, word_idx as int);
            assert(cb == start);
            assert forall|j: u64| j < 64 implies #[trigger] word_bit(word, j) == {
                let pos = 64 * (word_idx as int) + j;
                pos >= cb && (if pos < s.len() {
                    s[pos] == B
                } else {
                    B == false
                })
            } by {
                lemma_mask_low(neg0, word_shift as u64, j);
                if !B {
                    lemma_not_bit(raw0, j);
                }
                self.bv.lemma_word_view(word_idx as int, j);
            }
        }
        let mut popcnt = popcount(word) as usize;
        while reminder >= popcnt
            invariant
                self.bv.wf(),
                s == self.bv@,
                s.len() + 1 <= 0x7fff_ffff_ffff_ffff,
                p == pos_seq(s, B),
                i < p.len(),
                target == p[i as int],
                0 <= target < s.len(),
                s[target] == B,
                count_upto(s, B, target) == i,
                start <= target,
                start < 64 * (word_idx as int) + 64,
                64 * (word_idx as int) <= target,
                scan_base(start as int, word_idx as int) <= target,
                reminder == count_upto(s, B, target) - count_upto(
                    s,
                    B,
                    scan_base(start as int, word_idx as int),
                ),
                forall|j: u64|
                    j < 64 ==> #[trigger] word_bit(word, j) == {
                        let pos = 64 * (word_idx as int) + j;
                        pos >= scan_base(start as int, word_idx as int) && (if pos < s.len() {
                            s[pos] == B
                        } else {
                            B == false
                        })
                    },
                popcnt == count_upto(bits_of(word), true, 64),
            decreases target - 64 * (word_idx as int),
        {
            proof {
                let wi = word_idx as int;
                let cb = scan_base(start as int, wi);
                let u = bits_of(word);
                assert forall|j: int| 0 <= j < cb - 64 * wi implies !u[j] by {
                    assert(!word_bit(word, j as u64));
                }
                if target < 64 * wi + 64 {
                    let t_off = target - 64 * wi;
                    lemma_count_pointwise(u, s, B, 64 * wi, cb - 64 * wi, t_off);
                    lemma_count_mono(s, B, cb, target);
                    assert(u[t_off]);
                    lemma_count_strict(u, true, t_off, 64);
                    assert(false);
                }
                // The whole word is genuine and exhausted; move to the next.
                lemma_count_pointwise(u, s, B, 64 * wi, cb - 64 * wi, 64);
                assert(popcnt == count_upto(s, B, 64 * wi + 64) - count_upto(s, B, cb));
                lemma_count_mono(s, B, 64 * wi + 64, target);
                lemma_count_nonneg(s, B, target);
            }
            reminder = reminder - popcnt;
            word_idx = word_idx + 1;
            proof {
                self.bv.lemma_num_words();
                assert(word_idx < self.bv.num_words()) by (nonlinear_arith)
                    requires
                        64 * (word_idx as int) <= target,
                        target < self.bv@.len(),
                        self.bv@.len() <= 64 * self.bv.num_words(),
                ;
            }
            let ghost raw = self.bv.spec_word(word_idx as int);
            word = self.bv.get_word(word_idx);
            if !B {
                word = !word;
            }
            proof {
                let wi = word_idx as int;
                let cb = scan_base(start as int, wi);
                assert(cb == 64 * wi);
                assert forall|j: u64| j < 64 implies #[trigger] word_bit(word, j) == {
                    let pos = 64 * wi + j;
                    pos >= cb && (if pos < s.len() {
                        s[pos] == B
                    } else {
                        B == false
                    })
                } by {
                    if !B {
                        lemma_not_bit(raw, j);
                    }
                    self.bv.lemma_word_view(wi, j);
                }
            }
            popcnt = popcount(word) as usize;
        }
        proof {
            let wi = word_idx as int;
            let cb = scan_base(start as int, wi);
            let u = bits_of(word);
            assert forall|j: int| 0 <= j < cb - 64 * wi implies !u[j] by {
                assert(!word_bit(word, j as u64));
            }
            if target >= 64 * wi + 64 {
                lemma_count_pointwise(u, s, B, 64 * wi, cb - 64 * wi, 64);
                lemma_count_mono(s, B, 64 * wi + 64, target);
                assert(false);
            }
            let t_off = target - 64 * wi;
            lemma_count_pointwise(u, s, B, 64 * wi, cb - 64 * wi, t_off);
            assert(count_upto(u, true, t_off) == reminder);
            assert(u[t_off]);
        }
        let intra = select_in_word(word, reminder as u64);
        proof {
            let wi = word_idx as int;
            let t_off = target - 64 * wi;
            lemma_select_unique(word, intra, t_off as u64);
            assert(64 * wi + intra == target);
        }
        Some(word_idx * 64 + (intra as usize))
    }

    /// Position of the (i+1)-th one, or nothing when fewer than i+1 bits are
    /// set.
    pub fn select1(&self, i: usize) -> (r: Option<usize>)
        requires
            self.wf(),
        ensures
            i < pos_seq(self@, true).len() ==> r == Some(pos_seq(self@, true)[i as int]),
            i >= pos_seq(self@, true).len() ==> r is None,
    {
        self.select(i, &self.ones_inventories)
    }

    /// `select1` without the bound check; callers guarantee validity.
    pub fn select1_unchecked(&self, i: usize) -> (r: usize)
        requires
            self.wf(),
            i < pos_seq(self@, true).len(),
        ensures
            r == pos_seq(self@, true)[i as int],
    {
        match self.select(i, &self.ones_inventories) {
            Some(r) => r,
            None => {
                proof {
                    assert(false);
                }
                0
            },
        }
    }

    /// Position of the (i+1)-th zero. Only an index built with
    /// `SELECT0_SUPPORT` carries the zeros inventory, so the support is a
    /// precondition.
    pub fn select0(&self, i: usize) -> (r: Option<usize>)
        requires
            self.wf(),
            SELECT0_SUPPORT,
        ensures
            i < pos_seq(self@, false).len() ==> r == Some(pos_seq(self@, false)[i as int]),
            i >= pos_seq(self@, false).len() ==> r is None,
    {
        match &self.zeroes_inventories {
            Some(z) => self.select(i, z),
            None => {
                proof {
                    assert(false);
                }
                None
            },
        }
    }

    /// `select0` without the bound check; callers guarantee validity.
    pub fn select0_unchecked(&self, i: usize) -> (r: usize)
        requires
            self.wf(),
            SELECT0_SUPPORT,
            i < pos_seq(self@, false).len(),
        ensures
            r == pos_seq(self@, false)[i as int],
    {
        match self.select0(i) {
            Some(r) => r,
            None => {
                proof {
                    assert(false);
                }
                0
            },
        }
    }

    /// Space usage in bytes of the container and the inventories.
    pub fn space_usage_byte(&self) -> (r: usize)
        requires
            self.spec_space_usage() <= usize::MAX,
        ensures
            r as int == self.spec_space_usage(),
    {
        let mut space = self.bv.space_usage_byte() + self.ones_inventories.space_usage_byte();
        match &self.zeroes_inventories {
            Some(z) => {
                space = space + z.space_usage_byte();
            },
            None => {},
        }
        space
    }

    /// The byte count `space_usage_byte` reports.
    pub closed spec fn spec_space_usage(&self) -> int {
        self.bv.num_words() * 8 + 8 + inv_space(self.ones_tables()) + match self.zeros_tables() {
            Some(t) => inv_space(t),
            None => 0,
        }
    }

    /// The inventory tables for the ones, as the model sees them.
    pub closed spec fn ones_tables(&self) -> (Seq<i64>, Seq<u16>, Seq<usize>) {
        self.ones_inventories.tables()
    }

    /// The inventory tables for the zeros, when they were built.
    pub closed spec fn zeros_tables(&self) -> Option<(Seq<i64>, Seq<u16>, Seq<usize>)> {
        match self.zeroes_inventories {
            Some(z) => Some(z.tables()),
            None => None,
        }
    }

    /// Block boundary law: at a select argument i = 1024·k falling in a dense
    /// block, the recorded block entry is itself the (1024·k+1)-th position of
    /// a one, so the implementation returns it directly.
    pub proof fn lemma_block_boundary(&self, k: int)
        requires
            self.wf(),
            0 <= k,
            1024 * k < pos_seq(self@, true).len(),
            block_is_dense(pos_seq(self@, true), k),
        ensures
            self.ones_tables().0[k] == pos_seq(self@, true)[1024 * k] as i64,
    {
        let p = pos_seq(self@, true);
        self.bv.lemma_len_bound();
        lemma_pos_seq_props(self@, true);
        lemma_pos_seq_sorted(self@, true);
        lemma_count_mono(self@, true, 0, self@.len() as int);
        assert(sorted_bounded(p));
        lemma_inv_model_props(p);
        assert(k < num_blocks(p.len() as int)) by (nonlinear_arith)
            requires
                1024 * k < p.len(),
                0 <= k,
                num_blocks(p.len() as int) == (p.len() + 1023) as int / 1024,
        ;
    }

    /// Sparse round-trip law: in a block whose span reaches 2^16 bits, every
    /// position is stored verbatim, and position i of the block is read back
    /// from the overflow table at the block's run plus i mod 1024.
    pub proof fn lemma_sparse_round_trip(&self, k: int, t: int)
        requires
            self.wf(),
            0 <= k,
            1024 * k < pos_seq(self@, true).len(),
            !block_is_dense(pos_seq(self@, true), k),
            0 <= t < block_hi(pos_seq(self@, true).len() as int, k) - 1024 * k,
        ensures
            self.ones_tables().0[k] < 0,
            self.ones_tables().2[-self.ones_tables().0[k] - 1 + t] == pos_seq(self@, true)[1024 * k
                + t],
    {
        let p = pos_seq(self@, true);
        self.bv.lemma_len_bound();
        lemma_pos_seq_props(self@, true);
        lemma_pos_seq_sorted(self@, true);
        lemma_count_mono(self@, true, 0, self@.len() as int);
        assert(sorted_bounded(p));
        lemma_inv_model_props(p);
        assert(k < num_blocks(p.len() as int)) by (nonlinear_arith)
            requires
                1024 * k < p.len(),
                0 <= k,
                num_blocks(p.len() as int) == (p.len() + 1023) as int / 1024,
        ;
    }

    /// Construction is deterministic: two well-formed indices over the same
    /// bit sequence hold identical tables.
    pub proof fn lemma_deterministic(&self, other: &Self)
        requires
            self.wf(),
            other.wf(),
            self@ == other@,
        ensures
            self.ones_tables() == other.ones_tables(),
            self.zeros_tables() == other.zeros_tables(),
    {
    }

    /// Whether the zeros inventory was built has no bearing on the tables
    /// that answer `select1`.
    pub proof fn lemma_select0_support_irrelevant<const OTHER: bool>(
        &self,
        other: &DArray<OTHER>,
    )
        requires
            self.wf(),
            other.wf(),
            self@ == other@,
        ensures
            self.ones_tables() == other.ones_tables(),
    {
    }

    /// Releases spare capacity in the container and every inventory table.
    pub fn shrink_to_fit(&mut self)
        requires
            old(self).wf(),
        ensures
            final(self).wf(),
            final(self)@ == old(self)@,
    {
        self.bv.shrink_to_fit();
        self.ones_inventories.shrink_to_fit();
        if self.zeroes_inventories.is_some() {
            match &mut self.zeroes_inventories {
                Some(z) => z.shrink_to_fit(),
                None => {},
            }
        }
    }
}

} // verus!
