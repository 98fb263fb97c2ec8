//! Block-level rank/select support over a quaternary sequence. The sequence
//! is cut into superblocks of 8 blocks of `B_SIZE` symbols; each superblock
//! keeps, per symbol, one 64-byte record: a 44-bit count of the symbol before
//! the superblock and seven 12-bit counts of the symbol from the superblock's
//! start to each later block's start. Sampled superblock indices per symbol
//! bound the search range of select.

use vstd::prelude::*;
use crate::positions::{
    pos_seq, count_upto, lemma_pos_seq_props, lemma_pos_seq_sorted, lemma_pos_of_count,
    lemma_count_mono, lemma_count_strict, lemma_count_nonneg, lemma_count_total,
};
use crate::qvector::QVector;
use crate::shims::shrink_vec;

verus! {

/// Counts of one symbol inside a 128-bit packed word: the top 44 bits.
pub open spec fn spec_sb_count(c: u128) -> int {
    (c >> 84) as int
}

/// The 12-bit field of block `id` (1..7) inside a 128-bit packed word.
pub open spec fn spec_field(c: u128, id: int) -> int {
    ((c >> (((id - 1) * 12) as u128)) & 0xFFF) as int
}

proof fn lemma_field_bound(c: u128, id: u128)
    by (bit_vector)
    requires
        1 <= id < 8,
    ensures
        (c >> (((id - 1) * 12) as u128)) & 0xFFF < 4096,
{
}

proof fn lemma_pack_top(v: u128, id: u128)
    by (bit_vector)
    requires
        v < 0x1000_0000_0000,
        1 <= id < 8,
    ensures
        (v << 84) >> 84 == v,
        ((v << 84) >> (((id - 1) * 12) as u128)) & 0xFFF == 0,
{
}

proof fn lemma_or_field(c: u128, v: u128, id: u128, id2: u128)
    by (bit_vector)
    requires
        1 <= id < 8,
        1 <= id2 < 8,
        v < 4096,
        (c >> (((id - 1) * 12) as u128)) & 0xFFF == 0,
    ensures
        (c | (v << (((id - 1) * 12) as u128))) >> 84 == c >> 84,
        ((c | (v << (((id - 1) * 12) as u128))) >> (((id - 1) * 12) as u128)) & 0xFFF == v,
        id2 != id ==> ((c | (v << (((id - 1) * 12) as u128))) >> (((id2 - 1) * 12) as u128)) & 0xFFF
            == (c >> (((id2 - 1) * 12) as u128)) & 0xFFF,
{
}

/// Two packed words with the same top count and the same seven block fields
/// are the same word: the fields cover all 128 bits.
proof fn lemma_packed_ext(c1: u128, c2: u128)
    by (bit_vector)
    requires
        c1 >> 84 == c2 >> 84,
        (c1 >> 0) & 0xFFF == (c2 >> 0) & 0xFFF,
        (c1 >> 12) & 0xFFF == (c2 >> 12) & 0xFFF,
        (c1 >> 24) & 0xFFF == (c2 >> 24) & 0xFFF,
        (c1 >> 36) & 0xFFF == (c2 >> 36) & 0xFFF,
        (c1 >> 48) & 0xFFF == (c2 >> 48) & 0xFFF,
        (c1 >> 60) & 0xFFF == (c2 >> 60) & 0xFFF,
        (c1 >> 72) & 0xFFF == (c2 >> 72) & 0xFFF,
    ensures
        c1 == c2,
{
}

/// Per-superblock packed counters: one 128-bit word for each of the four
/// symbols.
#[derive(Clone, Copy)]
pub struct SuperblockPlain {
    counters: [u128; 4],
}

impl SuperblockPlain {
    pub closed spec fn spec_counter(&self, s: int) -> u128 {
        self.counters@[s]
    }

    /// The symbol count from the start of the sequence to the superblock's
    /// start.
    pub open spec fn spec_superblock_counter(&self, s: int) -> int {
        spec_sb_count(self.spec_counter(s))
    }

    /// The symbol count from the superblock's start to the start of block
    /// `id`; block 0 is implicit zero.
    pub open spec fn spec_block_counter(&self, s: int, id: int) -> int {
        if id == 0 {
            0
        } else {
            spec_field(self.spec_counter(s), id)
        }
    }

    /// A fresh record: the given totals in the 44-bit fields, all block
    /// fields zero.
    pub fn new(sbc: &[usize; 4]) -> (r: Self)
        requires
            forall|s: int| 0 <= s < 4 ==> sbc@[s] < 0x1000_0000_0000,
        ensures
            forall|s: int| 0 <= s < 4 ==> r.spec_superblock_counter(s) == sbc@[s],
            forall|s: int, id: int|
                0 <= s < 4 && 0 <= id < 8 ==> r.spec_block_counter(s, id) == 0,
    {
        let counters: [u128; 4] = [
            (sbc[0] as u128) << 84u128,
            (sbc[1] as u128) << 84u128,
            (sbc[2] as u128) << 84u128,
            (sbc[3] as u128) << 84u128,
        ];
        let r = SuperblockPlain { counters };
        proof {
            assert forall|s: int, id: int|
                0 <= s < 4 && 1 <= id < 8 implies r.spec_block_counter(s, id) == 0 by {
                lemma_pack_top(sbc@[s] as u128, id as u128);
            }
            assert forall|s: int| 0 <= s < 4 implies r.spec_superblock_counter(s) == sbc@[s] by {
                lemma_pack_top(sbc@[s] as u128, 1);
            }
        }
        r
    }

    pub fn get_superblock_counter(&self, symbol: u8) -> (r: usize)
        requires
            symbol < 4,
            self.spec_superblock_counter(symbol as int) <= usize::MAX,
        ensures
            r == self.spec_superblock_counter(symbol as int),
    {
        (self.counters[symbol as usize] >> 84) as usize
    }

    /// Writes the four counts into the 12-bit fields of block `block_id`.
    /// Each field is written once: the callers never overwrite a non-zero
    /// field, and writing to block 0 is a no-op.
    pub fn set_block_counters(&mut self, block_id: usize, counters: &[usize; 4])
        requires
            block_id < 8,
            forall|s: int| 0 <= s < 4 ==> counters@[s] < 4096,
            forall|s: int|
                0 <= s < 4 ==> old(self).spec_block_counter(s, block_id as int) == 0,
        ensures
            forall|s: int|
                0 <= s < 4 ==> final(self).spec_superblock_counter(s) == old(
                    self).spec_superblock_counter(s),
            forall|s: int, id: int|
                0 <= s < 4 && 0 <= id < 8 && (id != block_id || block_id == 0) ==> final(
                    self).spec_block_counter(s, id) == old(self).spec_block_counter(s, id),
            block_id >= 1 ==> forall|s: int|
                0 <= s < 4 ==> final(self).spec_block_counter(s, block_id as int) == counters@[s],
    {
        if block_id == 0 {
            return ;
        }
        let shift: u128 = ((block_id - 1) * 12) as u128;
        let ghost c0 = self.counters@;
        let mut s: usize = 0;
        while s < 4
            invariant
                1 <= block_id < 8,
                shift == (((block_id - 1) * 12) as u128),
                s <= 4,
                c0 == old(self).counters@,
                self.counters@.len() == 4,
                forall|t: int| s <= t < 4 ==> #[trigger] self.counters@[t] == c0[t],
                forall|t: int|
                    0 <= t < s ==> #[trigger] self.counters@[t] == (c0[t] | ((counters@[t] as u128)
                        << shift)),
            decreases 4 - s,
        {
            self.counters[s] = self.counters[s] | ((counters[s] as u128) << shift);
            s = s + 1;
        }
        proof {
            assert forall|s: int| 0 <= s < 4 implies self.spec_superblock_counter(s) == old(
                self,
            ).spec_superblock_counter(s) by {
                assert(self.counters@[s] == (c0[s] | ((counters@[s] as u128) << shift)));
                assert(old(self).spec_block_counter(s, block_id as int) == 0);
                assert((old(self).spec_counter(s) >> ((((block_id as int) - 1) * 12) as u128))
                    & 0xFFF == 0);
                lemma_or_field(
                    old(self).spec_counter(s),
                    counters@[s] as u128,
                    block_id as u128,
                    1u128,
                );
            }
            assert forall|s: int, id: int|
                0 <= s < 4 && 1 <= id < 8 implies {
                &&& (id != block_id ==> self.spec_block_counter(s, id) == old(
                    self,
                ).spec_block_counter(s, id))
                &&& (id == block_id ==> self.spec_block_counter(s, id) == counters@[s])
            } by {
                assert(self.counters@[s] == (c0[s] | ((counters@[s] as u128) << shift)));
                assert(old(self).spec_block_counter(s, block_id as int) == 0);
                assert((old(self).spec_counter(s) >> ((((block_id as int) - 1) * 12) as u128))
                    & 0xFFF == 0);
                lemma_or_field(
                    old(self).spec_counter(s),
                    counters@[s] as u128,
                    block_id as u128,
                    id as u128,
                );
            }
        }
    }

    pub fn get_block_counter(&self, symbol: u8, block_id: usize) -> (r: usize)
        requires
            symbol < 4,
            block_id < 8,
        ensures
            r == self.spec_block_counter(symbol as int, block_id as int),
            r < 4096,
    {
        if block_id == 0 {
            0
        } else {
            proof {
                lemma_field_bound(self.spec_counter(symbol as int), block_id as u128);
            }
            ((self.counters[symbol as usize] >> ((((block_id - 1) * 12) as u128) as u128))
                & 0xFFF) as usize
        }
    }

    /// Scans the block fields in ascending order and returns the last block
    /// id whose cumulative count stays below `target`, with that count: the
    /// first id at or past which the field reaches `target` ends the scan.
    pub fn block_predecessor(&self, symbol: u8, target: usize) -> (r: (usize, usize))
        requires
            symbol < 4,
            target >= 1,
        ensures
            r.0 < 8,
            r.1 == self.spec_block_counter(symbol as int, r.0 as int),
            forall|id: int|
                0 <= id <= r.0 ==> self.spec_block_counter(symbol as int, id) < target,
            r.0 < 7 ==> self.spec_block_counter(symbol as int, r.0 as int + 1) >= target,
    {
        let mut prev_cnt: usize = 0;
        let mut block_id: usize = 1;
        while block_id < 8
            invariant
                symbol < 4,
                target >= 1,
                1 <= block_id <= 8,
                prev_cnt == self.spec_block_counter(symbol as int, block_id as int - 1),
                forall|id: int|
                    0 <= id < block_id ==> self.spec_block_counter(symbol as int, id) < target,
            decreases 8 - block_id,
        {
            let curr_cnt = self.get_block_counter(symbol, block_id);
            if curr_cnt >= target {
                return (block_id - 1, prev_cnt);
            }
            prev_cnt = curr_cnt;
            block_id = block_id + 1;
        }
        (7, prev_cnt)
    }

    /// Size in bytes of one record: four 128-bit words.
    pub fn space_usage_bytes(&self) -> (r: usize)
        ensures
            r == 64,
    {
        4 * 128 / 8
    }
}

/// How many superblock indices have been sampled once `k` occurrences of a
/// symbol were seen: one per 8192 occurrences, and one even when none were.
pub open spec fn sample_count(k: int) -> int {
    if k <= 0 {
        1
    } else {
        (k - 1) / 8192 + 1
    }
}

/// The sampled superblock indices for symbol `s` after scanning `q` up to
/// position `upto`: entry j is the superblock holding the (j·8192+1)-th
/// occurrence.
pub open spec fn spec_genuine_samples(q: Seq<u8>, s: u8, upto: int, bs: int) -> Seq<u32> {
    let k = count_upto(q, s, upto);
    if k == 0 {
        Seq::empty()
    } else {
        Seq::new(
            sample_count(k) as nat,
            |j: int| (((pos_seq(q, s)[j * 8192] as int) / (8 * bs)) as u32),
        )
    }
}

/// The finished sample table: the genuine samples (or a single 0 for a
/// symbol that never occurs) followed by the last superblock's index as a
/// sentinel.
pub open spec fn spec_sample_model(q: Seq<u8>, s: u8, bs: int) -> Seq<u32> {
    let k = count_upto(q, s, q.len() as int);
    let genuine = if k == 0 {
        seq![0u32]
    } else {
        spec_genuine_samples(q, s, q.len() as int, bs)
    };
    genuine.push((((q.len() as int) / (8 * bs)) as u32))
}

/// The value every 12-bit block field must hold: the count of `s` from the
/// superblock's start to the block's start, clipped at the end of the
/// sequence for the sentinel block, and zero for blocks wholly past the end.
pub open spec fn spec_field_value(q: Seq<u8>, s: u8, k: int, id: int, bs: int) -> int {
    let sbs = 8 * bs;
    let bstart = k * sbs + id * bs;
    let n = q.len() as int;
    if bstart <= n {
        count_upto(q, s, bstart) - count_upto(q, s, k * sbs)
    } else if bstart - bs <= n {
        count_upto(q, s, n) - count_upto(q, s, k * sbs)
    } else {
        0
    }
}

/// The number of sequence positions processed by the time the scan reaches
/// head position `i`: position `n` itself only closes tables.
spec fn capped(i: int, n: int) -> int {
    if i <= n {
        i
    } else {
        n
    }
}

/// Where the running block counters were last reset: the start of the
/// superblock containing the previously processed position.
spec fn last_reset(i: int, sbs: int) -> int {
    if i == 0 {
        0
    } else {
        ((i - 1) / sbs) * sbs
    }
}

proof fn lemma_divmod(x: int, d: int)
    requires
        0 < d,
        0 <= x,
    ensures
        0 <= x / d,
        0 <= x % d < d,
        x == d * (x / d) + x % d,
{
    vstd::arithmetic::div_mod::lemma_fundamental_div_mod(x, d);
    vstd::arithmetic::div_mod::lemma_mod_division_less_than_divisor(x, d);
    if x / d < 0 {
        vstd::arithmetic::div_mod::lemma_div_pos_is_pos(x, d);
    }
}

proof fn lemma_div_of(x: int, d: int, k: int, r: int)
    requires
        0 < d,
        x == k * d + r,
        0 <= r < d,
    ensures
        x / d == k,
        x % d == r,
{
    vstd::arithmetic::div_mod::lemma_fundamental_div_mod_converse(x, d, k, r);
}

/// How the quotient of `i - 1` relates to that of `i`: one less at an exact
/// multiple, the same otherwise.
proof fn lemma_pred_div(i: int, d: int)
    requires
        0 < d,
        0 < i,
    ensures
        i % d == 0 ==> (i - 1) / d == i / d - 1 && d * (i / d) == i,
        i % d != 0 ==> (i - 1) / d == i / d && d * (i / d) < i,
{
    lemma_divmod(i, d);
    if i % d == 0 {
        assert(i - 1 == (i / d - 1) * d + (d - 1)) by (nonlinear_arith)
            requires
                i == d * (i / d),
        ;
        lemma_div_of(i - 1, d, i / d - 1, d - 1);
        assert(d * (i / d) == i);
    } else {
        assert(i - 1 == (i / d) * d + (i % d - 1)) by (nonlinear_arith)
            requires
                i == d * (i / d) + i % d,
        ;
        lemma_div_of(i - 1, d, i / d, i % d - 1);
        assert(d * (i / d) < i);
    }
}

/// A multiple of the block size splits uniquely into a superblock index and
/// a block id inside the superblock.
proof fn lemma_block_decomp(i: int, bs: int)
    requires
        0 < bs,
        0 <= i,
        i % bs == 0,
    ensures
        0 <= (i / bs) % 8 < 8,
        i == (i / (8 * bs)) * (8 * bs) + ((i / bs) % 8) * bs,
        (i % (8 * bs) == 0) <==> ((i / bs) % 8 == 0),
        i / (8 * bs) == (i / bs) / 8,
{
    let sbs = 8 * bs;
    lemma_divmod(i, bs);
    let m = i / bs;
    lemma_divmod(m, 8);
    vstd::arithmetic::div_mod::lemma_div_denominator(i, bs, 8);
    assert(i / (bs * 8) == m / 8);
    assert(bs * 8 == sbs);
    let k = m / 8;
    let id = m % 8;
    assert(i == k * sbs + id * bs) by (nonlinear_arith)
        requires
            i == bs * m,
            m == 8 * k + id,
            sbs == 8 * bs,
    ;
    assert(0 <= id * bs < sbs) by (nonlinear_arith)
        requires
            0 <= id < 8,
            0 < bs,
            sbs == 8 * bs,
    ;
    lemma_div_of(i, sbs, k, id * bs);
    assert(id * bs == 0 <==> id == 0) by (nonlinear_arith)
        requires
            0 < bs,
            0 <= id,
    ;
}

/// Block-level rank/select support for a quaternary sequence, built in one
/// pass and immutable afterwards. `B_SIZE` is the block length in symbols,
/// 256 or 512.
pub struct RSSupportPlain<const B_SIZE: usize> {
    superblocks: Vec<SuperblockPlain>,
    occs: [usize; 4],
    select_samples: [Vec<u32>; 4],
    n: usize,
    indexed: Ghost<Seq<u8>>,
}

impl<const B_SIZE: usize> RSSupportPlain<B_SIZE> {
    /// The sequence this support was built over.
    pub closed spec fn q(&self) -> Seq<u8> {
        self.indexed@
    }

    pub closed spec fn spec_n(&self) -> int {
        self.n as int
    }

    pub closed spec fn spec_occs(&self, s: int) -> int {
        self.occs@[s] as int
    }

    pub closed spec fn spec_superblock(&self, k: int) -> SuperblockPlain {
        self.superblocks@[k]
    }

    pub closed spec fn spec_num_superblocks(&self) -> int {
        self.superblocks@.len() as int
    }

    pub closed spec fn spec_samples(&self, s: int) -> Seq<u32> {
        self.select_samples@[s]@
    }

    /// Every table holds exactly what one pass over `q` stores in it.
    pub closed spec fn wf(&self) -> bool {
        let q = self.indexed@;
        let bs = B_SIZE as int;
        let sbs = 8 * bs;
        let n = self.n as int;
        &&& (bs == 256 || bs == 512)
        &&& n == q.len()
        &&& n < 0x800_0000_0000
        &&& forall|i: int| 0 <= i < n ==> #[trigger] q[i] < 4
        &&& forall|s: u8| s < 4 ==> #[trigger] self.spec_occs(s as int) == count_upto(q, s, n)
        &&& self.spec_num_superblocks() == n / sbs + 1
        &&& forall|k: int, s: u8|
            0 <= k < self.spec_num_superblocks() && s < 4 ==> #[trigger] self.spec_superblock(
                k,
            ).spec_superblock_counter(s as int) == count_upto(q, s, k * sbs)
        &&& forall|k: int, s: u8, id: int|
            0 <= k < self.spec_num_superblocks() && s < 4 && 1 <= id < 8
                ==> #[trigger] self.spec_superblock(k).spec_block_counter(s as int, id)
                == spec_field_value(q, s, k, id, bs)
        &&& forall|s: u8| s < 4 ==> #[trigger] self.spec_samples(s as int) == spec_sample_model(
            q,
            s,
            bs,
        )
    }

    pub open spec fn spec_superblock_size() -> int {
        8 * (B_SIZE as int)
    }

    /// The superblock containing position `i`.
    pub fn superblock_index(i: usize) -> (r: usize)
        requires
            B_SIZE == 256 || B_SIZE == 512,
        ensures
            r == i as int / Self::spec_superblock_size(),
    {
        i / (B_SIZE * 8)
    }

    /// The block containing position `i`.
    pub fn block_index(i: usize) -> (r: usize)
        requires
            B_SIZE == 256 || B_SIZE == 512,
        ensures
            r == i as int / (B_SIZE as int),
    {
        i / B_SIZE
    }

    /// Builds the support in a single pass over `qv`: one superblock record
    /// per `8·B_SIZE` symbols with its per-block counters, running totals per
    /// symbol, and a sampled superblock index every 8192 occurrences.
    #[verifier::rlimit(60)]
    pub fn new(qv: &QVector) -> (r: Self)
        requires
            qv.wf(),
            qv@.len() < 0x800_0000_0000,
            qv@.len() < usize::MAX,
            B_SIZE == 256 || B_SIZE == 512,
        ensures
            r.wf(),
            r.q() == qv@,
    {
        let ghost q = qv@;
        let n = qv.len();
        let superblock_size = B_SIZE * 8;
        let ghost bs = B_SIZE as int;
        let ghost sbs = 8 * bs;
        proof {
            qv.lemma_wf_symbols();
        }
        let mut superblock_counters: [usize; 4] = [0, 0, 0, 0];
        let mut block_counters: [usize; 4] = [0, 0, 0, 0];
        let mut occs: [usize; 4] = [0, 0, 0, 0];
        let mut select_samples: [Vec<u32>; 4] = [Vec::new(), Vec::new(), Vec::new(), Vec::new()];
        let mut superblocks: Vec<SuperblockPlain> = Vec::new();
        let mut i: usize = 0;
        while i <= n
            invariant
                qv.wf(),
                q == qv@,
                n == q.len(),
                n < 0x800_0000_0000,
                n < usize::MAX,
                bs == B_SIZE as int,
                sbs == 8 * bs,
                (bs == 256 || bs == 512),
                superblock_size == 8 * B_SIZE,
                i <= n + 1,
                forall|p: int| 0 <= p < n ==> #[trigger] q[p] < 4,
                superblocks@.len() == (if i == 0 {
                    0int
                } else {
                    (i - 1) as int / sbs + 1
                }),
                forall|t: int|
                    0 <= t < 4 ==> #[trigger] occs@[t] == count_upto(q, t as u8, capped(i as int, n as int)),
                forall|t: int| 0 <= t < 4 ==> #[trigger] superblock_counters@[t] == occs@[t],
                forall|t: int|
                    0 <= t < 4 ==> #[trigger] block_counters@[t] == count_upto(
                        q,
                        t as u8,
                        capped(i as int, n as int),
                    ) - count_upto(q, t as u8, last_reset(i as int, sbs)),
                forall|k: int, s: u8|
                    0 <= k < superblocks@.len() && s < 4 ==> #[trigger] superblocks@[k].spec_superblock_counter(
                        s as int,
                    ) == count_upto(q, s, k * sbs),
                forall|k: int, s: u8, id: int|
                    0 <= k < superblocks@.len() && s < 4 && 1 <= id < 8 ==> #[trigger] superblocks@[k].spec_block_counter(
                        s as int,
                        id,
                    ) == (if k * sbs + id * bs < i {
                        count_upto(q, s, k * sbs + id * bs) - count_upto(q, s, k * sbs)
                    } else {
                        0int
                    }),
                forall|t: int|
                    0 <= t < 4 ==> #[trigger] select_samples@[t]@ == spec_genuine_samples(
                        q,
                        t as u8,
                        capped(i as int, n as int),
                        bs,
                    ),
            decreases n + 1 - i,
        {
            proof {
                assert forall|t: int| 0 <= t < 4 implies #[trigger] occs@[t] <= i by {
                    lemma_count_nonneg(q, t as u8, 0);
                    lemma_count_mono(q, t as u8, 0, i as int);
                }
                lemma_divmod(i as int, sbs);
                lemma_div_of(0, sbs, 0, 0);
                if i > 0 {
                    lemma_pred_div(i as int, sbs);
                }
            }
            if i % superblock_size == 0 {
                let ghost k_new = superblocks@.len() as int;
                proof {
                    assert(superblock_size as int == sbs);
                    assert(i as int % sbs == 0);
                    assert(k_new == i as int / sbs);
                    if i > 0 {
                        assert(sbs * (i as int / sbs) == i as int);
                    } else {
                        assert(i as int / sbs == 0);
                    }
                    assert(k_new * sbs == sbs * k_new) by (nonlinear_arith);
                    assert(k_new * sbs == i as int);
                }
                superblocks.push(SuperblockPlain::new(&superblock_counters));
                block_counters = [0, 0, 0, 0];
                proof {
                    assert forall|k: int, s: u8|
                        0 <= k < superblocks@.len() && s < 4 implies #[trigger] superblocks@[k].spec_superblock_counter(
                        s as int,
                    ) == count_upto(q, s, k * sbs) by {
                        if k < k_new {
                            assert(superblocks@[k] == superblocks@.drop_last()[k]);
                        } else {
                            assert(k * sbs == i as int);
                        }
                    }
                    assert forall|k: int, s: u8, id: int|
                        0 <= k < superblocks@.len() && s < 4 && 1 <= id < 8 implies
                        #[trigger] superblocks@[k].spec_block_counter(s as int, id) == (if k * sbs
                            + id * bs < i {
                            count_upto(q, s, k * sbs + id * bs) - count_upto(q, s, k * sbs)
                        } else {
                            0int
                        }) by {
                        if k < k_new {
                            assert(superblocks@[k] == superblocks@.drop_last()[k]);
                        } else {
                            assert(id * bs >= bs) by (nonlinear_arith)
                                requires
                                    1 <= id,
                                    0 < bs,
                            ;
                        }
                    }
                }
            }
            if i % B_SIZE == 0 {
                proof {
                    lemma_block_decomp(i as int, bs);
                }
                let block_id = (i / B_SIZE) % 8;
                let last = superblocks.len() - 1;
                let ghost kk = last as int;
                let ghost pre = superblocks@;
                proof {
                    assert(kk == i as int / sbs);
                    assert(i as int == kk * sbs + (block_id as int) * bs);
                    assert(kk * sbs <= i as int) by (nonlinear_arith)
                        requires
                            i as int == kk * sbs + (block_id as int) * bs,
                            0 <= block_id,
                            0 < bs,
                    ;
                    assert forall|t: int| 0 <= t < 4 implies #[trigger] block_counters@[t]
                        < 4096 by {
                        if i as int % sbs == 0 {
                            assert(block_counters@[t] == 0);
                        } else {
                            assert(last_reset(i as int, sbs) == kk * sbs);
                            lemma_count_mono(q, t as u8, kk * sbs, i as int);
                            lemma_count_nonneg(q, t as u8, kk * sbs);
                            assert((block_id as int) * bs <= 7 * bs) by (nonlinear_arith)
                                requires
                                    block_id < 8,
                                    0 < bs,
                            ;
                        }
                    }
                    // The slot being written starts at i and is still zero.
                    assert forall|s: u8| s < 4 && block_id >= 1 implies pre[kk].spec_block_counter(
                        s as int,
                        block_id as int,
                    ) == 0 by {}
                }
                let mut sb = superblocks[last];
                sb.set_block_counters(block_id, &block_counters);
                superblocks[last] = sb;
                proof {
                    assert forall|k: int, s: u8|
                        0 <= k < superblocks@.len() && s < 4 implies #[trigger] superblocks@[k].spec_superblock_counter(
                        s as int,
                    ) == count_upto(q, s, k * sbs) by {
                        if k != kk {
                            assert(superblocks@[k] == pre[k]);
                        }
                    }
                    assert forall|k: int, s: u8, id: int|
                        0 <= k < superblocks@.len() && s < 4 && 1 <= id < 8 implies
                        #[trigger] superblocks@[k].spec_block_counter(s as int, id) == (if k * sbs
                            + id * bs < i + 1 {
                            count_upto(q, s, k * sbs + id * bs) - count_upto(q, s, k * sbs)
                        } else {
                            0int
                        }) by {
                        if k != kk {
                            assert(superblocks@[k] == pre[k]);
                            assert(k * sbs + id * bs < i as int) by (nonlinear_arith)
                                requires
                                    0 <= k < kk,
                                    kk * sbs <= i as int,
                                    1 <= id < 8,
                                    sbs == 8 * bs,
                                    0 < bs,
                            ;
                        } else if id == block_id as int {
                            assert(block_id >= 1);
                            assert(superblocks@[k].spec_block_counter(s as int, id)
                                == block_counters@[s as int]);
                            assert(k * sbs + id * bs == i as int);
                            assert(last_reset(i as int, sbs) == kk * sbs) by {
                                if i as int % sbs == 0 {
                                    assert((block_id as int) * bs == 0) by (nonlinear_arith)
                                        requires
                                            i as int == kk * sbs + (block_id as int) * bs,
                                            i as int % (8 * bs) == 0,
                                            kk == i as int / (8 * bs),
                                            sbs == 8 * bs,
                                            0 < bs,
                                            (i as int / bs) % 8 == 0 ==> block_id as int == 0,
                                            block_id as int == (i as int / bs) % 8,
                                    ;
                                    assert(false);
                                }
                            }
                        } else {
                            assert(superblocks@[k].spec_block_counter(s as int, id)
                                == pre[k].spec_block_counter(s as int, id));
                            assert(k * sbs + id * bs != i as int) by (nonlinear_arith)
                                requires
                                    i as int == kk * sbs + (block_id as int) * bs,
                                    k == kk,
                                    id != block_id as int,
                                    0 < bs,
                            ;
                        }
                    }
                }
            } else {
                proof {
                    // No block starts at i: no field changes meaning as the
                    // cutoff passes i.
                    assert forall|k: int, s: u8, id: int|
                        0 <= k < superblocks@.len() && s < 4 && 1 <= id < 8 implies
                        #[trigger] superblocks@[k].spec_block_counter(s as int, id) == (if k * sbs
                            + id * bs < i + 1 {
                            count_upto(q, s, k * sbs + id * bs) - count_upto(q, s, k * sbs)
                        } else {
                            0int
                        }) by {
                        let m8 = 8 * k + id;
                        assert(k * sbs + id * bs == m8 * bs) by (nonlinear_arith)
                            requires
                                m8 == 8 * k + id,
                                sbs == 8 * bs,
                        ;
                        lemma_div_of(m8 * bs, bs, m8, 0);
                        assert(k * sbs + id * bs != i as int);
                    }
                }
            }
            let ghost lr_next = (i as int / sbs) * sbs;
            proof {
                assert(last_reset(i as int + 1, sbs) == lr_next);
                if i as int % sbs == 0 {
                    assert(lr_next == i as int);
                } else {
                    assert(lr_next == last_reset(i as int, sbs));
                }
            }
            if i < n {
                let symbol = qv.get_unchecked(i);
                let sym = symbol as usize;
                let ghost occs_pre = occs@;
                let ghost samples_pre = select_samples@;
                let ghost blc_pre = block_counters@;
                proof {
                    assert(count_upto(q, symbol, i + 1) == count_upto(q, symbol, i as int) + 1);
                    assert forall|t: u8| t < 4 && t != symbol implies count_upto(q, t, i + 1)
                        == count_upto(q, t, i as int) by {}
                }
                if occs[sym] % 8192 == 0 {
                    let sample = (i / superblock_size) as u32;
                    proof {
                        assert(i as int / sbs < 0x1_0000_0000) by (nonlinear_arith)
                            requires
                                i < 0x800_0000_0000,
                                sbs >= 2048,
                                0 <= i as int / sbs,
                                sbs * (i as int / sbs) <= i,
                        ;
                        lemma_pos_of_count(q, symbol, i as int);
                    }
                    select_samples[sym].push(sample);
                    proof {
                        let k_old = count_upto(q, symbol, i as int);
                        let k = k_old + 1;
                        let g = spec_genuine_samples(q, symbol, i + 1, bs);
                        assert(select_samples@[sym as int]@ == samples_pre[sym as int]@.push(
                            sample,
                        ));
                        lemma_count_nonneg(q, symbol, i as int);
                        if k_old == 0 {
                            assert(sample_count(k) == 1);
                            assert(pos_seq(q, symbol)[0] == i);
                            assert(g =~= samples_pre[sym as int]@.push(sample));
                        } else {
                            assert(sample_count(k) == sample_count(k_old) + 1) by (nonlinear_arith)
                                requires
                                    k == k_old + 1,
                                    k_old >= 1,
                                    k_old % 8192 == 0,
                            ;
                            assert((sample_count(k) - 1) * 8192 == k_old) by (nonlinear_arith)
                                requires
                                    sample_count(k) == k_old / 8192 + 1,
                                    k_old % 8192 == 0,
                                    k_old >= 0,
                            ;
                            assert(pos_seq(q, symbol)[(sample_count(k) - 1) * 8192] == i);
                            assert(g =~= samples_pre[sym as int]@.push(sample));
                        }
                        assert forall|t: int| 0 <= t < 4 && t != sym implies
                            #[trigger] select_samples@[t]@ == spec_genuine_samples(
                            q,
                            t as u8,
                            i + 1,
                            bs,
                        ) by {
                            assert(select_samples@[t] == samples_pre[t]);
                        }
                    }
                } else {
                    proof {
                        let k_old = count_upto(q, symbol, i as int);
                        lemma_count_nonneg(q, symbol, i as int);
                        assert(sample_count(k_old + 1) == sample_count(k_old) && k_old >= 1)
                            by (nonlinear_arith)
                            requires
                                k_old % 8192 != 0,
                                k_old >= 0,
                        ;
                        assert(spec_genuine_samples(q, symbol, i + 1, bs) =~= spec_genuine_samples(
                            q,
                            symbol,
                            i as int,
                            bs,
                        ));
                    }
                }
                proof {
                    lemma_count_nonneg(q, symbol, last_reset(i as int, sbs));
                    lemma_count_nonneg(q, symbol, lr_next);
                    lemma_count_mono(q, symbol, 0, i as int);
                    lemma_count_nonneg(q, symbol, 0);
                }
                occs[sym] = occs[sym] + 1;
                superblock_counters[sym] = superblock_counters[sym] + 1;
                block_counters[sym] = block_counters[sym] + 1;
                proof {
                    assert forall|t: int| 0 <= t < 4 && t != sym implies #[trigger] occs@[t]
                        == occs_pre[t] && block_counters@[t] == blc_pre[t] by {}
                    assert forall|t: int| 0 <= t < 4 implies #[trigger] block_counters@[t]
                        == count_upto(q, t as u8, i + 1) - count_upto(q, t as u8, lr_next) by {
                        if i as int % sbs == 0 {
                            assert(count_upto(q, t as u8, i as int) - count_upto(
                                q,
                                t as u8,
                                i as int,
                            ) == 0);
                        }
                    }
                }
            } else {
                proof {
                    assert forall|t: int| 0 <= t < 4 implies #[trigger] block_counters@[t]
                        == count_upto(q, t as u8, capped(i as int + 1, n as int)) - count_upto(
                        q,
                        t as u8,
                        lr_next,
                    ) by {
                        if i as int % sbs == 0 {
                            assert(block_counters@[t] == 0);
                        }
                    }
                }
            }
            i = i + 1;
        }
        // i == n + 1: every block start up to n has been written; add the
        // sentinel field after the last genuine block, when there is room.
        let ghost kk = (n as int) / sbs;
        let ghost g = ((n as int) / bs) % 8;
        proof {
            lemma_divmod(n as int, sbs);
            lemma_divmod(n as int, bs);
            lemma_divmod(n as int / bs, 8);
            vstd::arithmetic::div_mod::lemma_div_denominator(n as int, bs, 8);
            assert(kk == (n as int / bs) / 8);
            assert(superblocks@.len() == kk + 1);
            assert(kk * sbs + g * bs == (n as int / bs) * bs) by (nonlinear_arith)
                requires
                    n as int / bs == 8 * kk + g,
                    sbs == 8 * bs,
            ;
            assert((n as int / bs) * bs <= n as int && (n as int) < (n as int / bs) * bs + bs)
                by (nonlinear_arith)
                requires
                    n as int == bs * (n as int / bs) + n as int % bs,
                    0 <= n as int % bs < bs,
            ;
        }
        let next_block_id = (n / B_SIZE) % 8 + 1;
        if next_block_id < 8 {
            let last = superblocks.len() - 1;
            let ghost pre = superblocks@;
            proof {
                assert(last as int == kk);
                assert(next_block_id as int == g + 1);
                assert(kk * sbs + (g + 1) * bs > n as int && kk * sbs + g * bs <= n as int)
                    by (nonlinear_arith)
                    requires
                        kk * sbs + g * bs == (n as int / bs) * bs,
                        (n as int / bs) * bs <= n as int && (n as int) < (n as int / bs) * bs + bs,
                ;
                assert forall|t: int| 0 <= t < 4 implies #[trigger] block_counters@[t] < 4096 by {
                    assert(block_counters@[t] == count_upto(q, t as u8, n as int) - count_upto(
                        q,
                        t as u8,
                        last_reset(n as int + 1, sbs),
                    ));
                    assert(last_reset(n as int + 1, sbs) == kk * sbs);
                    lemma_count_mono(q, t as u8, kk * sbs, n as int);
                    lemma_count_nonneg(q, t as u8, kk * sbs);
                    assert(n as int - kk * sbs < sbs <= 4096) by (nonlinear_arith)
                        requires
                            n as int == sbs * kk + n as int % sbs,
                            0 <= n as int % sbs < sbs,
                            sbs <= 4096,
                    ;
                }
                assert forall|s: u8| s < 4 implies pre[kk].spec_block_counter(
                    s as int,
                    next_block_id as int,
                ) == 0 by {
                    assert(kk * sbs + (next_block_id as int) * bs > n as int);
                }
            }
            let mut sb = superblocks[last];
            sb.set_block_counters(next_block_id, &block_counters);
            superblocks[last] = sb;
            proof {
                assert forall|k: int, s: u8|
                    0 <= k < superblocks@.len() && s < 4 implies #[trigger] superblocks@[k].spec_superblock_counter(
                    s as int,
                ) == count_upto(q, s, k * sbs) by {
                    if k != kk {
                        assert(superblocks@[k] == pre[k]);
                    }
                }
                assert forall|k: int, s: u8, id: int|
                    0 <= k < superblocks@.len() && s < 4 && 1 <= id < 8 implies
                    #[trigger] superblocks@[k].spec_block_counter(s as int, id) == spec_field_value(
                    q,
                    s,
                    k,
                    id,
                    bs,
                ) by {
                    if k != kk {
                        assert(superblocks@[k] == pre[k]);
                        assert(k * sbs + id * bs <= n as int) by (nonlinear_arith)
                            requires
                                0 <= k < kk,
                                kk * sbs <= n as int,
                                1 <= id < 8,
                                sbs == 8 * bs,
                                0 < bs,
                        ;
                    } else if id == next_block_id as int {
                        assert(superblocks@[k].spec_block_counter(s as int, id)
                            == block_counters@[s as int]);
                        assert(kk * sbs + (id - 1) * bs <= n as int);
                        assert(last_reset(n as int + 1, sbs) == kk * sbs);
                    } else {
                        assert(superblocks@[k].spec_block_counter(s as int, id)
                            == pre[k].spec_block_counter(s as int, id));
                        if id < next_block_id as int {
                            assert(k * sbs + id * bs <= n as int) by (nonlinear_arith)
                                requires
                                    id <= g,
                                    kk * sbs + g * bs <= n as int,
                                    k == kk,
                                    0 < bs,
                            ;
                        } else {
                            assert(k * sbs + (id - 1) * bs > n as int) by (nonlinear_arith)
                                requires
                                    id - 1 >= g + 1,
                                    kk * sbs + (g + 1) * bs > n as int,
                                    k == kk,
                                    0 < bs,
                            ;
                            assert(k * sbs + id * bs > n as int) by (nonlinear_arith)
                                requires
                                    k * sbs + (id - 1) * bs > n as int,
                                    0 < bs,
                            ;
                        }
                    }
                }
            }
        } else {
            proof {
                assert(g == 7);
                assert forall|k: int, s: u8, id: int|
                    0 <= k < superblocks@.len() && s < 4 && 1 <= id < 8 implies
                    #[trigger] superblocks@[k].spec_block_counter(s as int, id) == spec_field_value(
                    q,
                    s,
                    k,
                    id,
                    bs,
                ) by {
                    assert(k * sbs + id * bs <= n as int) by (nonlinear_arith)
                        requires
                            0 <= k <= kk,
                            kk * sbs + g * bs <= n as int,
                            g == 7,
                            1 <= id <= 7,
                            sbs == 8 * bs,
                            0 < bs,
                    ;
                }
            }
        }
        let mut s: usize = 0;
        while s < 4
            invariant
                q == qv@,
                n == q.len(),
                n < 0x800_0000_0000,
                bs == B_SIZE as int,
                sbs == 8 * bs,
                (bs == 256 || bs == 512),
                s <= 4,
                superblocks@.len() == n as int / sbs + 1,
                forall|t: int|
                    s <= t < 4 ==> #[trigger] select_samples@[t]@ == spec_genuine_samples(
                        q,
                        t as u8,
                        n as int,
                        bs,
                    ),
                forall|t: int|
                    0 <= t < s ==> #[trigger] select_samples@[t]@ == spec_sample_model(
                        q,
                        t as u8,
                        bs,
                    ),
            decreases 4 - s,
        {
            let ghost samples_pre0 = select_samples@;
            if select_samples[s].len() == 0 {
                select_samples[s].push(0);
                proof {
                    lemma_count_nonneg(q, s as u8, n as int);
                    assert(samples_pre0[s as int]@.len() == 0);
                    assert(count_upto(q, s as u8, n as int) == 0) by {
                        if count_upto(q, s as u8, n as int) != 0 {
                            assert(spec_genuine_samples(q, s as u8, n as int, bs).len()
                                == sample_count(count_upto(q, s as u8, n as int)));
                            assert(sample_count(count_upto(q, s as u8, n as int)) >= 1)
                                by (nonlinear_arith)
                                requires
                                    count_upto(q, s as u8, n as int) >= 1,
                            ;
                        }
                    }
                    assert forall|t: int| 0 <= t < 4 && t != s implies select_samples@[t]
                        == samples_pre0[t] by {}
                }
            }
            let ghost samples_pre = select_samples@;
            let sentinel = (superblocks.len() - 1) as u32;
            proof {
                lemma_divmod(n as int, sbs);
                assert(n as int / sbs < 0x1_0000_0000) by (nonlinear_arith)
                    requires
                        n < 0x800_0000_0000,
                        sbs >= 2048,
                        0 <= n as int / sbs,
                        sbs * (n as int / sbs) <= n,
                ;
            }
            select_samples[s].push(sentinel);
            proof {
                let k = count_upto(q, s as u8, n as int);
                if k == 0 {
                    assert(samples_pre[s as int]@ =~= seq![0u32]);
                }
                assert(select_samples@[s as int]@ =~= spec_sample_model(q, s as u8, bs));
                assert forall|t: int| 0 <= t < 4 && t != s implies select_samples@[t]
                    == samples_pre[t] by {}
            }
            s = s + 1;
        }
        shrink_vec(&mut superblocks);
        let r = RSSupportPlain { superblocks, occs, select_samples, n, indexed: Ghost(q) };
        proof {
            assert forall|t: u8| t < 4 implies #[trigger] r.spec_occs(t as int) == count_upto(
                q,
                t,
                n as int,
            ) by {
                assert(occs@[t as int] == count_upto(q, t as u8, capped(n as int + 1, n as int)));
            }
            assert forall|t: u8| t < 4 implies #[trigger] r.spec_samples(t as int)
                == spec_sample_model(q, t, bs) by {
                assert(select_samples@[t as int]@ == spec_sample_model(q, t as u8, bs));
            }
        }
        r
    }

    /// Number of occurrences of `SYMBOL` up to the start of the block that
    /// contains position `i`.
    pub fn rank_block<const SYMBOL: u8>(&self, i: usize) -> (r: usize)
        requires
            self.wf(),
            SYMBOL < 4,
            (i as int / (B_SIZE as int)) * (B_SIZE as int) <= self.spec_n(),
        ensures
            r == count_upto(self.q(), SYMBOL, (i as int / (B_SIZE as int)) * (B_SIZE as int)),
    {
        let ghost q = self.q();
        let ghost bs = B_SIZE as int;
        let ghost sbs = 8 * bs;
        let ghost n = self.spec_n();
        let superblock_index = Self::superblock_index(i);
        let block_index = Self::block_index(i);
        let ghost kk = i as int / sbs;
        let ghost id = (i as int / bs) % 8;
        let ghost bstart = (i as int / bs) * bs;
        proof {
            lemma_divmod(i as int, bs);
            lemma_divmod(i as int / bs, 8);
            vstd::arithmetic::div_mod::lemma_div_denominator(i as int, bs, 8);
            assert(kk == (i as int / bs) / 8);
            lemma_divmod(n, sbs);
            assert(bstart == kk * sbs + id * bs) by (nonlinear_arith)
                requires
                    i as int / bs == 8 * kk + id,
                    bstart == (i as int / bs) * bs,
                    sbs == 8 * bs,
            ;
            assert(bstart <= i as int) by (nonlinear_arith)
                requires
                    i as int == bs * (i as int / bs) + i as int % bs,
                    0 <= i as int % bs,
                    bstart == (i as int / bs) * bs,
            ;
            assert(kk * sbs <= bstart) by (nonlinear_arith)
                requires
                    bstart == kk * sbs + id * bs,
                    0 <= id,
                    0 < bs,
            ;
            assert(kk <= n / sbs) by {
                lemma_div_of(kk * sbs, sbs, kk, 0);
                vstd::arithmetic::div_mod::lemma_div_is_ordered(kk * sbs, n, sbs);
            }
            assert(superblock_index < self.spec_num_superblocks());
            lemma_count_nonneg(q, SYMBOL, kk * sbs);
            lemma_count_mono(q, SYMBOL, 0, kk * sbs);
            lemma_count_nonneg(q, SYMBOL, 0);
            lemma_count_mono(q, SYMBOL, kk * sbs, bstart);
            lemma_count_mono(q, SYMBOL, bstart, n);
            assert(self.spec_superblock(kk).spec_superblock_counter(SYMBOL as int) == count_upto(
                q,
                SYMBOL,
                kk * sbs,
            ));
            if id >= 1 {
                assert(self.spec_superblock(kk).spec_block_counter(SYMBOL as int, id)
                    == spec_field_value(q, SYMBOL, kk, id, bs));
                assert(spec_field_value(q, SYMBOL, kk, id, bs) == count_upto(q, SYMBOL, bstart)
                    - count_upto(q, SYMBOL, kk * sbs));
            } else {
                assert(bstart == kk * sbs);
            }
        }
        let a = self.superblocks[superblock_index].get_superblock_counter(SYMBOL);
        let b = self.superblocks[superblock_index].get_block_counter(SYMBOL, block_index % 8);
        proof {
            assert(a + b == count_upto(q, SYMBOL, bstart));
            assert(count_upto(q, SYMBOL, bstart) <= n);
        }
        a + b
    }

    /// Total number of occurrences of `symbol` in the indexed sequence.
    pub fn n_occs(&self, symbol: u8) -> (r: usize)
        requires
            self.wf(),
            symbol < 4,
        ensures
            r == count_upto(self.q(), symbol, self.q().len() as int),
    {
        proof {
            assert(self.spec_occs(symbol as int) == count_upto(
                self.q(),
                symbol,
                self.q().len() as int,
            ));
        }
        self.occs[symbol as usize]
    }

    /// Length of the indexed sequence.
    pub fn len(&self) -> (r: usize)
        ensures
            r == self.spec_n(),
    {
        self.n
    }

    /// A cache prefetch hint in the original design. Correctness never
    /// depends on it, so no operation is performed.
    pub fn prefetch(&self, _i: usize) {
    }

    /// Releases spare capacity of the superblock buffer and the sample
    /// tables.
    pub fn shrink_to_fit(&mut self)
        ensures
            final(self).q() == old(self).q(),
            final(self).spec_n() == old(self).spec_n(),
            old(self).wf() ==> final(self).wf(),
            forall|s: int|
                0 <= s < 4 ==> #[trigger] final(self).spec_samples(s) == old(self).spec_samples(s),
            final(self).spec_num_superblocks() == old(self).spec_num_superblocks(),
            forall|k: int|
                0 <= k < old(self).spec_num_superblocks() ==> #[trigger] final(
                    self).spec_superblock(k) == old(self).spec_superblock(k),
            forall|s: int|
                0 <= s < 4 ==> #[trigger] final(self).spec_occs(s) == old(self).spec_occs(s),
    {
        shrink_vec(&mut self.superblocks);
        shrink_vec(&mut self.select_samples[0]);
        shrink_vec(&mut self.select_samples[1]);
        shrink_vec(&mut self.select_samples[2]);
        shrink_vec(&mut self.select_samples[3]);
        proof {
            let bs = B_SIZE as int;
            let sbs = 8 * bs;
            assert(self.superblocks@ == old(self).superblocks@);
            assert(self.occs@ == old(self).occs@);
            assert forall|s: int| 0 <= s < 4 implies #[trigger] self.spec_samples(s) == old(
                self,
            ).spec_samples(s) by {
                assert(self.select_samples@[s]@ == old(self).select_samples@[s]@);
            }
            if old(self).wf() {
                let q = self.indexed@;
                assert forall|s: u8| s < 4 implies #[trigger] self.spec_occs(s as int)
                    == count_upto(q, s, self.n as int) by {
                    assert(old(self).spec_occs(s as int) == count_upto(q, s, self.n as int));
                }
                assert forall|k: int, s: u8|
                    0 <= k < self.spec_num_superblocks() && s < 4 implies
                    #[trigger] self.spec_superblock(k).spec_superblock_counter(s as int)
                    == count_upto(q, s, k * sbs) by {
                    assert(old(self).spec_superblock(k).spec_superblock_counter(s as int)
                        == count_upto(q, s, k * sbs));
                }
                assert forall|k: int, s: u8, id: int|
                    0 <= k < self.spec_num_superblocks() && s < 4 && 1 <= id < 8 implies
                    #[trigger] self.spec_superblock(k).spec_block_counter(s as int, id)
                    == spec_field_value(q, s, k, id, bs) by {
                    assert(old(self).spec_superblock(k).spec_block_counter(s as int, id)
                        == spec_field_value(q, s, k, id, bs));
                }
                assert forall|s: u8| s < 4 implies #[trigger] self.spec_samples(s as int)
                    == spec_sample_model(q, s, bs) by {
                    assert(old(self).spec_samples(s as int) == spec_sample_model(q, s, bs));
                }
                assert(self.wf());
            }
        }
    }

    /// Space usage in bytes: the superblock records (64 bytes each), the
    /// four occurrence totals and the length (8 bytes each on the 64-bit
    /// hosts this targets), and the sample entries (4 bytes each).
    pub fn space_usage_bytes(&self) -> (r: usize)
        requires
            self.wf(),
        ensures
            r as int == self.spec_num_superblocks() * 64 + 4 * 8 + self.spec_samples(0).len() * 4
                + self.spec_samples(1).len() * 4 + self.spec_samples(2).len() * 4
                + self.spec_samples(3).len() * 4 + 8,
    {
        let ghost q = self.q();
        let ghost bs = B_SIZE as int;
        let ghost sbs = 8 * bs;
        let ghost n = self.spec_n();
        proof {
            lemma_divmod(n, sbs);
            assert(self.spec_num_superblocks() * 64 <= n * 64 / 2048 + 64) by (nonlinear_arith)
                requires
                    self.spec_num_superblocks() == n / sbs + 1,
                    sbs * (n / sbs) <= n,
                    0 <= n / sbs,
                    sbs >= 2048,
            ;
            assert forall|s: u8| s < 4 implies #[trigger] self.spec_samples(s as int).len()
                <= sample_count(count_upto(q, s, n)) + 1 by {
                assert(self.spec_samples(s as int) == spec_sample_model(q, s, bs));
            }
            assert forall|s: u8| s < 4 implies sample_count(
                #[trigger] count_upto(q, s, n),
            ) <= n / 8192 + 1 by {
                lemma_count_nonneg(q, s, n);
                lemma_count_mono(q, s, 0, n);
                lemma_count_nonneg(q, s, 0);
                if count_upto(q, s, n) > 0 {
                    vstd::arithmetic::div_mod::lemma_div_is_ordered(
                        count_upto(q, s, n) - 1,
                        n,
                        8192,
                    );
                }
            }
        }
        let mut select_space: usize = 0;
        let mut c: usize = 0;
        while c < 4
            invariant
                self.wf(),
                c <= 4,
                q == self.q(),
                n == self.spec_n(),
                n < 0x800_0000_0000,
                forall|s: int|
                    0 <= s < 4 ==> #[trigger] self.spec_samples(s).len() <= n / 8192 + 2,
                select_space as int == (if c >= 1 {
                    self.spec_samples(0).len() * 4 as int
                } else {
                    0int
                }) + (if c >= 2 {
                    self.spec_samples(1).len() * 4 as int
                } else {
                    0int
                }) + (if c >= 3 {
                    self.spec_samples(2).len() * 4 as int
                } else {
                    0int
                }) + (if c >= 4 {
                    self.spec_samples(3).len() * 4 as int
                } else {
                    0int
                }),
            decreases 4 - c,
        {
            proof {
                vstd::arithmetic::div_mod::lemma_div_nonincreasing(n, 8192);
                assert(self.spec_samples(c as int).len() <= n / 8192 + 2);
            }
            select_space = select_space + self.select_samples[c].len() * 4;
            c = c + 1;
        }
        proof {
            vstd::arithmetic::div_mod::lemma_div_is_ordered_by_denominator(n, 2048, sbs);
            lemma_divmod(n, 2048);
            assert((n / 2048) * 64 <= n) by (nonlinear_arith)
                requires
                    2048 * (n / 2048) <= n,
                    0 <= n / 2048,
            ;
            assert(self.spec_num_superblocks() * 64 <= n + 64);
            vstd::arithmetic::div_mod::lemma_div_nonincreasing(n, 8192);
        }
        self.superblocks.len() * 64 + 4 * 8 + select_space + 8
    }

    /// The number of superblock records kept, exposed for the width law.
    pub open spec fn spec_sbs_len(&self) -> int {
        self.spec_num_superblocks()
    }

    /// Rank/select duality at block granularity: at the position returned by
    /// `select_block(symbol, i)` the block-level rank is exactly the returned
    /// rank, which undercounts i by less than one block's occurrences.
    pub proof fn lemma_rank_select_duality(&self, symbol: u8, i: int)
        requires
            self.wf(),
            symbol < 4,
            1 <= i <= self.spec_occs(symbol as int),
        ensures
            ({
                let q = self.q();
                let bs = B_SIZE as int;
                let p = pos_seq(q, symbol)[i - 1] as int;
                let pos = (p / bs) * bs;
                &&& (pos / bs) * bs == pos
                &&& count_upto(q, symbol, pos) <= i - 1
                &&& i - 1 < count_upto(
                    q,
                    symbol,
                    (if pos + bs <= self.spec_n() {
                        pos + bs
                    } else {
                        self.spec_n()
                    }),
                )
            }),
    {
        let q = self.q();
        let bs = B_SIZE as int;
        let n = self.spec_n();
        let pp = pos_seq(q, symbol);
        lemma_pos_seq_props(q, symbol);
        lemma_count_mono(q, symbol, 0, n);
        lemma_count_nonneg(q, symbol, 0);
        let p = pp[i - 1] as int;
        assert(0 <= p < n && q[p] == symbol && count_upto(q, symbol, p) == i - 1);
        lemma_divmod(p, bs);
        let pos = (p / bs) * bs;
        assert(pos <= p && p < pos + bs) by (nonlinear_arith)
            requires
                p == bs * (p / bs) + p % bs,
                0 <= p % bs < bs,
                pos == (p / bs) * bs,
        ;
        lemma_div_of(pos, bs, p / bs, 0);
        lemma_count_mono(q, symbol, pos, p);
        lemma_count_nonneg(q, symbol, pos);
        assert(count_upto(q, symbol, p + 1) == i);
        if pos + bs <= n {
            lemma_count_mono(q, symbol, p + 1, pos + bs);
        } else {
            lemma_count_mono(q, symbol, p + 1, n);
        }
    }

    /// Block-level rank is monotone in the position and never exceeds the
    /// total occurrence count.
    pub proof fn lemma_rank_block_monotone(&self, symbol: u8, i: int, j: int)
        requires
            self.wf(),
            symbol < 4,
            0 <= i <= j <= self.spec_n(),
        ensures
            count_upto(self.q(), symbol, (i / (B_SIZE as int)) * (B_SIZE as int)) <= count_upto(
                self.q(),
                symbol,
                (j / (B_SIZE as int)) * (B_SIZE as int),
            ),
            count_upto(self.q(), symbol, (j / (B_SIZE as int)) * (B_SIZE as int))
                <= self.spec_occs(symbol as int),
    {
        let q = self.q();
        let bs = B_SIZE as int;
        let n = self.spec_n();
        vstd::arithmetic::div_mod::lemma_div_is_ordered(i, j, bs);
        lemma_divmod(i, bs);
        lemma_divmod(j, bs);
        assert((i / bs) * bs <= (j / bs) * bs) by (nonlinear_arith)
            requires
                i / bs <= j / bs,
                0 < bs,
        ;
        lemma_count_mono(q, symbol, (i / bs) * bs, (j / bs) * bs);
        assert((j / bs) * bs <= j) by (nonlinear_arith)
            requires
                j == bs * (j / bs) + j % bs,
                0 <= j % bs,
        ;
        lemma_count_mono(q, symbol, (j / bs) * bs, n);
        assert(self.spec_occs(symbol as int) == count_upto(q, symbol, n));
    }

    /// At a block boundary the four block-level ranks add up to the position:
    /// each position below the boundary holds exactly one symbol.
    pub proof fn lemma_rank_block_sum(&self, k: int)
        requires
            self.wf(),
            0 <= k,
            k * (B_SIZE as int) <= self.spec_n(),
        ensures
            ({
                let q = self.q();
                let m = k * (B_SIZE as int);
                &&& (m / (B_SIZE as int)) * (B_SIZE as int) == m
                &&& count_upto(q, 0u8, m) + count_upto(q, 1u8, m) + count_upto(q, 2u8, m)
                    + count_upto(q, 3u8, m) == m
            }),
    {
        let q = self.q();
        let bs = B_SIZE as int;
        let m = k * bs;
        assert(0 <= m) by (nonlinear_arith)
            requires
                m == k * bs,
                0 <= k,
                0 < bs,
        ;
        lemma_div_of(m, bs, k, 0);
        lemma_count_total(q, m);
    }

    /// Stored counter widths: every 44-bit superblock field is at most n,
    /// and every 12-bit block field is less than one superblock of symbols.
    pub proof fn lemma_counter_widths(&self, k: int, s: u8, id: int)
        requires
            self.wf(),
            0 <= k < self.spec_sbs_len(),
            s < 4,
            0 <= id < 8,
        ensures
            0 <= self.spec_superblock(k).spec_superblock_counter(s as int) <= self.spec_n(),
            0 <= self.spec_superblock(k).spec_block_counter(s as int, id) < 8 * (B_SIZE as int),
    {
        let q = self.q();
        let bs = B_SIZE as int;
        let sbs = 8 * bs;
        let n = self.spec_n();
        lemma_divmod(n, sbs);
        assert(k * sbs <= n) by (nonlinear_arith)
            requires
                k <= n / sbs,
                sbs * (n / sbs) <= n,
                0 < sbs,
                0 <= k,
        ;
        assert(self.spec_superblock(k).spec_superblock_counter(s as int) == count_upto(
            q,
            s,
            k * sbs,
        ));
        lemma_count_nonneg(q, s, k * sbs);
        lemma_count_mono(q, s, 0, k * sbs);
        lemma_count_nonneg(q, s, 0);
        lemma_count_mono(q, s, k * sbs, n);
        if id >= 1 {
            assert(self.spec_superblock(k).spec_block_counter(s as int, id) == spec_field_value(
                q,
                s,
                k,
                id,
                bs,
            ));
            let bstart = k * sbs + id * bs;
            assert(0 <= id * bs <= 7 * bs) by (nonlinear_arith)
                requires
                    1 <= id < 8,
                    0 < bs,
            ;
            if bstart <= n {
                lemma_count_mono(q, s, k * sbs, bstart);
                lemma_count_nonneg(q, s, k * sbs);
            } else if bstart - bs <= n {
                lemma_count_mono(q, s, k * sbs, n);
                lemma_count_nonneg(q, s, k * sbs);
                assert(n - k * sbs < sbs) by (nonlinear_arith)
                    requires
                        bstart > n,
                        bstart == k * sbs + id * bs,
                        id * bs <= 7 * bs,
                        sbs == 8 * bs,
                        0 < bs,
                ;
            }
        }
    }

    /// Construction is deterministic: two well-formed supports over the same
    /// sequence hold identical counters, totals and samples.
    pub proof fn lemma_deterministic(&self, other: &Self)
        requires
            self.wf(),
            other.wf(),
            self.q() == other.q(),
        ensures
            self.spec_n() == other.spec_n(),
            self.spec_num_superblocks() == other.spec_num_superblocks(),
            forall|k: int, s: int|
                0 <= k < self.spec_num_superblocks() && 0 <= s < 4
                    ==> #[trigger] self.spec_superblock(k).spec_counter(s)
                    == other.spec_superblock(k).spec_counter(s),
            forall|s: int|
                0 <= s < 4 ==> #[trigger] self.spec_occs(s) == other.spec_occs(s),
            forall|s: int|
                0 <= s < 4 ==> #[trigger] self.spec_samples(s) == other.spec_samples(s),
    {
        let q = self.q();
        let bs = B_SIZE as int;
        assert forall|k: int, s: int|
            0 <= k < self.spec_num_superblocks() && 0 <= s < 4 implies
            #[trigger] self.spec_superblock(k).spec_counter(s) == other.spec_superblock(
            k,
        ).spec_counter(s) by {
            let su = s as u8;
            let c1 = self.spec_superblock(k).spec_counter(s);
            let c2 = other.spec_superblock(k).spec_counter(s);
            assert(self.spec_superblock(k).spec_superblock_counter(su as int)
                == other.spec_superblock(k).spec_superblock_counter(su as int));
            assert(self.spec_superblock(k).spec_block_counter(su as int, 1)
                == other.spec_superblock(k).spec_block_counter(su as int, 1));
            assert(self.spec_superblock(k).spec_block_counter(su as int, 2)
                == other.spec_superblock(k).spec_block_counter(su as int, 2));
            assert(self.spec_superblock(k).spec_block_counter(su as int, 3)
                == other.spec_superblock(k).spec_block_counter(su as int, 3));
            assert(self.spec_superblock(k).spec_block_counter(su as int, 4)
                == other.spec_superblock(k).spec_block_counter(su as int, 4));
            assert(self.spec_superblock(k).spec_block_counter(su as int, 5)
                == other.spec_superblock(k).spec_block_counter(su as int, 5));
            assert(self.spec_superblock(k).spec_block_counter(su as int, 6)
                == other.spec_superblock(k).spec_block_counter(su as int, 6));
            assert(self.spec_superblock(k).spec_block_counter(su as int, 7)
                == other.spec_superblock(k).spec_block_counter(su as int, 7));
            lemma_packed_ext(c1, c2);
        }
        assert forall|s: int| 0 <= s < 4 implies #[trigger] self.spec_occs(s)
            == other.spec_occs(s) by {
            let su = s as u8;
            assert(self.spec_occs(su as int) == count_upto(q, su, self.spec_n()));
            assert(other.spec_occs(su as int) == count_upto(q, su, other.spec_n()));
        }
        assert forall|s: int| 0 <= s < 4 implies #[trigger] self.spec_samples(s)
            == other.spec_samples(s) by {
            let su = s as u8;
            assert(self.spec_samples(su as int) == spec_sample_model(q, su, bs));
            assert(other.spec_samples(su as int) == spec_sample_model(q, su, bs));
        }
    }

    /// The block containing the i-th occurrence of `symbol` (1-indexed):
    /// the block's start position, and the number of occurrences of `symbol`
    /// strictly before that position. A sampled superblock range is narrowed
    /// by a galloping and then a linear scan of the superblock counters, and
    /// the block predecessor finishes inside the superblock.
    #[verifier::rlimit(100)]
    pub fn select_block(&self, symbol: u8, i: usize) -> (r: (usize, usize))
        requires
            self.wf(),
            symbol < 4,
            1 <= i,
            i <= self.spec_occs(symbol as int),
        ensures
            ({
                let p = pos_seq(self.q(), symbol)[i - 1] as int;
                let bs = B_SIZE as int;
                &&& r.0 == (p / bs) * bs
                &&& r.1 == count_upto(self.q(), symbol, r.0 as int)
                &&& r.1 < i
                &&& i <= count_upto(
                    self.q(),
                    symbol,
                    (if (p / bs) * bs + bs <= self.spec_n() {
                        (p / bs) * bs + bs
                    } else {
                        self.spec_n()
                    }),
                )
            }),
    {
        let ghost q = self.q();
        let ghost bs = B_SIZE as int;
        let ghost sbs = 8 * bs;
        let ghost n = self.spec_n();
        let ghost pp = pos_seq(q, symbol);
        let ghost p = pp[i - 1] as int;
        let ghost tsb = p / sbs;
        let ghost k_all = count_upto(q, symbol, n);
        proof {
            lemma_pos_seq_props(q, symbol);
            lemma_pos_seq_sorted(q, symbol);
            lemma_count_mono(q, symbol, 0, n);
            lemma_count_nonneg(q, symbol, 0);
            assert(pp.len() == k_all);
            assert(k_all >= i);
            assert(0 <= p < n && q[p] == symbol && count_upto(q, symbol, p) == i - 1);
            lemma_divmod(p, sbs);
            lemma_divmod(n, sbs);
            vstd::arithmetic::div_mod::lemma_div_nonincreasing(n, sbs);
            assert(n / sbs < 0x1_0000_0000) by (nonlinear_arith)
                requires
                    n < 0x800_0000_0000,
                    sbs >= 2048,
                    0 <= n / sbs,
                    sbs * (n / sbs) <= n,
            ;
            assert(3 * (n / sbs) + 8 <= usize::MAX) by (nonlinear_arith)
                requires
                    sbs >= 2048,
                    sbs * (n / sbs) <= n,
                    0 <= n / sbs,
                    n <= usize::MAX,
                    usize::MAX >= 2048,
            ;
            // Characterize the target superblock: counters below or at it stay
            // under i, counters past it reach i.
            assert forall|sb: int| 0 <= sb <= tsb implies #[trigger] counter_at(q, symbol, sb, sbs) < i by {
                assert(sb * sbs <= tsb * sbs) by (nonlinear_arith)
                    requires
                        sb <= tsb,
                        0 < sbs,
                ;
                assert(tsb * sbs <= p);
                lemma_count_mono(q, symbol, sb * sbs, p);
                lemma_count_nonneg(q, symbol, sb * sbs);
            }
            assert forall|sb: int| sb > tsb implies #[trigger] counter_at(q, symbol, sb, sbs) >= i by {
                assert(sb * sbs >= (tsb + 1) * sbs) by (nonlinear_arith)
                    requires
                        sb >= tsb + 1,
                        0 < sbs,
                ;
                assert((tsb + 1) * sbs > p) by (nonlinear_arith)
                    requires
                        p == sbs * tsb + p % sbs,
                        p % sbs < sbs,
                ;
                lemma_count_strict(q, symbol, p, sb * sbs);
            }
            // Every superblock counter is the count before its start, and
            // so lies between 0 and n.
            assert forall|sb: int| 0 <= sb < self.spec_num_superblocks() implies {
                &&& (#[trigger] self.superblocks@[sb]).spec_superblock_counter(symbol as int)
                    == counter_at(q, symbol, sb, sbs)
                &&& 0 <= counter_at(q, symbol, sb, sbs) <= n
            } by {
                assert(self.spec_superblock(sb).spec_superblock_counter(symbol as int)
                    == count_upto(q, symbol, sb * sbs));
                assert(sb * sbs <= n) by (nonlinear_arith)
                    requires
                        sb <= n / sbs,
                        sbs * (n / sbs) <= n,
                        0 < sbs,
                        0 <= sb,
                ;
                lemma_count_mono(q, symbol, sb * sbs, n);
                lemma_count_nonneg(q, symbol, sb * sbs);
            }
        }
        let sampled_i = (i - 1) / 8192;
        let ghost gc = sample_count(k_all);
        proof {
            assert(self.spec_samples(symbol as int) == spec_sample_model(q, symbol, bs));
            assert(self.spec_samples(symbol as int).len() == gc + 1) by {
                assert(k_all >= 1);
            }
            vstd::arithmetic::div_mod::lemma_div_is_ordered(i - 1, k_all - 1, 8192);
            assert(sampled_i as int <= gc - 1);
            // Genuine sample values sit under their occurrence's superblock,
            // and every stored value is at most the last superblock index.
            assert forall|j: int| 0 <= j < gc implies {
                &&& 0 <= (j * 8192) < pp.len()
                &&& self.spec_samples(symbol as int)[j] == ((pp[j * 8192] as int / sbs) as u32)
                &&& (pp[j * 8192] as int / sbs) < 0x1_0000_0000
            } by {
                assert(j <= (k_all - 1) / 8192);
                assert(j * 8192 <= k_all - 1) by (nonlinear_arith)
                    requires
                        j <= (k_all - 1) / 8192,
                        8192 * ((k_all - 1) / 8192) <= k_all - 1,
                ;
                lemma_divmod(k_all - 1, 8192);
                lemma_count_nonneg(q, symbol, 0);
                lemma_divmod(pp[j * 8192] as int, sbs);
                assert(pp[j * 8192] as int / sbs < 0x1_0000_0000) by (nonlinear_arith)
                    requires
                        pp[j * 8192] < 0x800_0000_0000,
                        sbs >= 2048,
                        0 <= pp[j * 8192] as int / sbs,
                        sbs * (pp[j * 8192] as int / sbs) <= pp[j * 8192],
                ;
            }
            lemma_divmod(i - 1, 8192);
            lemma_divmod(k_all - 1, 8192);
        }
        let lo_sample = self.select_samples[symbol as usize][sampled_i] as usize;
        let hi_sample = self.select_samples[symbol as usize][sampled_i + 1] as usize;
        let ghost lo0 = lo_sample as int;
        let ghost hi1 = hi_sample as int;
        proof {
            // The low sample's counter is below i.
            let j0 = (sampled_i as int) * 8192;
            assert(j0 <= i - 1) by (nonlinear_arith)
                requires
                    j0 == (sampled_i as int) * 8192,
                    8192 * (sampled_i as int) <= i - 1,
            ;
            assert(lo0 == pp[j0] as int / sbs);
            lemma_divmod(pp[j0] as int, sbs);
            assert(count_upto(q, symbol, pp[j0] as int) == j0);
            assert(lo0 * sbs <= pp[j0] as int) by (nonlinear_arith)
                requires
                    sbs * lo0 <= pp[j0] as int,
            ;
            lemma_count_mono(q, symbol, lo0 * sbs, pp[j0] as int);
            assert(count_upto(q, symbol, lo0 * sbs) < i);
            assert(counter_at(q, symbol, lo0, sbs) < i);
            assert(lo0 <= tsb);
            // The high sample bounds the target superblock.
            if sampled_i as int + 1 < gc {
                let j1 = (sampled_i as int + 1) * 8192;
                assert(i - 1 < j1) by (nonlinear_arith)
                    requires
                        j1 == (sampled_i as int + 1) * 8192,
                        i - 1 == 8192 * (sampled_i as int) + (i - 1) as int % 8192,
                        (i - 1) as int % 8192 < 8192,
                ;
                assert(hi1 == pp[j1] as int / sbs);
                assert(p <= pp[j1]) by {
                    assert(pp[i - 1] < pp[j1]);
                }
                vstd::arithmetic::div_mod::lemma_div_is_ordered(p, pp[j1] as int, sbs);
                assert(tsb <= hi1);
            } else {
                assert(sampled_i as int + 1 == gc);
                assert(hi1 == n / sbs);
                vstd::arithmetic::div_mod::lemma_div_is_ordered(p, n, sbs);
                assert(tsb <= hi1);
            }
            // Every sample value is a valid superblock index.
            assert(lo0 <= n / sbs && hi1 <= n / sbs) by {
                if (sampled_i as int) < gc {
                    vstd::arithmetic::div_mod::lemma_div_is_ordered(
                        pp[(sampled_i as int) * 8192] as int,
                        n,
                        sbs,
                    );
                }
                if (sampled_i as int + 1) < gc {
                    vstd::arithmetic::div_mod::lemma_div_is_ordered(
                        pp[(sampled_i as int + 1) * 8192] as int,
                        n,
                        sbs,
                    );
                }
            }
        }
        let mut first_sblock_id = lo_sample;
        let last_sblock_id = 1 + hi_sample;
        proof {
            assert(lo0 <= hi1);
        }
        let step = isqrt(last_sblock_id - first_sblock_id) + 1;
        while first_sblock_id < last_sblock_id && self.superblocks[first_sblock_id].get_superblock_counter(
            symbol,
        ) < i
            invariant
                self.wf(),
                symbol < 4,
                q == self.q(),
                bs == B_SIZE as int,
                sbs == 8 * bs,
                n == self.spec_n(),
                pp == pos_seq(q, symbol),
                1 <= i,
                0 <= p < n,
                tsb == p / sbs,
                forall|sb: int| 0 <= sb <= tsb ==> #[trigger] counter_at(q, symbol, sb, sbs) < i,
                forall|sb: int| sb > tsb ==> #[trigger] counter_at(q, symbol, sb, sbs) >= i,
                forall|sb: int|
                    0 <= sb < self.spec_num_superblocks() ==> {
                        &&& (#[trigger] self.superblocks@[sb]).spec_superblock_counter(
                            symbol as int,
                        ) == counter_at(q, symbol, sb, sbs)
                        &&& 0 <= counter_at(q, symbol, sb, sbs) <= n
                    },
                self.spec_num_superblocks() == n / sbs + 1,
                tsb < last_sblock_id,
                last_sblock_id <= self.spec_num_superblocks(),
                n / sbs < 0x1_0000_0000,
                3 * (n / sbs) + 8 <= usize::MAX,
                step >= 1,
                step <= last_sblock_id + 1,
                lo0 <= first_sblock_id,
                counter_at(q, symbol, lo0, sbs) < i,
                lo0 <= tsb,
                first_sblock_id == lo0 || (first_sblock_id >= step && counter_at(
                    q,
                    symbol,
                    first_sblock_id - step,
                    sbs,
                ) < i),
                first_sblock_id <= tsb + step,
            decreases last_sblock_id + step - first_sblock_id,
        {
            proof {
                assert(counter_at(q, symbol, first_sblock_id as int, sbs) < i);
                assert(first_sblock_id as int <= tsb);
            }
            first_sblock_id = first_sblock_id + step;
        }
        proof {
            if first_sblock_id == lo_sample {
                assert(counter_at(q, symbol, lo0, sbs) < i);
                assert(lo0 < last_sblock_id);
                assert(false);
            }
        }
        first_sblock_id = first_sblock_id - step;
        let ghost start2 = first_sblock_id as int;
        proof {
            assert(counter_at(q, symbol, start2, sbs) < i);
            assert(start2 <= tsb);
        }
        while first_sblock_id < last_sblock_id && self.superblocks[first_sblock_id].get_superblock_counter(
            symbol,
        ) < i
            invariant
                self.wf(),
                symbol < 4,
                q == self.q(),
                bs == B_SIZE as int,
                sbs == 8 * bs,
                n == self.spec_n(),
                pp == pos_seq(q, symbol),
                1 <= i,
                0 <= p < n,
                tsb == p / sbs,
                forall|sb: int| 0 <= sb <= tsb ==> #[trigger] counter_at(q, symbol, sb, sbs) < i,
                forall|sb: int| sb > tsb ==> #[trigger] counter_at(q, symbol, sb, sbs) >= i,
                forall|sb: int|
                    0 <= sb < self.spec_num_superblocks() ==> {
                        &&& (#[trigger] self.superblocks@[sb]).spec_superblock_counter(
                            symbol as int,
                        ) == counter_at(q, symbol, sb, sbs)
                        &&& 0 <= counter_at(q, symbol, sb, sbs) <= n
                    },
                self.spec_num_superblocks() == n / sbs + 1,
                tsb < last_sblock_id,
                last_sblock_id <= self.spec_num_superblocks(),
                0 <= start2 <= tsb,
                start2 <= first_sblock_id <= tsb + 1,
                first_sblock_id as int <= last_sblock_id,
                first_sblock_id == start2 || counter_at(q, symbol, first_sblock_id - 1, sbs) < i,
            decreases last_sblock_id - first_sblock_id,
        {
            proof {
                assert(counter_at(q, symbol, first_sblock_id as int, sbs) < i);
                assert(first_sblock_id as int <= tsb);
            }
            first_sblock_id = first_sblock_id + 1;
        }
        proof {
            if (first_sblock_id as int) < last_sblock_id {
                assert(counter_at(q, symbol, first_sblock_id as int, sbs) >= i);
                assert(first_sblock_id as int > tsb);
            } else {
                assert(first_sblock_id as int == last_sblock_id);
                assert(first_sblock_id as int > tsb);
            }
            assert(first_sblock_id as int == tsb + 1);
        }
        first_sblock_id = first_sblock_id - 1;
        proof {
            assert(first_sblock_id as int == tsb);
            assert(tsb * sbs <= p);
            assert(tsb <= n / sbs);
        }
        let position0 = first_sblock_id * (B_SIZE * 8);
        let rank0 = self.superblocks[first_sblock_id].get_superblock_counter(symbol);
        proof {
            assert(rank0 == counter_at(q, symbol, tsb, sbs));
            assert(rank0 == count_upto(q, symbol, tsb * sbs));
            assert(counter_at(q, symbol, tsb, sbs) < i);
            assert(rank0 < i);
        }
        let target = i - rank0;
        let pred = self.superblocks[first_sblock_id].block_predecessor(symbol, target);
        let ghost d_id = (p / bs) % 8;
        let ghost bstart = (p / bs) * bs;
        proof {
            let csb = count_upto(q, symbol, tsb * sbs);
            lemma_divmod(p, bs);
            lemma_divmod(p / bs, 8);
            vstd::arithmetic::div_mod::lemma_div_denominator(p, bs, 8);
            assert(tsb == (p / bs) / 8);
            assert(bstart == tsb * sbs + d_id * bs) by (nonlinear_arith)
                requires
                    p / bs == 8 * tsb + d_id,
                    bstart == (p / bs) * bs,
                    sbs == 8 * bs,
            ;
            assert(bstart <= p) by (nonlinear_arith)
                requires
                    p == bs * (p / bs) + p % bs,
                    0 <= p % bs,
                    bstart == (p / bs) * bs,
            ;
            assert(p < bstart + bs) by (nonlinear_arith)
                requires
                    p == bs * (p / bs) + p % bs,
                    p % bs < bs,
                    bstart == (p / bs) * bs,
            ;
            // Every id up to the block of p stays under the target.
            assert forall|j: int| 0 <= j <= d_id implies self.spec_superblock(
                tsb,
            ).spec_block_counter(symbol as int, j) < target by {
                if j >= 1 {
                    let bj = tsb * sbs + j * bs;
                    assert(bj <= bstart) by (nonlinear_arith)
                        requires
                            j <= d_id,
                            0 < bs,
                            bj == tsb * sbs + j * bs,
                            bstart == tsb * sbs + d_id * bs,
                    ;
                    assert(tsb * sbs <= bj) by (nonlinear_arith)
                        requires
                            1 <= j,
                            0 < bs,
                            bj == tsb * sbs + j * bs,
                    ;
                    assert(self.spec_superblock(tsb).spec_block_counter(symbol as int, j)
                        == spec_field_value(q, symbol, tsb, j, bs));
                    assert(bj <= p <= n);
                    lemma_count_mono(q, symbol, bj, p);
                    lemma_count_nonneg(q, symbol, bj);
                }
            }
            // The next id, if any, reaches the target.
            if d_id < 7 {
                let bj = tsb * sbs + (d_id + 1) * bs;
                assert(bj == bstart + bs) by (nonlinear_arith)
                    requires
                        bj == tsb * sbs + (d_id + 1) * bs,
                        bstart == tsb * sbs + d_id * bs,
                        0 < bs,
                ;
                assert(self.spec_superblock(tsb).spec_block_counter(symbol as int, d_id + 1)
                    == spec_field_value(q, symbol, tsb, d_id + 1, bs));
                if bj <= n {
                    lemma_count_strict(q, symbol, p, bj);
                    assert(self.spec_superblock(tsb).spec_block_counter(symbol as int, d_id + 1)
                        >= target);
                } else {
                    assert(bj - bs == bstart <= n);
                    assert(self.spec_superblock(tsb).spec_block_counter(symbol as int, d_id + 1)
                        == count_upto(q, symbol, n) - csb);
                    assert(self.spec_superblock(tsb).spec_block_counter(symbol as int, d_id + 1)
                        >= target);
                }
            }
            // block_predecessor returns exactly the block of p.
            if (pred.0 as int) < d_id {
                assert(self.spec_superblock(tsb).spec_block_counter(symbol as int, pred.0 as int
                    + 1) >= target);
                assert(false);
            }
            if (pred.0 as int) > d_id {
                assert(d_id < 7);
                assert(self.spec_superblock(tsb).spec_block_counter(symbol as int, d_id + 1)
                    < target);
                assert(false);
            }
            assert(pred.0 as int == d_id);
            // The returned rank is the count up to the block start.
            if d_id == 0 {
                assert(bstart == tsb * sbs);
                assert(pred.1 == 0);
            } else {
                assert(self.spec_superblock(tsb).spec_block_counter(symbol as int, d_id)
                    == spec_field_value(q, symbol, tsb, d_id, bs));
                assert(bstart <= n);
                assert(pred.1 == count_upto(q, symbol, bstart) - csb);
            }
            lemma_count_mono(q, symbol, bstart, p);
            lemma_count_nonneg(q, symbol, bstart);
            lemma_count_mono(q, symbol, 0, bstart);
            lemma_count_nonneg(q, symbol, 0);
        }
        let position = position0 + pred.0 * B_SIZE;
        let rank = rank0 + pred.1;
        proof {
            assert(position == bstart);
            assert(rank == count_upto(q, symbol, bstart));
            assert(count_upto(q, symbol, p + 1) == i);
            if bstart + bs <= n {
                lemma_count_mono(q, symbol, p + 1, bstart + bs);
            } else {
                lemma_count_mono(q, symbol, p + 1, n);
            }
        }
        (position, rank)
    }
}

/// The count of `s` before superblock `sb` begins.
spec fn counter_at(q: Seq<u8>, s: u8, sb: int, sbs: int) -> int {
    count_upto(q, s, sb * sbs)
}

/// Integer square root: the largest `r` with `r·r ≤ d`.
fn isqrt(d: usize) -> (r: usize)
    requires
        d < 0x8000_0000_0000_0000,
    ensures
        r <= d,
        (r as int) * (r as int) <= d,
{
    let mut r: usize = 0;
    loop
        invariant
            d < 0x8000_0000_0000_0000,
            r <= d,
            (r as int) * (r as int) <= d,
        decreases d - r,
    {
        proof {
            assert(((r + 1) as int) * ((r + 1) as int)
                < 0x1_0000_0000_0000_0000_0000_0000_0000_0000) by (nonlinear_arith)
                requires
                    0 <= r,
                    r <= d,
                    (d as int) < 0x8000_0000_0000_0000,
            ;
        }
        let next = (r as u128 + 1) * (r as u128 + 1);
        if next > d as u128 {
            break;
        }
        proof {
            assert(r + 1 <= d) by (nonlinear_arith)
                requires
                    ((r + 1) as int) * ((r + 1) as int) <= d,
                    0 <= r,
            ;
        }
        r = r + 1;
    }
    r
}

} // verus!
