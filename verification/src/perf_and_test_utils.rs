//! Utilities for exercising and timing the indices: random sequences and
//! query batches, a small stopwatch, and the complement of an increasing
//! sequence.

use vstd::prelude::*;
use crate::shims::{rand_below, sort_usizes, instant_now, elapsed_nanos};

verus! {

broadcast use vstd::seq_lib::group_to_multiset_ensures;

/// Generates a random sequence of length `n` over the alphabet `[0, sigma)`.
pub fn gen_sequence(n: usize, sigma: usize) -> (r: Vec<u8>)
    requires
        0 < sigma <= 256,
    ensures
        r@.len() == n,
        forall|i: int| 0 <= i < n ==> #[trigger] r@[i] < sigma,
{
    let mut r: Vec<u8> = Vec::new();
    let mut k: usize = 0;
    while k < n
        invariant
            0 < sigma <= 256,
            k <= n,
            r@.len() == k,
            forall|i: int| 0 <= i < k ==> #[trigger] r@[i] < sigma,
        decreases n - k,
    {
        let x = rand_below(sigma);
        r.push(x as u8);
        k = k + 1;
    }
    r
}

/// Generates `n_queries` random values in `[0, range_size)`.
pub fn gen_queries(n_queries: usize, range_size: usize) -> (r: Vec<usize>)
    requires
        range_size > 0,
    ensures
        r@.len() == n_queries,
        forall|i: int| 0 <= i < n_queries ==> #[trigger] r@[i] < range_size,
{
    let mut r: Vec<usize> = Vec::new();
    let mut k: usize = 0;
    while k < n_queries
        invariant
            range_size > 0,
            k <= n_queries,
            r@.len() == k,
            forall|i: int| 0 <= i < k ==> #[trigger] r@[i] < range_size,
        decreases n_queries - k,
    {
        r.push(rand_below(range_size));
        k = k + 1;
    }
    r
}

/// Generates `n_queries` random pairs: a value in `[0, range_size)` and a
/// symbol in `[0, sigma)`.
pub fn gen_queries_pairs(n_queries: usize, range_size: usize, sigma: usize) -> (r: Vec<
    (usize, usize),
>)
    requires
        range_size > 0,
        sigma > 0,
    ensures
        r@.len() == n_queries,
        forall|i: int|
            0 <= i < n_queries ==> #[trigger] r@[i].0 < range_size && r@[i].1 < sigma,
{
    let mut r: Vec<(usize, usize)> = Vec::new();
    let mut k: usize = 0;
    while k < n_queries
        invariant
            range_size > 0,
            sigma > 0,
            k <= n_queries,
            r@.len() == k,
            forall|i: int| 0 <= i < k ==> #[trigger] r@[i].0 < range_size && r@[i].1 < sigma,
        decreases n_queries - k,
    {
        let a = rand_below(range_size);
        let b = rand_below(sigma);
        r.push((a, b));
        k = k + 1;
    }
    r
}

/// Generates a random strictly increasing sequence of `n` values below `u`:
/// `n` draws are sorted and then shifted apart by their rank.
pub fn gen_strictly_increasing_sequence(n: usize, u: usize) -> (r: Vec<usize>)
    requires
        n < u,
    ensures
        r@.len() == n,
        forall|i: int, j: int| 0 <= i < j < n ==> #[trigger] r@[i] < #[trigger] r@[j],
        forall|i: int| 0 <= i < n ==> #[trigger] r@[i] < u,
{
    let mut v: Vec<usize> = Vec::new();
    let mut k: usize = 0;
    while k < n
        invariant
            n < u,
            k <= n,
            v@.len() == k,
            forall|i: int| 0 <= i < k ==> #[trigger] v@[i] < u - n,
        decreases n - k,
    {
        v.push(rand_below(u - n));
        k = k + 1;
    }
    sort_usizes(&mut v);
    proof {
        assert forall|i: int| 0 <= i < n implies #[trigger] v@[i] < u - n by {
            assert(v@.contains(v@[i]));
            assert(v@.to_multiset().contains(v@[i]));
        }
    }
    let ghost sorted = v@;
    let mut k: usize = 0;
    while k < n
        invariant
            n < u,
            k <= n,
            v@.len() == n,
            sorted.len() == n,
            forall|i: int| 0 <= i < n ==> #[trigger] sorted[i] < u - n,
            forall|i: int, j: int| 0 <= i <= j < n ==> sorted[i] <= sorted[j],
            forall|i: int| k <= i < n ==> #[trigger] v@[i] == sorted[i],
            forall|i: int| 0 <= i < k ==> #[trigger] v@[i] == sorted[i] + i,
        decreases n - k,
    {
        let x = v[k];
        v[k] = x + k;
        k = k + 1;
    }
    proof {
        assert forall|i: int, j: int| 0 <= i < j < n implies #[trigger] v@[i]
            < #[trigger] v@[j] by {
            assert(sorted[i] <= sorted[j]);
        }
    }
    v
}

pub open spec fn seq_min(s: Seq<u128>) -> int
    decreases s.len(),
{
    if s.len() == 0 {
        0
    } else if s.len() == 1 {
        s[0] as int
    } else {
        let m = seq_min(s.drop_last());
        if s.last() < m {
            s.last() as int
        } else {
            m
        }
    }
}

pub open spec fn seq_max(s: Seq<u128>) -> int
    decreases s.len(),
{
    if s.len() == 0 {
        0
    } else if s.len() == 1 {
        s[0] as int
    } else {
        let m = seq_max(s.drop_last());
        if s.last() > m {
            s.last() as int
        } else {
            m
        }
    }
}

pub open spec fn seq_sum(s: Seq<u128>) -> int
    decreases s.len(),
{
    if s.len() == 0 {
        0
    } else {
        seq_sum(s.drop_last()) + s.last()
    }
}

proof fn lemma_seq_sum_nonneg(s: Seq<u128>)
    ensures
        seq_sum(s) >= 0,
    decreases s.len(),
{
    if s.len() > 0 {
        lemma_seq_sum_nonneg(s.drop_last());
    }
}

/// A stopwatch over repeated runs of a fixed number of queries.
pub struct TimingQueries {
    timings: Vec<u128>,
    time: std::time::Instant,
    n_queries: usize,
}

impl TimingQueries {
    pub closed spec fn spec_timings(&self) -> Seq<u128> {
        self.timings@
    }

    pub closed spec fn spec_n_queries(&self) -> int {
        self.n_queries as int
    }

    pub fn new(n_runs: usize, n_queries: usize) -> (r: Self)
        ensures
            r.spec_timings() == Seq::<u128>::empty(),
            r.spec_n_queries() == n_queries,
    {
        TimingQueries { timings: Vec::with_capacity(n_runs), time: instant_now(), n_queries }
    }

    /// Starts one run.
    pub fn start(&mut self)
        ensures
            final(self).spec_timings() == old(self).spec_timings(),
            final(self).spec_n_queries() == old(self).spec_n_queries(),
    {
        self.time = instant_now();
    }

    /// Stops the current run and records its duration.
    pub fn stop(&mut self)
        ensures
            final(self).spec_timings().len() == old(self).spec_timings().len() + 1,
            final(self).spec_timings().drop_last() == old(self).spec_timings(),
            final(self).spec_n_queries() == old(self).spec_n_queries(),
    {
        let d = elapsed_nanos(&self.time);
        self.timings.push(d);
        proof {
            assert(self.timings@.drop_last() =~= old(self).timings@);
        }
    }

    /// Minimum, maximum and average time per query in nanoseconds over the
    /// recorded runs.
    pub fn get(&self) -> (r: (u128, u128, u128))
        requires
            self.spec_timings().len() > 0,
            self.spec_n_queries() > 0,
            seq_sum(self.spec_timings()) <= u128::MAX,
    ensures
            r.0 == seq_min(self.spec_timings()) / self.spec_n_queries(),
            r.1 == seq_max(self.spec_timings()) / self.spec_n_queries(),
            r.2 == seq_sum(self.spec_timings()) / (self.spec_timings().len()
                * self.spec_n_queries()),
    {
        let ghost t = self.timings@;
        let mut mn: u128 = self.timings[0];
        let mut mx: u128 = self.timings[0];
        let mut sum: u128 = 0;
        let mut k: usize = 0;
        proof {
            assert(t.take(1).drop_last() =~= Seq::<u128>::empty());
            assert(t.take(1) =~= seq![t[0]]);
        }
        while k < self.timings.len()
            invariant
                t == self.timings@,
                t.len() > 0,
                k <= t.len(),
                seq_sum(t) <= u128::MAX,
                mn == seq_min(t.take(if k == 0 { 1int } else { k as int })),
                mx == seq_max(t.take(if k == 0 { 1int } else { k as int })),
                sum == seq_sum(t.take(k as int)),
            decreases t.len() - k,
        {
            let x = self.timings[k];
            proof {
                assert(t.take(k + 1).drop_last() =~= t.take(k as int));
                assert(t.take(k + 1).last() == t[k as int]);
                lemma_seq_sum_nonneg(t.take(k as int));
                lemma_sum_take_bound(t, k as int);
                if k == 0 {
                    assert(t.take(1) =~= seq![t[0]]);
                }
            }
            if x < mn {
                mn = x;
            }
            if x > mx {
                mx = x;
            }
            sum = sum + x;
            k = k + 1;
        }
        proof {
            assert(t.take(t.len() as int) =~= t);
        }
        let nq = self.n_queries as u128;
        let runs = self.timings.len() as u128;
        proof {
            assert(seq_min(t) <= seq_max(t) <= u128::MAX) by {
                lemma_min_max_range(t);
            }
            assert(runs * nq > 0) by (nonlinear_arith)
                requires
                    runs > 0,
                    nq > 0,
            ;
            assert((runs as int) * (nq as int) <= u128::MAX) by (nonlinear_arith)
                requires
                    0 <= runs <= 0xFFFF_FFFF_FFFF_FFFF,
                    0 <= nq <= 0xFFFF_FFFF_FFFF_FFFF,
            ;
        }
        (mn / nq, mx / nq, sum / (runs * nq))
    }
}

/// Each prefix sum is bounded by the full sum.
proof fn lemma_sum_take_bound(s: Seq<u128>, k: int)
    requires
        0 <= k <= s.len(),
    ensures
        seq_sum(s.take(k)) + (if k < s.len() {
            s[k] as int
        } else {
            0int
        }) <= seq_sum(s),
    decreases s.len() - k,
{
    if k < s.len() {
        lemma_sum_take_bound(s, k + 1);
        assert(s.take(k + 1).drop_last() =~= s.take(k));
        lemma_seq_sum_nonneg(s.take(k));
    } else {
        assert(s.take(k) =~= s);
    }
}

/// The minimum and maximum of a non-empty sequence are attained values.
proof fn lemma_min_max_range(s: Seq<u128>)
    requires
        s.len() > 0,
    ensures
        seq_min(s) <= seq_max(s),
        0 <= seq_min(s),
        seq_max(s) <= u128::MAX,
    decreases s.len(),
{
    if s.len() > 1 {
        lemma_min_max_range(s.drop_last());
    }
}

/// The complement of a strictly increasing sequence: all values below its
/// maximum that do not occur in it, in ascending order.
pub open spec fn complement_upto(v: Seq<usize>, m: int) -> Seq<usize>
    decreases m,
{
    if m <= 0 {
        Seq::empty()
    } else {
        let p = complement_upto(v, m - 1);
        if v.contains((m - 1) as usize) {
            p
        } else {
            p.push((m - 1) as usize)
        }
    }
}

/// Given a strictly increasing non-empty vector, returns the vector of all
/// values below its maximum that are not in it.
pub fn negate_vector(v: &Vec<usize>) -> (r: Vec<usize>)
    requires
        v@.len() > 0,
        forall|i: int, j: int| 0 <= i < j < v@.len() ==> #[trigger] v@[i] < #[trigger] v@[j],
    ensures
        r@ == complement_upto(v@, v@.last() as int),
        r@.len() == v@.last() + 1 - v@.len(),
{
    let max = v[v.len() - 1];
    let mut vv: Vec<usize> = Vec::new();
    let mut j: usize = 0;
    let mut i: usize = 0;
    while i < max
        invariant
            v@.len() > 0,
            forall|a: int, b: int| 0 <= a < b < v@.len() ==> #[trigger] v@[a] < #[trigger] v@[b],
            max == v@.last(),
            i <= max,
            j < v@.len(),
            forall|t: int| 0 <= t < j ==> #[trigger] v@[t] < i,
            v@[j as int] >= i,
            vv@ == complement_upto(v@, i as int),
            vv@.len() + j == i,
        decreases max - i,
    {
        proof {
            if i == v@[j as int] {
                assert(v@.contains(i as usize)) by {
                    assert(v@[j as int] == i);
                }
            } else {
                assert(v@[j as int] > i);
                assert(!v@.contains(i as usize)) by {
                    if v@.contains(i as usize) {
                        let t = choose|t: int| 0 <= t < v@.len() && v@[t] == i;
                        if t < j {
                            assert(v@[t] < i);
                        } else if t > j {
                            assert(v@[j as int] < v@[t]);
                        }
                        assert(false);
                    }
                }
            }
        }
        if i == v[j] {
            proof {
                if j + 1 == v@.len() {
                    assert(v@[j as int] == max);
                    assert(false);
                }
            }
            j = j + 1;
        } else {
            vv.push(i);
        }
        i = i + 1;
    }
    proof {
        assert(v@[j as int] <= v@.last()) by {
            if (j as int) < v@.len() - 1 {
                assert(v@[j as int] < v@.last());
            }
        }
        assert(j == v@.len() - 1);
    }
    vv
}

} // verus!
