//! Spec-level model of occurrence positions: for a sequence and a value,
//! the ascending sequence of indices holding that value, and the prefix
//! count of such indices. Select answers are stated against `pos_seq`,
//! rank answers against `count_upto`.

use vstd::prelude::*;

verus! {

/// Number of indices `p` in `[0, end)` with `s[p] == v`.
pub open spec fn count_upto<T>(s: Seq<T>, v: T, end: int) -> int
    decreases end,
{
    if end <= 0 {
        0
    } else {
        count_upto(s, v, end - 1) + if s[end - 1] == v {
            1int
        } else {
            0int
        }
    }
}

/// Ascending sequence of all indices of `s` holding `v`.
pub open spec fn pos_seq<T>(s: Seq<T>, v: T) -> Seq<usize>
    decreases s.len(),
{
    if s.len() == 0 {
        Seq::empty()
    } else {
        let prefix = pos_seq(s.drop_last(), v);
        if s.last() == v {
            prefix.push((s.len() - 1) as usize)
        } else {
            prefix
        }
    }
}

pub proof fn lemma_count_nonneg<T>(s: Seq<T>, v: T, end: int)
    ensures
        count_upto(s, v, end) >= 0,
    decreases end,
{
    if end > 0 {
        lemma_count_nonneg(s, v, end - 1);
    }
}

/// Counts over a prefix do not depend on the elements at or beyond `end`.
pub proof fn lemma_count_agree<T>(s1: Seq<T>, s2: Seq<T>, v: T, end: int)
    requires
        forall|p: int| 0 <= p < end ==> s1[p] == s2[p],
    ensures
        count_upto(s1, v, end) == count_upto(s2, v, end),
    decreases end,
{
    if end > 0 {
        lemma_count_agree(s1, s2, v, end - 1);
    }
}

pub proof fn lemma_count_mono<T>(s: Seq<T>, v: T, a: int, b: int)
    requires
        a <= b,
    ensures
        count_upto(s, v, a) <= count_upto(s, v, b) <= count_upto(s, v, a) + (b - a),
    decreases b - a,
{
    if a < b {
        lemma_count_mono(s, v, a, b - 1);
    }
}

/// A hit strictly below `b` contributes to the count up to `b`.
pub proof fn lemma_count_strict<T>(s: Seq<T>, v: T, p: int, b: int)
    requires
        0 <= p < b,
        s[p] == v,
    ensures
        count_upto(s, v, b) >= count_upto(s, v, p) + 1,
{
    lemma_count_mono(s, v, p + 1, b);
}

/// The defining properties of `pos_seq`: its length is the total count, and
/// entry `i` is a hit whose prefix count is exactly `i`.
pub proof fn lemma_pos_seq_props<T>(s: Seq<T>, v: T)
    requires
        s.len() <= usize::MAX,
    ensures
        pos_seq(s, v).len() == count_upto(s, v, s.len() as int),
        forall|i: int|
            0 <= i < pos_seq(s, v).len() ==> {
                &&& #[trigger] pos_seq(s, v)[i] < s.len()
                &&& s[pos_seq(s, v)[i] as int] == v
                &&& count_upto(s, v, pos_seq(s, v)[i] as int) == i
            },
    decreases s.len(),
{
    if s.len() > 0 {
        let t = s.drop_last();
        lemma_pos_seq_props(t, v);
        assert forall|p: int| 0 <= p < t.len() implies t[p] == s[p] by {}
        lemma_count_agree(t, s, v, t.len() as int);
        assert forall|e: int| 0 <= e <= t.len() implies count_upto(t, v, e) == count_upto(
            s,
            v,
            e,
        ) by {
            lemma_count_agree(t, s, v, e);
        }
    }
}

/// Converse direction: a hit at `p` is entry `count_upto(s, v, p)` of `pos_seq`.
pub proof fn lemma_pos_of_count<T>(s: Seq<T>, v: T, p: int)
    requires
        s.len() <= usize::MAX,
        0 <= p < s.len(),
        s[p] == v,
    ensures
        0 <= count_upto(s, v, p) < pos_seq(s, v).len(),
        pos_seq(s, v)[count_upto(s, v, p)] == p,
{
    lemma_pos_seq_props(s, v);
    lemma_count_nonneg(s, v, p);
    lemma_count_strict(s, v, p, s.len() as int);
    let i = count_upto(s, v, p);
    let q = pos_seq(s, v)[i] as int;
    if q < p {
        lemma_count_strict(s, v, q, p);
        lemma_count_mono(s, v, q, p);
        assert(false);
    } else if q > p {
        lemma_count_strict(s, v, p, q);
        assert(false);
    }
}

/// Entries of `pos_seq` are strictly increasing.
pub proof fn lemma_pos_seq_sorted<T>(s: Seq<T>, v: T)
    requires
        s.len() <= usize::MAX,
    ensures
        forall|i: int, j: int|
            0 <= i < j < pos_seq(s, v).len() ==> #[trigger] pos_seq(s, v)[i]
                < #[trigger] pos_seq(s, v)[j],
{
    lemma_pos_seq_props(s, v);
    assert forall|i: int, j: int|
        0 <= i < j < pos_seq(s, v).len() implies #[trigger] pos_seq(s, v)[i]
        < #[trigger] pos_seq(s, v)[j] by {
        let pi = pos_seq(s, v)[i] as int;
        let pj = pos_seq(s, v)[j] as int;
        if pi >= pj {
            lemma_count_mono(s, v, pj, pi);
        }
    }
}

/// One step of a left-to-right scan: extending the prefix by one element
/// appends its index exactly when it is a hit.
pub proof fn lemma_pos_seq_take_step<T>(s: Seq<T>, v: T, p: int)
    requires
        0 <= p < s.len(),
    ensures
        pos_seq(s.take(p + 1), v) == if s[p] == v {
            pos_seq(s.take(p), v).push(p as usize)
        } else {
            pos_seq(s.take(p), v)
        },
{
    let u = s.take(p + 1);
    assert(u.len() == p + 1);
    assert(u.drop_last() =~= s.take(p));
    assert(u.last() == s[p]);
}

/// Each position of a quaternary sequence holds exactly one symbol, so the
/// four per-symbol counts over any prefix add up to its length.
pub proof fn lemma_count_total(q: Seq<u8>, end: int)
    requires
        0 <= end <= q.len(),
        forall|p: int| 0 <= p < q.len() ==> #[trigger] q[p] < 4,
    ensures
        count_upto(q, 0u8, end) + count_upto(q, 1u8, end) + count_upto(q, 2u8, end) + count_upto(
            q,
            3u8,
            end,
        ) == end,
    decreases end,
{
    if end > 0 {
        lemma_count_total(q, end - 1);
    }
}

} // verus!
