//! Trusted bindings to functions outside the verified world: the standard
//! library's capacity and timing utilities and the random-number generator.
//! Each wrapper states only what the underlying documentation promises.

use vstd::prelude::*;
use rand::Rng;

verus! {

/// Relies on Vec::shrink_to_fit: it only reduces spare capacity and never
/// changes the contents.
#[verifier::external_body]
pub fn shrink_vec<T>(v: &mut Vec<T>)
    ensures
        final(v)@ == old(v)@,
{
    v.shrink_to_fit()
}

/// Relies on rand's thread_rng and Rng::gen_range: a uniform draw from the
/// half-open range below `bound`, which is non-empty by the precondition.
#[verifier::external_body]
pub fn rand_below(bound: usize) -> (r: usize)
    requires
        bound > 0,
    ensures
        r < bound,
{
    rand::thread_rng().gen_range(0..bound)
}

/// Relies on slice::sort_unstable on a vector of usize: afterwards the
/// contents are the same multiset, in non-decreasing order.
#[verifier::external_body]
pub fn sort_usizes(v: &mut Vec<usize>)
    ensures
        final(v)@.len() == old(v)@.len(),
        final(v)@.to_multiset() == old(v)@.to_multiset(),
        forall|i: int, j: int| 0 <= i <= j < final(v)@.len() ==> final(v)@[i] <= final(v)@[j],
{
    v.sort_unstable()
}

#[verifier::external_type_specification]
#[verifier::external_body]
pub struct ExInstant(std::time::Instant);

/// Relies on Instant::now: an opaque moment in time, of which nothing is
/// promised.
#[verifier::external_body]
pub fn instant_now() -> std::time::Instant {
    std::time::Instant::now()
}

/// Relies on Instant::elapsed and Duration::as_nanos: the time since `t` in
/// nanoseconds; nothing is promised of the value.
#[verifier::external_body]
pub fn elapsed_nanos(t: &std::time::Instant) -> u128 {
    t.elapsed().as_nanos()
}

} // verus!
