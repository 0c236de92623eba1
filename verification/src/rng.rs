//! Trusted boundary to the `rand` crate, the library's only source of
//! randomness.

use vstd::prelude::*;

use rand::seq::SliceRandom;
use rand::Rng;

verus! {

#[verifier::external_type_specification]
#[verifier::external_body]
pub struct ExThreadRng(rand::rngs::ThreadRng);

/// Relies on rand::thread_rng: it returns a handle to the thread-local
/// random number generator.
#[verifier::external_body]
pub(crate) fn new_rng() -> rand::rngs::ThreadRng {
    rand::thread_rng()
}

/// Relies on SliceRandom::shuffle, a Fisher-Yates shuffle: it permutes
/// the elements in place, so the length and the multiset of elements
/// are unchanged, whatever order comes out.
#[verifier::external_body]
pub(crate) fn shuffle(rng: &mut rand::rngs::ThreadRng, v: &mut Vec<i32>)
    ensures
        final(v)@.len() == old(v)@.len(),
        final(v)@.to_multiset() == old(v)@.to_multiset(),
{
    v.shuffle(rng)
}

/// Relies on Rng::gen_range over the range 0..n, which is not empty
/// since n is at least 1, so the call cannot panic: it returns a value
/// below n, whichever one comes out.
#[verifier::external_body]
pub(crate) fn rand_below(rng: &mut rand::rngs::ThreadRng, n: usize) -> (r: usize)
    requires
        1 <= n,
    ensures
        r < n,
{
    rng.gen_range(0..n)
}

} // verus!
