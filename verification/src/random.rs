//! Randomness drawn from the operating system and the thread-local generator.
use vstd::prelude::*;
use rand::Rng;
use rand_core::RngCore;

verus! {

/// Draws a value uniformly from `0..bound` with `rand::Rng::gen_range` on
/// the thread-local generator. Trusted: the result is below `bound`; which
/// value comes is chance. `gen_range` panics on an empty range, so `bound`
/// must be positive.
#[verifier::external_body]
pub(crate) fn random_below(bound: u128) -> (r: u128)
    requires
        bound > 0,
    ensures
        r < bound,
{
    rand::thread_rng().gen_range(0u128, bound)
}

/// Draws a 64-bit word from the operating system's generator with
/// `rand_core::OsRng` (`RngCore::next_u64`). Trusted: nothing is promised
/// of the value, which is chance.
#[verifier::external_body]
pub(crate) fn os_random_u64() -> (r: u64) {
    rand_core::OsRng.next_u64()
}

} // verus!
