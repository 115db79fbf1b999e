//! Random-number access for tie-breaking and sampling.
//!
//! All randomness flows through an explicit `ThreadRng` handle threaded
//! through every call that needs it, so nothing else in the library touches
//! ambient state. Nothing is promised about random values beyond their range.

use vstd::prelude::*;

use rand::RngExt;

verus! {

/// The random number generator threaded through every randomized call.
pub type RNG = rand::rngs::ThreadRng;

#[verifier::external_type_specification]
#[verifier::external_body]
pub struct ExThreadRng(rand::rngs::ThreadRng);

/// Relies on rand's `random_range` over `0..n`: a value drawn from that
/// range, hence strictly below `n`; the call panics only on an empty range,
/// which `n > 0` excludes.
#[verifier::external_body]
pub(crate) fn rand_below(rng: &mut rand::rngs::ThreadRng, n: usize) -> (r: usize)
    requires
        n > 0,
    ensures
        r < n,
{
    rng.random_range(0..n)
}

} // verus!
