//! Uniform integer sampling, the engine's one source of randomness.

use vstd::prelude::*;

verus! {

use crate::PROB_ONE;

/// Relies on rand::random_range: a uniform draw from `[0, n)`, which the
/// documentation promises for a non-empty integer range. Nothing more is
/// assumed of the outcome.
#[verifier::external_body]
pub(crate) fn rand_below(n: u64) -> (r: u64)
    requires
        n > 0,
    ensures
        r < n,
{
    rand::random_range(0..n)
}

/// Draws true with probability `prob` (fixed-point, `PROB_ONE` = certainty).
/// The outcome is random, so nothing is promised of it.
pub(crate) fn coin(prob: u64) -> bool {
    rand_below(PROB_ONE) < prob
}

} // verus!
