//! The bounded random draw the lane generator uses.
use vstd::prelude::*;

use rand::distributions::Distribution;

verus! {

/// Relies on rand's `Uniform::new_inclusive` and `Distribution::sample` with
/// the thread generator: a draw from `[min, max]`. `new_inclusive` panics
/// when `min > max`, which the precondition rules out; the sampled value
/// lies in the closed range, and nothing more is assumed of it.
#[verifier::external_body]
pub fn range_rng(min: i64, max: i64) -> (r: i64)
    requires
        min <= max,
    ensures
        min <= r <= max,
{
    rand::distributions::Uniform::<i64>::new_inclusive(min, max).sample(&mut rand::thread_rng())
}

} // verus!
