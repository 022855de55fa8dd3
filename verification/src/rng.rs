//! Trusted boundary to the `rand` crate: the generator type and one
//! uniform-sampling call. Everything else in the crate is verified against
//! the contract stated here.

use rand::distributions::Distribution;
use vstd::prelude::*;

verus! {

#[verifier::external_type_specification]
#[verifier::external_body]
pub struct ExThreadRng(rand::rngs::ThreadRng);

/// Relies on `rand::distributions::Uniform::new_inclusive` and
/// `Distribution::sample`: for `low <= high` the sampler is built without
/// panicking and every drawn value lies in `[low, high]` (inclusive). Which
/// value comes back depends on the generator's state, so nothing more is
/// claimed.
#[verifier::external_body]
pub(crate) fn sample_inclusive(rng: &mut rand::rngs::ThreadRng, low: i32, high: i32) -> (r: i32)
    requires
        low <= high,
    ensures
        low <= r <= high,
{
    rand::distributions::Uniform::new_inclusive(low, high).sample(rng)
}

} // verus!
