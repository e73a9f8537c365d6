//! Randomness for tree construction. The generator is created from an
//! explicit seed and passed down by the caller, so builds are reproducible
//! and trees can be built independently.

use vstd::prelude::*;

verus! {

/// The seedable pseudo-random generator of the `rand` crate that index
/// construction samples from.
#[verifier::external_type_specification]
#[verifier::external_body]
pub struct ExStdRng(rand::rngs::StdRng);

/// Relies on rand::SeedableRng::seed_from_u64: builds a generator from a
/// word-sized seed. Nothing is promised of the stream it will produce.
#[verifier::external_body]
pub(crate) fn rng_from_seed(seed: u64) -> rand::rngs::StdRng {
    <rand::rngs::StdRng as rand::SeedableRng>::seed_from_u64(seed)
}

/// Relies on rand::seq::index::sample: it returns exactly `amount`
/// distinct indices drawn from `0..length`, and panics only when `amount`
/// exceeds `length`, which the precondition rules out here with an
/// `amount` of two.
#[verifier::external_body]
pub(crate) fn sample_two_distinct(rng: &mut rand::rngs::StdRng, length: usize) -> (r: (
    usize,
    usize,
))
    requires
        length >= 2,
    ensures
        r.0 < length,
        r.1 < length,
        r.0 != r.1,
{
    let pair = rand::seq::index::sample(rng, length, 2);
    (pair.index(0), pair.index(1))
}

} // verus!
