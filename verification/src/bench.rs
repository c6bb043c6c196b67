//! Support for benchmarks: a random number generator that gives the same
//! numbers in every run.

use vstd::prelude::*;

verus! {

/// The generator type `Lcg64Xsh32` of the crate `rand_pcg`.
#[verifier::external_type_specification]
#[verifier::external_body]
pub struct ExLcg64Xsh32(rand_pcg::Lcg64Xsh32);

/// The generator that `Lcg64Xsh32::new` makes from a state and a stream.
pub uninterp spec fn spec_seeded(state: u64, stream: u64) -> rand_pcg::Lcg64Xsh32;

/// Calls `Lcg64Xsh32::new`, which makes the generator with the given
/// state and stream. The contract claims no more than that the generator
/// depends on the state and the stream alone.
#[verifier::external_body]
fn seeded(state: u64, stream: u64) -> (generator: rand_pcg::Lcg64Xsh32)
    ensures
        generator == spec_seeded(state, stream),
{
    rand_pcg::Lcg64Xsh32::new(state, stream)
}

/// The state of the generator of the benchmarks.
pub const RNG_STATE: u64 = 3141592653;

/// The stream of the generator of the benchmarks.
pub const RNG_STREAM: u64 = 5897932384;

/// The generator of the benchmarks: always the same, so that every run
/// works on the same data.
pub fn rng() -> (generator: rand_pcg::Lcg64Xsh32)
    ensures
        generator == spec_seeded(RNG_STATE, RNG_STREAM),
{
    seeded(RNG_STATE, RNG_STREAM)
}

} // verus!
