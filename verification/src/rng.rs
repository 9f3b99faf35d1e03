//! The pseudo-random generator that the generators draw from.
//!
//! The generator itself is the `StdRng` of the `rand` crate. Nothing in this
//! library looks inside it: the functions below say only in which range a
//! drawn number lies, and every function that draws is verified for each
//! number that may come back.

use vstd::prelude::*;
use rand::rngs::StdRng;
use rand::Rng;
use rand::SeedableRng;

verus! {

/// Declares `StdRng` of the `rand` crate, of which nothing is known but that
/// it is a type.
#[verifier::external_type_specification]
#[verifier::external_body]
pub struct ExStdRng(StdRng);

/// Calls `StdRng::from_seed` of the `rand` crate, which builds a generator
/// from 32 seed bytes. Nothing is claimed about the generator.
#[verifier::external_body]
pub(crate) fn rng_from_seed(seed: [u8; 32]) -> (rng: StdRng) {
    StdRng::from_seed(seed)
}

/// Calls `Rng::gen_range(0, bound)` of the `rand` crate on 64-bit unsigned
/// integers. The call panics on an empty range, which the precondition rules
/// out; the number it returns is at least 0 and less than `bound`.
#[verifier::external_body]
pub(crate) fn draw_below(rng: &mut StdRng, bound: u64) -> (r: u64)
    requires
        bound > 0,
    ensures
        r < bound,
{
    rng.gen_range(0, bound)
}

/// Calls `rand::random::<u32>()`, which draws from the generator of the
/// current thread; that generator is seeded by the operating system and
/// cannot be set up where the system offers no random numbers. Any 32-bit
/// number may come back.
#[verifier::external_body]
pub(crate) fn fresh_seed() -> (seed: u32) {
    rand::random::<u32>()
}

} // verus!
