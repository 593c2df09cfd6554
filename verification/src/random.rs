//! Randomness used by the radio layers: the small fast generator of the
//! `rand` crate, and a source of random numbers that users may supply.
use vstd::prelude::*;

verus! {

/// `rand::rngs::SmallRng`, carried through as an opaque value.
#[verifier::external_type_specification]
#[verifier::external_body]
pub struct ExSmallRng(rand::rngs::SmallRng);

/// A source of random numbers, such as `rand::rngs::SmallRng` or a
/// deterministic one in tests. Nothing is assumed of the numbers it gives.
pub trait RandomSource {
    fn next_u32(&mut self) -> u32;
}

/// `rand::RngCore::next_u32` of the generator; nothing is claimed of the
/// number.
#[verifier::external_body]
fn small_rng_next_u32(rng: &mut rand::rngs::SmallRng) -> u32 {
    rand::RngCore::next_u32(rng)
}

impl RandomSource for rand::rngs::SmallRng {
    fn next_u32(&mut self) -> u32 {
        small_rng_next_u32(self)
    }
}

/// `rand::SeedableRng::seed_from_u64` for `rand::rngs::SmallRng`; nothing is
/// claimed of the generator it returns.
#[verifier::external_body]
pub(crate) fn small_rng_from_seed(seed: u64) -> rand::rngs::SmallRng {
    rand::SeedableRng::seed_from_u64(seed)
}

/// `rand::Rng::gen::<u8>` of the generator; nothing is claimed of the byte.
#[verifier::external_body]
pub(crate) fn random_byte(rng: &mut rand::rngs::SmallRng) -> u8 {
    rand::Rng::gen::<u8>(rng)
}

} // verus!
