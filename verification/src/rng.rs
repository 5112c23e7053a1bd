//! The standard generator of the `rand` crate as a source of draws.

use vstd::prelude::*;
use rand::Rng;
use crate::sampler::RandomSource;

verus! {

/// The standard generator of `rand`, which can be seeded.
#[verifier::external_type_specification]
#[verifier::external_body]
pub struct ExStdRng(rand::rngs::StdRng);

/// Calls `rand::Rng::gen` on the standard generator for a `u64`, which hands out
/// the next 64 bits of the generator. Nothing is claimed of the value.
#[verifier::external_body]
fn std_rng_draw(rng: &mut rand::rngs::StdRng) -> u64 {
    rng.gen()
}

impl RandomSource for rand::rngs::StdRng {
    fn next_draw(&mut self) -> u64 {
        std_rng_draw(self)
    }
}

} // verus!
