//! The random source of the mesh builder: a generator of its own, seeded by
//! the caller, so that a seed fixes the mesh.
use vstd::prelude::*;
use macroquad::rand::RandGenerator;

verus! {

#[verifier::external_type_specification]
#[verifier::external_body]
pub struct ExRandGenerator(RandGenerator);

/// A fresh generator.
///
/// Relies on `macroquad::rand::RandGenerator::new` (quad-rand), which only
/// builds the generator's state.
#[verifier::external_body]
pub(crate) fn new_generator() -> (g: RandGenerator) {
    RandGenerator::new()
}

/// Reseeds `g`: from then on its draws are fixed by `seed`.
///
/// Relies on `macroquad::rand::RandGenerator::srand` (quad-rand), which
/// resets the generator's state from the seed and never panics.
#[verifier::external_body]
pub(crate) fn seed_generator(g: &RandGenerator, seed: u64) {
    g.srand(seed)
}

/// A uniformly drawn integer in `0 .. n`.
///
/// Relies on `macroquad::rand::RandGenerator::gen_range` (quad-rand): for
/// `u32` bounds it scales a 32-bit draw into `[low, high)` in `f64` and
/// truncates, which for `high - low` below 2^21 is exact and stays below
/// `high`. It never panics.
#[verifier::external_body]
pub(crate) fn random_below(g: &RandGenerator, n: u32) -> (r: u32)
    requires
        0 < n < 0x20_0000,
    ensures
        r < n,
{
    g.gen_range(0u32, n)
}

} // verus!
