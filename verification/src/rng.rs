//! Seeded randomness for Monte-Carlo sampling.
//!
//! All random choices in the library flow through `RandomSource`, a
//! seedable pseudorandom generator.  The seed is an explicit
//! construction parameter so that renders are reproducible.

use vstd::prelude::*;

use rand::RngExt;
use rand::SeedableRng;

verus! {

#[verifier::external_type_specification]
#[verifier::external_body]
pub struct ExStdRng(rand::rngs::StdRng);

/// A seeded pseudorandom generator; every random quantity the tracer
/// draws (scatter directions, sub-pixel jitter, medium distances)
/// comes from one of these.
pub struct RandomSource {
    rng: rand::rngs::StdRng,
}

impl RandomSource {
    /// Relies on rand's `StdRng::seed_from_u64`: builds a generator
    /// from a 64-bit seed.  Nothing is assumed about the stream.
    #[verifier::external_body]
    pub fn new(seed: u64) -> (r: RandomSource) {
        RandomSource { rng: rand::rngs::StdRng::seed_from_u64(seed) }
    }

    /// Relies on rand's `RngExt::random_range` over `i64`: returns a
    /// value in `[lo, hi)`; the range must be nonempty or it panics.
    #[verifier::external_body]
    pub fn next_in(&mut self, lo: i64, hi: i64) -> (r: i64)
        requires
            lo < hi,
        ensures
            lo <= r < hi,
    {
        self.rng.random_range(lo..hi)
    }

    /// Relies on rand's `RngExt::random_range` over `usize`: returns a
    /// value in `[lo, hi)`; the range must be nonempty or it panics.
    #[verifier::external_body]
    pub fn next_index(&mut self, lo: usize, hi: usize) -> (r: usize)
        requires
            lo < hi,
        ensures
            lo <= r < hi,
    {
        self.rng.random_range(lo..hi)
    }
}

} // verus!
