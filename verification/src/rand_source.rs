//! A seeded source of randomness, threaded explicitly through the solvers so
//! that a run is reproducible from its seed.

use vstd::prelude::*;

verus! {

#[verifier::external_type_specification]
#[verifier::external_body]
pub struct ExStdRng(rand::rngs::StdRng);

/// A deterministic random number generator owned by one solving run.
pub struct RandomSource {
    rng: rand::rngs::StdRng,
}

impl RandomSource {
    /// Relies on rand's `StdRng::seed_from_u64`: builds a generator whose
    /// stream is a fixed function of the seed.
    #[verifier::external_body]
    pub fn from_seed(seed: u64) -> (r: RandomSource) {
        RandomSource { rng: <rand::rngs::StdRng as rand::SeedableRng>::seed_from_u64(seed) }
    }

    /// Relies on rand's `Rng::gen_range`: returns a value drawn from the
    /// half-open range below `n`, and panics only on an empty range, which
    /// the precondition rules out. Nothing beyond the bound is promised:
    /// the draw is random.
    #[verifier::external_body]
    pub fn gen_index(&mut self, n: usize) -> (r: usize)
        requires
            n >= 1,
        ensures
            r < n,
    {
        rand::Rng::gen_range(&mut self.rng, 0..n)
    }
}

} // verus!
