use vstd::prelude::*;

use rand::Rng as RandRng;
use rand::SeedableRng;

use crate::SCALE;

verus! {

#[verifier::external_type_specification]
#[verifier::external_body]
pub struct ExStdRng(rand::rngs::StdRng);

/// The random source of the library: a deterministic generator seeded once
/// and threaded explicitly through every operation that consumes randomness.
/// Everything the library needs (uniform weights, Bernoulli draws, uniform
/// picks) is derived in verified code from `below`.
pub struct RandomSource {
    inner: rand::rngs::StdRng,
}

impl RandomSource {
    /// Relies on rand's `StdRng::seed_from_u64`: builds a deterministic
    /// generator from a seed.
    #[verifier::external_body]
    pub fn seeded(seed: u64) -> (r: RandomSource)
    {
        RandomSource { inner: rand::rngs::StdRng::seed_from_u64(seed) }
    }

    /// Relies on rand's `Rng::gen_range` over `0..n`: returns a value of the
    /// non-empty range, so the result is strictly below `n`. Nothing more is
    /// assumed of the draw.
    #[verifier::external_body]
    pub fn below(&mut self, n: usize) -> (r: usize)
        requires
            n >= 1,
        ensures
            r < n,
    {
        self.inner.gen_range(0..n)
    }

    /// A Bernoulli draw with fixed-point probability `p` (in units of
    /// 1/`SCALE`): true with probability `p / SCALE`. An impossible event
    /// never happens and a sure one always does.
    pub fn bernoulli(&mut self, p: u64) -> (r: bool)
        ensures
            p == 0 ==> !r,
            p >= SCALE ==> r,
    {
        let d = self.below(1000);
        (d as u64) < p
    }
}

} // verus!
