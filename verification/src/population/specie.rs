use vstd::prelude::*;

use crate::population::genome::GenomeId;

verus! {

/// Identity of a species: its index in the population's species list.
#[derive(Copy, Clone, Debug, Eq, PartialEq, Hash, Ord, PartialOrd, Structural)]
pub struct SpecieId(pub usize);

/// An exact fitness share `num / den`: a raw fitness mass divided by a
/// member count. Keeping the quotient as a pair makes fitness sharing exact;
/// shares are compared by cross multiplication.
#[derive(Copy, Clone, Debug, Eq, PartialEq, Hash, Structural)]
pub struct FitnessShare {
    pub num: u64,
    pub den: u64,
}

/// `a <= b` as exact rationals.
pub open spec fn share_le(a: FitnessShare, b: FitnessShare) -> bool {
    a.num * b.den <= b.num * a.den
}

/// `a < b` as exact rationals.
pub open spec fn share_lt(a: FitnessShare, b: FitnessShare) -> bool {
    a.num * b.den < b.num * a.den
}

/// Largest raw fitness value a single genome may carry (2^40).
pub const FITNESS_LIMIT: u64 = 0x100_0000_0000;

/// Largest population size (2^20). Together with [`FITNESS_LIMIT`] it keeps
/// every fitness mass below 2^60 and every cross product inside 128 bits.
pub const POPULATION_LIMIT: usize = 0x10_0000;

/// Largest fitness mass: a sum of at most [`POPULATION_LIMIT`] raw fitness
/// values, each at most [`FITNESS_LIMIT`].
pub const FITNESS_MASS_LIMIT: u64 = 0x1000_0000_0000_0000;

impl FitnessShare {
    /// A share small enough that cross multiplication never overflows.
    pub open spec fn wf(self) -> bool {
        &&& 1 <= self.den <= POPULATION_LIMIT
        &&& self.num <= FITNESS_MASS_LIMIT
    }

    /// The zero share.
    pub fn zero() -> (r: FitnessShare)
        ensures
            r.num == 0,
            r.den == 1,
            r.wf(),
    {
        FitnessShare { num: 0, den: 1 }
    }

    /// Exact comparison of two shares by cross multiplication.
    pub fn lt(&self, other: &FitnessShare) -> (r: bool)
        requires
            self.wf(),
            other.wf(),
        ensures
            r == share_lt(*self, *other),
    {
        proof {
            vstd::arithmetic::mul::lemma_mul_upper_bound(
                self.num as int,
                FITNESS_MASS_LIMIT as int,
                other.den as int,
                POPULATION_LIMIT as int,
            );
            vstd::arithmetic::mul::lemma_mul_upper_bound(
                other.num as int,
                FITNESS_MASS_LIMIT as int,
                self.den as int,
                POPULATION_LIMIT as int,
            );
        }
        (self.num as u128) * (other.den as u128) < (other.num as u128) * (self.den as u128)
    }
}

/// A cluster of genomes within the similarity threshold of a shared
/// representative. The member list is recomputed every generation; the
/// representative, stagnation state and reproduction quota persist.
#[derive(Clone, Debug)]
pub struct Specie {
    pub id: SpecieId,
    /// Members this generation.
    pub genomes: Vec<GenomeId>,
    pub representative: GenomeId,
    /// Sum of the members' adjusted fitness, as an exact share:
    /// (sum of raw member fitness) / (member count).
    pub fitness_sum: FitnessShare,
    /// Best adjusted fitness seen in any stagnation check so far.
    pub fitness_max: FitnessShare,
    /// Consecutive checks without improvement of `fitness_max`
    /// (0 means never checked).
    pub stagnant_generations: usize,
    /// Reproduction quota for the next generation.
    pub bounds: usize,
    /// Member count at the time the quota was computed.
    pub population: usize,
}

} // verus!
