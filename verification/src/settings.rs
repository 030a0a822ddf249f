use vstd::prelude::*;

use crate::SCALE;

verus! {

/// Upper bound on the similarity coefficients (fixed point, so 1_000_000
/// stands for 1000.0). It keeps every product of the distance formula well
/// inside the 64-bit range.
pub const COEFFICIENT_LIMIT: u64 = 1_000_000;

/// Probabilities of the reproduction step, each a fixed-point value in
/// `[0, SCALE]` (1000 stands for probability 1).
#[derive(Copy, Clone, Debug, Eq, PartialEq, Structural)]
pub struct MutationProbabilities {
    pub prob_mutation_weight: u64,
    pub prob_mutation_weight_perturbation: u64,
    pub prob_mutation_new_node: u64,
    pub prob_mutation_new_connection: u64,
    pub prob_inherit_on_fitter_genomre: u64,
    pub prob_inherit_disabled_gene: u64,

    pub prob_offsprint_crossover: u64,
    pub prob_mating_interspecies: u64,
}

impl MutationProbabilities {
    /// Every field is a probability: at most `SCALE`.
    pub open spec fn wf(self) -> bool {
        &&& self.prob_mutation_weight <= SCALE
        &&& self.prob_mutation_weight_perturbation <= SCALE
        &&& self.prob_mutation_new_node <= SCALE
        &&& self.prob_mutation_new_connection <= SCALE
        &&& self.prob_inherit_on_fitter_genomre <= SCALE
        &&& self.prob_inherit_disabled_gene <= SCALE
        &&& self.prob_offsprint_crossover <= SCALE
        &&& self.prob_mating_interspecies <= SCALE
    }
}

impl Default for MutationProbabilities {
    /// The conventional NEAT probabilities, in fixed point.
    fn default() -> (r: Self)
        ensures
            r.wf(),
            r.prob_mutation_weight == 800,
            r.prob_mutation_weight_perturbation == 900,
            r.prob_mutation_new_node == 20,
            r.prob_mutation_new_connection == 50,
            r.prob_inherit_on_fitter_genomre == 500,
            r.prob_inherit_disabled_gene == 750,
            r.prob_offsprint_crossover == 750,
            r.prob_mating_interspecies == 1,
    {
        Self {
            prob_mutation_weight: 800,
            prob_mutation_weight_perturbation: 900,
            prob_mutation_new_node: 20,
            prob_mutation_new_connection: 50,
            prob_inherit_on_fitter_genomre: 500,
            prob_inherit_disabled_gene: 750,

            prob_offsprint_crossover: 750,
            prob_mating_interspecies: 1,
        }
    }
}

/// Weighting of the three terms of the compatibility distance, fixed point
/// (1000 stands for 1.0).
#[derive(Copy, Clone, Debug, Eq, PartialEq, Structural)]
pub struct SimilarityCoeficients {
    pub coeficient_excess: u64,
    pub coeficient_disjoint: u64,
    pub coeficient_weight: u64,
}

impl SimilarityCoeficients {
    pub open spec fn wf(self) -> bool {
        &&& self.coeficient_excess <= COEFFICIENT_LIMIT
        &&& self.coeficient_disjoint <= COEFFICIENT_LIMIT
        &&& self.coeficient_weight <= COEFFICIENT_LIMIT
    }
}

impl Default for SimilarityCoeficients {
    fn default() -> (r: Self)
        ensures
            r.wf(),
            r.coeficient_excess == 1000,
            r.coeficient_disjoint == 1000,
            r.coeficient_weight == 3000,
    {
        Self { coeficient_excess: 1000, coeficient_disjoint: 1000, coeficient_weight: 3000 }
    }
}

/// The immutable configuration record consumed by the genome and population
/// operations. All fields are read-only during a generation.
#[derive(Copy, Clone, Debug, Eq, PartialEq, Structural)]
pub struct NeatSettings {
    pub mutation_probabilities: MutationProbabilities,
    /// Distance cutoff: two genomes at distance `<=` this threshold are
    /// considered the same species (fixed point, 1000 stands for 1.0).
    pub species_similarity_threshold: u64,
    /// Small-genome normalization cutoff: when both genomes have fewer genes
    /// than this, the structural term of the distance is not divided.
    pub normalized_gene_size: usize,
    pub similarity_coeficients: SimilarityCoeficients,
    /// How many of a species' best members are spared direct mutation.
    pub size_specie_for_champion: usize,
    /// A species whose best adjusted fitness has not improved for this many
    /// consecutive checks is extinguished.
    pub generation_for_stagnating_species: usize,
}

impl NeatSettings {
    pub open spec fn wf(self) -> bool {
        &&& self.mutation_probabilities.wf()
        &&& self.similarity_coeficients.wf()
        &&& self.generation_for_stagnating_species >= 1
    }
}

impl Default for NeatSettings {
    fn default() -> (r: Self)
        ensures
            r.wf(),
            r.species_similarity_threshold == 4000,
            r.normalized_gene_size == 20,
            r.similarity_coeficients.coeficient_excess == 1000,
            r.similarity_coeficients.coeficient_disjoint == 1000,
            r.similarity_coeficients.coeficient_weight == 3000,
            r.size_specie_for_champion == 5,
            r.generation_for_stagnating_species == 15,
            r.mutation_probabilities.prob_mutation_weight == 800,
            r.mutation_probabilities.prob_mutation_weight_perturbation == 900,
            r.mutation_probabilities.prob_mutation_new_node == 20,
            r.mutation_probabilities.prob_mutation_new_connection == 50,
            r.mutation_probabilities.prob_inherit_on_fitter_genomre == 500,
            r.mutation_probabilities.prob_inherit_disabled_gene == 750,
            r.mutation_probabilities.prob_offsprint_crossover == 750,
            r.mutation_probabilities.prob_mating_interspecies == 1,
    {
        Self {
            mutation_probabilities: Default::default(),
            species_similarity_threshold: 4000,
            normalized_gene_size: 20,
            similarity_coeficients: Default::default(),
            size_specie_for_champion: 5,
            generation_for_stagnating_species: 15,
        }
    }
}

} // verus!
