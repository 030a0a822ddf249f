pub mod genome;
pub mod specie;

use vstd::prelude::*;

use crate::population::genome::{
    sim_spec, Genome, GenomeId, TopologyShape, GENES_LIMIT,
};
use crate::population::specie::{
    share_lt, FitnessShare, Specie, SpecieId, FITNESS_LIMIT, FITNESS_MASS_LIMIT,
    POPULATION_LIMIT,
};
use crate::rng::RandomSource;
use crate::settings::NeatSettings;

verus! {

/// The top-level aggregate: it owns every genome (slot `i` holds the genome
/// with id `i`, stable across generations) and every species, and drives the
/// per-generation pipeline.
pub struct Population {
    pub genomes: Vec<Genome>,
    pub species: Vec<Specie>,
    pub shape: TopologyShape,
}

/// Sum of the raw fitness of the listed genomes.
pub open spec fn mass_of(gs: Seq<Genome>, members: Seq<GenomeId>) -> int
    decreases members.len(),
{
    if members.len() == 0 {
        0
    } else {
        mass_of(gs, members.drop_last()) + gs[members.last().0 as int].fitness
    }
}

/// Sum of the adjusted-fitness numerators of the listed genomes.
pub open spec fn adjusted_sum(gs: Seq<Genome>, members: Seq<GenomeId>) -> int
    decreases members.len(),
{
    if members.len() == 0 {
        0
    } else {
        adjusted_sum(gs, members.drop_last())
            + gs[members.last().0 as int].adjusted_fitness.num
    }
}

/// Fitness sharing preserves the fitness mass of a species exactly: when
/// every member's adjusted fitness is its raw fitness over the member count
/// `n`, the rational sum of the adjusted values is (mass / n), so that sum
/// times the member count is the raw fitness mass — no mass is lost or
/// invented by the division.
pub proof fn lemma_fitness_mass_conserved(gs: Seq<Genome>, members: Seq<GenomeId>, n: int)
    requires
        forall|k: int|
            0 <= k < members.len() ==> 0 <= (#[trigger] members[k]).0 < gs.len(),
        forall|k: int|
            0 <= k < members.len() ==> {
                let g = gs[(#[trigger] members[k]).0 as int];
                g.adjusted_fitness.num == g.fitness && g.adjusted_fitness.den == n
            },
    ensures
        adjusted_sum(gs, members) == mass_of(gs, members),
        adjusted_sum(gs, members) * n == mass_of(gs, members) * n,
    decreases members.len(),
{
    if members.len() > 0 {
        lemma_fitness_mass_conserved(gs, members.drop_last(), n);
    }
}

impl Population {
    /// The persistent structural invariant: the population is non-empty and
    /// bounded, every slot holds a well-formed genome of the population's
    /// shape carrying its slot index as id, species are numbered by their
    /// position, and every recorded id points into the genome list.
    pub open spec fn wf_base(self) -> bool {
        &&& 1 <= self.genomes@.len() <= POPULATION_LIMIT
        &&& self.shape.wf()
        &&& forall|i: int|
            0 <= i < self.genomes@.len() ==> (#[trigger] self.genomes@[i]).wf()
        &&& forall|i: int|
            0 <= i < self.genomes@.len() ==> (#[trigger] self.genomes@[i]).matches_shape(
                self.shape,
            )
        &&& forall|i: int|
            0 <= i < self.genomes@.len() ==> (#[trigger] self.genomes@[i]).id == GenomeId(
                i as usize,
            )
        &&& forall|s: int|
            0 <= s < self.species@.len() ==> (#[trigger] self.species@[s]).id == SpecieId(
                s as usize,
            )
        &&& forall|s: int|
            0 <= s < self.species@.len() ==> (#[trigger] self.species@[s]).representative.0
                < self.genomes@.len()
        &&& forall|s: int|
            0 <= s < self.species@.len() ==> (#[trigger] self.species@[s]).fitness_sum.wf()
                && self.species@[s].fitness_max.wf()
        &&& forall|s: int, k: int|
            0 <= s < self.species@.len() && 0 <= k < self.species@[s].genomes@.len()
                ==> (#[trigger] self.species@[s].genomes@[k]).0 < self.genomes@.len()
    }

    /// The speciation invariant: every genome belongs to exactly one
    /// species. Its species field is a valid index, it appears in that
    /// species' member list, members point back at their species, and no id
    /// appears twice anywhere.
    pub open spec fn members_partition(self) -> bool {
        &&& forall|i: int|
            0 <= i < self.genomes@.len() ==> (#[trigger] self.genomes@[i]).species.0
                < self.species@.len()
        &&& forall|i: int|
            0 <= i < self.genomes@.len() ==> self.species@[(#[trigger] self.genomes@[i]).species.0
                as int].genomes@.contains(GenomeId(i as usize))
        &&& forall|s: int, k: int|
            0 <= s < self.species@.len() && 0 <= k < self.species@[s].genomes@.len() ==> {
                let m = (#[trigger] self.species@[s].genomes@[k]).0;
                self.genomes@[m as int].species.0 == s
            }
        &&& forall|s1: int, k1: int, s2: int, k2: int|
            0 <= s1 < self.species@.len() && 0 <= k1 < self.species@[s1].genomes@.len() && 0 <= s2
                < self.species@.len() && 0 <= k2 < self.species@[s2].genomes@.len() && (s1 != s2
                || k1 != k2) ==> (#[trigger] self.species@[s1].genomes@[k1])
                != (#[trigger] self.species@[s2].genomes@[k2])
    }

    /// How many genomes the population holds.
    pub fn size(&self) -> (r: usize)
        ensures
            r == self.genomes@.len(),
    {
        self.genomes.len()
    }

    /// Read access to a genome slot.
    pub fn genome(&self, i: usize) -> (r: &Genome)
        requires
            i < self.genomes@.len(),
        ensures
            r == self.genomes@[i as int],
    {
        &self.genomes[i]
    }

    /// How many species the population currently tracks.
    pub fn species_count(&self) -> (r: usize)
        ensures
            r == self.species@.len(),
    {
        self.species.len()
    }

    /// Read access to a species.
    pub fn specie(&self, s: usize) -> (r: &Specie)
        requires
            s < self.species@.len(),
        ensures
            r == self.species@[s as int],
    {
        &self.species[s]
    }

    /// Writes the fitness the caller's evaluator computed for one genome.
    pub fn assign_fitness(&mut self, i: usize, fitness: u64)
        requires
            old(self).wf_base(),
            i < old(self).genomes@.len(),
            fitness <= FITNESS_LIMIT,
        ensures
            final(self).wf_base(),
            final(self).genomes@ == old(self).genomes@.update(
                i as int,
                Genome { fitness, ..old(self).genomes@[i as int] },
            ),
            final(self).species == old(self).species,
            final(self).shape == old(self).shape,
            old(self).members_partition() ==> final(self).members_partition(),
    {
        let mut g = self.genomes.remove(i);
        g.set_fitness(fitness);
        self.genomes.insert(i, g);
        proof {
            assert(final(self).genomes@ =~= old(self).genomes@.update(
                i as int,
                Genome { fitness, ..old(self).genomes@[i as int] },
            ));
        }
    }

    /// Builds a population of `population_size` randomly seeded genomes of
    /// the given shape, with no species yet. Construction is rejected (None)
    /// exactly when the size is zero or beyond the supported limit, or the
    /// shape has no input, no output, or would overflow the supported gene
    /// and node ranges.
    pub fn new(population_size: usize, shape: TopologyShape, rng: &mut RandomSource) -> (r:
        Option<Population>)
        ensures
            r is Some <==> (1 <= population_size <= POPULATION_LIMIT && shape.wf()),
            r is Some ==> {
                let p = r->Some_0;
                &&& p.wf_base()
                &&& p.genomes@.len() == population_size
                &&& p.species@.len() == 0
                &&& p.shape == shape
                &&& forall|i: int|
                    0 <= i < population_size ==> {
                        let g = #[trigger] p.genomes@[i];
                        &&& g.layers@.len() == 2
                        &&& g.connections@.len() == shape.in_count() * shape.output_size
                        &&& g.fitness == 0
                    }
            },
    {
        if population_size == 0 || population_size > POPULATION_LIMIT {
            return None;
        }
        if shape.input_size < 1 || shape.output_size < 1 {
            return None;
        }
        if shape.input_size > 0x1000_0000 || shape.output_size > 0x1000_0000 {
            return None;
        }
        let in_b: u64 = shape.input_size as u64 + if shape.bias {
            1
        } else {
            0
        };
        proof {
            vstd::arithmetic::mul::lemma_mul_upper_bound(
                in_b as int,
                0x1000_0001,
                shape.output_size as int,
                0x1000_0000,
            );
        }
        if in_b * (shape.output_size as u64) > GENES_LIMIT as u64 {
            return None;
        }
        if shape.input_size + shape.output_size + 1 > 0x1000_0000 {
            return None;
        }
        let mut genomes: Vec<Genome> = Vec::new();
        let mut i: usize = 0;
        while i < population_size
            invariant
                shape.wf(),
                i <= population_size,
                genomes@.len() == i,
                forall|j: int|
                    0 <= j < i ==> (#[trigger] genomes@[j]).wf() && genomes@[j].matches_shape(shape)
                        && genomes@[j].id == GenomeId(j as usize) && genomes@[j].layers@.len() == 2
                        && genomes@[j].connections@.len() == shape.in_count() * shape.output_size
                        && genomes@[j].fitness == 0,
            decreases population_size - i,
        {
            let g = Genome::new_random(rng, GenomeId(i), shape);
            genomes.push(g);
            i += 1;
        }
        Some(Population { genomes, species: Vec::new(), shape })
    }

    /// The first species (in stored order) whose representative is within
    /// the similarity threshold of genome `i`, if any: search order, not
    /// distance minimization, decides.
    fn first_matching_species(&self, i: usize, settings: &NeatSettings) -> (r: Option<usize>)
        requires
            self.wf_base(),
            i < self.genomes@.len(),
            settings.wf(),
        ensures
            match r {
                Some(s) => {
                    &&& 0 <= s < self.species@.len()
                    &&& sim_spec(
                        self.genomes@[self.species@[s as int].representative.0 as int].connections@,
                        self.genomes@[i as int].connections@,
                        *settings,
                    ) <= settings.species_similarity_threshold
                    &&& forall|t: int|
                        0 <= t < s ==> sim_spec(
                            self.genomes@[(#[trigger] self.species@[t]).representative.0 as int].connections@,
                            self.genomes@[i as int].connections@,
                            *settings,
                        ) > settings.species_similarity_threshold
                },
                None => forall|t: int|
                    0 <= t < self.species@.len() ==> sim_spec(
                        self.genomes@[(#[trigger] self.species@[t]).representative.0 as int].connections@,
                        self.genomes@[i as int].connections@,
                        *settings,
                    ) > settings.species_similarity_threshold,
            },
    {
        let mut s: usize = 0;
        while s < self.species.len()
            invariant
                self.wf_base(),
                i < self.genomes@.len(),
                settings.wf(),
                s <= self.species@.len(),
                forall|t: int|
                    0 <= t < s ==> sim_spec(
                        self.genomes@[(#[trigger] self.species@[t]).representative.0 as int].connections@,
                        self.genomes@[i as int].connections@,
                        *settings,
                    ) > settings.species_similarity_threshold,
            decreases self.species@.len() - s,
        {
            let rep = self.species[s].representative.0;
            let d = self.genomes[rep].similarity(&self.genomes[i], settings);
            if d <= settings.species_similarity_threshold {
                return Some(s);
            }
            s += 1;
        }
        None
    }

    /// Dynamic clustering: each existing species keeps its representative
    /// and starts with an empty member list and a zero fitness sum; then
    /// every genome, in slot order, joins the first species whose
    /// representative lies within the similarity threshold, or founds a new
    /// species with itself as representative. Afterwards every genome
    /// belongs to exactly one species — the member lists partition the
    /// population.
    #[verifier::rlimit(100)]
    #[verifier::spinoff_prover]
    pub fn speciate(&mut self, settings: &NeatSettings)
        requires
            old(self).wf_base(),
            settings.wf(),
        ensures
            final(self).wf_base(),
            final(self).members_partition(),
            final(self).shape == old(self).shape,
            final(self).genomes@.len() == old(self).genomes@.len(),
            old(self).species@.len() <= final(self).species@.len(),
            // genomes keep everything but their species assignment
            forall|i: int|
                0 <= i < old(self).genomes@.len() ==> #[trigger] final(self).genomes@[i] == (Genome {
                    species: final(self).genomes@[i].species,
                    ..old(self).genomes@[i]
                }),
            // existing species keep their identity and stagnation state
            forall|s: int|
                0 <= s < old(self).species@.len() ==> {
                    let sp = #[trigger] final(self).species@[s];
                    let osp = old(self).species@[s];
                    sp.representative == osp.representative && sp.fitness_max == osp.fitness_max
                        && sp.stagnant_generations == osp.stagnant_generations && sp.bounds
                        == osp.bounds && sp.fitness_sum.num == 0
                },
            // new species are founded by their own representative
            forall|s: int|
                old(self).species@.len() <= s < final(self).species@.len() ==> {
                    let sp = #[trigger] final(self).species@[s];
                    &&& sp.stagnant_generations == 0
                    &&& sp.bounds == 0
                    &&& sp.fitness_sum == (FitnessShare { num: 0, den: 1 })
                    &&& sp.fitness_max == (FitnessShare { num: 0, den: 1 })
                    &&& sp.genomes@.len() >= 1
                    &&& sp.representative == sp.genomes@[0]
                },
            forall|s: int|
                0 <= s < old(self).species@.len() ==> (#[trigger] final(self).species@[s]).fitness_sum
                    == (FitnessShare { num: 0, den: 1 }),
    {
        let ghost orig = *self;
        // reset member lists and fitness sums, keep representatives
        let scount = self.species.len();
        let mut s: usize = 0;
        while s < scount
            invariant
                old(self).wf_base(),
                scount == self.species@.len(),
                self.species@.len() == old(self).species@.len(),
                self.genomes == old(self).genomes,
                self.shape == old(self).shape,
                s <= scount,
                forall|t: int|
                    0 <= t < s ==> {
                        let sp = #[trigger] self.species@[t];
                        let osp = old(self).species@[t];
                        sp.id == osp.id && sp.representative == osp.representative
                            && sp.fitness_max == osp.fitness_max && sp.stagnant_generations
                            == osp.stagnant_generations && sp.bounds == osp.bounds && sp.population
                            == osp.population && sp.genomes@.len() == 0 && sp.fitness_sum
                            == (FitnessShare { num: 0, den: 1 })
                    },
                forall|t: int|
                    s <= t < scount ==> #[trigger] self.species@[t] == old(self).species@[t],
            decreases scount - s,
        {
            let rep = self.species[s].representative;
            let fmax = self.species[s].fitness_max;
            let stag = self.species[s].stagnant_generations;
            let bnds = self.species[s].bounds;
            let popc = self.species[s].population;
            let fresh = Specie {
                id: SpecieId(s),
                genomes: Vec::new(),
                representative: rep,
                fitness_sum: FitnessShare { num: 0, den: 1 },
                fitness_max: fmax,
                stagnant_generations: stag,
                bounds: bnds,
                population: popc,
            };
            let _ = self.species.remove(s);
            self.species.insert(s, fresh);
            s += 1;
        }

        // assign every genome, in order
        let n = self.genomes.len();
        let mut i: usize = 0;
        while i < n
            invariant
                settings.wf(),
                self.wf_base(),
                n == self.genomes@.len(),
                n == old(self).genomes@.len(),
                self.shape == old(self).shape,
                i <= n,
                old(self).species@.len() <= self.species@.len(),
                forall|j: int|
                    0 <= j < n ==> #[trigger] self.genomes@[j] == (Genome {
                        species: self.genomes@[j].species,
                        ..old(self).genomes@[j]
                    }),
                forall|t: int|
                    0 <= t < old(self).species@.len() ==> {
                        let sp = #[trigger] self.species@[t];
                        let osp = old(self).species@[t];
                        sp.representative == osp.representative && sp.fitness_max == osp.fitness_max
                            && sp.stagnant_generations == osp.stagnant_generations && sp.bounds
                            == osp.bounds && sp.fitness_sum == (FitnessShare { num: 0, den: 1 })
                    },
                forall|t: int|
                    old(self).species@.len() <= t < self.species@.len() ==> {
                        let sp = #[trigger] self.species@[t];
                        &&& sp.stagnant_generations == 0
                        &&& sp.bounds == 0
                        &&& sp.fitness_sum == (FitnessShare { num: 0, den: 1 })
                        &&& sp.fitness_max == (FitnessShare { num: 0, den: 1 })
                        &&& sp.genomes@.len() >= 1
                        &&& sp.representative == sp.genomes@[0]
                    },
                // members recorded so far are exactly the processed genomes
                forall|s1: int, k1: int|
                    0 <= s1 < self.species@.len() && 0 <= k1 < self.species@[s1].genomes@.len()
                        ==> {
                        let m = (#[trigger] self.species@[s1].genomes@[k1]).0;
                        m < i && self.genomes@[m as int].species.0 == s1
                    },
                forall|j: int|
                    0 <= j < i ==> (#[trigger] self.genomes@[j]).species.0 < self.species@.len()
                        && self.species@[self.genomes@[j].species.0 as int].genomes@.contains(
                        GenomeId(j as usize),
                    ),
                forall|s1: int, k1: int, s2: int, k2: int|
                    0 <= s1 < self.species@.len() && 0 <= k1 < self.species@[s1].genomes@.len() && 0
                        <= s2 < self.species@.len() && 0 <= k2 < self.species@[s2].genomes@.len()
                        && (s1 != s2 || k1 != k2) ==> (#[trigger] self.species@[s1].genomes@[k1])
                        != (#[trigger] self.species@[s2].genomes@[k2]),
            decreases n - i,
        {
            let chosen: usize = match self.first_matching_species(i, settings) {
                Some(s0) => s0,
                None => {
                    let sid = self.species.len();
                    let founder_members: Vec<GenomeId> = Vec::new();
                    let fresh = Specie {
                        id: SpecieId(sid),
                        genomes: founder_members,
                        representative: GenomeId(i),
                        fitness_sum: FitnessShare { num: 0, den: 1 },
                        fitness_max: FitnessShare { num: 0, den: 1 },
                        stagnant_generations: 0,
                        bounds: 0,
                        population: 0,
                    };
                    self.species.push(fresh);
                    sid
                },
            };
            let ghost sp_mid = self.species@;
            proof {
                assert(chosen < sp_mid.len());
            }
            // record membership
            let mut sp = self.species.remove(chosen);
            sp.genomes.push(GenomeId(i));
            let ghost sp_new = sp;
            self.species.insert(chosen, sp);
            proof {
                assert(self.species@ =~= sp_mid.update(chosen as int, sp_new));
                assert(sp_new.genomes@ == sp_mid[chosen as int].genomes@.push(GenomeId(i)));
            }
            // record the assignment on the genome
            let ghost gen_mid = self.genomes@;
            let mut g = self.genomes.remove(i);
            g.species = SpecieId(chosen);
            let ghost g_new = g;
            self.genomes.insert(i, g);
            proof {
                assert(self.genomes@ =~= gen_mid.update(i as int, g_new));
                assert forall|s1: int, k1: int|
                    0 <= s1 < self.species@.len() && 0 <= k1
                        < self.species@[s1].genomes@.len() implies {
                    let m = (#[trigger] self.species@[s1].genomes@[k1]).0;
                    m < i + 1 && self.genomes@[m as int].species.0 == s1
                } by {
                    if s1 == chosen && k1 == self.species@[s1].genomes@.len() - 1 {
                        assert(self.species@[s1].genomes@[k1] == GenomeId(i));
                    } else {
                        assert(sp_mid[s1].genomes@[k1] == self.species@[s1].genomes@[k1]);
                    }
                }
                assert forall|s1: int, k1: int, s2: int, k2: int|
                    0 <= s1 < self.species@.len() && 0 <= k1 < self.species@[s1].genomes@.len() && 0
                        <= s2 < self.species@.len() && 0 <= k2 < self.species@[s2].genomes@.len()
                        && (s1 != s2 || k1 != k2) implies (
                #[trigger] self.species@[s1].genomes@[k1]) != (
                #[trigger] self.species@[s2].genomes@[k2]) by {
                    let a_new = s1 == chosen && k1 == self.species@[s1 as int].genomes@.len() - 1;
                    let b_new = s2 == chosen && k2 == self.species@[s2 as int].genomes@.len() - 1;
                    if a_new && !b_new {
                        assert((self.species@[s2].genomes@[k2]).0 < i);
                    } else if !a_new && b_new {
                        assert((self.species@[s1].genomes@[k1]).0 < i);
                    } else if !a_new && !b_new {
                        assert(self.species@[s1].genomes@[k1] == sp_mid[s1].genomes@[k1]);
                        assert(self.species@[s2].genomes@[k2] == sp_mid[s2].genomes@[k2]);
                    }
                }
            }
            proof {
                assert forall|s1: int| 0 <= s1 < self.species@.len() implies {
                    let spc = #[trigger] self.species@[s1];
                    &&& spc.id == SpecieId(s1 as usize)
                    &&& spc.representative.0 < self.genomes@.len()
                    &&& spc.fitness_sum.wf()
                    &&& spc.fitness_max.wf()
                } by {
                    if s1 != chosen {
                        assert(self.species@[s1] == sp_mid[s1]);
                    }
                }
                assert forall|j: int| 0 <= j < i + 1 implies (
                #[trigger] self.genomes@[j]).species.0 < self.species@.len() && self.species@[(
                self.genomes@[j]).species.0 as int].genomes@.contains(GenomeId(j as usize)) by {
                    if j < i {
                        assert(self.genomes@[j] == gen_mid[j]);
                        let sj = self.genomes@[j].species.0 as int;
                        if sj == chosen {
                            let idx = choose|idx: int|
                                0 <= idx < sp_mid[chosen as int].genomes@.len() && sp_mid[chosen as int].genomes@[idx]
                                    == GenomeId(j as usize);
                            assert(self.species@[chosen as int].genomes@[idx] == GenomeId(
                                j as usize,
                            ));
                        } else {
                            assert(self.species@[sj] == sp_mid[sj]);
                        }
                    } else {
                        assert(self.species@[chosen as int].genomes@.last() == GenomeId(i));
                    }
                }
            }
            i += 1;
        }
    }

    /// Fitness sharing (adjusted fitness): every genome's adjusted fitness
    /// becomes its raw fitness divided by its species' member count, kept as
    /// an exact share, and every species' `fitness_sum` becomes the exact
    /// rational sum of its members' adjusted fitness: (raw mass / count).
    /// Together with `lemma_fitness_mass_conserved` this makes fitness
    /// sharing exactly mass-preserving.
    #[verifier::rlimit(100)]
    pub fn compute_adjusted_fitness(&mut self)
        requires
            old(self).wf_base(),
            old(self).members_partition(),
        ensures
            final(self).wf_base(),
            final(self).members_partition(),
            final(self).shape == old(self).shape,
            final(self).species@.len() == old(self).species@.len(),
            final(self).genomes@.len() == old(self).genomes@.len(),
            forall|i: int|
                0 <= i < old(self).genomes@.len() ==> #[trigger] final(self).genomes@[i] == (Genome {
                    adjusted_fitness: FitnessShare {
                        num: old(self).genomes@[i].fitness,
                        den: old(self).species@[old(self).genomes@[i].species.0 as int].genomes@.len() as u64,
                    },
                    ..old(self).genomes@[i]
                }),
            forall|s: int|
                0 <= s < old(self).species@.len() && old(self).species@[s].genomes@.len() >= 1
                    ==> #[trigger] final(self).species@[s] == (Specie {
                    fitness_sum: FitnessShare {
                        num: final(self).species@[s].fitness_sum.num,
                        den: old(self).species@[s].genomes@.len() as u64,
                    },
                    ..old(self).species@[s]
                }) && final(self).species@[s].fitness_sum.num as int == mass_of(
                    old(self).genomes@,
                    old(self).species@[s].genomes@,
                ),
            forall|s: int|
                0 <= s < old(self).species@.len() && old(self).species@[s].genomes@.len() == 0
                    ==> #[trigger] final(self).species@[s] == (Specie {
                    fitness_sum: FitnessShare { num: 0, den: 1 },
                    ..old(self).species@[s]
                }),
    {
        let scount = self.species.len();
        let mut s: usize = 0;
        while s < scount
            invariant
                old(self).wf_base(),
                old(self).members_partition(),
                self.wf_base(),
                self.shape == old(self).shape,
                scount == self.species@.len(),
                self.species@.len() == old(self).species@.len(),
                self.genomes@.len() == old(self).genomes@.len(),
                s <= scount,
                forall|i: int|
                    0 <= i < old(self).genomes@.len() ==> #[trigger] self.genomes@[i] == (Genome {
                        adjusted_fitness: self.genomes@[i].adjusted_fitness,
                        ..old(self).genomes@[i]
                    }),
                forall|i: int|
                    0 <= i < old(self).genomes@.len() && old(self).genomes@[i].species.0 < s
                        ==> (#[trigger] self.genomes@[i]).adjusted_fitness == (FitnessShare {
                        num: old(self).genomes@[i].fitness,
                        den: old(self).species@[old(self).genomes@[i].species.0 as int].genomes@.len() as u64,
                    }),
                forall|i: int|
                    0 <= i < old(self).genomes@.len() && old(self).genomes@[i].species.0 >= s
                        ==> (#[trigger] self.genomes@[i]).adjusted_fitness == old(
                        self,
                    ).genomes@[i].adjusted_fitness,
                forall|t: int|
                    s <= t < scount ==> #[trigger] self.species@[t] == old(self).species@[t],
                forall|t: int|
                    0 <= t < s && old(self).species@[t].genomes@.len() >= 1
                        ==> #[trigger] self.species@[t] == (Specie {
                        fitness_sum: FitnessShare {
                            num: self.species@[t].fitness_sum.num,
                            den: old(self).species@[t].genomes@.len() as u64,
                        },
                        ..old(self).species@[t]
                    }) && self.species@[t].fitness_sum.num as int == mass_of(
                        old(self).genomes@,
                        old(self).species@[t].genomes@,
                    ),
                forall|t: int|
                    0 <= t < s && old(self).species@[t].genomes@.len() == 0
                        ==> #[trigger] self.species@[t] == (Specie {
                        fitness_sum: FitnessShare { num: 0, den: 1 },
                        ..old(self).species@[t]
                    }),
            decreases scount - s,
        {
            let n = self.species[s].genomes.len();
            let ghost members = self.species@[s as int].genomes@;
            proof {
                assert(members == old(self).species@[s as int].genomes@);
                assert forall|k1: int, k2: int|
                    0 <= k1 < k2 < members.len() implies members[k1] != members[k2] by {}
                lemma_member_count_bounded(members, self.genomes@.len() as int);
            }
            if n == 0 {
                let mut sp = self.species.remove(s);
                sp.fitness_sum = FitnessShare { num: 0, den: 1 };
                self.species.insert(s, sp);
            } else {
                let mut sum: u64 = 0;
                let mut k: usize = 0;
                let ghost entry = *self;
                while k < n
                    invariant
                        old(self).wf_base(),
                        old(self).members_partition(),
                        entry.wf_base(),
                        s < entry.species@.len(),
                        s < old(self).species@.len(),
                        forall|i: int|
                            0 <= i < old(self).genomes@.len() ==> #[trigger] entry.genomes@[i]
                                == (Genome {
                                adjusted_fitness: entry.genomes@[i].adjusted_fitness,
                                ..old(self).genomes@[i]
                            }),
                        members == entry.species@[s as int].genomes@,
                        members == old(self).species@[s as int].genomes@,
                        n == members.len(),
                        1 <= n <= POPULATION_LIMIT,
                        k <= n,
                        self.species == entry.species,
                        self.shape == entry.shape,
                        self.genomes@.len() == entry.genomes@.len(),
                        self.genomes@.len() == old(self).genomes@.len(),
                        self.wf_base(),
                        sum as int == mass_of(old(self).genomes@, members.take(k as int)),
                        sum <= (k as u64) * FITNESS_LIMIT,
                        forall|k2: int|
                            0 <= k2 < k ==> #[trigger] self.genomes@[members[k2].0 as int] == (Genome {
                                adjusted_fitness: FitnessShare {
                                    num: old(self).genomes@[members[k2].0 as int].fitness,
                                    den: n as u64,
                                },
                                ..entry.genomes@[members[k2].0 as int]
                            }),
                        forall|i: int|
                            0 <= i < self.genomes@.len() && (forall|k2: int|
                                0 <= k2 < k ==> (#[trigger] members[k2]).0 != i)
                                ==> #[trigger] self.genomes@[i] == entry.genomes@[i],
                    decreases n - k,
                {
                    let m = self.species[s].genomes[k].0;
                    proof {
                        assert(members[k as int].0 == m);
                        assert(old(self).genomes@[m as int].fitness <= FITNESS_LIMIT);
                        assert(self.genomes@[m as int] == entry.genomes@[m as int]) by {
                            assert forall|k2: int| 0 <= k2 < k implies (
                            #[trigger] members[k2]).0 != m as int by {
                                assert(old(self).species@[s as int].genomes@[k2] != old(
                                    self,
                                ).species@[s as int].genomes@[k as int]);
                            }
                        }
                    }
                    let f = self.genomes[m].fitness;
                    let ghost gm = self.genomes@;
                    let mut g = self.genomes.remove(m);
                    g.adjusted_fitness = FitnessShare { num: f, den: n as u64 };
                    let ghost g_new = g;
                    self.genomes.insert(m, g);
                    sum += f;
                    proof {
                        assert(self.genomes@ =~= gm.update(m as int, g_new));
                        crate::population::genome::lemma_bookkeeping_update_wf(
                            g_new,
                            entry.genomes@[m as int],
                        );
                        assert(members.take(k + 1).drop_last() =~= members.take(k as int));
                        assert(mass_of(old(self).genomes@, members.take(k + 1)) == mass_of(
                            old(self).genomes@,
                            members.take(k as int),
                        ) + old(self).genomes@[m as int].fitness);
                        assert forall|k2: int|
                            0 <= k2 < k + 1 implies #[trigger] self.genomes@[members[k2].0 as int]
                            == (Genome {
                            adjusted_fitness: FitnessShare {
                                num: old(self).genomes@[members[k2].0 as int].fitness,
                                den: n as u64,
                            },
                            ..entry.genomes@[members[k2].0 as int]
                        }) by {
                            if k2 < k {
                                assert(old(self).species@[s as int].genomes@[k2] != old(
                                    self,
                                ).species@[s as int].genomes@[k as int]);
                                assert(members[k2] != members[k as int]);
                            }
                        }
                    }
                    k += 1;
                }
                proof {
                    assert(members.take(n as int) =~= members);
                }
                let mut sp = self.species.remove(s);
                sp.fitness_sum = FitnessShare { num: sum, den: n as u64 };
                self.species.insert(s, sp);
                proof {
                    assert forall|i: int|
                        0 <= i < old(self).genomes@.len() && old(self).genomes@[i].species.0
                            < s + 1 implies (#[trigger] self.genomes@[i]).adjusted_fitness == (FitnessShare {
                        num: old(self).genomes@[i].fitness,
                        den: old(self).species@[old(self).genomes@[i].species.0 as int].genomes@.len() as u64,
                    }) by {
                        if old(self).genomes@[i].species.0 == s {
                            // i is a member of species s and was set in this pass
                            assert(old(self).species@[s as int].genomes@.contains(GenomeId(
                                i as usize,
                            )));
                            let k2 = choose|k2: int|
                                0 <= k2 < members.len() && members[k2] == GenomeId(i as usize);
                            assert(self.genomes@[members[k2].0 as int].adjusted_fitness
                                == (FitnessShare {
                                num: old(self).genomes@[members[k2].0 as int].fitness,
                                den: n as u64,
                            }));
                        }
                    }
                    assert forall|i: int|
                        0 <= i < old(self).genomes@.len() && old(self).genomes@[i].species.0 >= s
                            + 1 implies (#[trigger] self.genomes@[i]).adjusted_fitness == old(
                        self,
                    ).genomes@[i].adjusted_fitness by {
                        assert forall|k2: int| 0 <= k2 < members.len() implies (
                        #[trigger] members[k2]).0 != i by {
                            if members[k2].0 == i {
                                assert(old(self).genomes@[i].species.0 == s);
                            }
                        }
                        assert(self.genomes@[i] == entry.genomes@[i]);
                    }
                }
            }
            s += 1;
        }
    }

    /// Reproduction quotas (§ largest-share normalization): the population
    /// size is apportioned to the species in proportion to their raw fitness
    /// mass (fitness_sum numerator) by cumulative proportional rounding, so
    /// the quotas always sum exactly to the population size. A population
    /// with no fitness mass at all (or one whose mass exceeds the supported
    /// range) gets all-zero quotas — the degenerate state that the offspring
    /// step answers by reseeding. Each species also records its member count
    /// at quota time in `population`.
    #[verifier::rlimit(100)]
    pub fn compute_species_bounds(&mut self)
        requires
            old(self).wf_base(),
        ensures
            final(self).wf_base(),
            final(self).shape == old(self).shape,
            final(self).genomes == old(self).genomes,
            final(self).species@.len() == old(self).species@.len(),
            forall|s: int|
                0 <= s < old(self).species@.len() ==> #[trigger] final(self).species@[s] == (Specie {
                    bounds: final(self).species@[s].bounds,
                    population: old(self).species@[s].genomes@.len() as usize,
                    ..old(self).species@[s]
                }),
            0 < total_mass(old(self).species@, old(self).species@.len() as int) <= FITNESS_MASS_LIMIT
                ==> bounds_total(final(self).species@, final(self).species@.len() as int) == old(
                self,
            ).genomes@.len(),
            !(0 < total_mass(old(self).species@, old(self).species@.len() as int)
                <= FITNESS_MASS_LIMIT) ==> forall|s: int|
                0 <= s < final(self).species@.len() ==> (#[trigger] final(self).species@[s]).bounds
                    == 0,
    {
        broadcast use vstd::arithmetic::div_mod::lemma_div_is_ordered;
        broadcast use vstd::arithmetic::div_mod::lemma_div_multiples_vanish;

        let scount = self.species.len();
        let mut total: u128 = 0;
        let mut s: usize = 0;
        while s < scount
            invariant
                self.wf_base(),
                scount == self.species@.len(),
                s <= scount,
                total == total_mass(self.species@, s as int),
                total <= (s as u128) * (FITNESS_MASS_LIMIT as u128),
            decreases scount - s,
        {
            proof {
                assert(self.species@.take(s + 1).drop_last() =~= self.species@.take(s as int));
                assert(self.species@[s as int].fitness_sum.wf());
                assert((s as u128 + 1) * (FITNESS_MASS_LIMIT as u128) == (s as u128) * (
                FITNESS_MASS_LIMIT as u128) + FITNESS_MASS_LIMIT as u128) by (nonlinear_arith);
            }
            total = total + (self.species[s].fitness_sum.num as u128);
            s += 1;
        }

        let pop = self.genomes.len();
        if total == 0 || total > FITNESS_MASS_LIMIT as u128 {
            let mut t: usize = 0;
            while t < scount
                invariant
                    self.wf_base(),
                    self.shape == old(self).shape,
                    self.genomes == old(self).genomes,
                    scount == self.species@.len(),
                    self.species@.len() == old(self).species@.len(),
                    t <= scount,
                    forall|u: int|
                        0 <= u < t ==> #[trigger] self.species@[u] == (Specie {
                            bounds: 0,
                            population: old(self).species@[u].genomes@.len() as usize,
                            ..old(self).species@[u]
                        }),
                    forall|u: int|
                        t <= u < scount ==> #[trigger] self.species@[u] == old(self).species@[u],
                decreases scount - t,
            {
                let pc = self.species[t].genomes.len();
                let mut sp = self.species.remove(t);
                sp.bounds = 0;
                sp.population = pc;
                self.species.insert(t, sp);
                t += 1;
            }
            return ;
        }

        let total64: u64 = total as u64;
        let ghost om = self.species@;
        let mut allocated: u128 = 0;
        let mut prefix: u64 = 0;
        let mut t: usize = 0;
        while t < scount
            invariant
                self.wf_base(),
                self.shape == old(self).shape,
                self.genomes == old(self).genomes,
                pop == self.genomes@.len(),
                scount == self.species@.len(),
                self.species@.len() == old(self).species@.len(),
                om == old(self).species@,
                t <= scount,
                1 <= total64 as int,
                total64 as int == total_mass(om, scount as int),
                total_mass(om, scount as int) <= FITNESS_MASS_LIMIT,
                prefix as int == total_mass(om, t as int),
                prefix <= total64,
                allocated as int == ((pop as int) * (prefix as int)) / (total64 as int),
                allocated as int == bounds_total(self.species@, t as int),
                allocated <= pop as u128,
                forall|u: int|
                    0 <= u < t ==> #[trigger] self.species@[u] == (Specie {
                        bounds: self.species@[u].bounds,
                        population: old(self).species@[u].genomes@.len() as usize,
                        ..old(self).species@[u]
                    }),
                forall|u: int|
                    t <= u < scount ==> #[trigger] self.species@[u] == old(self).species@[u],
            decreases scount - t,
        {
            let m = self.species[t].fitness_sum.num;
            proof {
                assert(om.take(t + 1).drop_last() =~= om.take(t as int));
                assert(om.take(t + 1).last() == om[t as int]);
                assert(total_mass(om, t + 1) == total_mass(om, t as int) + m);
                lemma_total_mass_mono(om, t + 1, scount as int);
                assert(total_mass(om, t as int) + m <= total64 as int);
            }
            let new_prefix: u64 = prefix + m;
            proof {
                vstd::arithmetic::mul::lemma_mul_upper_bound(
                    pop as int,
                    POPULATION_LIMIT as int,
                    new_prefix as int,
                    FITNESS_MASS_LIMIT as int,
                );
                vstd::arithmetic::mul::lemma_mul_inequality(
                    prefix as int,
                    new_prefix as int,
                    pop as int,
                );
                vstd::arithmetic::mul::lemma_mul_inequality(
                    new_prefix as int,
                    total64 as int,
                    pop as int,
                );
                vstd::arithmetic::div_mod::lemma_div_is_ordered(
                    (pop as int) * (prefix as int),
                    (pop as int) * (new_prefix as int),
                    total64 as int,
                );
                vstd::arithmetic::div_mod::lemma_div_is_ordered(
                    (pop as int) * (new_prefix as int),
                    (pop as int) * (total64 as int),
                    total64 as int,
                );
                assert(((pop as int) * (total64 as int)) / (total64 as int) == pop as int) by {
                    vstd::arithmetic::div_mod::lemma_div_multiples_vanish(
                        pop as int,
                        total64 as int,
                    );
                    assert((pop as int) * (total64 as int) == (total64 as int) * (pop as int));
                }
            }
            let new_alloc: u128 = ((pop as u128) * (new_prefix as u128)) / (total64 as u128);
            proof {
                assert(new_alloc as int == ((pop as int) * (new_prefix as int)) / (
                total64 as int));
                assert(allocated <= new_alloc);
                assert(new_alloc <= pop as u128);
            }
            let quota: usize = (new_alloc - allocated) as usize;
            let pc = self.species[t].genomes.len();
            let ghost prev = self.species@;
            let mut sp = self.species.remove(t);
            sp.bounds = quota;
            sp.population = pc;
            let ghost sp_new = sp;
            self.species.insert(t, sp);
            proof {
                assert(self.species@ =~= prev.update(t as int, sp_new));
                lemma_bounds_total_prefix(self.species@, prev, t as int);
                assert(self.species@.take(t + 1).last() == sp_new);
                assert(bounds_total(self.species@, t + 1) == bounds_total(self.species@, t as int)
                    + quota);
            }
            allocated = new_alloc;
            prefix = new_prefix;
            t += 1;
        }
        proof {
            assert(prefix == total64);
            vstd::arithmetic::div_mod::lemma_div_multiples_vanish(pop as int, total64 as int);
            assert((pop as int) * (total64 as int) == (total64 as int) * (pop as int));
            assert(allocated == pop as u128);
        }
    }

    /// Stagnation tracking: a species with members whose best adjusted
    /// fitness improves on the recorded maximum (or that was never checked)
    /// records the new maximum and resets its counter to 1; otherwise the
    /// counter increments, and the member list is cleared — removing the
    /// species from reproduction — exactly when the incremented counter
    /// reaches the configured threshold. Species without members, and every
    /// genome, are untouched.
    #[verifier::rlimit(100)]
    pub fn compute_stagnation(&mut self, settings: &NeatSettings)
        requires
            old(self).wf_base(),
            settings.wf(),
        ensures
            final(self).wf_base(),
            final(self).shape == old(self).shape,
            final(self).genomes == old(self).genomes,
            final(self).species@.len() == old(self).species@.len(),
            forall|s: int|
                0 <= s < old(self).species@.len() && old(self).species@[s].genomes@.len() == 0
                    ==> #[trigger] final(self).species@[s] == old(self).species@[s],
            forall|s: int|
                0 <= s < old(self).species@.len() && old(self).species@[s].genomes@.len() >= 1
                    ==> {
                    let osp = #[trigger] old(self).species@[s];
                    let sp = final(self).species@[s];
                    let best = best_member_share(old(self).genomes@, osp.genomes@);
                    if osp.stagnant_generations == 0 || share_lt(osp.fitness_max, best) {
                        sp == (Specie { fitness_max: best, stagnant_generations: 1, ..osp })
                    } else {
                        let counter = (if osp.stagnant_generations == usize::MAX {
                            osp.stagnant_generations as int
                        } else {
                            osp.stagnant_generations + 1
                        }) as usize;
                        if counter >= settings.generation_for_stagnating_species {
                            sp == (Specie {
                                stagnant_generations: counter,
                                genomes: sp.genomes,
                                ..osp
                            }) && sp.genomes@.len() == 0
                        } else {
                            sp == (Specie { stagnant_generations: counter, ..osp })
                        }
                    }
                },
    {
        let scount = self.species.len();
        let mut s: usize = 0;
        while s < scount
            invariant
                self.wf_base(),
                settings.wf(),
                self.shape == old(self).shape,
                self.genomes == old(self).genomes,
                scount == self.species@.len(),
                self.species@.len() == old(self).species@.len(),
                s <= scount,
                forall|u: int|
                    0 <= u < s && old(self).species@[u].genomes@.len() == 0
                        ==> #[trigger] self.species@[u] == old(self).species@[u],
                forall|u: int|
                    0 <= u < s && old(self).species@[u].genomes@.len() >= 1 ==> {
                        let osp = #[trigger] old(self).species@[u];
                        let sp = self.species@[u];
                        let best = best_member_share(old(self).genomes@, osp.genomes@);
                        if osp.stagnant_generations == 0 || share_lt(osp.fitness_max, best) {
                            sp == (Specie { fitness_max: best, stagnant_generations: 1, ..osp })
                        } else {
                            let counter = (if osp.stagnant_generations == usize::MAX {
                            osp.stagnant_generations as int
                        } else {
                            osp.stagnant_generations + 1
                        }) as usize;
                            if counter >= settings.generation_for_stagnating_species {
                                sp == (Specie {
                                    stagnant_generations: counter,
                                    genomes: sp.genomes,
                                    ..osp
                                }) && sp.genomes@.len() == 0
                            } else {
                                sp == (Specie { stagnant_generations: counter, ..osp })
                            }
                        }
                    },
                forall|u: int|
                    s <= u < scount ==> #[trigger] self.species@[u] == old(self).species@[u],
            decreases scount - s,
        {
            let n = self.species[s].genomes.len();
            if n > 0 {
                let ghost members = self.species@[s as int].genomes@;
                // the best adjusted share among the members
                let mut best = self.genomes[self.species[s].genomes[0].0].adjusted_fitness;
                let mut k: usize = 1;
                while k < n
                    invariant
                        self.wf_base(),
                        s < scount,
                        scount == self.species@.len(),
                        members == self.species@[s as int].genomes@,
                        n == members.len(),
                        1 <= k <= n,
                        best.wf(),
                        best == best_member_share(self.genomes@, members.take(k as int)),
                        exists|k0: int|
                            0 <= k0 < k && best == self.genomes@[(#[trigger] members[k0]).0 as int].adjusted_fitness,
                    decreases n - k,
                {
                    proof {
                        assert(members.take(k + 1).drop_last() =~= members.take(k as int));
                    }
                    let cand = self.genomes[self.species[s].genomes[k].0].adjusted_fitness;
                    if best.lt(&cand) {
                        best = cand;
                    }
                    k += 1;
                }
                proof {
                    assert(members.take(n as int) =~= members);
                }
                let stag = self.species[s].stagnant_generations;
                let fmax = self.species[s].fitness_max;
                let mut sp = self.species.remove(s);
                if stag == 0 || fmax.lt(&best) {
                    sp.fitness_max = best;
                    sp.stagnant_generations = 1;
                } else {
                    let counter: usize = if stag == usize::MAX {
                        stag
                    } else {
                        stag + 1
                    };
                    sp.stagnant_generations = counter;
                    if counter >= settings.generation_for_stagnating_species {
                        sp.genomes = Vec::new();
                    }
                }
                self.species.insert(s, sp);
            }
            s += 1;
        }
    }

    /// Representative election: every species with members and a positive
    /// quota draws a new representative uniformly from its member list; all
    /// other species, and every genome, are untouched.
    pub fn elect_representatives_for_species(&mut self, rng: &mut RandomSource)
        requires
            old(self).wf_base(),
        ensures
            final(self).wf_base(),
            final(self).shape == old(self).shape,
            final(self).genomes == old(self).genomes,
            final(self).species@.len() == old(self).species@.len(),
            forall|s: int|
                0 <= s < old(self).species@.len() ==> {
                    let osp = #[trigger] old(self).species@[s];
                    let sp = final(self).species@[s];
                    if osp.genomes@.len() >= 1 && osp.bounds >= 1 {
                        sp == (Specie { representative: sp.representative, ..osp })
                            && osp.genomes@.contains(sp.representative)
                    } else {
                        sp == osp
                    }
                },
    {
        let scount = self.species.len();
        let mut s: usize = 0;
        while s < scount
            invariant
                self.wf_base(),
                self.shape == old(self).shape,
                self.genomes == old(self).genomes,
                scount == self.species@.len(),
                self.species@.len() == old(self).species@.len(),
                s <= scount,
                forall|u: int|
                    0 <= u < s ==> {
                        let osp = #[trigger] old(self).species@[u];
                        let sp = self.species@[u];
                        if osp.genomes@.len() >= 1 && osp.bounds >= 1 {
                            sp == (Specie { representative: sp.representative, ..osp })
                                && osp.genomes@.contains(sp.representative)
                        } else {
                            sp == osp
                        }
                    },
                forall|u: int|
                    s <= u < scount ==> #[trigger] self.species@[u] == old(self).species@[u],
            decreases scount - s,
        {
            let n = self.species[s].genomes.len();
            if n > 0 && self.species[s].bounds > 0 {
                let pick = rng.below(n);
                let rep = self.species[s].genomes[pick];
                let mut sp = self.species.remove(s);
                sp.representative = rep;
                self.species.insert(s, sp);
            }
            s += 1;
        }
    }
}

/// Sum of the species' fitness-mass numerators over the first `k` species.
pub open spec fn total_mass(sps: Seq<Specie>, k: int) -> int
    decreases k,
{
    if k <= 0 {
        0
    } else {
        total_mass(sps, k - 1) + sps.take(k).last().fitness_sum.num
    }
}

/// Sum of the species' quotas over the first `k` species.
pub open spec fn bounds_total(sps: Seq<Specie>, k: int) -> int
    decreases k,
{
    if k <= 0 {
        0
    } else {
        bounds_total(sps, k - 1) + sps.take(k).last().bounds
    }
}

/// The best (largest) adjusted share among the listed genomes, compared as
/// exact rationals (the first of the list when it is a singleton).
pub open spec fn best_member_share(gs: Seq<Genome>, members: Seq<GenomeId>) -> FitnessShare
    decreases members.len(),
{
    if members.len() <= 1 {
        gs[members[0].0 as int].adjusted_fitness
    } else {
        let prev = best_member_share(gs, members.drop_last());
        let cand = gs[members.last().0 as int].adjusted_fitness;
        if share_lt(prev, cand) {
            cand
        } else {
            prev
        }
    }
}

/// Two species lists equal on a prefix have equal quota sums over it.
pub proof fn lemma_bounds_total_prefix(a: Seq<Specie>, b: Seq<Specie>, k: int)
    requires
        0 <= k <= a.len(),
        a.len() == b.len(),
        forall|u: int| 0 <= u < k ==> #[trigger] a[u] == b[u],
    ensures
        bounds_total(a, k) == bounds_total(b, k),
    decreases k,
{
    if k > 0 {
        lemma_bounds_total_prefix(a, b, k - 1);
        assert(a.take(k).last() == a[k - 1]);
        assert(b.take(k).last() == b[k - 1]);
    }
}

/// Prefix masses never exceed the full mass.
pub proof fn lemma_total_mass_mono(sps: Seq<Specie>, k: int, n: int)
    requires
        0 <= k <= n <= sps.len(),
    ensures
        total_mass(sps, k) <= total_mass(sps, n),
    decreases n - k,
{
    if k < n {
        lemma_total_mass_mono(sps, k + 1, n);
        assert(sps.take(k + 1).last().fitness_sum.num >= 0);
    }
}

/// A list of distinct slot ids below `n` has at most `n` entries.

/// A list of distinct slot ids below `n` has at most `n` entries.
pub proof fn lemma_member_count_bounded(ms: Seq<GenomeId>, n: int)
    requires
        n >= 0,
        forall|k: int| 0 <= k < ms.len() ==> 0 <= (#[trigger] ms[k]).0 < n,
        forall|k1: int, k2: int| 0 <= k1 < k2 < ms.len() ==> ms[k1] != ms[k2],
    ensures
        ms.len() <= n,
{
    broadcast use vstd::set::group_set_axioms;
    broadcast use vstd::seq_lib::seq_to_set_is_finite;

    let ints = ms.map_values(|g: GenomeId| g.0 as int);
    assert(ints.no_duplicates()) by {
        assert forall|k1: int, k2: int|
            0 <= k1 < ints.len() && 0 <= k2 < ints.len() && k1 != k2 implies ints[k1]
            != ints[k2] by {
            assert(ints[k1] == ms[k1].0 as int);
            assert(ints[k2] == ms[k2].0 as int);
        }
    }
    ints.unique_seq_to_set();
    assert(ints.to_set().subset_of(vstd::set_lib::set_int_range(0, n))) by {
        assert forall|x: int| ints.to_set().contains(x) implies vstd::set_lib::set_int_range(
            0,
            n,
        ).contains(x) by {
            let k = choose|k: int| 0 <= k < ints.len() && ints[k] == x;
            assert(ints[k] == ms[k].0 as int);
        }
    }
    vstd::set_lib::lemma_int_range(0, n);
    vstd::set_lib::lemma_len_subset(ints.to_set(), vstd::set_lib::set_int_range(0, n));
}

} // verus!
