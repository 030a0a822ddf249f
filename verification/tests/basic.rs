use neat::network::connection::Connection;
use neat::network::node::NodeId;
use neat::population::genome::{Genome, GenomeId, TopologyShape};
use neat::population::Population;
use neat::rng::RandomSource;
use neat::settings::NeatSettings;

fn shape_2_1() -> TopologyShape {
    TopologyShape { input_size: 2, output_size: 1, bias: false }
}

#[test]
fn gene_key_packs_endpoints() {
    let c = Connection { from: NodeId(1), to: NodeId(2), weight: 500, enabled: true };
    assert_eq!(c.get_hash(), 0x1_0000_0002u64);
}

#[test]
fn default_settings_values() {
    let s = NeatSettings::default();
    assert_eq!(s.species_similarity_threshold, 4000);
    assert_eq!(s.normalized_gene_size, 20);
    assert_eq!(s.similarity_coeficients.coeficient_weight, 3000);
    assert_eq!(s.mutation_probabilities.prob_offsprint_crossover, 750);
    assert_eq!(s.size_specie_for_champion, 5);
    assert_eq!(s.generation_for_stagnating_species, 15);
}

#[test]
fn seeded_genome_is_fully_connected() {
    let mut rng = RandomSource::seeded(7);
    let g = Genome::new_random(&mut rng, GenomeId(0), shape_2_1());
    assert_eq!(g.connections.len(), 2);
    for c in g.connections.iter() {
        assert!(c.enabled);
        assert!(c.weight >= 0 && c.weight < 1000);
        assert_eq!(c.to, NodeId(2));
    }
    assert_eq!(g.connections[0].from, NodeId(0));
    assert_eq!(g.connections[1].from, NodeId(1));
}

#[test]
fn similarity_to_itself_is_zero() {
    let mut rng = RandomSource::seeded(11);
    let settings = NeatSettings::default();
    let g = Genome::new_random(&mut rng, GenomeId(0), shape_2_1());
    assert_eq!(g.similarity(&g, &settings), 0);
}

#[test]
fn similarity_is_symmetric() {
    let mut rng = RandomSource::seeded(13);
    let settings = NeatSettings::default();
    let a = Genome::new_random(&mut rng, GenomeId(0), shape_2_1());
    let b = Genome::new_random(&mut rng, GenomeId(1), shape_2_1());
    assert_eq!(a.similarity(&b, &settings), b.similarity(&a, &settings));
}

#[test]
fn similarity_exact_value_for_matching_genes() {
    // two genomes with the same two genes, weights differing by 100 and 200:
    // both below the small-genome cutoff, no excess or disjoint genes, so the
    // distance is cw * (300 / 2) / 1000 = 3 * 150 = 450 in fixed point.
    let mut rng = RandomSource::seeded(17);
    let settings = NeatSettings::default();
    let mut a = Genome::new_random(&mut rng, GenomeId(0), shape_2_1());
    let mut b = Genome::new_random(&mut rng, GenomeId(1), shape_2_1());
    a.connections[0].weight = 500;
    a.connections[1].weight = 500;
    b.connections[0].weight = 600;
    b.connections[1].weight = 700;
    assert_eq!(a.similarity(&b, &settings), 450);
}

#[test]
fn construction_rejects_bad_sizes() {
    let mut rng = RandomSource::seeded(1);
    assert!(Population::new(0, shape_2_1(), &mut rng).is_none());
    let no_outputs = TopologyShape { input_size: 2, output_size: 0, bias: false };
    assert!(Population::new(5, no_outputs, &mut rng).is_none());
    let no_inputs = TopologyShape { input_size: 0, output_size: 1, bias: true };
    assert!(Population::new(5, no_inputs, &mut rng).is_none());
    assert!(Population::new(10, shape_2_1(), &mut rng).is_some());
}

#[test]
fn speciate_partitions_the_population() {
    let mut rng = RandomSource::seeded(23);
    let settings = NeatSettings::default();
    let mut p = Population::new(10, shape_2_1(), &mut rng).unwrap();
    p.speciate(&settings);
    let mut total = 0;
    for s in 0..p.species_count() {
        total += p.specie(s).genomes.len();
        for id in p.specie(s).genomes.iter() {
            assert_eq!(p.genome(id.0).species.0, s);
        }
    }
    assert_eq!(total, p.size());
    for i in 0..p.size() {
        let s = p.genome(i).species.0;
        assert!(s < p.species_count());
        assert!(p.specie(s).genomes.contains(&GenomeId(i)));
    }
}

#[test]
fn crossover_with_itself_keeps_the_gene_set() {
    let mut rng = RandomSource::seeded(29);
    let settings = NeatSettings::default();
    let g = Genome::new_random(&mut rng, GenomeId(0), shape_2_1());
    let child = Genome::crossover(&g, &g, GenomeId(3), &mut rng, &settings);
    assert_eq!(child.connections.len(), g.connections.len());
    for (c, o) in child.connections.iter().zip(g.connections.iter()) {
        assert_eq!(c.from, o.from);
        assert_eq!(c.to, o.to);
        assert_eq!(c.weight, o.weight);
    }
    assert_eq!(child.id, GenomeId(3));
    // equal keys and weights mean distance zero: no spurious genes
    assert_eq!(child.similarity(&g, &settings), 0);
}

#[test]
fn mutation_never_removes_genes() {
    let mut rng = RandomSource::seeded(31);
    let settings = NeatSettings::default();
    let mut g = Genome::new_random(&mut rng, GenomeId(0), shape_2_1());
    let before: Vec<(NodeId, NodeId)> =
        g.connections.iter().map(|c| (c.from, c.to)).collect();
    for _ in 0..50 {
        g.mutate(&mut rng, &settings);
    }
    assert!(g.connections.len() >= before.len());
    for (k, (f, t)) in before.iter().enumerate() {
        assert_eq!(g.connections[k].from, *f);
        assert_eq!(g.connections[k].to, *t);
    }
}

#[test]
fn assigned_fitness_is_stored() {
    let mut rng = RandomSource::seeded(37);
    let mut p = Population::new(3, shape_2_1(), &mut rng).unwrap();
    p.assign_fitness(1, 1000);
    assert_eq!(p.genome(1).fitness, 1000);
    assert_eq!(p.genome(0).fitness, 0);
}

#[test]
fn bernoulli_edge_probabilities() {
    let mut rng = RandomSource::seeded(41);
    for _ in 0..20 {
        assert!(!rng.bernoulli(0));
        assert!(rng.bernoulli(1000));
    }
}

#[test]
fn adjusted_fitness_shares_mass_exactly() {
    let mut rng = RandomSource::seeded(43);
    let settings = NeatSettings::default();
    let mut p = Population::new(10, shape_2_1(), &mut rng).unwrap();
    for i in 0..p.size() {
        p.assign_fitness(i, 100 + i as u64);
    }
    p.speciate(&settings);
    p.compute_adjusted_fitness();
    for s in 0..p.species_count() {
        let members = p.specie(s).genomes.clone();
        if members.is_empty() {
            continue;
        }
        let mass: u64 = members.iter().map(|id| p.genome(id.0).fitness).sum();
        let fs = p.specie(s).fitness_sum;
        assert_eq!(fs.num, mass);
        assert_eq!(fs.den, members.len() as u64);
        for id in members.iter() {
            let adj = p.genome(id.0).adjusted_fitness;
            assert_eq!(adj.num, p.genome(id.0).fitness);
            assert_eq!(adj.den, members.len() as u64);
        }
    }
}

#[test]
fn quotas_sum_to_population_size() {
    let mut rng = RandomSource::seeded(47);
    let settings = NeatSettings::default();
    let mut p = Population::new(10, shape_2_1(), &mut rng).unwrap();
    p.assign_fitness(0, 1000);
    p.speciate(&settings);
    p.compute_adjusted_fitness();
    p.compute_species_bounds();
    let mut total: usize = 0;
    for s in 0..p.species_count() {
        total += p.specie(s).bounds;
    }
    assert_eq!(total, p.size());
    // the species of the fittest genome holds mass and a nonzero quota
    let s0 = p.genome(0).species.0;
    assert!(p.specie(s0).fitness_sum.num >= 1000);
    assert!(p.specie(s0).bounds > 0);
}

#[test]
fn zero_mass_population_gets_zero_quotas() {
    let mut rng = RandomSource::seeded(53);
    let settings = NeatSettings::default();
    let mut p = Population::new(6, shape_2_1(), &mut rng).unwrap();
    p.speciate(&settings);
    p.compute_adjusted_fitness();
    p.compute_species_bounds();
    for s in 0..p.species_count() {
        assert_eq!(p.specie(s).bounds, 0);
    }
}

#[test]
fn stagnating_species_is_cleared() {
    let mut rng = RandomSource::seeded(59);
    let mut settings = NeatSettings::default();
    settings.generation_for_stagnating_species = 3;
    let mut p = Population::new(5, shape_2_1(), &mut rng).unwrap();
    for i in 0..p.size() {
        p.assign_fitness(i, 700);
    }
    p.speciate(&settings);
    p.compute_adjusted_fitness();
    // first check records the maximum and resets the counter to 1
    p.compute_stagnation(&settings);
    assert_eq!(p.specie(0).stagnant_generations, 1);
    assert!(!p.specie(0).genomes.is_empty());
    // no improvement: the counter climbs to 2, members survive
    p.compute_stagnation(&settings);
    assert_eq!(p.specie(0).stagnant_generations, 2);
    assert!(!p.specie(0).genomes.is_empty());
    // still no improvement: the counter reaches the threshold, members go
    p.compute_stagnation(&settings);
    assert_eq!(p.specie(0).stagnant_generations, 3);
    assert!(p.specie(0).genomes.is_empty());
}

#[test]
fn improving_species_never_stagnates() {
    let mut rng = RandomSource::seeded(61);
    let mut settings = NeatSettings::default();
    settings.generation_for_stagnating_species = 2;
    let mut p = Population::new(4, shape_2_1(), &mut rng).unwrap();
    for round in 0..5u64 {
        for i in 0..p.size() {
            p.assign_fitness(i, 100 * (round + 1));
        }
        p.speciate(&settings);
        p.compute_adjusted_fitness();
        p.compute_stagnation(&settings);
        assert_eq!(p.specie(0).stagnant_generations, 1);
        assert!(!p.specie(0).genomes.is_empty());
    }
}

#[test]
fn elected_representative_is_a_member() {
    let mut rng = RandomSource::seeded(67);
    let settings = NeatSettings::default();
    let mut p = Population::new(8, shape_2_1(), &mut rng).unwrap();
    p.assign_fitness(0, 500);
    p.speciate(&settings);
    p.compute_adjusted_fitness();
    p.compute_species_bounds();
    p.elect_representatives_for_species(&mut rng);
    for s in 0..p.species_count() {
        let sp = p.specie(s);
        if !sp.genomes.is_empty() && sp.bounds > 0 {
            assert!(sp.genomes.contains(&sp.representative));
        }
    }
}
