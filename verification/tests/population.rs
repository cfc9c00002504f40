use neat::breeding::{mutate_population, Rates};
use neat::error::NeatError;
use neat::fixed::ONE;
use neat::neat::{evaluate_xor, NEAT};
use neat::network::Network;
use neat::population::{
    clone_population, keep_elite, rank_by_fitness, reorder, score_population, sort_by_fitness,
};
use neat::species::{clone_species, divides, group_species, members_of};

fn scored(fitness: &[i32]) -> Vec<Network> {
    let mut pop = Vec::new();
    for (i, &f) in fitness.iter().enumerate() {
        // The number of outputs tells the genomes apart.
        let mut genome = Network::new(1, i as u32 + 1);
        genome.fitness = f;
        pop.push(genome);
    }
    pop
}

fn tags(pop: &Vec<Network>) -> Vec<u32> {
    pop.iter().map(|genome| genome.output_count - 1).collect()
}

fn still(rates_of: &NEAT) -> Rates {
    let mut rates = rates_of.rates();
    rates.change_weights_chance = 0;
    rates.add_node_chance = 0;
    rates.add_connection_chance = 0;
    rates
}

#[test]
fn new_population_holds_minimal_genomes() {
    let neat = NEAT::new(50, 3, 1);
    assert_eq!(neat.pop.len(), 50);
    assert_eq!(neat.pop_size, 50);
    assert_eq!(neat.generation, 0);
    assert_eq!(neat.global_inno_number, 1);
    assert_eq!(neat.species_list, vec![(0..50).collect::<Vec<usize>>()]);
    assert!(neat.past_pop.is_empty());
    assert!(neat.past_species_list.is_empty());
    for genome in &neat.pop {
        assert_eq!(genome.nodes.len(), 4);
        assert_eq!(genome.links.len(), 0);
    }
    assert_eq!(
        (
            neat.change_weights_chance,
            neat.perturb_weights_chance,
            neat.perturb_amount,
            neat.add_node_chance,
            neat.add_connection_chance
        ),
        (52429, 58982, 32768, 1966, 3277)
    );
    assert_eq!((neat.c1, neat.c2, neat.c3, neat.distance_threshold), (ONE, ONE, 26214, 3 * ONE));
    assert_eq!(neat.preserve_champion_threshhold, 5);
    assert_eq!(neat.elite, 20);
    assert!(neat.config_ok());
    assert!(neat.has_headroom());
}

#[test]
fn empty_population_has_no_species() {
    let neat = NEAT::new(0, 3, 1);
    assert!(neat.pop.is_empty());
    assert!(neat.species_list.is_empty());
    assert!(!neat.config_ok());
}

#[test]
fn ranking_is_by_descending_score_then_place() {
    let pop = scored(&[5, 9, 5, -3, 9, 0]);
    assert_eq!(rank_by_fitness(&pop), vec![1, 4, 0, 2, 5, 3]);
    assert_eq!(rank_by_fitness(&scored(&[])), Vec::<usize>::new());
    assert_eq!(rank_by_fitness(&scored(&[7, 7, 7])), vec![0, 1, 2]);
    assert_eq!(rank_by_fitness(&scored(&[1, 2, 3])), vec![2, 1, 0]);
}

#[test]
fn sorting_keeps_ties_in_place() {
    let mut pop = scored(&[5, 9, 5, -3, 9, 0]);
    sort_by_fitness(&mut pop);
    assert_eq!(tags(&pop), vec![1, 4, 0, 2, 5, 3]);
    assert_eq!(pop.iter().map(|g| g.fitness).collect::<Vec<i32>>(), vec![9, 9, 5, 5, 0, -3]);
}

#[test]
fn reorder_follows_the_order() {
    let pop = scored(&[1, 2, 3]);
    let again = reorder(&pop, &vec![2, 2, 0]);
    assert_eq!(tags(&again), vec![2, 2, 0]);
}

#[test]
fn elite_is_copied_over_the_last_places() {
    let mut pop = scored(&[10, 9, 8, 7, 6, 5]);
    keep_elite(&mut pop, 2);
    assert_eq!(tags(&pop), vec![0, 1, 2, 3, 0, 1]);
    let mut pop = scored(&[10, 9, 8, 7, 6, 5]);
    keep_elite(&mut pop, 0);
    assert_eq!(tags(&pop), vec![0, 1, 2, 3, 4, 5]);
    let mut pop = scored(&[10, 9, 8, 7, 6, 5]);
    keep_elite(&mut pop, 6);
    assert_eq!(tags(&pop), vec![0, 1, 2, 3, 4, 5]);
}

#[test]
fn elite_larger_than_half_overlaps_itself() {
    let mut pop = scored(&[10, 9, 8, 7, 6]);
    keep_elite(&mut pop, 4);
    // Place 1 + i gets the genome that stood at place i.
    assert_eq!(tags(&pop), vec![0, 0, 1, 2, 3]);
}

#[test]
fn scoring_notes_the_score_on_each_genome() {
    let mut pop = scored(&[0, 0, 0]);
    score_population(&mut pop, &|genome: &Network| genome.output_count as i32 * 10);
    assert_eq!(pop.iter().map(|g| g.fitness).collect::<Vec<i32>>(), vec![10, 20, 30]);
}

#[test]
fn clone_population_copies_each_genome() {
    let pop = scored(&[4, 5]);
    let copy = clone_population(&pop);
    assert_eq!(tags(&copy), vec![0, 1]);
    assert_eq!(copy[1].fitness, 5);
    assert_eq!(clone_species(&vec![vec![0, 2], vec![1]]), vec![vec![0, 2], vec![1]]);
}

#[test]
fn species_are_grouped_in_order() {
    let home = vec![2, 0, 2, 3, 0];
    assert_eq!(members_of(&home, 2), vec![0, 2]);
    assert_eq!(members_of(&home, 1), Vec::<usize>::new());
    // Species 1 has no genome and gets no group.
    assert_eq!(group_species(&home, 4), vec![vec![1, 4], vec![0, 2], vec![3]]);
    assert_eq!(group_species(&vec![], 3), Vec::<Vec<usize>>::new());
}

#[test]
fn genomes_join_the_first_species_that_is_near() {
    let mut counter: u32 = 0;
    let mut plain = Network::new(1, 1);
    plain.add_link(&mut counter, 0, 1, 0).unwrap();
    let mut far = plain.clone();
    for _ in 0..6 {
        far.add_node(&mut counter, far.links.len() - 1).unwrap();
    }
    let mut neat = NEAT::new(4, 1, 1);
    neat.pop = vec![plain.clone(), far.clone(), plain.clone(), far.clone()];
    neat.distance_threshold = ONE;
    // far has 13 links, 12 of them newer than all of plain: 12 / 13 excess,
    // and the one matching link has the same weight. Lower the threshold so
    // that this is too far.
    neat.distance_threshold = ONE / 2;
    assert_eq!(neat.get_distance(&plain, &far), (12 * ONE as i64) / 13);
    assert_eq!(neat.find_home(&far, &vec![plain.clone()]), 1);
    assert_eq!(neat.find_home(&plain, &vec![far.clone(), plain.clone()]), 1);
    assert_eq!(neat.find_home(&plain, &vec![plain.clone(), plain.clone()]), 0);
    assert_eq!(neat.find_home(&plain, &vec![]), 0);
    // With the seed `plain`: genomes 0 and 2 join it, genome 1 founds a
    // second species, which genome 3 joins.
    let (home, kinds) = neat.assign_species(vec![plain.clone()]);
    assert_eq!(home, vec![0, 1, 0, 1]);
    assert_eq!(kinds, 2);
    // With the seed `far`, the species change places.
    let (home, kinds) = neat.assign_species(vec![far.clone()]);
    assert_eq!(home, vec![1, 0, 1, 0]);
    assert_eq!(kinds, 2);
    // With a threshold that nothing exceeds, all are one species.
    neat.distance_threshold = ONE;
    let (home, kinds) = neat.assign_species(vec![far.clone()]);
    assert_eq!(home, vec![0, 0, 0, 0]);
    assert_eq!(kinds, 1);
}

#[test]
fn representatives_come_from_the_past_species() {
    let mut neat = NEAT::new(3, 1, 1);
    neat.past_pop = scored(&[1, 2, 3]);
    neat.past_species_list = vec![vec![0, 2], vec![1]];
    let seeds = neat.pick_representatives(&vec![1, 0]);
    assert_eq!(tags(&seeds), vec![2, 1]);
    let seeds = neat.pick_representatives(&vec![0, 0]);
    assert_eq!(tags(&seeds), vec![0, 1]);
    for _ in 0..50 {
        let places = neat.draw_places();
        assert_eq!(places.len(), 2);
        assert!(places[0] < 2);
        assert_eq!(places[1], 0);
    }
}

#[test]
fn train_rejects_too_large_an_elite() {
    let mut neat = NEAT::new(10, 3, 1);
    assert!(!neat.config_ok());
    assert_eq!(
        neat.train(|genome: &Network| evaluate_xor(genome.clone())),
        Err(NeatError::ConfigError)
    );
    assert_eq!(neat.generation, 0);
    assert!(neat.past_pop.is_empty());
    assert_eq!(neat.pop.len(), 10);
    neat.elite = 10;
    assert_eq!(neat.train(|genome: &Network| evaluate_xor(genome.clone())), Ok(()));
    assert_eq!(neat.generation, 1);
}

#[test]
fn train_rejects_negative_tunables() {
    let mut neat = NEAT::new(30, 3, 1);
    assert!(neat.config_ok());
    neat.perturb_amount = -1;
    assert_eq!(neat.train(|_: &Network| 0), Err(NeatError::ConfigError));
    neat.perturb_amount = 0;
    neat.c2 = -1;
    assert_eq!(neat.train(|_: &Network| 0), Err(NeatError::ConfigError));
    neat.c2 = 0;
    assert_eq!(neat.train(|_: &Network| 0), Ok(()));
}

#[test]
fn train_keeps_size_and_counts_the_generation() {
    let mut neat = NEAT::new(30, 3, 1);
    neat.add_connection_chance = ONE;
    neat.add_node_chance = ONE;
    for generation in 1..=20 {
        let before = neat.global_inno_number;
        assert_eq!(neat.train(|genome: &Network| evaluate_xor(genome.clone())), Ok(()));
        assert_eq!(neat.generation, generation);
        assert_eq!(neat.pop.len(), 30);
        assert_eq!(neat.past_pop.len(), 30);
        assert!(neat.global_inno_number >= before);
        assert!(neat.global_inno_number <= before + 3 * 10);
        // The species divide the population.
        let mut seen = vec![0; 30];
        for species in &neat.species_list {
            assert!(!species.is_empty());
            for &place in species {
                seen[place] += 1;
            }
        }
        assert_eq!(seen, vec![1; 30]);
        // Ids ascend within each genome and stay below the counter.
        for genome in &neat.pop {
            for pair in genome.links.windows(2) {
                assert!(pair[0].inno_number < pair[1].inno_number);
            }
            for link in &genome.links {
                assert!(link.inno_number < neat.global_inno_number);
            }
        }
    }
}

#[test]
fn train_carries_the_champion_over() {
    let mut neat = NEAT::new(6, 1, 1);
    neat.elite = 2;
    neat.add_connection_chance = ONE;
    neat.change_weights_chance = ONE;
    let mut counter = neat.global_inno_number;
    neat.pop[3].add_link(&mut counter, 0, 1, 4 * ONE).unwrap();
    neat.global_inno_number = counter;
    // The scorer likes the weight of the first link.
    let scorer = |genome: &Network| genome.links.first().map_or(-1, |link| link.weight);
    assert_eq!(neat.train(scorer), Ok(()));
    // The best genome stands unchanged at the first of the last two places.
    let champion = &neat.pop[4];
    assert_eq!(champion.fitness, 4 * ONE);
    assert_eq!(champion.links.len(), 1);
    assert_eq!(champion.links[0].weight, 4 * ONE);
    // The runner-up, a genome without links, stands unchanged behind it.
    assert_eq!(neat.pop[5].fitness, -1);
    assert_eq!(neat.pop[5].links.len(), 0);
    // The past population is the one that entered, in its order.
    assert_eq!(neat.past_pop[3].links.len(), 1);
    assert_eq!(neat.past_pop[0].links.len(), 0);
}

#[test]
fn best_fitness_never_drops() {
    let mut neat = NEAT::new(150, 3, 1);
    for genome in neat.pop.iter_mut() {
        let _ = genome.add_random_link(&mut neat.global_inno_number);
        let _ = genome.add_random_link(&mut neat.global_inno_number);
    }
    let mut best = i32::MIN;
    for _ in 0..1000 {
        assert!(neat.has_headroom());
        assert_eq!(neat.train(|genome: &Network| evaluate_xor(genome.clone())), Ok(()));
        // The scores noted on the carried-over genomes are those of this
        // generation; the first of them is the champion.
        let top = neat.pop[150 - 20].fitness;
        for genome in &neat.past_pop {
            assert!(evaluate_xor(genome.clone()) <= top);
        }
        assert!(top >= best, "best score fell from {} to {}", best, top);
        best = top;
    }
    assert!(best >= 32768);
}

#[test]
fn mutation_without_chances_changes_nothing() {
    let neat = NEAT::new(4, 2, 1);
    let mut pop = clone_population(&neat.pop);
    let mut counter: u32 = 1;
    mutate_population(&mut pop, &mut counter, &still(&neat), 0);
    assert_eq!(counter, 1);
    for genome in &pop {
        assert_eq!(genome.nodes.len(), 3);
        assert_eq!(genome.links.len(), 0);
    }
}

#[test]
fn mutation_spares_the_last_places() {
    let neat = NEAT::new(5, 2, 1);
    let mut pop = clone_population(&neat.pop);
    let mut counter: u32 = 1;
    let mut rates = still(&neat);
    rates.add_connection_chance = ONE;
    mutate_population(&mut pop, &mut counter, &rates, 2);
    assert_eq!(counter, 4);
    for genome in &pop[..3] {
        assert_eq!(genome.links.len(), 1);
    }
    for genome in &pop[3..] {
        assert_eq!(genome.links.len(), 0);
    }
    assert_eq!(pop[0].links[0].inno_number, 1);
    assert_eq!(pop[1].links[0].inno_number, 2);
    assert_eq!(pop[2].links[0].inno_number, 3);
}

#[test]
fn divides_tells_partitions_apart() {
    assert!(divides(&vec![vec![0, 2], vec![1]], 3));
    assert!(divides(&vec![vec![2], vec![1], vec![0]], 3));
    assert!(divides(&vec![], 0));
    // A place is missing.
    assert!(!divides(&vec![vec![0, 2]], 3));
    // A place stands twice.
    assert!(!divides(&vec![vec![0, 1], vec![1, 2]], 3));
    assert!(!divides(&vec![vec![0, 0, 1]], 2));
    // A group is empty.
    assert!(!divides(&vec![vec![0, 1], vec![]], 2));
    // A place is out of range.
    assert!(!divides(&vec![vec![0, 1, 2]], 2));
    assert!(!divides(&vec![vec![0]], 0));
}

#[test]
fn populations_pass_the_test_of_well_formedness() {
    let mut neat = NEAT::new(25, 3, 1);
    assert!(neat.is_well_formed());
    for _ in 0..30 {
        neat.train(|genome: &Network| evaluate_xor(genome.clone())).unwrap();
        assert!(neat.is_well_formed());
    }
    let mut short = neat.clone();
    short.pop.pop();
    assert!(!short.is_well_formed());
    let mut stale = neat.clone();
    stale.global_inno_number = 0;
    assert_eq!(stale.is_well_formed(), stale.pop.iter().all(|genome| genome.links.is_empty()));
    let mut lumped = neat.clone();
    lumped.species_list = vec![vec![0]];
    assert!(!lumped.is_well_formed());
}

#[test]
fn a_copy_of_a_population_holds_the_same() {
    let mut neat = NEAT::new(21, 3, 2);
    neat.add_connection_chance = ONE;
    neat.train(|genome: &Network| genome.links.len() as i32).unwrap();
    let copy = neat.clone();
    assert_eq!(copy.pop.len(), neat.pop.len());
    for (a, b) in copy.pop.iter().zip(&neat.pop) {
        assert_eq!(a.links.len(), b.links.len());
        assert_eq!(a.nodes.len(), b.nodes.len());
        assert_eq!(a.fitness, b.fitness);
    }
    assert_eq!(copy.species_list, neat.species_list);
    assert_eq!(copy.past_species_list, neat.past_species_list);
    assert_eq!(copy.past_pop.len(), neat.past_pop.len());
    assert_eq!(
        (copy.generation, copy.global_inno_number),
        (neat.generation, neat.global_inno_number)
    );
    assert_eq!((copy.elite, copy.pop_size, copy.c3), (neat.elite, neat.pop_size, neat.c3));
}

#[test]
fn a_generation_without_chances_only_ranks() {
    let mut neat = NEAT::new(8, 2, 1);
    neat.elite = 3;
    neat.change_weights_chance = 0;
    neat.add_node_chance = 0;
    neat.add_connection_chance = 0;
    let mut counter = neat.global_inno_number;
    for (i, genome) in neat.pop.iter_mut().enumerate() {
        // Genome i gets i links' worth of weight on its one link.
        genome.add_link(&mut counter, 0, 2, (i as i32) * 1000 - 3000).unwrap();
    }
    neat.global_inno_number = counter;
    let scorer = |genome: &Network| genome.links[0].weight.abs();
    assert_eq!(neat.train(scorer), Ok(()));
    assert_eq!(neat.global_inno_number, counter);
    // Scores: 3000, 2000, 1000, 0, 1000, 2000, 3000, 4000.
    let weights: Vec<i32> = neat.pop.iter().map(|genome| genome.links[0].weight).collect();
    assert_eq!(weights, vec![4000, -3000, 3000, -2000, 2000, 4000, -3000, 3000]);
    let scores: Vec<i32> = neat.pop.iter().map(|genome| genome.fitness).collect();
    assert_eq!(scores, vec![4000, 3000, 3000, 2000, 2000, 4000, 3000, 3000]);
    for genome in &neat.pop {
        assert_eq!(genome.links.len(), 1);
        assert_eq!(genome.nodes.len(), 3);
    }
}

#[test]
fn a_generation_numbers_new_links_apart() {
    let mut neat = NEAT::new(12, 3, 2);
    neat.elite = 2;
    neat.add_connection_chance = ONE;
    neat.add_node_chance = ONE;
    for _ in 0..5 {
        let before = neat.global_inno_number;
        let old: Vec<u32> = neat
            .pop
            .iter()
            .flat_map(|genome| genome.links.iter().map(|link| link.inno_number))
            .collect();
        assert_eq!(neat.train(|genome: &Network| genome.nodes.len() as i32), Ok(()));
        let mut fresh: Vec<u32> = Vec::new();
        for genome in &neat.pop[..10] {
            for link in &genome.links {
                if link.inno_number >= before {
                    fresh.push(link.inno_number);
                }
            }
        }
        // Every id from the old counter up to the new one was given out once.
        let all: Vec<u32> = (before..neat.global_inno_number).collect();
        assert_eq!(fresh, all);
        for id in &old {
            assert!(*id < before);
        }
    }
}

#[test]
fn a_generation_without_new_links_keeps_weights_within_one() {
    let mut neat = NEAT::new(10, 2, 1);
    neat.elite = 1;
    neat.add_connection_chance = 0;
    neat.add_node_chance = ONE;
    neat.change_weights_chance = ONE / 2;
    let mut counter = neat.global_inno_number;
    for genome in neat.pop.iter_mut() {
        genome.add_link(&mut counter, 0, 2, ONE).unwrap();
        genome.add_link(&mut counter, 1, 2, -ONE).unwrap();
    }
    neat.global_inno_number = counter;
    for _ in 0..40 {
        assert_eq!(neat.train(|genome: &Network| genome.links.len() as i32), Ok(()));
        for genome in &neat.pop {
            for link in &genome.links {
                assert!(link.weight >= -ONE && link.weight <= ONE);
            }
        }
    }
}

#[test]
fn a_genome_that_offers_nothing_is_left_alone() {
    let mut neat = NEAT::new(4, 1, 1);
    neat.elite = 0;
    neat.change_weights_chance = 0;
    neat.add_node_chance = 0;
    neat.add_connection_chance = ONE;
    let mut counter = neat.global_inno_number;
    for genome in neat.pop.iter_mut() {
        genome.add_link(&mut counter, 0, 1, 77).unwrap();
    }
    neat.global_inno_number = counter;
    // The one pair of nodes is linked in every genome: no link can be added.
    assert_eq!(neat.train(|_: &Network| 0), Ok(()));
    assert_eq!(neat.generation, 1);
    assert_eq!(neat.global_inno_number, counter);
    for genome in &neat.pop {
        assert_eq!(genome.links.len(), 1);
        assert_eq!(genome.links[0].weight, 77);
    }
    // Without an enabled link there is nothing to split either.
    let mut bare = NEAT::new(4, 1, 1);
    bare.elite = 0;
    bare.add_node_chance = ONE;
    bare.add_connection_chance = 0;
    assert_eq!(bare.train(|_: &Network| 0), Ok(()));
    assert_eq!(bare.global_inno_number, 1);
    for genome in &bare.pop {
        assert_eq!(genome.nodes.len(), 2);
        assert_eq!(genome.links.len(), 0);
    }
}

#[test]
fn mutate_takes_what_the_chances_make_certain() {
    let neat = NEAT::new(1, 2, 1);
    let mut rates = still(&neat);
    rates.change_weights_chance = ONE;
    rates.add_node_chance = ONE;
    rates.add_connection_chance = ONE;
    let mut counter: u32 = 0;
    let mut genome = Network::new(2, 2);
    genome.add_link(&mut counter, 0, 2, 5 * ONE).unwrap();
    genome.mutate(&mut counter, &rates);
    // The weight was changed, the link was split, and a link was added:
    // after the split every node of the genome had another to be linked to.
    assert_eq!(genome.nodes.len(), 5);
    assert_eq!(genome.links.len(), 4);
    assert_eq!(counter, 4);
    assert!(genome.links[0].weight >= -ONE && genome.links[0].weight <= ONE);
    assert_eq!(genome.links[2].weight, genome.links[0].weight);
    assert!(!genome.links[0].enabled);
    let ids: Vec<u32> = genome.links.iter().map(|link| link.inno_number).collect();
    assert_eq!(ids, vec![0, 1, 2, 3]);
}
