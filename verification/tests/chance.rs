use neat::error::NeatError;
use neat::fixed::ONE;
use neat::mutation::LINK_WEIGHT_LIMIT;
use neat::neat::{chance_hit, random, random_bool, weighted_bool};
use neat::network::Network;
use neat::node::NodeType;
use neat::rng::{place_draw, random_between, random_index};

#[test]
fn random_index_stays_below_the_count() {
    assert_eq!(random_index(1), 0);
    let mut seen = [false; 5];
    for _ in 0..500 {
        let draw = random_index(5);
        assert!(draw < 5);
        seen[draw] = true;
    }
    assert_eq!(seen, [true; 5]);
}

#[test]
fn random_between_stays_in_its_range() {
    assert_eq!(random_between(3, 4), 3);
    assert_eq!(random_between(-1, 0), -1);
    assert_eq!(random_between(i32::MAX - 1, i32::MAX), i32::MAX - 1);
    let mut low = false;
    let mut high = false;
    for _ in 0..2000 {
        let draw = random_between(-2, 2);
        assert!((-2..2).contains(&draw));
        low |= draw == -2;
        high |= draw == 1;
    }
    assert!(low && high);
    for _ in 0..200 {
        let draw = random_between(i32::MIN, i32::MAX);
        assert!(draw < i32::MAX);
    }
}

#[test]
fn random_is_a_fraction() {
    for _ in 0..2000 {
        let draw = random();
        assert!((0..ONE).contains(&draw));
    }
}

#[test]
fn chances_at_the_ends_are_certain() {
    for _ in 0..500 {
        assert!(!weighted_bool(0));
        assert!(!weighted_bool(-5));
        assert!(weighted_bool(ONE));
        assert!(weighted_bool(i32::MAX));
    }
    assert!(chance_hit(0, 1));
    assert!(!chance_hit(1, 1));
    assert!(!chance_hit(65535, 65535));
    assert!(chance_hit(65535, ONE));
}

#[test]
fn random_bool_gives_both_answers() {
    let mut yes = 0;
    for _ in 0..2000 {
        if random_bool() {
            yes += 1;
        }
    }
    assert!(yes > 700 && yes < 1300, "{} of 2000", yes);
}

#[test]
fn perturbed_moves_by_the_draw_and_clamps() {
    // The draw 0.0 moves a weight down by half the amount.
    assert_eq!(Network::perturbed(0, 0, 32768), -16384);
    // The draw 0.5 leaves it where it is.
    assert_eq!(Network::perturbed(1000, 32768, 32768), 1000);
    // The largest draw moves it up by just less than half the amount.
    assert_eq!(Network::perturbed(0, 65535, 32768), 32767 - 16384);
    assert_eq!(Network::perturbed(60000, 65535, 32768), ONE);
    assert_eq!(Network::perturbed(-60000, 0, 32768), -ONE);
    assert_eq!(Network::perturbed(5 * ONE, 0, 0), ONE);
    assert_eq!(Network::perturbed(i32::MIN, 0, i32::MAX), -ONE);
    assert_eq!(Network::perturbed(i32::MAX, 65535, i32::MAX), ONE);
    assert_eq!(Network::perturbed(7, 12345, 0), 7);
}

#[test]
fn perturb_weights_moves_every_weight_a_little() {
    let mut counter: u32 = 0;
    let mut genome = Network::new(2, 2);
    genome.add_link(&mut counter, 0, 2, 1000).unwrap();
    genome.add_link(&mut counter, 1, 2, -40000).unwrap();
    genome.add_link(&mut counter, 1, 3, 4 * ONE).unwrap();
    genome.add_node(&mut counter, 0).unwrap();
    let before: Vec<_> = genome.links.clone();
    genome.perturb_weights(32768);
    assert_eq!(genome.links.len(), before.len());
    for (old, new) in before.iter().zip(&genome.links) {
        assert_eq!(
            (old.inno_number, old.in_index, old.out_index, old.enabled),
            (new.inno_number, new.in_index, new.out_index, new.enabled)
        );
        let target = old.weight.clamp(-ONE, ONE);
        assert!(new.weight >= -ONE && new.weight <= ONE);
        assert!((new.weight - target).abs() <= 16384);
    }
    assert_eq!(genome.nodes.len(), 5);
}

#[test]
fn randomize_weights_draws_within_one() {
    let mut counter: u32 = 0;
    let mut genome = Network::new(2, 1);
    genome.add_link(&mut counter, 0, 2, 5 * ONE).unwrap();
    genome.add_link(&mut counter, 1, 2, -5 * ONE).unwrap();
    for _ in 0..100 {
        genome.randomize_weights();
        for link in &genome.links {
            assert!(link.weight >= -ONE && link.weight <= ONE);
            assert!(link.enabled);
        }
        assert_eq!(genome.links[0].in_index, 0);
        assert_eq!(genome.links[1].inno_number, 1);
    }
}

#[test]
fn link_candidates_skip_linked_and_equal_nodes() {
    let mut counter: u32 = 0;
    let mut genome = Network::new(2, 2);
    assert_eq!(genome.link_candidates(0), vec![2, 3]);
    assert_eq!(genome.link_candidates(3), vec![0, 1]);
    genome.add_link(&mut counter, 0, 2, ONE).unwrap();
    assert_eq!(genome.link_candidates(0), vec![3]);
    assert_eq!(genome.link_candidates(2), vec![1]);
    assert!(genome.has_link_between(0, 2));
    assert!(genome.has_link_between(2, 0));
    assert!(!genome.has_link_between(0, 3));
    genome.add_node(&mut counter, 0).unwrap();
    // The disabled link still counts as a link between 0 and 2.
    assert_eq!(genome.link_candidates(0), vec![3]);
    assert_eq!(genome.link_candidates(4), vec![1, 3]);
    assert_eq!(genome.link_candidates(9), Vec::<usize>::new());
}

#[test]
fn add_random_link_fails_on_a_fully_linked_genome() {
    let mut counter: u32 = 0;
    let mut genome = Network::new(2, 2);
    for input in 0..2 {
        for output in 2..4 {
            genome.add_link(&mut counter, input, output, ONE).unwrap();
        }
    }
    for _ in 0..50 {
        assert_eq!(genome.add_random_link(&mut counter), Err(NeatError::NoCandidateError));
    }
    assert_eq!(counter, 4);
    assert_eq!(genome.links.len(), 4);
}

#[test]
fn add_random_link_fails_without_nodes() {
    let mut counter: u32 = 0;
    let mut genome = Network::new(0, 0);
    assert_eq!(genome.add_random_link(&mut counter), Err(NeatError::NoCandidateError));
    let mut inputs_only = Network::new(3, 0);
    assert_eq!(inputs_only.add_random_link(&mut counter), Err(NeatError::NoCandidateError));
}

#[test]
fn add_random_link_fills_a_genome_without_duplicates() {
    let mut counter: u32 = 0;
    let mut genome = Network::new(3, 2);
    let mut added = 0;
    for _ in 0..400 {
        if genome.add_random_link(&mut counter).is_ok() {
            added += 1;
            let link = *genome.links.last().unwrap();
            assert_eq!(genome.nodes[link.in_index].node_type, NodeType::Input);
            assert_eq!(genome.nodes[link.out_index].node_type, NodeType::Output);
            assert!(link.weight >= -LINK_WEIGHT_LIMIT && link.weight < LINK_WEIGHT_LIMIT);
            assert_eq!(link.inno_number, counter - 1);
        }
    }
    assert_eq!(added, 6);
    assert_eq!(genome.links.len(), 6);
    for a in 0..6 {
        for b in 0..a {
            let (x, y) = (genome.links[a], genome.links[b]);
            assert!((x.in_index, x.out_index) != (y.in_index, y.out_index));
        }
    }
}

#[test]
fn add_random_node_splits_an_enabled_link() {
    let mut counter: u32 = 0;
    let mut genome = Network::new(1, 1);
    assert_eq!(genome.add_random_node(&mut counter), Err(NeatError::NoLinksAvailable));
    genome.add_link(&mut counter, 0, 1, 300).unwrap();
    assert_eq!(genome.add_random_node(&mut counter), Ok(()));
    assert_eq!(counter, 3);
    assert!(!genome.links[0].enabled);
    assert_eq!(genome.nodes.len(), 3);
    for _ in 0..10 {
        let enabled = genome.enabled_links().len();
        assert_eq!(genome.add_random_node(&mut counter), Ok(()));
        assert_eq!(genome.enabled_links().len(), enabled + 1);
    }
    genome.links.iter_mut().for_each(|link| link.enabled = false);
    assert_eq!(genome.add_random_node(&mut counter), Err(NeatError::NoLinksAvailable));
}

#[test]
fn every_error_has_a_message() {
    for error in [
        NeatError::InvalidTopology,
        NeatError::NoCandidateError,
        NeatError::NoLinksAvailable,
        NeatError::ConfigError,
    ] {
        assert!(!error.message().is_empty());
    }
    assert_eq!(NeatError::NoLinksAvailable.message(), "no links available");
}

#[test]
fn place_draw_counts_up_from_the_low_end() {
    assert_eq!(place_draw(3, 4, 0), 3);
    assert_eq!(place_draw(-5, 5, 0), -5);
    assert_eq!(place_draw(-5, 5, 9), 4);
    assert_eq!(place_draw(0, 65536, 65535), 65535);
    assert_eq!(place_draw(i32::MIN, i32::MAX, 0), i32::MIN);
    assert_eq!(place_draw(i32::MIN, i32::MAX, 4294967294), i32::MAX - 1);
    assert_eq!(place_draw(i32::MIN, i32::MAX, 2147483648), 0);
}
