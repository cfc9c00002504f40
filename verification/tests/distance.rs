use neat::fixed::ONE;
use neat::neat::NEAT;
use neat::network::Network;
use neat::node::Link;

fn genome(links: &[(u32, i32)]) -> Network {
    let mut genome = Network::new(1, 1);
    for &(id, weight) in links {
        genome.links.push(Link::new(id, 0, 1, weight));
    }
    genome
}

fn measure(c1: i32, c2: i32, c3: i32) -> NEAT {
    let mut neat = NEAT::new(0, 1, 1);
    neat.c1 = c1;
    neat.c2 = c2;
    neat.c3 = c3;
    neat
}

#[test]
fn distance_counts_excess_disjoint_and_weight_gap() {
    let a = genome(&[(1, ONE), (2, 0), (4, 100), (8, 7)]);
    let b = genome(&[(1, 0), (3, 5), (4, -100), (5, 1), (6, 2)]);
    // Newest ids: 8 and 6. Excess: id 8 of a. Disjoint: id 2 of a; ids 3, 5, 6 of b.
    assert_eq!(a.newest_innovation(), 8);
    assert_eq!(b.newest_innovation(), 6);
    assert_eq!(a.lone_links(&b), (1, 1));
    assert_eq!(b.lone_links(&a), (0, 3));
    // Matching: ids 1 and 4, gaps 65536 and 200.
    assert_eq!(a.matching_links(&b), (2, 65736));
    let neat = measure(ONE, 2 * ONE, ONE / 2);
    // 1.0 * 1 / 5 + 2.0 * 4 / 5 + 0.5 * 32868
    let expected = 65536 / 5 + 2 * 65536 * 4 / 5 + (32768i64 * 32868) / 65536;
    assert_eq!(neat.get_distance(&a, &b), expected);
    assert_eq!(neat.get_distance(&b, &a), expected);
}

#[test]
fn distance_is_symmetric() {
    let genomes = [
        genome(&[]),
        genome(&[(1, 5)]),
        genome(&[(1, -5), (2, 9)]),
        genome(&[(3, ONE), (7, -ONE), (9, 3)]),
        genome(&[(2, 1), (3, 2), (4, 3), (5, 4), (11, 5)]),
        genome(&[(4, 1), (4, 200), (5, 7)]),
    ];
    let neat = measure(ONE, ONE, 26214);
    for a in &genomes {
        for b in &genomes {
            assert_eq!(neat.get_distance(a, b), neat.get_distance(b, a));
        }
    }
}

#[test]
fn distance_to_itself_is_zero() {
    let neat = measure(ONE, ONE, 26214);
    for links in [vec![], vec![(1, 5)], vec![(1, -5), (2, 9), (40, ONE)]] {
        let a = genome(&links);
        assert_eq!(neat.get_distance(&a, &a), 0);
        assert_eq!(neat.get_distance(&a, &a.clone()), 0);
    }
}

#[test]
fn distance_to_itself_with_a_repeated_id_is_the_mean_gap() {
    // Two links with one id match each other too: four pairs, two of them
    // with a gap of 1.0.
    let a = genome(&[(1, 0), (1, ONE)]);
    let neat = measure(ONE, ONE, ONE);
    assert_eq!(a.matching_links(&a), (4, 2 * ONE as u128));
    assert_eq!(neat.get_distance(&a, &a), (ONE / 2) as i64);
}

#[test]
fn distance_of_genomes_without_links_is_zero() {
    let neat = measure(ONE, ONE, ONE);
    assert_eq!(neat.get_distance(&genome(&[]), &genome(&[])), 0);
}

#[test]
fn distance_against_an_empty_genome_is_all_excess() {
    let a = genome(&[(0, 1), (1, 2), (2, 3)]);
    let empty = genome(&[]);
    assert_eq!(empty.newest_innovation(), -1);
    assert_eq!(a.lone_links(&empty), (3, 0));
    assert_eq!(empty.lone_links(&a), (0, 0));
    let neat = measure(3 * ONE, ONE, ONE);
    assert_eq!(neat.get_distance(&a, &empty), 3 * ONE as i64);
}

#[test]
fn has_innovation_finds_ids() {
    let a = genome(&[(3, 1), (9, 2)]);
    assert!(a.has_innovation(3));
    assert!(a.has_innovation(9));
    assert!(!a.has_innovation(4));
    assert!(!genome(&[]).has_innovation(0));
}
