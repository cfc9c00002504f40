use neat::evaluate::OutputRange;
use neat::fixed::ONE;
use neat::neat::evaluate_xor;
use neat::network::Network;

fn as_real(x: i32) -> f64 {
    x as f64 / ONE as f64
}

fn curve(x: f64) -> f64 {
    2.0 / (1.0 + (-x).exp()) - 1.0
}

#[test]
fn genome_without_links_answers_the_squashed_zero() {
    for outputs in 0..5u32 {
        let genome = Network::new(3, outputs);
        let symmetric = genome.evaluate(vec![ONE, -5 * ONE, 12345], OutputRange::Symmetric);
        assert_eq!(symmetric, vec![0; outputs as usize]);
        let unit = genome.evaluate(vec![ONE, -5 * ONE, 12345], OutputRange::Unit);
        assert_eq!(unit, vec![ONE / 2; outputs as usize]);
    }
}

#[test]
fn link_of_weight_zero_carries_nothing() {
    let mut counter: u32 = 0;
    let mut genome = Network::new(2, 1);
    genome.add_link(&mut counter, 0, 2, 0).unwrap();
    for inputs in [vec![0, 0], vec![ONE, ONE], vec![-7 * ONE, 3], vec![i32::MAX, i32::MIN]] {
        assert_eq!(genome.evaluate(inputs.clone(), OutputRange::Symmetric), vec![0]);
        assert_eq!(genome.evaluate(inputs, OutputRange::Unit), vec![ONE / 2]);
    }
}

#[test]
fn single_link_squashes_the_weighted_input() {
    let mut counter: u32 = 0;
    let mut genome = Network::new(2, 1);
    genome.add_link(&mut counter, 0, 2, 2 * ONE).unwrap();
    // 2.0 * 0.5 = 1.0, and the curve at 1.0 is the knot 30285.
    assert_eq!(genome.evaluate(vec![ONE / 2, 999], OutputRange::Symmetric), vec![30285]);
    assert_eq!(genome.evaluate(vec![ONE / 2, 999], OutputRange::Unit), vec![(30285 + ONE) / 2]);
    assert_eq!(genome.evaluate(vec![-ONE / 2, 999], OutputRange::Symmetric), vec![-30285]);
    assert_eq!(genome.evaluate(vec![-ONE / 2, 999], OutputRange::Unit), vec![(-30285 + ONE) / 2]);
}

#[test]
fn products_round_towards_zero() {
    let mut counter: u32 = 0;
    let mut genome = Network::new(1, 1);
    genome.add_link(&mut counter, 0, 1, 1).unwrap();
    // 1 * 65535 is less than one unit of the scale, whatever its sign.
    assert_eq!(genome.evaluate(vec![65535], OutputRange::Symmetric), vec![0]);
    assert_eq!(genome.evaluate(vec![-65535], OutputRange::Symmetric), vec![0]);
    // 3 * 65536 is three units: 3 / 8192 of the way to the first knot.
    assert_eq!(genome.evaluate(vec![3 * ONE], OutputRange::Symmetric), vec![4091 * 3 / 8192]);
}

#[test]
fn disabled_links_take_no_part() {
    let mut counter: u32 = 0;
    let mut genome = Network::new(1, 1);
    genome.add_link(&mut counter, 0, 1, ONE).unwrap();
    genome.links[0].enabled = false;
    assert_eq!(genome.evaluate(vec![5 * ONE], OutputRange::Symmetric), vec![0]);
}

#[test]
fn hidden_nodes_fire_before_the_outputs() {
    let mut counter: u32 = 0;
    let mut genome = Network::new(1, 1);
    genome.add_link(&mut counter, 0, 1, 2 * ONE).unwrap();
    genome.add_node(&mut counter, 0).unwrap();
    // input -> hidden with weight 1.0, hidden -> output with weight 2.0.
    let hidden = Network::sigmoid(ONE);
    let expected = Network::sigmoid(((2 * ONE) as i64 * hidden as i64 / ONE as i64) as i32);
    assert_eq!(genome.evaluate(vec![ONE], OutputRange::Symmetric), vec![expected]);
    let want = curve(2.0 * curve(1.0));
    assert!((as_real(expected) - want).abs() < 0.002);
}

#[test]
fn layers_fire_from_the_lowest_up() {
    let mut counter: u32 = 0;
    let mut genome = Network::new(1, 1);
    genome.add_link(&mut counter, 0, 1, ONE).unwrap();
    genome.add_node(&mut counter, 0).unwrap(); // node 2, layer 1
    genome.add_node(&mut counter, 2).unwrap(); // node 3, layer 2, between node 2 and the output
    genome.add_node(&mut counter, 1).unwrap(); // node 4, layer 1; node 2 moves to layer 2
    // Chain: input -> 4 -> 2 -> 3 -> output, but nodes 2 and 3 share layer 2
    // and fire in the order of their indices, so node 3 sees the value that
    // node 2 has just taken.
    let a = Network::sigmoid(ONE);
    let b = Network::sigmoid(a);
    let c = Network::sigmoid(b);
    let d = Network::sigmoid(c);
    assert_eq!(genome.evaluate(vec![ONE], OutputRange::Symmetric), vec![d]);
}

#[test]
fn sums_of_many_links_do_not_overflow() {
    let mut counter: u32 = 0;
    let mut genome = Network::new(4, 1);
    for input in 0..4 {
        genome.add_link(&mut counter, input, 4, i32::MAX).unwrap();
    }
    assert_eq!(
        genome.evaluate(vec![i32::MAX, i32::MAX, i32::MAX, i32::MAX], OutputRange::Symmetric),
        vec![65535]
    );
    assert_eq!(
        genome.evaluate(vec![i32::MIN, i32::MIN, i32::MIN, i32::MIN], OutputRange::Symmetric),
        vec![-65535]
    );
}

#[test]
fn outputs_come_in_the_order_of_the_nodes() {
    let mut counter: u32 = 0;
    let mut genome = Network::new(1, 3);
    genome.add_link(&mut counter, 0, 3, ONE).unwrap();
    genome.add_link(&mut counter, 0, 1, -ONE).unwrap();
    let out = genome.evaluate(vec![ONE], OutputRange::Symmetric);
    assert_eq!(out, vec![-30285, 0, 30285]);
}

#[test]
fn remap_halves_the_shifted_value() {
    assert_eq!(OutputRange::Symmetric.remap(-4000), -4000);
    assert_eq!(OutputRange::Unit.remap(0), ONE / 2);
    assert_eq!(OutputRange::Unit.remap(65535), 65535);
    assert_eq!(OutputRange::Unit.remap(-65535), 0);
    assert_eq!(OutputRange::Unit.remap(-ONE), 0);
    assert_eq!(OutputRange::Unit.remap(ONE), ONE);
}

#[test]
fn xor_fitness_of_a_genome_without_links() {
    // Every answer is 0.0: right in two cases, off by 1.0 in the other two.
    assert_eq!(evaluate_xor(Network::new(3, 1)), 32768);
}

#[test]
fn xor_fitness_rewards_the_right_answers() {
    let mut counter: u32 = 0;
    let mut genome = Network::new(3, 1);
    // Answers high where the first operand is set: right in two cases out
    // of four, and below 0.0 in the two others.
    genome.add_link(&mut counter, 0, 3, 5 * ONE).unwrap();
    genome.add_link(&mut counter, 2, 3, -5 * ONE / 2).unwrap();
    let low = Network::sigmoid(-5 * ONE / 2);
    let high = Network::sigmoid(5 * ONE / 2);
    assert_eq!(low, -high);
    let square = |x: i64| x * x;
    let error = square(0 - low as i64)
        + square((ONE - high) as i64)
        + square((ONE - low) as i64)
        + square(0 - high as i64);
    let expected = (ONE as i64 - error / (4 * ONE as i64)) as i32;
    assert_eq!(evaluate_xor(genome.clone()), expected);
    assert!(expected < 0 && expected > -ONE);
}

#[test]
fn xor_fitness_of_a_solution_is_close_to_one() {
    let mut counter: u32 = 0;
    let mut genome = Network::new(3, 1);
    genome.add_link(&mut counter, 0, 3, ONE).unwrap(); // link 0
    genome.add_link(&mut counter, 1, 3, ONE).unwrap(); // link 1
    genome.add_node(&mut counter, 0).unwrap(); // node 4; links 2: 0 -> 4, 3: 4 -> 3
    genome.add_node(&mut counter, 1).unwrap(); // node 5; links 4: 1 -> 5, 5: 5 -> 3
    genome.add_link(&mut counter, 1, 4, 20 * ONE).unwrap(); // link 6
    genome.add_link(&mut counter, 0, 5, 20 * ONE).unwrap(); // link 7
    genome.add_link(&mut counter, 2, 4, -10 * ONE).unwrap(); // link 8
    genome.add_link(&mut counter, 2, 5, -30 * ONE).unwrap(); // link 9
    genome.links[2].weight = 20 * ONE;
    genome.links[4].weight = 20 * ONE;
    // Node 4 answers "one of them", node 5 "both of them", each with 1.0
    // for yes and -1.0 for no; the output takes their difference, which is
    // 0.0 unless exactly one operand is set.
    genome.links[3].weight = 10 * ONE;
    genome.links[5].weight = -10 * ONE;
    assert!(genome.is_well_formed());
    let score = evaluate_xor(genome);
    assert!(score > 65000 && score <= ONE, "{}", score);
}
