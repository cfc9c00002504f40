use neat::error::NeatError;
use neat::fixed::ONE;
use neat::network::Network;
use neat::node::{Link, Node, NodeType};

// Colours: 0 unseen, 1 on the stack, 2 done.
fn visit(genome: &Network, node: usize, colour: &mut Vec<u8>) -> bool {
    colour[node] = 1;
    for link in &genome.links {
        if link.enabled && link.in_index == node {
            let next = link.out_index;
            if colour[next] == 1 {
                return true;
            }
            if colour[next] == 0 && visit(genome, next, colour) {
                return true;
            }
        }
    }
    colour[node] = 2;
    false
}

fn has_cycle(genome: &Network) -> bool {
    let mut colour = vec![0u8; genome.nodes.len()];
    for node in 0..genome.nodes.len() {
        if colour[node] == 0 && visit(genome, node, &mut colour) {
            return true;
        }
    }
    false
}

fn depth(node: &Node) -> u64 {
    match node.node_type {
        NodeType::Input => 0,
        NodeType::Hidden => node.level as u64,
        NodeType::Output => 1 << 32,
    }
}

fn layered(genome: &Network) -> bool {
    genome.links.iter().all(|link| {
        !link.enabled || depth(&genome.nodes[link.in_index]) < depth(&genome.nodes[link.out_index])
    })
}

#[test]
fn new_genome_has_inputs_then_outputs() {
    let genome = Network::new(3, 2);
    assert_eq!(genome.nodes.len(), 5);
    assert_eq!(genome.links.len(), 0);
    assert_eq!(genome.input_count, 3);
    assert_eq!(genome.output_count, 2);
    assert_eq!(genome.fitness, 0);
    for i in 0..3 {
        assert_eq!(genome.nodes[i].node_type, NodeType::Input);
        assert_eq!(genome.nodes[i].level, 0);
    }
    for i in 3..5 {
        assert_eq!(genome.nodes[i].node_type, NodeType::Output);
        assert_eq!(genome.nodes[i].level, 0);
    }
}

#[test]
fn node_new_picks_the_lowest_layer() {
    assert_eq!(Node::new(NodeType::Input).level, 0);
    assert_eq!(Node::new(NodeType::Output).level, 0);
    assert_eq!(Node::new(NodeType::Hidden).level, 1);
    assert_eq!(Node::new(NodeType::Hidden).node_type, NodeType::Hidden);
}

#[test]
fn node_types_compare_by_kind() {
    assert!(NodeType::Input == NodeType::Input);
    assert!(NodeType::Output == NodeType::Output);
    assert!(NodeType::Hidden == NodeType::Hidden);
    assert!(NodeType::Input != NodeType::Output);
    assert!(NodeType::Output != NodeType::Hidden);
    assert!(NodeType::Hidden != NodeType::Input);
}

#[test]
fn link_new_is_enabled() {
    let link = Link::new(7, 1, 2, -300);
    assert_eq!(link.inno_number, 7);
    assert_eq!(link.in_index, 1);
    assert_eq!(link.out_index, 2);
    assert_eq!(link.weight, -300);
    assert!(link.enabled);
}

#[test]
fn add_link_orders_input_before_output() {
    let mut counter: u32 = 10;
    let mut genome = Network::new(2, 1);
    assert_eq!(genome.add_link(&mut counter, 2, 0, 77), Ok(()));
    assert_eq!(counter, 11);
    assert_eq!(genome.links.len(), 1);
    let link = genome.links[0];
    assert_eq!(
        (link.inno_number, link.in_index, link.out_index, link.weight, link.enabled),
        (10, 0, 2, 77, true)
    );
    assert_eq!(genome.add_link(&mut counter, 1, 2, -5), Ok(()));
    assert_eq!(counter, 12);
    let link = genome.links[1];
    assert_eq!((link.inno_number, link.in_index, link.out_index), (11, 1, 2));
}

#[test]
fn add_link_keeps_outputs_as_destinations() {
    let mut counter: u32 = 0;
    let mut genome = Network::new(1, 1);
    genome.add_link(&mut counter, 0, 1, ONE).unwrap();
    genome.add_node(&mut counter, 0).unwrap();
    // Hidden node 2 on layer 1 and the output: the output is the destination
    // however the two are named.
    assert_eq!(genome.add_link(&mut counter, 1, 2, 3), Ok(()));
    let link = *genome.links.last().unwrap();
    assert_eq!((link.in_index, link.out_index), (2, 1));
    assert_eq!(genome.add_link(&mut counter, 2, 0, 3), Ok(()));
    let link = *genome.links.last().unwrap();
    assert_eq!((link.in_index, link.out_index), (0, 2));
}

#[test]
fn add_link_orders_hidden_nodes_by_layer() {
    let mut counter: u32 = 0;
    let mut genome = Network::new(1, 1);
    genome.add_link(&mut counter, 0, 1, ONE).unwrap();
    genome.add_node(&mut counter, 0).unwrap(); // node 2, layer 1
    genome.add_node(&mut counter, 2).unwrap(); // node 3, layer 2, splits 2 -> 1
    assert_eq!(genome.nodes[2].level, 1);
    assert_eq!(genome.nodes[3].level, 2);
    assert_eq!(genome.add_link(&mut counter, 3, 2, 9), Ok(()));
    let link = *genome.links.last().unwrap();
    assert_eq!((link.in_index, link.out_index), (2, 3));
}

#[test]
fn add_link_rejects_a_node_with_itself() {
    let mut counter: u32 = 1;
    let mut genome = Network::new(2, 1);
    for a in 0..3 {
        assert_eq!(genome.add_link(&mut counter, a, a, 5), Err(NeatError::InvalidTopology));
    }
    assert_eq!(counter, 1);
    assert_eq!(genome.links.len(), 0);
    genome.add_link(&mut counter, 0, 2, ONE).unwrap();
    genome.add_node(&mut counter, 0).unwrap();
    assert_eq!(genome.add_link(&mut counter, 3, 3, 5), Err(NeatError::InvalidTopology));
}

#[test]
fn add_link_rejects_equal_kind_and_layer() {
    let mut counter: u32 = 1;
    let mut genome = Network::new(2, 2);
    assert_eq!(genome.add_link(&mut counter, 0, 1, 5), Err(NeatError::InvalidTopology));
    assert_eq!(genome.add_link(&mut counter, 2, 3, 5), Err(NeatError::InvalidTopology));
    genome.add_link(&mut counter, 0, 2, ONE).unwrap();
    genome.add_link(&mut counter, 1, 2, ONE).unwrap();
    genome.add_node(&mut counter, 0).unwrap();
    genome.add_node(&mut counter, 1).unwrap();
    // Two hidden nodes on layer 1.
    assert_eq!(genome.nodes[4].level, 1);
    assert_eq!(genome.nodes[5].level, 1);
    let links = genome.links.len();
    let before = counter;
    assert_eq!(genome.add_link(&mut counter, 4, 5, 5), Err(NeatError::InvalidTopology));
    assert_eq!(genome.links.len(), links);
    assert_eq!(counter, before);
}

#[test]
fn add_link_rejects_missing_nodes() {
    let mut counter: u32 = 1;
    let mut genome = Network::new(1, 1);
    assert_eq!(genome.add_link(&mut counter, 0, 2, 5), Err(NeatError::InvalidTopology));
    assert_eq!(genome.add_link(&mut counter, 9, 1, 5), Err(NeatError::InvalidTopology));
    assert_eq!(genome.links.len(), 0);
}

#[test]
fn add_node_rewires_the_link() {
    let mut counter: u32 = 4;
    let mut genome = Network::new(2, 1);
    genome.add_link(&mut counter, 1, 2, -12345).unwrap();
    assert_eq!(genome.add_node(&mut counter, 0), Ok(()));
    assert_eq!(counter, 7);
    assert_eq!(genome.nodes.len(), 4);
    assert_eq!(genome.links.len(), 3);
    let split = genome.links[0];
    assert!(!split.enabled);
    assert_eq!(
        (split.inno_number, split.in_index, split.out_index, split.weight),
        (4, 1, 2, -12345)
    );
    let first = genome.links[1];
    assert_eq!(
        (first.inno_number, first.in_index, first.out_index, first.weight, first.enabled),
        (5, 1, 3, ONE, true)
    );
    let second = genome.links[2];
    assert_eq!(
        (second.inno_number, second.in_index, second.out_index, second.weight, second.enabled),
        (6, 3, 2, -12345, true)
    );
    assert_eq!(genome.nodes[3].node_type, NodeType::Hidden);
    assert_eq!(genome.nodes[3].level, genome.nodes[1].level + 1);
    // The output keeps its layer.
    assert_eq!(genome.nodes[2].level, 0);
}

#[test]
fn add_node_raises_a_destination_one_layer_up() {
    let mut counter: u32 = 0;
    let mut genome = Network::new(1, 1);
    genome.add_link(&mut counter, 0, 1, ONE).unwrap();
    genome.add_node(&mut counter, 0).unwrap(); // node 2 on layer 1, links 0->2 (1), 2->1 (2)
    assert_eq!(genome.nodes[2].level, 1);
    // Splitting 0 -> 2 puts the new node on layer 1, where node 2 stands.
    genome.add_node(&mut counter, 1).unwrap();
    assert_eq!(genome.nodes[3].level, 1);
    assert_eq!(genome.nodes[2].level, 2);
    // Splitting 2 -> 1 leaves the output where it is.
    genome.add_node(&mut counter, 2).unwrap();
    assert_eq!(genome.nodes[4].level, 3);
    assert_eq!(genome.nodes[1].level, 0);
    assert!(layered(&genome));
}

#[test]
fn add_node_keeps_a_destination_further_up() {
    let mut counter: u32 = 0;
    let mut genome = Network::new(1, 1);
    genome.add_link(&mut counter, 0, 1, ONE).unwrap();
    genome.add_node(&mut counter, 0).unwrap(); // node 2, layer 1
    genome.add_node(&mut counter, 2).unwrap(); // node 3, layer 2, between 2 and the output
    genome.add_link(&mut counter, 0, 3, 5).unwrap(); // input -> node 3 (layer 2)
    let index = genome.links.len() - 1;
    genome.add_node(&mut counter, index).unwrap();
    assert_eq!(genome.nodes[4].level, 1);
    assert_eq!(genome.nodes[3].level, 2);
}

#[test]
fn add_node_needs_an_enabled_link() {
    let mut counter: u32 = 0;
    let mut genome = Network::new(1, 1);
    assert_eq!(genome.add_node(&mut counter, 0), Err(NeatError::NoLinksAvailable));
    genome.add_link(&mut counter, 0, 1, ONE).unwrap();
    assert_eq!(genome.add_node(&mut counter, 1), Err(NeatError::NoLinksAvailable));
    genome.add_node(&mut counter, 0).unwrap();
    let before = counter;
    assert_eq!(genome.add_node(&mut counter, 0), Err(NeatError::NoLinksAvailable));
    assert_eq!(counter, before);
    assert_eq!(genome.nodes.len(), 3);
    assert_eq!(genome.links.len(), 3);
}

#[test]
fn filter_node_indexes_lists_in_order() {
    let mut counter: u32 = 0;
    let mut genome = Network::new(2, 2);
    genome.add_link(&mut counter, 0, 2, ONE).unwrap();
    genome.add_link(&mut counter, 1, 3, ONE).unwrap();
    genome.add_node(&mut counter, 0).unwrap();
    genome.add_node(&mut counter, 1).unwrap();
    assert_eq!(genome.filter_node_indexes(NodeType::Input, 0), vec![0, 1]);
    assert_eq!(genome.filter_node_indexes(NodeType::Output, 0), vec![2, 3]);
    assert_eq!(genome.filter_node_indexes(NodeType::Hidden, 1), vec![4, 5]);
    assert_eq!(genome.filter_node_indexes(NodeType::Hidden, 2), Vec::<usize>::new());
    assert_eq!(genome.filter_node_indexes(NodeType::Input, 1), Vec::<usize>::new());
}

#[test]
fn input_links_lists_disabled_links_too() {
    let mut counter: u32 = 0;
    let mut genome = Network::new(2, 1);
    genome.add_link(&mut counter, 0, 2, ONE).unwrap();
    genome.add_link(&mut counter, 1, 2, ONE).unwrap();
    genome.add_node(&mut counter, 0).unwrap();
    assert_eq!(genome.input_links(2), vec![0, 1, 3]);
    assert_eq!(genome.input_links(3), vec![2]);
    assert_eq!(genome.input_links(0), Vec::<usize>::new());
    assert_eq!(genome.enabled_links(), vec![1, 2, 3]);
}

#[test]
fn clone_copies_everything() {
    let mut counter: u32 = 0;
    let mut genome = Network::new(2, 1);
    genome.add_link(&mut counter, 0, 2, 17).unwrap();
    genome.add_node(&mut counter, 0).unwrap();
    genome.fitness = 99;
    let copy = genome.clone();
    assert_eq!(copy.nodes.len(), genome.nodes.len());
    assert_eq!(copy.links.len(), genome.links.len());
    for i in 0..copy.nodes.len() {
        assert_eq!(copy.nodes[i].node_type, genome.nodes[i].node_type);
        assert_eq!(copy.nodes[i].level, genome.nodes[i].level);
    }
    for k in 0..copy.links.len() {
        let (a, b) = (copy.links[k], genome.links[k]);
        assert_eq!(
            (a.inno_number, a.in_index, a.out_index, a.weight, a.enabled),
            (b.inno_number, b.in_index, b.out_index, b.weight, b.enabled)
        );
    }
    assert_eq!((copy.input_count, copy.output_count, copy.fitness), (2, 1, 99));
}

#[test]
fn mutations_on_fresh_layers_make_no_cycle() {
    let mut counter: u32 = 0;
    let mut genome = Network::new(2, 2);
    genome.add_link(&mut counter, 0, 2, ONE).unwrap();
    genome.add_link(&mut counter, 1, 3, ONE).unwrap();
    genome.add_link(&mut counter, 0, 3, ONE).unwrap();
    genome.add_node(&mut counter, 0).unwrap(); // node 4
    genome.add_node(&mut counter, 1).unwrap(); // node 5
    genome.add_node(&mut counter, 4).unwrap(); // node 6 after node 4
    genome.add_link(&mut counter, 6, 5, ONE).unwrap();
    genome.add_link(&mut counter, 4, 3, ONE).unwrap();
    genome.add_node(&mut counter, 2).unwrap();
    assert!(layered(&genome));
    assert!(!has_cycle(&genome));
}

#[test]
fn random_mutations_keep_layered_genomes_free_of_cycles() {
    for _ in 0..40 {
        let mut counter: u32 = 0;
        let mut genome = Network::new(3, 2);
        for _ in 0..60 {
            if neat::neat::random_bool() {
                let _ = genome.add_random_link(&mut counter);
            } else {
                let _ = genome.add_random_node(&mut counter);
            }
            if !layered(&genome) {
                break;
            }
            assert!(!has_cycle(&genome));
        }
    }
}

#[test]
fn a_split_below_a_chain_can_crowd_a_layer() {
    let mut counter: u32 = 0;
    let mut genome = Network::new(1, 1);
    genome.add_link(&mut counter, 0, 1, ONE).unwrap(); // link 0: 0 -> 1
    genome.add_node(&mut counter, 0).unwrap(); // node 2 (layer 1); links 1: 0 -> 2, 2: 2 -> 1
    genome.add_node(&mut counter, 2).unwrap(); // node 3 (layer 2); links 3: 2 -> 3, 4: 3 -> 1
    assert!(layered(&genome));
    // Splitting 0 -> 2 raises node 2 to layer 2, where node 3 stands, though
    // the link 2 -> 3 is still there.
    genome.add_node(&mut counter, 1).unwrap();
    assert_eq!(genome.nodes[2].level, 2);
    assert_eq!(genome.nodes[3].level, 2);
    assert!(!layered(&genome));
    assert!(!has_cycle(&genome));
}

#[test]
fn a_link_against_a_crowded_layer_can_close_a_cycle() {
    let mut counter: u32 = 0;
    let mut genome = Network::new(1, 1);
    genome.add_link(&mut counter, 0, 1, ONE).unwrap(); // link 0: 0 -> 1
    genome.add_node(&mut counter, 0).unwrap(); // node 2; links 1: 0 -> 2, 2: 2 -> 1
    genome.add_node(&mut counter, 2).unwrap(); // node 3; links 3: 2 -> 3, 4: 3 -> 1
    genome.add_node(&mut counter, 1).unwrap(); // node 4; links 5: 0 -> 4, 6: 4 -> 2
    genome.add_node(&mut counter, 6).unwrap(); // node 5; links 7: 4 -> 5, 8: 5 -> 2
    genome.add_node(&mut counter, 3).unwrap(); // node 6; links 9: 2 -> 6, 10: 6 -> 3
    genome.add_node(&mut counter, 10).unwrap(); // node 7; links 11: 6 -> 7, 12: 7 -> 3
    genome.add_node(&mut counter, 7).unwrap(); // node 8; links 13: 4 -> 8, 14: 8 -> 5
    assert!(!has_cycle(&genome));
    // Node 5 now stands above node 3, though a walk leads from 5 to 3.
    assert_eq!(genome.nodes[5].level, 3);
    assert_eq!(genome.nodes[3].level, 2);
    assert!(!layered(&genome));
    assert_eq!(genome.link_candidates(5).contains(&3), true);
    genome.add_link(&mut counter, 5, 3, ONE).unwrap();
    let link = *genome.links.last().unwrap();
    assert_eq!((link.in_index, link.out_index), (3, 5));
    assert!(has_cycle(&genome));
}

#[test]
fn genomes_compare_by_score_with_the_fitter_first() {
    let mut counter: u32 = 0;
    let mut weak = Network::new(1, 1);
    weak.fitness = 10;
    let mut strong = Network::new(2, 2);
    strong.add_link(&mut counter, 0, 2, ONE).unwrap();
    strong.fitness = 20;
    let mut twin = Network::new(1, 1);
    twin.fitness = 20;
    assert!(strong < weak);
    assert!(weak > strong);
    assert!(strong == twin);
    assert!(strong != weak);
    assert!(strong <= twin && strong >= twin);
    assert_eq!(strong.partial_cmp(&weak), Some(std::cmp::Ordering::Less));
    assert_eq!(weak.partial_cmp(&strong), Some(std::cmp::Ordering::Greater));
    assert_eq!(twin.partial_cmp(&strong), Some(std::cmp::Ordering::Equal));
}

#[test]
fn well_formed_genomes_pass_the_test() {
    let mut counter: u32 = 0;
    let mut genome = Network::new(2, 1);
    assert!(genome.is_well_formed());
    genome.add_link(&mut counter, 0, 2, ONE).unwrap();
    genome.add_node(&mut counter, 0).unwrap();
    genome.add_node(&mut counter, 1).unwrap();
    assert!(genome.is_well_formed());
    assert!(genome.ids_in_order(counter));
    assert!(!genome.ids_in_order(counter - 1));
    assert!(Network::new(0, 0).is_well_formed());
    assert!(Network::new(0, 0).ids_in_order(0));
}

#[test]
fn malformed_genomes_fail_the_test() {
    let mut counter: u32 = 0;
    let mut genome = Network::new(2, 1);
    genome.add_link(&mut counter, 0, 2, ONE).unwrap();
    genome.add_node(&mut counter, 0).unwrap();

    let mut short = genome.clone();
    short.input_count = 9;
    assert!(!short.is_well_formed());

    let mut raised = genome.clone();
    raised.nodes[0].level = 1;
    assert!(!raised.is_well_formed());

    let mut swapped = genome.clone();
    swapped.nodes[2].node_type = NodeType::Hidden;
    assert!(!swapped.is_well_formed());

    let mut flat = genome.clone();
    flat.nodes[3].level = 0;
    assert!(!flat.is_well_formed());

    let mut high = genome.clone();
    high.nodes[3].level = 2;
    assert!(!high.is_well_formed());

    let mut dangling = genome.clone();
    dangling.links[1].out_index = 4;
    assert!(!dangling.is_well_formed());

    let mut repeated = genome.clone();
    repeated.links[2].inno_number = 1;
    assert!(repeated.is_well_formed());
    assert!(!repeated.ids_in_order(counter));
}
