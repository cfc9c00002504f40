use crate::breeding::{
    all_allowed, all_within, bred, bred_in_turn, one_of_each, step_allowed, step_rank, weights_of,
    Rates,
};
use crate::fixed::ONE;
use crate::mutation::perturbation;
use crate::network::NetworkView;
use crate::node::Link;
use crate::topology::{evolved, lemma_step_keeps_layers, mutated, Mutation};
use vstd::prelude::*;

verus! {

/// The link `after` is the link `before` as evolution can leave it: it has
/// its innovation id and its ends, and is enabled only if `before` is.
pub open spec fn descends_from(before: Link, after: Link) -> bool {
    &&& after.inno_number == before.inno_number
    &&& after.in_index == before.in_index
    &&& after.out_index == before.out_index
    &&& after.enabled ==> before.enabled
}

/// The genome `after` and the counter `next` continue the genome `net` and
/// the counter `counter`: the counter has not dropped; the genome has one
/// more link for each id that the counter gave out; these links stand at the
/// end and carry the ids in the order in which they were given out; and every
/// link that was there is still in its place, with its id and its ends.
pub open spec fn continues(net: NetworkView, counter: u32, after: NetworkView, next: u32) -> bool {
    &&& counter <= next
    &&& after.links.len() == net.links.len() + (next - counter)
    &&& after.nodes.len() >= net.nodes.len()
    &&& after.input_count == net.input_count
    &&& after.output_count == net.output_count
    &&& after.fitness == net.fitness
    &&& forall|k: int|
        0 <= k < net.links.len() ==> descends_from(net.links[k], #[trigger] after.links[k])
    &&& forall|i: int|
        0 <= i < next - counter ==> (#[trigger] after.links[net.links.len() + i]).inno_number
            == counter + i
}

/// One step continues a well-formed genome and its counter.
pub proof fn lemma_mutated_continues(net: NetworkView, counter: u32, step: Mutation)
    requires
        net.wf(),
    ensures
        mutated(net, counter, step).0.wf(),
        continues(net, counter, mutated(net, counter, step).0, mutated(net, counter, step).1),
{
    lemma_step_keeps_layers(net, counter, step);
    let after = mutated(net, counter, step).0;
    let next = mutated(net, counter, step).1;
    match step {
        Mutation::AddLink { first, second, weight } => {},
        Mutation::AddNode { link } => {
            if after != net {
                assert(net.link_fits(link));
                assert(after.links[net.links.len() as int].inno_number == counter);
                assert(after.links[net.links.len() as int + 1].inno_number == counter + 1);
            }
        },
        Mutation::SetWeights { weights } => {},
    }
}

/// To continue is transitive.
pub proof fn lemma_continues_on(
    net: NetworkView,
    counter: u32,
    middle: NetworkView,
    between: u32,
    after: NetworkView,
    next: u32,
)
    requires
        continues(net, counter, middle, between),
        continues(middle, between, after, next),
    ensures
        continues(net, counter, after, next),
{
    assert forall|k: int| 0 <= k < net.links.len() implies descends_from(
        net.links[k],
        #[trigger] after.links[k],
    ) by {
        assert(descends_from(net.links[k], middle.links[k]));
        assert(descends_from(middle.links[k], after.links[k]));
    }
    assert forall|i: int| 0 <= i < next - counter implies (#[trigger] after.links[net.links.len()
        + i]).inno_number == counter + i by {
        let at = net.links.len() + i;
        if i < between - counter {
            assert(middle.links[at].inno_number == counter + i);
            assert(descends_from(middle.links[at], after.links[at]));
        } else {
            let further = i - (between - counter);
            assert(after.links[middle.links.len() + further].inno_number == between + further);
        }
    }
}

/// Whatever sequence of steps a well-formed genome goes through, the outcome
/// continues it: the counter never drops, every id that it gives out stands
/// on a new link at the end of the genome, and no link loses its id or its
/// ends.
pub proof fn lemma_evolved_continues(net: NetworkView, counter: u32, steps: Seq<Mutation>)
    requires
        net.wf(),
    ensures
        evolved(net, counter, steps).0.wf(),
        continues(net, counter, evolved(net, counter, steps).0, evolved(net, counter, steps).1),
    decreases steps.len(),
{
    if steps.len() > 0 {
        let before = evolved(net, counter, steps.drop_last());
        lemma_evolved_continues(net, counter, steps.drop_last());
        lemma_mutated_continues(before.0, before.1, steps.last());
        let after = evolved(net, counter, steps);
        lemma_continues_on(net, counter, before.0, before.1, after.0, after.1);
    }
}

/// A bred genome continues its parent: its new links stand at its end and
/// carry the ids that the counter gave out, from `before` up to `after`.
pub proof fn lemma_bred_continues(
    parent: NetworkView,
    before: u32,
    rates: Rates,
    child: NetworkView,
    after: u32,
)
    requires
        parent.wf(),
        bred(parent, before, rates, child, after),
    ensures
        child.wf(),
        continues(parent, before, child, after),
{
    let steps = choose|steps: Seq<Mutation>|
        one_of_each(steps) && all_allowed(parent, before, rates, steps) && crate::breeding::all_due(
            parent,
            rates,
            steps,
            child,
        ) && (child, after) == #[trigger] evolved(parent, before, steps);
    lemma_evolved_continues(parent, before, steps);
}

/// With no positive chance, a generation leaves a genome and the counter as
/// they are.
pub proof fn lemma_bred_without_chances(
    parent: NetworkView,
    before: u32,
    rates: Rates,
    child: NetworkView,
    after: u32,
)
    requires
        bred(parent, before, rates, child, after),
        rates.change_weights_chance <= 0,
        rates.add_node_chance <= 0,
        rates.add_connection_chance <= 0,
    ensures
        child == parent,
        after == before,
{
    let steps = choose|steps: Seq<Mutation>|
        one_of_each(steps) && all_allowed(parent, before, rates, steps) && crate::breeding::all_due(
            parent,
            rates,
            steps,
            child,
        ) && (child, after) == #[trigger] evolved(parent, before, steps);
    if steps.len() > 0 {
        assert(step_allowed(evolved(parent, before, steps.drop_last()).0, rates, steps.last()));
    }
}

/// Allowed steps without a chance of new weights leave every link of a
/// well-formed genome with the weight it had.
proof fn lemma_evolved_keeps_weights(
    net: NetworkView,
    counter: u32,
    rates: Rates,
    steps: Seq<Mutation>,
)
    requires
        net.wf(),
        all_allowed(net, counter, rates, steps),
        rates.change_weights_chance <= 0,
    ensures
        evolved(net, counter, steps).0.wf(),
        evolved(net, counter, steps).0.links.len() >= net.links.len(),
        forall|k: int|
            0 <= k < net.links.len() ==> (#[trigger] evolved(net, counter, steps).0.links[k]).weight
                == net.links[k].weight,
    decreases steps.len(),
{
    if steps.len() > 0 {
        let before = evolved(net, counter, steps.drop_last());
        lemma_evolved_keeps_weights(net, counter, rates, steps.drop_last());
        lemma_step_keeps_layers(before.0, before.1, steps.last());
        let after = mutated(before.0, before.1, steps.last()).0;
        assert forall|k: int| 0 <= k < net.links.len() implies (#[trigger] after.links[k]).weight
            == net.links[k].weight by {
            assert(before.0.links[k].weight == net.links[k].weight);
        }
    }
}

/// A generation without a chance of new weights leaves every link with the
/// weight it had.
pub proof fn lemma_bred_keeps_weights(
    parent: NetworkView,
    before: u32,
    rates: Rates,
    child: NetworkView,
    after: u32,
    k: int,
)
    requires
        parent.wf(),
        bred(parent, before, rates, child, after),
        rates.change_weights_chance <= 0,
        0 <= k < parent.links.len(),
    ensures
        k < child.links.len(),
        child.links[k].weight == parent.links[k].weight,
{
    let steps = choose|steps: Seq<Mutation>|
        one_of_each(steps) && all_allowed(parent, before, rates, steps) && crate::breeding::all_due(
            parent,
            rates,
            steps,
            child,
        ) && (child, after) == #[trigger] evolved(parent, before, steps);
    lemma_evolved_keeps_weights(parent, before, rates, steps);
}

/// A perturbed weight lies within -1.0 and 1.0.
pub proof fn lemma_perturbation_within(before: int, after: int, amount: int)
    requires
        perturbation(before, after, amount),
    ensures
        -ONE <= after <= ONE,
{
}

/// One allowed step that adds no link leaves the weights of a well-formed
/// genome within -1.0 and 1.0, if they were.
proof fn lemma_step_weights_within(net: NetworkView, counter: u32, rates: Rates, step: Mutation)
    requires
        net.wf(),
        all_within(weights_of(net)),
        step_allowed(net, rates, step),
        rates.add_connection_chance <= 0,
    ensures
        all_within(weights_of(mutated(net, counter, step).0)),
{
    let after = mutated(net, counter, step).0;
    assert forall|k: int| 0 <= k < weights_of(after).len() implies -ONE
        <= #[trigger] weights_of(after)[k] <= ONE by {
        assert(weights_of(after)[k] == after.links[k].weight);
        if after != net {
            match step {
                Mutation::AddLink { first, second, weight } => {},
                Mutation::AddNode { link } => {
                    assert(net.link_fits(link));
                    if k < net.links.len() {
                        assert(after.links[k].weight == net.links[k].weight);
                        assert(weights_of(net)[k] == net.links[k].weight);
                    } else if k == net.links.len() {
                        assert(after.links[k].weight == ONE);
                    } else {
                        assert(after.links[k].weight == net.links[link].weight);
                        assert(weights_of(net)[link] == net.links[link].weight);
                    }
                },
                Mutation::SetWeights { weights } => {
                    assert(after.links[k].weight == weights[k]);
                    if crate::breeding::all_perturbed(net, weights, rates.perturb_amount as int) {
                        lemma_perturbation_within(
                            net.links[k].weight as int,
                            weights[k] as int,
                            rates.perturb_amount as int,
                        );
                    }
                },
            }
        } else {
            assert(weights_of(net)[k] == net.links[k].weight);
        }
    }
}

/// Allowed steps that add no link leave the weights of a well-formed genome
/// within -1.0 and 1.0, if they were.
proof fn lemma_evolved_weights_within(
    net: NetworkView,
    counter: u32,
    rates: Rates,
    steps: Seq<Mutation>,
)
    requires
        net.wf(),
        all_within(weights_of(net)),
        all_allowed(net, counter, rates, steps),
        rates.add_connection_chance <= 0,
    ensures
        evolved(net, counter, steps).0.wf(),
        all_within(weights_of(evolved(net, counter, steps).0)),
    decreases steps.len(),
{
    if steps.len() > 0 {
        let before = evolved(net, counter, steps.drop_last());
        lemma_evolved_weights_within(net, counter, rates, steps.drop_last());
        lemma_step_keeps_layers(before.0, before.1, steps.last());
        lemma_step_weights_within(before.0, before.1, rates, steps.last());
    }
}

/// A generation that adds no link keeps the weights of a genome within -1.0
/// and 1.0, if they were: a perturbation is limited to that range, a fresh
/// draw comes from it, and a split hands on the weight it finds, beside a
/// weight of 1.0.
pub proof fn lemma_bred_weights_within(
    parent: NetworkView,
    before: u32,
    rates: Rates,
    child: NetworkView,
    after: u32,
)
    requires
        parent.wf(),
        bred(parent, before, rates, child, after),
        all_within(weights_of(parent)),
        rates.add_connection_chance <= 0,
    ensures
        all_within(weights_of(child)),
{
    let steps = choose|steps: Seq<Mutation>|
        one_of_each(steps) && all_allowed(parent, before, rates, steps) && crate::breeding::all_due(
            parent,
            rates,
            steps,
            child,
        ) && (child, after) == #[trigger] evolved(parent, before, steps);
    lemma_evolved_weights_within(parent, before, rates, steps);
}

/// The genome offers nothing to a split and nothing to a link: it has no
/// enabled link, or splits have no chance, and no two of its nodes can be
/// linked.
pub open spec fn offers_nothing(net: NetworkView, rates: Rates) -> bool {
    &&& rates.add_node_chance <= 0 || forall|k: int| !#[trigger] net.enabled_at(k)
    &&& forall|a: int, b: int| !#[trigger] net.legal_pair(a, b)
}

/// Other weights change nothing in what a genome offers to a split or a
/// link.
proof fn lemma_reweighted_offers_nothing(net: NetworkView, other: NetworkView, rates: Rates)
    requires
        net.reweighted(other),
        offers_nothing(net, rates),
    ensures
        offers_nothing(other, rates),
{
    assert forall|a: int, b: int| !#[trigger] other.legal_pair(a, b) by {
        if other.legal_pair(a, b) {
            assert(!net.legal_pair(a, b));
            assert(net.linked(a, b));
            let k = choose|k: int| 0 <= k < net.links.len() && #[trigger] net.joins(k, a, b);
            assert(other.links[k].in_index == net.links[k].in_index);
            assert(other.joins(k, a, b));
        }
    }
    if !(rates.add_node_chance <= 0) {
        assert forall|k: int| !#[trigger] other.enabled_at(k) by {
            if other.enabled_at(k) {
                assert(other.links[k].enabled == net.links[k].enabled);
                assert(net.enabled_at(k));
            }
        }
    }
}

/// Allowed steps on a genome that offers nothing to a split or a link change
/// its weights at most.
proof fn lemma_evolved_offers_nothing(
    net: NetworkView,
    counter: u32,
    rates: Rates,
    steps: Seq<Mutation>,
)
    requires
        offers_nothing(net, rates),
        all_allowed(net, counter, rates, steps),
    ensures
        net.reweighted(evolved(net, counter, steps).0),
        evolved(net, counter, steps).1 == counter,
    decreases steps.len(),
{
    if steps.len() > 0 {
        let before = evolved(net, counter, steps.drop_last());
        lemma_evolved_offers_nothing(net, counter, rates, steps.drop_last());
        lemma_reweighted_offers_nothing(net, before.0, rates);
        let after = mutated(before.0, before.1, steps.last());
        match steps.last() {
            Mutation::AddLink { first, second, weight } => {
                assert(!before.0.legal_pair(first, second));
            },
            Mutation::AddNode { link } => {},
            Mutation::SetWeights { weights } => {
                assert forall|k: int| 0 <= k < net.links.len() implies #[trigger] after.0.links[k]
                    == (Link { weight: after.0.links[k].weight, ..net.links[k] }) by {
                    assert(before.0.links[k] == (Link {
                        weight: before.0.links[k].weight,
                        ..net.links[k]
                    }));
                }
            },
        }
    }
}

/// A genome that offers nothing to a split and nothing to a link comes out
/// of a generation with its nodes and links as they were, but for the
/// weights, and without an innovation id taken.
pub proof fn lemma_bred_offers_nothing(
    parent: NetworkView,
    before: u32,
    rates: Rates,
    child: NetworkView,
    after: u32,
)
    requires
        bred(parent, before, rates, child, after),
        offers_nothing(parent, rates),
    ensures
        parent.reweighted(child),
        after == before,
{
    let steps = choose|steps: Seq<Mutation>|
        one_of_each(steps) && all_allowed(parent, before, rates, steps) && crate::breeding::all_due(
            parent,
            rates,
            steps,
            child,
        ) && (child, after) == #[trigger] evolved(parent, before, steps);
    lemma_evolved_offers_nothing(parent, before, rates, steps);
}

/// A genome without an enabled link comes out of a generation with the nodes
/// it had.
pub proof fn lemma_bred_without_enabled_link(
    parent: NetworkView,
    before: u32,
    rates: Rates,
    child: NetworkView,
    after: u32,
)
    requires
        bred(parent, before, rates, child, after),
        forall|k: int| !#[trigger] parent.enabled_at(k),
    ensures
        child.nodes == parent.nodes,
{
    let steps = choose|steps: Seq<Mutation>|
        one_of_each(steps) && all_allowed(parent, before, rates, steps) && crate::breeding::all_due(
            parent,
            rates,
            steps,
            child,
        ) && (child, after) == #[trigger] evolved(parent, before, steps);
    lemma_evolved_without_enabled_link(parent, before, rates, steps);
}

/// Until a link is added, allowed steps on a genome without an enabled link
/// leave it without one and with the nodes it had; and a link adds no node.
proof fn lemma_evolved_without_enabled_link(
    net: NetworkView,
    counter: u32,
    rates: Rates,
    steps: Seq<Mutation>,
)
    requires
        forall|k: int| !#[trigger] net.enabled_at(k),
        all_allowed(net, counter, rates, steps),
        one_of_each(steps),
    ensures
        evolved(net, counter, steps).0.nodes == net.nodes,
        !crate::breeding::takes(steps, 2) ==> forall|k: int|
            !#[trigger] evolved(net, counter, steps).0.enabled_at(k),
    decreases steps.len(),
{
    if steps.len() > 0 {
        let shorter = steps.drop_last();
        let before = evolved(net, counter, shorter);
        assert(one_of_each(shorter)) by {
            assert forall|i: int, j: int| 0 <= i < j < shorter.len() implies step_rank(
                #[trigger] shorter[i],
            ) < step_rank(#[trigger] shorter[j]) by {
                assert(shorter[i] == steps[i] && shorter[j] == steps[j]);
            }
        }
        lemma_evolved_without_enabled_link(net, counter, rates, shorter);
        let after = mutated(before.0, before.1, steps.last());
        // No step before the last is a link: the last has the highest rank.
        if crate::breeding::takes(shorter, 2) {
            let i = choose|i: int| 0 <= i < shorter.len() && step_rank(#[trigger] shorter[i]) == 2;
            assert(shorter[i] == steps[i]);
            assert(step_rank(steps[i]) < step_rank(steps[steps.len() - 1]));
        }
        match steps.last() {
            Mutation::AddLink { first, second, weight } => {
                assert(step_rank(steps[steps.len() - 1]) == 2);
            },
            Mutation::AddNode { link } => {
                assert(!before.0.enabled_at(link));
            },
            Mutation::SetWeights { weights } => {
                assert forall|k: int| !#[trigger] after.0.enabled_at(k) by {
                    if after.0.enabled_at(k) {
                        assert(before.0.enabled_at(k));
                    }
                }
            },
        }
        if !crate::breeding::takes(steps, 2) {
            assert(!(steps.last() is AddLink)) by {
                if steps.last() is AddLink {
                    assert(step_rank(steps[steps.len() - 1]) == 2);
                }
            }
        }
    }
}

/// Allowed steps without a split keep a well-formed genome layered.
proof fn lemma_evolved_without_split_layered(
    net: NetworkView,
    counter: u32,
    rates: Rates,
    steps: Seq<Mutation>,
)
    requires
        net.wf(),
        net.layered(),
        all_allowed(net, counter, rates, steps),
        rates.add_node_chance <= 0,
    ensures
        evolved(net, counter, steps).0.wf(),
        evolved(net, counter, steps).0.layered(),
    decreases steps.len(),
{
    if steps.len() > 0 {
        let before = evolved(net, counter, steps.drop_last());
        lemma_evolved_without_split_layered(net, counter, rates, steps.drop_last());
        assert(crate::topology::keeps_layers(before.0, steps.last()));
        lemma_step_keeps_layers(before.0, before.1, steps.last());
    }
}

/// A generation that splits no link keeps a layered genome layered, and so
/// free of cycles: the links it adds lead from a node to a deeper one.
pub proof fn lemma_bred_without_split_layered(
    parent: NetworkView,
    before: u32,
    rates: Rates,
    child: NetworkView,
    after: u32,
)
    requires
        parent.wf(),
        parent.layered(),
        bred(parent, before, rates, child, after),
        rates.add_node_chance <= 0,
    ensures
        child.layered(),
        child.acyclic(),
{
    let steps = choose|steps: Seq<Mutation>|
        one_of_each(steps) && all_allowed(parent, before, rates, steps) && crate::breeding::all_due(
            parent,
            rates,
            steps,
            child,
        ) && (child, after) == #[trigger] evolved(parent, before, steps);
    lemma_evolved_without_split_layered(parent, before, rates, steps);
    crate::topology::lemma_layered_acyclic(child);
}

/// Genomes that are bred in turn take the shared counter on from one to the
/// next, so it never drops along the way.
pub proof fn lemma_counters_ascend(
    before: Seq<NetworkView>,
    after: Seq<NetworkView>,
    rates: Rates,
    counters: Seq<u32>,
    count: int,
    j: int,
    k: int,
)
    requires
        bred_in_turn(before, after, rates, counters, count),
        forall|i: int| 0 <= i < count ==> (#[trigger] before[i]).wf(),
        0 <= j <= k <= count,
    ensures
        counters[j] <= counters[k],
    decreases k - j,
{
    if j < k {
        lemma_counters_ascend(before, after, rates, counters, count, j, k - 1);
        assert(before[k - 1].wf());
        assert(bred(before[k - 1], counters[k - 1], rates, after[k - 1], counters[k - 1 + 1]));
        lemma_bred_continues(before[k - 1], counters[k - 1], rates, after[k - 1], counters[k]);
    }
}

/// Of genomes that are bred in turn, every new link gets an innovation id at
/// or above the counter as it stood at first and below the counter as it
/// stands at last.
pub proof fn lemma_new_ids_are_fresh(
    before: Seq<NetworkView>,
    after: Seq<NetworkView>,
    rates: Rates,
    counters: Seq<u32>,
    count: int,
    k: int,
    at: int,
)
    requires
        bred_in_turn(before, after, rates, counters, count),
        forall|i: int| 0 <= i < count ==> (#[trigger] before[i]).wf(),
        0 <= k < count,
        before[k].links.len() <= at < after[k].links.len(),
    ensures
        counters[0] <= counters[k] <= after[k].links[at].inno_number < counters[k + 1]
            <= counters[count],
{
    assert(before[k].wf());
    assert(bred(before[k], counters[k], rates, after[k], counters[k + 1]));
    lemma_bred_continues(before[k], counters[k], rates, after[k], counters[k + 1]);
    lemma_counters_ascend(before, after, rates, counters, count, 0, k);
    lemma_counters_ascend(before, after, rates, counters, count, k + 1, count);
    let i = at - before[k].links.len();
    assert(after[k].links[before[k].links.len() + i].inno_number == counters[k] + i);
}

/// Of genomes that are bred in turn, no two new links of different genomes
/// get the same innovation id.
pub proof fn lemma_new_ids_differ(
    before: Seq<NetworkView>,
    after: Seq<NetworkView>,
    rates: Rates,
    counters: Seq<u32>,
    count: int,
    j: int,
    at: int,
    k: int,
    other: int,
)
    requires
        bred_in_turn(before, after, rates, counters, count),
        forall|i: int| 0 <= i < count ==> (#[trigger] before[i]).wf(),
        0 <= j < k < count,
        before[j].links.len() <= at < after[j].links.len(),
        before[k].links.len() <= other < after[k].links.len(),
    ensures
        after[j].links[at].inno_number < after[k].links[other].inno_number,
{
    lemma_new_ids_are_fresh(before, after, rates, counters, count, j, at);
    lemma_new_ids_are_fresh(before, after, rates, counters, count, k, other);
    lemma_counters_ascend(before, after, rates, counters, count, j + 1, k);
}

/// With no positive chance, genomes that are bred in turn all stay as they
/// are, and so does the counter.
pub proof fn lemma_bred_in_turn_without_chances(
    before: Seq<NetworkView>,
    after: Seq<NetworkView>,
    rates: Rates,
    counters: Seq<u32>,
    count: int,
    k: int,
)
    requires
        bred_in_turn(before, after, rates, counters, count),
        rates.change_weights_chance <= 0,
        rates.add_node_chance <= 0,
        rates.add_connection_chance <= 0,
        0 <= k < count,
    ensures
        after[k] == before[k],
        counters[k + 1] == counters[0],
    decreases k,
{
    assert(bred(before[k], counters[k], rates, after[k], counters[k + 1]));
    lemma_bred_without_chances(before[k], counters[k], rates, after[k], counters[k + 1]);
    if k > 0 {
        lemma_bred_in_turn_without_chances(before, after, rates, counters, count, k - 1);
    }
}

} // verus!
