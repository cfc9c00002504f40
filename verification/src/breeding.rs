use crate::fixed::ONE;
use crate::mutation::{lemma_reweighted_candidates, perturbation, LINK_WEIGHT_LIMIT};
use crate::neat::weighted_bool;
use crate::network::{Network, NetworkView};
use crate::population::{sound, views};
use crate::topology::{evolved, mutated, Mutation};
use vstd::prelude::*;

verus! {

/// How often, and how far, a genome is changed in one generation. A chance
/// is a fixed-point number: 0.0 or less stands for never, 1.0 or more for
/// always.
#[derive(Debug, Clone, Copy)]
pub struct Rates {
    pub change_weights_chance: i32,
    pub perturb_weights_chance: i32,
    pub perturb_amount: i32,
    pub add_node_chance: i32,
    pub add_connection_chance: i32,
}

/// The place of a kind of step within the changes of one generation: new
/// weights come first, then a split, then a new link.
pub open spec fn step_rank(step: Mutation) -> int {
    match step {
        Mutation::SetWeights { .. } => 0,
        Mutation::AddNode { .. } => 1,
        Mutation::AddLink { .. } => 2,
    }
}

/// The steps are what one generation may do to a genome: at most one step
/// of each kind, in the order of the kinds.
pub open spec fn one_of_each(steps: Seq<Mutation>) -> bool {
    forall|i: int, j: int|
        0 <= i < j < steps.len() ==> step_rank(#[trigger] steps[i]) < step_rank(#[trigger] steps[j])
}

/// The weights that the links of a genome carry, in their order.
pub open spec fn weights_of(net: NetworkView) -> Seq<i32> {
    Seq::new(net.links.len(), |k: int| net.links[k].weight)
}

/// A genome whose weights alone were changed is the genome with those
/// weights.
pub proof fn lemma_reweighted_as_weights(net: NetworkView, other: NetworkView)
    requires
        net.reweighted(other),
    ensures
        other == net.with_weights(weights_of(other)),
{
    assert(other.links =~= net.with_weights(weights_of(other)).links);
}

/// A sequence of steps with one more step at its end leads to what that
/// step makes of the outcome of the sequence.
pub proof fn lemma_evolved_next(
    net: NetworkView,
    counter: u32,
    steps: Seq<Mutation>,
    step: Mutation,
)
    ensures
        evolved(net, counter, steps.push(step)) == mutated(
            evolved(net, counter, steps).0,
            evolved(net, counter, steps).1,
            step,
        ),
{
    assert(steps.push(step).drop_last() =~= steps);
}

/// At most one step of each kind, in order, makes at most three steps.
pub proof fn lemma_one_of_each_short(steps: Seq<Mutation>)
    requires
        one_of_each(steps),
    ensures
        steps.len() <= 3,
{
    if steps.len() > 3 {
        assert(step_rank(steps[0]) < step_rank(steps[1]));
        assert(step_rank(steps[1]) < step_rank(steps[2]));
        assert(step_rank(steps[2]) < step_rank(steps[3]));
    }
}

/// Every weight in `weights` is what a perturbation makes of the weight that
/// the link in its place carries.
pub open spec fn all_perturbed(net: NetworkView, weights: Seq<i32>, amount: int) -> bool {
    forall|k: int|
        0 <= k < net.links.len() ==> perturbation(
            net.links[k].weight as int,
            (#[trigger] weights[k]) as int,
            amount,
        )
}

/// Every weight in `weights` lies within -1.0 and 1.0.
pub open spec fn all_within(weights: Seq<i32>) -> bool {
    forall|k: int| 0 <= k < weights.len() ==> -ONE <= #[trigger] weights[k] <= ONE
}

/// The step is one that a generation with the tunables `rates` can take on
/// the genome `net`:
///
/// - new weights only with a positive chance of a change, one weight for
///   each link, and either all of them perturbations of the old weights, with
///   a positive chance of perturbing, or all of them within -1.0 and 1.0,
///   with a chance of perturbing below 1.0;
/// - a split only with a positive chance of a split, of an enabled link;
/// - a link only with a positive chance of a link, from a node to a deeper
///   one with which it is not linked yet, with a weight within the limit.
pub open spec fn step_allowed(net: NetworkView, rates: Rates, step: Mutation) -> bool {
    match step {
        Mutation::SetWeights { weights } => {
            &&& rates.change_weights_chance > 0
            &&& weights.len() == net.links.len()
            &&& {
                ||| rates.perturb_weights_chance > 0 && all_perturbed(
                    net,
                    weights,
                    rates.perturb_amount as int,
                )
                ||| rates.perturb_weights_chance < ONE && all_within(weights)
            }
        },
        Mutation::AddNode { link } => rates.add_node_chance > 0 && net.enabled_at(link),
        Mutation::AddLink { first, second, weight } => {
            &&& rates.add_connection_chance > 0
            &&& net.legal_pair(first, second)
            &&& net.depth(first) < net.depth(second)
            &&& -LINK_WEIGHT_LIMIT <= weight < LINK_WEIGHT_LIMIT
        },
    }
}

/// Every step of the sequence is one that a generation with the tunables
/// `rates` can take on the genome that the steps before it have made.
pub open spec fn all_allowed(net: NetworkView, counter: u32, rates: Rates, steps: Seq<Mutation>)
    -> bool
    decreases steps.len(),
{
    if steps.len() == 0 {
        true
    } else {
        &&& all_allowed(net, counter, rates, steps.drop_last())
        &&& step_allowed(evolved(net, counter, steps.drop_last()).0, rates, steps.last())
    }
}

/// The sequence holds a step of the kind with the rank `rank`.
pub open spec fn takes(steps: Seq<Mutation>, rank: int) -> bool {
    exists|i: int| 0 <= i < steps.len() && step_rank(#[trigger] steps[i]) == rank
}

/// The steps leave out nothing that the tunables `rates` make certain: with
/// a chance of 1.0 or more the weights are changed; an enabled link is split
/// where the parent has one; and a link is added unless the genome, as it
/// stands after the other steps, has no node or a node that can be linked to
/// no other.
pub open spec fn all_due(
    parent: NetworkView,
    rates: Rates,
    steps: Seq<Mutation>,
    child: NetworkView,
) -> bool {
    &&& rates.change_weights_chance >= ONE ==> takes(steps, 0)
    &&& rates.add_node_chance >= ONE && (exists|k: int| #[trigger] parent.enabled_at(k)) ==> takes(
        steps,
        1,
    )
    &&& rates.add_connection_chance >= ONE && child.nodes.len() > 0 && (forall|a: int|
        0 <= a < child.nodes.len() ==> #[trigger] child.has_candidate(a)) ==> takes(steps, 2)
}

/// `child` and the counter `after` are what one generation with the tunables
/// `rates` makes of `parent` and the counter `before`: at most one step of
/// each kind, in the order of the kinds, each of them a step that the
/// tunables allow, none left out that they make certain, with innovation ids
/// taken from the counter.
pub open spec fn bred(
    parent: NetworkView,
    before: u32,
    rates: Rates,
    child: NetworkView,
    after: u32,
) -> bool {
    exists|steps: Seq<Mutation>|
        one_of_each(steps) && all_allowed(parent, before, rates, steps) && all_due(
            parent,
            rates,
            steps,
            child,
        ) && (child, after) == #[trigger] evolved(parent, before, steps)
}

/// The first `count` genomes of `after` are bred from the genomes in their
/// places in `before`, one after the other, each taking the shared counter
/// where the one before it left it: `counters` holds the counter before each
/// of them and, at its end, the counter after the last.
pub open spec fn bred_in_turn(
    before: Seq<NetworkView>,
    after: Seq<NetworkView>,
    rates: Rates,
    counters: Seq<u32>,
    count: int,
) -> bool {
    &&& counters.len() == count + 1
    &&& forall|k: int|
        0 <= k < count ==> bred(before[k], counters[k], rates, #[trigger] after[k], counters[k + 1])
}

/// `after` is a next generation of the ranked population `ranked`: its last
/// `elite` genomes are the first `elite` of `ranked`, unchanged, and the
/// genomes before them are bred in turn from the genomes that stood in their
/// places.
pub open spec fn next_generation(
    ranked: Seq<NetworkView>,
    after: Seq<NetworkView>,
    elite: int,
    rates: Rates,
    counters: Seq<u32>,
) -> bool {
    &&& after.len() == ranked.len()
    &&& bred_in_turn(ranked, after, rates, counters, ranked.len() - elite)
    &&& forall|k: int|
        ranked.len() - elite <= k < ranked.len() ==> #[trigger] after[k] == ranked[k - (ranked.len()
            - elite)]
}

/// A sequence of allowed steps with one more allowed step at its end is a
/// sequence of allowed steps.
pub proof fn lemma_allowed_next(
    net: NetworkView,
    counter: u32,
    rates: Rates,
    steps: Seq<Mutation>,
    step: Mutation,
)
    requires
        all_allowed(net, counter, rates, steps),
        step_allowed(evolved(net, counter, steps).0, rates, step),
    ensures
        all_allowed(net, counter, rates, steps.push(step)),
{
    assert(steps.push(step).drop_last() =~= steps);
}

impl Network {
    /// Changes the weights of all links with the chance that `rates` gives
    /// for it: by perturbations with the chance `perturb_weights_chance`, by
    /// fresh draws otherwise. Says whether it did.
    fn change_weights(&mut self, rates: &Rates) -> (changed: bool)
        requires
            old(self).wf(),
            rates.perturb_amount >= 0,
        ensures
            final(self).wf(),
            old(self)@.reweighted(final(self)@),
            !changed ==> final(self)@ == old(self)@,
            changed ==> step_allowed(
                old(self)@,
                *rates,
                Mutation::SetWeights { weights: weights_of(final(self)@) },
            ),
            rates.change_weights_chance >= ONE ==> changed,
            forall|counter: int| old(self)@.ids_from(counter) ==> final(self)@.ids_from(counter),
            forall|a: int| old(self)@.has_candidate(a) ==> #[trigger] final(self)@.has_candidate(a),
            forall|k: int| old(self)@.enabled_at(k) ==> #[trigger] final(self)@.enabled_at(k),
    {
        if !weighted_bool(rates.change_weights_chance) {
            assert(old(self)@.reweighted(self@));
            return false;
        }
        if weighted_bool(rates.perturb_weights_chance) {
            self.perturb_weights(rates.perturb_amount);
            assert(all_perturbed(old(self)@, weights_of(self@), rates.perturb_amount as int)) by {
                assert forall|k: int| 0 <= k < old(self)@.links.len() implies perturbation(
                    old(self)@.links[k].weight as int,
                    (#[trigger] weights_of(self@)[k]) as int,
                    rates.perturb_amount as int,
                ) by {
                    assert(weights_of(self@)[k] == self@.links[k].weight);
                }
            }
        } else {
            self.randomize_weights();
            assert(all_within(weights_of(self@))) by {
                assert forall|k: int| 0 <= k < weights_of(self@).len() implies -ONE
                    <= #[trigger] weights_of(self@)[k] <= ONE by {
                    assert(weights_of(self@)[k] == self@.links[k].weight);
                }
            }
        }
        proof {
            assert forall|a: int| old(self)@.has_candidate(a)
                implies #[trigger] self@.has_candidate(a) by {
                lemma_reweighted_candidates(old(self)@, self@, a);
            }
            assert forall|k: int| old(self)@.enabled_at(k)
                implies #[trigger] self@.enabled_at(k) by {
                assert(self@.links[k].enabled == old(self)@.links[k].enabled);
            }
        }
        true
    }

    /// Changes the genome as one generation does. Each of three changes is
    /// made with the chance that `rates` gives for it, independently of the
    /// others: first new weights on all links, which are perturbations with
    /// the chance `perturb_weights_chance` and fresh draws otherwise; then the
    /// split of a random enabled link; then a link between two random nodes.
    /// A split or a link that finds nothing to work on changes nothing. See
    /// [`bred`] for what is known of the outcome.
    pub fn mutate(&mut self, global_inno_number: &mut u32, rates: &Rates)
        requires
            old(self).wf(),
            old(self)@.has_room(),
            *old(global_inno_number) <= u32::MAX - 3,
            rates.perturb_amount >= 0,
        ensures
            final(self).wf(),
            bred(
                old(self)@,
                *old(global_inno_number),
                *rates,
                final(self)@,
                *final(global_inno_number),
            ),
            *old(global_inno_number) <= *final(global_inno_number) <= *old(global_inno_number) + 3,
            old(self)@.ids_from(*old(global_inno_number) as int) ==> final(self)@.ids_from(
                *final(global_inno_number) as int,
            ),
            old(self)@.nodes.len() <= final(self)@.nodes.len() <= old(self)@.nodes.len() + 1,
    {
        let ghost start = self@;
        let ghost first_id = *global_inno_number;
        let ghost mut steps: Seq<Mutation> = Seq::empty();
        let changed = self.change_weights(rates);
        let ghost reweighted = self@;
        proof {
            if changed {
                lemma_reweighted_as_weights(start, reweighted);
                let step = Mutation::SetWeights { weights: weights_of(reweighted) };
                lemma_evolved_next(start, first_id, steps, step);
                lemma_allowed_next(start, first_id, *rates, steps, step);
                steps = steps.push(step);
                assert(step_rank(steps[0]) == 0);
            }
            assert(forall|i: int| 0 <= i < steps.len() ==> step_rank(#[trigger] steps[i]) == 0);
            if exists|k: int| #[trigger] start.enabled_at(k) {
                let k = choose|k: int| #[trigger] start.enabled_at(k);
                assert(reweighted.enabled_at(k));
            }
        }
        let ghost mut split_taken = false;
        if weighted_bool(rates.add_node_chance) {
            let ghost id = *global_inno_number;
            let split = self.add_random_node(global_inno_number);
            proof {
                if split is Ok {
                    let link = choose|k: int| #[trigger]
                        reweighted.enabled_at(k) && self@ == reweighted.split(id, k);
                    let step = Mutation::AddNode { link };
                    assert(reweighted.link_fits(link));
                    assert(self@.nodes.len() == reweighted.nodes.len() + 1);
                    lemma_evolved_next(start, first_id, steps, step);
                    lemma_allowed_next(start, first_id, *rates, steps, step);
                    steps = steps.push(step);
                    assert(step_rank(steps[steps.len() - 1]) == 1);
                    split_taken = true;
                }
            }
        }
        proof {
            assert(forall|i: int| 0 <= i < steps.len() ==> step_rank(#[trigger] steps[i]) <= 1);
            assert(split_taken ==> takes(steps, 1));
            assert(changed ==> takes(steps, 0)) by {
                if changed {
                    assert(step_rank(steps[0]) == 0);
                }
            }
        }
        let ghost mut link_taken = false;
        let ghost sized = steps;
        if weighted_bool(rates.add_connection_chance) {
            let ghost before = self@;
            let linked = self.add_random_link(global_inno_number);
            proof {
                if linked is Ok {
                    let fresh = self@.links.last();
                    let step = Mutation::AddLink {
                        first: fresh.in_index as int,
                        second: fresh.out_index as int,
                        weight: fresh.weight,
                    };
                    assert(before.link_order(fresh.in_index as int, fresh.out_index as int) == Some(
                        (fresh.in_index as int, fresh.out_index as int),
                    ));
                    lemma_evolved_next(start, first_id, steps, step);
                    lemma_allowed_next(start, first_id, *rates, steps, step);
                    steps = steps.push(step);
                    assert(step_rank(steps[steps.len() - 1]) == 2);
                    link_taken = true;
                }
            }
        }
        proof {
            assert(one_of_each(steps));
            assert(forall|i: int| 0 <= i < sized.len() ==> steps[i] == sized[i]);
            if changed {
                assert(step_rank(steps[0]) == 0);
            }
            if split_taken {
                let i = choose|i: int| 0 <= i < sized.len() && step_rank(#[trigger] sized[i]) == 1;
                assert(step_rank(steps[i]) == 1);
            }
            assert(all_due(start, *rates, steps, self@));
        }
    }
}

/// Breeds the next generation in place: every genome but the last `spared`
/// is changed as [`Network::mutate`] changes it, one after the other, with
/// innovation ids from the shared counter.
pub fn mutate_population(
    pop: &mut Vec<Network>,
    global_inno_number: &mut u32,
    rates: &Rates,
    spared: usize,
)
    requires
        sound(views(old(pop)@), *old(global_inno_number) as int),
        *old(global_inno_number) + 3 * old(pop)@.len() <= u32::MAX,
        spared <= old(pop)@.len(),
        rates.perturb_amount >= 0,
    ensures
        final(pop)@.len() == old(pop)@.len(),
        exists|counters: Seq<u32>|
            #[trigger] bred_in_turn(
                views(old(pop)@),
                views(final(pop)@),
                *rates,
                counters,
                old(pop)@.len() - spared,
            ) && counters[0] == *old(global_inno_number) && counters[old(pop)@.len() - spared]
                == *final(global_inno_number),
        forall|k: int|
            old(pop)@.len() - spared <= k < old(pop)@.len() ==> (#[trigger] final(pop)@[k])@ == old(
                pop,
            )@[k]@,
        forall|k: int|
            0 <= k < old(pop)@.len()
                ==> (#[trigger] final(pop)@[k]).wf() && final(pop)@[k]@.ids_from(
                *final(global_inno_number) as int,
            ),
        *old(global_inno_number) <= *final(global_inno_number) <= *old(global_inno_number) + 3 * (
        old(pop)@.len() - spared),
{
    let count = pop.len() - spared;
    let ghost start = pop@;
    let ghost first_id = *global_inno_number;
    let ghost mut counters: Seq<u32> = seq![first_id];
    let mut k: usize = 0;
    while k < count
        invariant
            k <= count,
            count == start.len() - spared,
            pop@.len() == start.len(),
            rates.perturb_amount >= 0,
            first_id + 3 * start.len() <= u32::MAX,
            first_id <= *global_inno_number <= first_id + 3 * k,
            sound(views(start), first_id as int),
            counters.len() == k + 1,
            counters[0] == first_id,
            counters[k as int] == *global_inno_number,
            forall|j: int| k <= j < start.len() ==> (#[trigger] pop@[j])@ == start[j]@,
            forall|j: int|
                0 <= j < k ==> bred(
                    start[j]@,
                    counters[j],
                    *rates,
                    (#[trigger] pop@[j])@,
                    counters[j + 1],
                ),
            forall|j: int|
                0 <= j < k ==> (#[trigger] pop@[j]).wf() && pop@[j]@.ids_from(
                    *global_inno_number as int,
                ),
        decreases count - k,
    {
        let ghost before = pop@;
        let ghost id = *global_inno_number;
        let ghost counted = counters;
        proof {
            assert(views(start)[k as int] == start[k as int]@);
            assert(views(start)[k as int].wf());
        }
        pop[k].mutate(global_inno_number, rates);
        proof {
            counters = counters.push(*global_inno_number);
            assert forall|j: int| 0 <= j < k + 1 implies bred(
                start[j]@,
                counters[j],
                *rates,
                (#[trigger] pop@[j])@,
                counters[j + 1],
            ) by {
                if j < k {
                    assert(pop@[j] == before[j]);
                    assert(counters[j] == counted[j] && counters[j + 1] == counted[j + 1]);
                }
            }
            assert forall|j: int| 0 <= j < k + 1
                implies (#[trigger] pop@[j]).wf() && pop@[j]@.ids_from(
                *global_inno_number as int,
            ) by {
                if j < k {
                    assert(pop@[j] == before[j]);
                    assert(before[j]@.ids_from(id as int));
                }
            }
        }
        k = k + 1;
    }
    proof {
        assert forall|j: int| 0 <= j < start.len()
            implies (#[trigger] pop@[j]).wf() && pop@[j]@.ids_from(
            *global_inno_number as int,
        ) by {
            if j >= count {
                assert(views(start)[j] == start[j]@);
                assert(views(start)[j].wf());
            }
        }
        assert(bred_in_turn(views(start), views(pop@), *rates, counters, count as int)) by {
            assert forall|j: int| 0 <= j < count implies bred(
                views(start)[j],
                counters[j],
                *rates,
                #[trigger] views(pop@)[j],
                counters[j + 1],
            ) by {
                assert(views(start)[j] == start[j]@);
                assert(views(pop@)[j] == pop@[j]@);
            }
        }
    }
}

} // verus!
