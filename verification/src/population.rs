use crate::network::{lemma_fitness_apart, Network, NetworkView};
use crate::select::holds;
use vstd::prelude::*;

verus! {

/// The mathematical content of a population: the views of its genomes.
pub open spec fn views(pop: Seq<Network>) -> Seq<NetworkView> {
    Seq::new(pop.len(), |i: int| pop[i]@)
}

/// The scores of the genomes of a population, in their order.
pub open spec fn fitness_of(pop: Seq<NetworkView>) -> Seq<i32> {
    Seq::new(pop.len(), |i: int| pop[i].fitness)
}

/// Genome `a` comes before genome `b` in the ranking: it has the higher
/// score, or the same score and the earlier place.
pub open spec fn outranks(fitness: Seq<i32>, a: int, b: int) -> bool {
    fitness[a] > fitness[b] || (fitness[a] == fitness[b] && a < b)
}

/// `order` ranks the first `count` genomes: it names each of them once, and
/// each of them outranks all that follow it.
pub open spec fn ranks(order: Seq<usize>, fitness: Seq<i32>, count: int) -> bool {
    &&& order.len() == count
    &&& forall|p: int| 0 <= p < order.len() ==> (#[trigger] order[p]) < count
    &&& forall|p: int, q: int|
        0 <= p < q < order.len()
            ==> outranks(fitness, #[trigger] order[p] as int, #[trigger] order[q] as int)
    &&& forall|i: int| 0 <= i < count ==> #[trigger] holds(order, i)
}

/// `order` is the ranking of a population with the scores `fitness`: the
/// places of the genomes by descending score, earlier place first among equal
/// scores.
pub open spec fn is_ranking(order: Seq<usize>, fitness: Seq<i32>) -> bool {
    ranks(order, fitness, fitness.len() as int)
}

/// The population `pop` in the order `order`.
pub open spec fn reordered(pop: Seq<NetworkView>, order: Seq<usize>) -> Seq<NetworkView> {
    Seq::new(order.len(), |k: int| pop[order[k] as int])
}

/// The population after its first `elite` genomes were copied over its last
/// `elite` places.
pub open spec fn with_elite(pop: Seq<NetworkView>, elite: int) -> Seq<NetworkView> {
    Seq::new(
        pop.len(),
        |j: int|
            if j >= pop.len() - elite {
                pop[j - (pop.len() - elite)]
            } else {
                pop[j]
            },
    )
}

/// The population with the scores `fitness` on its genomes.
pub open spec fn rescored(pop: Seq<NetworkView>, fitness: Seq<i32>) -> Seq<NetworkView> {
    Seq::new(pop.len(), |i: int| pop[i].with_fitness(fitness[i]))
}

/// `fitness` holds, for each genome of `pop`, a score that `scorer` gives it.
pub open spec fn scored_by<F: Fn(&Network) -> i32>(
    scorer: F,
    pop: Seq<Network>,
    fitness: Seq<i32>,
) -> bool {
    &&& fitness.len() == pop.len()
    &&& forall|i: int| 0 <= i < pop.len()
        ==> call_ensures(scorer, (&pop[i],), #[trigger] fitness[i])
}

/// Every genome of the population is well-formed, got its innovation ids
/// from a counter that stands at `counter`, and has room for one more node.
pub open spec fn sound(pop: Seq<NetworkView>, counter: int) -> bool {
    forall|i: int|
        0 <= i < pop.len() ==> {
            &&& (#[trigger] pop[i]).wf()
            &&& pop[i].ids_from(counter)
            &&& pop[i].has_room()
        }
}

/// New scores leave a sound population sound.
pub proof fn lemma_rescored_sound(pop: Seq<NetworkView>, fitness: Seq<i32>, counter: int)
    requires
        sound(pop, counter),
    ensures
        sound(rescored(pop, fitness), counter),
{
    let after = rescored(pop, fitness);
    assert forall|i: int| 0 <= i < after.len() implies {
        &&& (#[trigger] after[i]).wf()
        &&& after[i].ids_from(counter)
        &&& after[i].has_room()
    } by {
        assert(pop[i].wf());
        lemma_fitness_apart(pop[i], fitness[i]);
    }
}

/// Another order leaves a sound population sound.
pub proof fn lemma_reordered_sound(pop: Seq<NetworkView>, order: Seq<usize>, counter: int)
    requires
        sound(pop, counter),
        forall|k: int| 0 <= k < order.len() ==> (#[trigger] order[k]) < pop.len(),
    ensures
        sound(reordered(pop, order), counter),
{
    let after = reordered(pop, order);
    assert forall|k: int| 0 <= k < after.len() implies {
        &&& (#[trigger] after[k]).wf()
        &&& after[k].ids_from(counter)
        &&& after[k].has_room()
    } by {
        assert(order[k] < pop.len());
        assert(pop[order[k] as int].wf());
    }
}

/// Carrying the best over leaves a sound population sound.
pub proof fn lemma_with_elite_sound(pop: Seq<NetworkView>, elite: int, counter: int)
    requires
        sound(pop, counter),
        0 <= elite <= pop.len(),
    ensures
        sound(with_elite(pop, elite), counter),
{
    let after = with_elite(pop, elite);
    assert forall|j: int| 0 <= j < after.len() implies {
        &&& (#[trigger] after[j]).wf()
        &&& after[j].ids_from(counter)
        &&& after[j].has_room()
    } by {
        if j >= pop.len() - elite {
            assert(pop[j - (pop.len() - elite)].wf());
        } else {
            assert(pop[j].wf());
        }
    }
}

/// Has every genome scored by `scorer`, once, and notes the score on it.
pub fn score_population<F: Fn(&Network) -> i32>(pop: &mut Vec<Network>, scorer: &F)
    requires
        forall|i: int|
            0 <= i < old(pop)@.len() ==> call_requires(*scorer, (&#[trigger] old(pop)@[i],)),
    ensures
        scored_by(*scorer, old(pop)@, fitness_of(views(final(pop)@))),
        views(final(pop)@) == rescored(views(old(pop)@), fitness_of(views(final(pop)@))),
        final(pop)@.len() == old(pop)@.len(),
{
    let mut i: usize = 0;
    while i < pop.len()
        invariant
            i <= pop.len(),
            pop@.len() == old(pop)@.len(),
            forall|j: int|
                0 <= j < old(pop)@.len() ==> call_requires(*scorer, (&#[trigger] old(pop)@[j],)),
            forall|j: int| i <= j < pop@.len() ==> pop@[j] == old(pop)@[j],
            forall|j: int|
                0 <= j < i ==> call_ensures(
                    *scorer,
                    (&old(pop)@[j],),
                    (#[trigger] pop@[j]).fitness,
                ),
            forall|j: int|
                0 <= j < i ==> (#[trigger] pop@[j])@ == old(pop)@[j]@.with_fitness(pop@[j].fitness),
        decreases pop.len() - i,
    {
        let score = scorer(&pop[i]);
        pop[i].fitness = score;
        i = i + 1;
    }
    proof {
        let fitness = fitness_of(views(pop@));
        assert forall|j: int| 0 <= j < old(pop)@.len() implies call_ensures(
            *scorer,
            (&old(pop)@[j],),
            #[trigger] fitness[j],
        ) by {
            assert(fitness[j] == pop@[j].fitness);
        }
        assert(views(pop@) =~= rescored(views(old(pop)@), fitness));
    }
}

/// Copies a population.
pub fn clone_population(pop: &Vec<Network>) -> (copy: Vec<Network>)
    ensures
        views(copy@) == views(pop@),
{
    let mut copy: Vec<Network> = Vec::new();
    let mut i: usize = 0;
    while i < pop.len()
        invariant
            i <= pop.len(),
            copy@.len() == i,
            forall|j: int| 0 <= j < i ==> copy@[j]@ == pop@[j]@,
        decreases pop.len() - i,
    {
        copy.push(pop[i].clone());
        i = i + 1;
    }
    assert(views(copy@) =~= views(pop@));
    copy
}

/// Ranks a population by score: the places of the genomes by descending
/// score, a genome that stood earlier coming first among equal scores.
pub fn rank_by_fitness(pop: &Vec<Network>) -> (order: Vec<usize>)
    ensures
        is_ranking(order@, fitness_of(views(pop@))),
{
    let ghost fitness = fitness_of(views(pop@));
    let mut order: Vec<usize> = Vec::new();
    let mut i: usize = 0;
    while i < pop.len()
        invariant
            i <= pop.len(),
            fitness == fitness_of(views(pop@)),
            ranks(order@, fitness, i as int),
        decreases pop.len() - i,
    {
        let score = pop[i].fitness;
        let mut place: usize = 0;
        while place < order.len() && pop[order[place]].fitness >= score
            invariant
                i < pop.len(),
                fitness == fitness_of(views(pop@)),
                ranks(order@, fitness, i as int),
                score == fitness[i as int],
                place <= order.len(),
                forall|p: int| 0 <= p < place ==> fitness[(#[trigger] order@[p]) as int] >= score,
            decreases order.len() - place,
        {
            place = place + 1;
        }
        let ghost before = order@;
        order.insert(place, i);
        proof {
            let after = order@;
            assert forall|p: int, q: int| 0 <= p < q < after.len() implies outranks(
                fitness,
                #[trigger] after[p] as int,
                #[trigger] after[q] as int,
            ) by {
                if q < place {
                    assert(after[p] == before[p] && after[q] == before[q]);
                } else if q == place {
                    assert(after[p] == before[p]);
                } else if p < place {
                    assert(after[p] == before[p] && after[q] == before[q - 1]);
                } else if p == place {
                    assert(after[q] == before[q - 1]);
                    assert(outranks(fitness, before[place as int] as int, before[q - 1] as int)
                        || place as int == q - 1);
                } else {
                    assert(after[p] == before[p - 1] && after[q] == before[q - 1]);
                }
            }
            assert forall|n: int| 0 <= n < i + 1 implies #[trigger] holds(after, n) by {
                if n < i {
                    assert(holds(before, n));
                    let at = choose|at: int| 0 <= at < before.len() && before[at] == n;
                    if at < place {
                        assert(after[at] == n);
                    } else {
                        assert(after[at + 1] == n);
                    }
                } else {
                    assert(after[place as int] == n);
                }
            }
            assert forall|p: int| 0 <= p < after.len() implies (#[trigger] after[p]) < i + 1 by {
                if p < place {
                    assert(after[p] == before[p]);
                } else if p > place {
                    assert(after[p] == before[p - 1]);
                }
            }
        }
        i = i + 1;
    }
    order
}

/// The genomes of `pop` in the order `order`.
pub fn reorder(pop: &Vec<Network>, order: &Vec<usize>) -> (sorted: Vec<Network>)
    requires
        forall|k: int| 0 <= k < order@.len() ==> (#[trigger] order@[k]) < pop@.len(),
    ensures
        views(sorted@) == reordered(views(pop@), order@),
{
    let mut sorted: Vec<Network> = Vec::new();
    let mut k: usize = 0;
    while k < order.len()
        invariant
            k <= order.len(),
            forall|k: int| 0 <= k < order@.len() ==> (#[trigger] order@[k]) < pop@.len(),
            sorted@.len() == k,
            forall|j: int| 0 <= j < k ==> sorted@[j]@ == pop@[order@[j] as int]@,
        decreases order.len() - k,
    {
        sorted.push(pop[order[k]].clone());
        k = k + 1;
    }
    assert(views(sorted@) =~= reordered(views(pop@), order@));
    sorted
}

/// Sorts a population by descending score, keeping the order of genomes with
/// equal scores.
pub fn sort_by_fitness(pop: &mut Vec<Network>)
    ensures
        exists|order: Seq<usize>| #[trigger]
            is_ranking(order, fitness_of(views(old(pop)@))) && views(final(pop)@) == reordered(
                views(old(pop)@),
                order,
            ),
        final(pop)@.len() == old(pop)@.len(),
{
    let order = rank_by_fitness(pop);
    let sorted = reorder(pop, &order);
    assert(views(sorted@).len() == sorted@.len());
    assert(fitness_of(views(pop@)).len() == pop@.len());
    *pop = sorted;
}

/// Copies the first `elite` genomes over the last `elite` places; the other
/// places keep their genomes.
pub fn keep_elite(pop: &mut Vec<Network>, elite: usize)
    requires
        elite <= old(pop)@.len(),
    ensures
        views(final(pop)@) == with_elite(views(old(pop)@), elite as int),
{
    let count = pop.len();
    let mut left: usize = elite;
    while left > 0
        invariant
            left <= elite <= count,
            pop@.len() == count,
            count == old(pop)@.len(),
            forall|j: int| 0 <= j < count - elite + left ==> pop@[j]@ == old(pop)@[j]@,
            forall|j: int|
                count - elite + left <= j < count ==> pop@[j]@ == old(pop)@[j - (count - elite)]@,
        decreases left,
    {
        left = left - 1;
        let copy = pop[left].clone();
        pop.set(count - elite + left, copy);
    }
    assert(views(pop@) =~= with_elite(views(old(pop)@), elite as int));
}

} // verus!
