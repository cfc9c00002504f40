use crate::breeding::{
    all_within, bred, bred_in_turn, mutate_population, next_generation, weights_of, Rates,
};
use crate::error::NeatError;
use crate::distance::{
    average_weight_gap, compatibility, disjoint, excess, larger_size, lemma_compatibility_self,
    lemma_compatibility_symmetric, lemma_same_links_same_distance,
};
use crate::evaluate::OutputRange;
use crate::fixed::ONE;
use crate::network::{lemma_ids_count, Network, NetworkView};
use crate::population::{
    clone_population, fitness_of, is_ranking, keep_elite, lemma_reordered_sound,
    lemma_rescored_sound, lemma_with_elite_sound, reordered, rescored, score_population, scored_by,
    sort_by_fitness, sound, views, with_elite,
};
use crate::rng::{random_between, random_index};
use crate::select::holds;
use crate::species::{
    chosen, clone_species, divides, group_species, grouped, groups, is_partition, lemma_home_range,
    lemma_speciated_shape, member_of, placed, represents, Measure,
};
use vstd::prelude::*;

verus! {

/// A chance of one half.
pub const HALF: i32 = 32768;

/// Draws a fixed-point number from 0.0 up to, and without, 1.0.
pub fn random() -> (draw: i32)
    ensures
        0 <= draw < ONE,
{
    random_between(0, ONE)
}

/// Whether the draw `draw`, a number from 0.0 up to 1.0, hits a chance of
/// `true_chance`.
pub fn chance_hit(draw: i32, true_chance: i32) -> (hit: bool)
    ensures
        hit == (draw < true_chance),
{
    draw < true_chance
}

/// Decides by a random draw, with the chance `true_chance` for `true`: a
/// chance of 0.0 or less never gives `true`, one of 1.0 or more always does.
pub fn weighted_bool(true_chance: i32) -> (hit: bool)
    ensures
        true_chance <= 0 ==> !hit,
        true_chance >= ONE ==> hit,
{
    chance_hit(random(), true_chance)
}

/// Decides by a random draw, with even chances: the draw of [`random`]
/// against a chance of one half, as [`chance_hit`] decides it. Either answer
/// may come on any call.
pub fn random_bool() -> bool {
    weighted_bool(HALF)
}

/// The square of a number.
pub open spec fn squared(x: int) -> int {
    x * x
}

/// What the genome answers to one case of the XOR task: the two operands and
/// a constant 1.0 go in, the first output is read as it is, in the range of
/// the squashing function.
pub open spec fn xor_answer(net: NetworkView, first: i32, second: i32) -> int {
    net.outputs(seq![first, second, ONE], OutputRange::Symmetric)[0] as int
}

/// The sum of the squared errors of the genome over the four cases of the XOR
/// task, at twice the fixed-point scale.
pub open spec fn xor_error(net: NetworkView) -> int {
    squared(0 - xor_answer(net, 0, 0)) + squared(ONE - xor_answer(net, ONE, 0)) + squared(
        ONE - xor_answer(net, 0, ONE),
    ) + squared(0 - xor_answer(net, ONE, ONE))
}

/// The fitness of a genome on the XOR task: 1.0 less the mean squared error
/// over the four cases. A genome that answers 0.0 throughout is right in two
/// cases and off by 1.0 in the other two, and scores 0.5.
pub open spec fn xor_fitness(net: NetworkView) -> int {
    ONE - xor_error(net) / (4 * ONE)
}

/// One squared error of the XOR task.
fn xor_case(n: &Network, first: i32, second: i32, expected: i32) -> (error: i64)
    requires
        n.wf(),
        n.input_count == 3,
        n.output_count >= 1,
        expected == 0 || expected == ONE,
    ensures
        error == squared(expected - xor_answer(n@, first, second)),
        0 <= error <= 0x4_0000_0000,
{
    let inputs: Vec<i32> = vec![first, second, ONE];
    assert(inputs@ =~= seq![first, second, ONE]);
    let outputs = n.evaluate(inputs, OutputRange::Symmetric);
    let actual: i64 = outputs[0] as i64;
    let apart: i64 = expected as i64 - actual;
    assert(0 <= apart * apart <= 0x4_0000_0000) by (nonlinear_arith)
        requires
            -0x2_0000 <= apart <= 0x2_0000,
    ;
    apart * apart
}

/// Scores a genome on the XOR task; see [`xor_fitness`]. The genome needs
/// three inputs, the third being the bias, and at least one output.
pub fn evaluate_xor(n: Network) -> (fitness: i32)
    requires
        n.wf(),
        n.input_count == 3,
        n.output_count >= 1,
    ensures
        fitness == xor_fitness(n@),
        -3 * ONE <= fitness <= ONE,
{
    let mut error: i64 = 0;
    error = error + xor_case(&n, 0, 0, 0);
    error = error + xor_case(&n, ONE, 0, ONE);
    error = error + xor_case(&n, 0, ONE, ONE);
    error = error + xor_case(&n, ONE, ONE, 0);
    (ONE as i64 - error / (4 * ONE as i64)) as i32
}

/// The chance with which a new population changes the weights of a genome:
/// 0.8.
pub const CHANGE_WEIGHTS_CHANCE: i32 = 52429;

/// The chance with which a change of weights is a perturbation: 0.9.
pub const PERTURB_WEIGHTS_CHANCE: i32 = 58982;

/// The width of the interval from which a perturbation is drawn: 0.5.
pub const PERTURB_AMOUNT: i32 = 32768;

/// The chance with which a new population splits a link of a genome: 0.03.
pub const ADD_NODE_CHANCE: i32 = 1966;

/// The chance with which a new population adds a link to a genome: 0.05.
pub const ADD_CONNECTION_CHANCE: i32 = 3277;

/// The weight of the excess links in the distance of a new population: 1.0.
pub const EXCESS_COEFFICIENT: i32 = 65536;

/// The weight of the disjoint links in the distance of a new population: 1.0.
pub const DISJOINT_COEFFICIENT: i32 = 65536;

/// The weight of the mean weight gap in the distance of a new population:
/// 0.4.
pub const WEIGHT_COEFFICIENT: i32 = 26214;

/// The distance up to which a new population takes two genomes for one
/// species: 3.0.
pub const DISTANCE_THRESHOLD: i32 = 196608;

/// The number of genomes that a new population carries over unchanged.
pub const ELITE: u32 = 20;

/// A weighted count over the size of the larger genome is at most twice the
/// weight, since neither count exceeds the links of both genomes.
proof fn lemma_share_bound(weight: int, count: int, size: int)
    requires
        0 <= weight,
        0 <= count <= 2 * size,
        0 < size,
    ensures
        0 <= weight * count / size <= 2 * weight,
{
    assert(0 <= weight * count <= size * (2 * weight)) by (nonlinear_arith)
        requires
            0 <= weight,
            0 <= count <= 2 * size,
    ;
    vstd::arithmetic::div_mod::lemma_div_is_ordered(weight * count, size * (2 * weight), size);
    vstd::arithmetic::div_mod::lemma_div_multiples_vanish(2 * weight, size);
    vstd::arithmetic::div_mod::lemma_div_pos_is_pos(weight * count, size);
}

/// A population of genomes with the counters and the tunables of its
/// evolution.
#[derive(Debug)]
pub struct NEAT {
    /// The next innovation id, shared by all genomes.
    pub global_inno_number: u32,
    pub generation: u32,
    pub pop_size: u32,
    pub pop: Vec<Network>,
    /// The species of the population: each one lists the places of its
    /// genomes in `pop`.
    pub species_list: Vec<Vec<usize>>,
    /// The population as it entered the last generation.
    pub past_pop: Vec<Network>,
    /// The species as they entered the last generation, over `past_pop`.
    pub past_species_list: Vec<Vec<usize>>,
    pub change_weights_chance: i32,
    pub perturb_weights_chance: i32,
    pub perturb_amount: i32,
    pub add_node_chance: i32,
    pub add_connection_chance: i32,
    pub c1: i32,
    pub c2: i32,
    pub c3: i32,
    pub distance_threshold: i32,
    pub preserve_champion_threshhold: u32,
    /// The number of genomes that a generation carries over unchanged.
    pub elite: u32,
}

impl Clone for NEAT {
    fn clone(&self) -> (copy: NEAT)
        ensures
            views(copy.pop@) == views(self.pop@),
            groups(copy.species_list@) == groups(self.species_list@),
            views(copy.past_pop@) == views(self.past_pop@),
            groups(copy.past_species_list@) == groups(self.past_species_list@),
            copy.global_inno_number == self.global_inno_number,
            copy.generation == self.generation,
            self.same_settings(&copy),
    {
        NEAT {
            global_inno_number: self.global_inno_number,
            generation: self.generation,
            pop_size: self.pop_size,
            pop: clone_population(&self.pop),
            species_list: clone_species(&self.species_list),
            past_pop: clone_population(&self.past_pop),
            past_species_list: clone_species(&self.past_species_list),
            change_weights_chance: self.change_weights_chance,
            perturb_weights_chance: self.perturb_weights_chance,
            perturb_amount: self.perturb_amount,
            add_node_chance: self.add_node_chance,
            add_connection_chance: self.add_connection_chance,
            c1: self.c1,
            c2: self.c2,
            c3: self.c3,
            distance_threshold: self.distance_threshold,
            preserve_champion_threshhold: self.preserve_champion_threshhold,
            elite: self.elite,
        }
    }
}

impl NEAT {
    /// How the population compares genomes.
    pub open spec fn measure(&self) -> Measure {
        Measure {
            c1: self.c1 as int,
            c2: self.c2 as int,
            c3: self.c3 as int,
            threshold: self.distance_threshold as int,
        }
    }

    /// How the population changes its genomes.
    pub open spec fn rates_spec(&self) -> Rates {
        Rates {
            change_weights_chance: self.change_weights_chance,
            perturb_weights_chance: self.perturb_weights_chance,
            perturb_amount: self.perturb_amount,
            add_node_chance: self.add_node_chance,
            add_connection_chance: self.add_connection_chance,
        }
    }

    /// Well-formedness of a population: it has the size it says, its genomes
    /// are well-formed and got their innovation ids from the shared counter,
    /// and its species divide it.
    pub open spec fn wf(&self) -> bool {
        &&& self.pop@.len() == self.pop_size
        &&& forall|i: int| 0 <= i < self.pop@.len() ==> (#[trigger] self.pop@[i]).wf()
        &&& forall|i: int|
            0 <= i < self.pop@.len() ==> (#[trigger] self.pop@[i])@.ids_from(
                self.global_inno_number as int,
            )
        &&& is_partition(groups(self.species_list@), self.pop@.len() as int)
    }

    /// The tunables are in their ranges: no more genomes are carried over than
    /// there are, and neither the width of a perturbation nor a coefficient of
    /// the distance is negative.
    pub open spec fn config_valid(&self) -> bool {
        &&& self.elite <= self.pop@.len()
        &&& self.perturb_amount >= 0
        &&& self.c1 >= 0
        &&& self.c2 >= 0
        &&& self.c3 >= 0
    }

    /// The counters and the genomes can take one more generation: the
    /// generation can be counted, three more innovation ids can be given to
    /// each genome, and each genome has room for one more node.
    pub open spec fn headroom(&self) -> bool {
        &&& self.generation < u32::MAX
        &&& self.global_inno_number + 3 * self.pop@.len() <= u32::MAX
        &&& forall|i: int| 0 <= i < self.pop@.len() ==> (#[trigger] self.pop@[i])@.has_room()
    }

    /// A population of `pop_size` genomes with `num_inputs` inputs and
    /// `num_outputs` outputs each and no links, all in one species, with the
    /// default tunables.
    pub fn new(pop_size: u32, num_inputs: u32, num_outputs: u32) -> (neat: NEAT)
        ensures
            neat.wf(),
            neat.config_valid() <==> pop_size >= ELITE,
            neat.pop_size == pop_size,
            neat.pop@.len() == pop_size,
            forall|i: int|
                0 <= i < pop_size ==> (#[trigger] neat.pop@[i])@ == NetworkView::minimal(
                    num_inputs,
                    num_outputs,
                ),
            neat.generation == 0,
            neat.global_inno_number == 1,
            neat.past_pop@.len() == 0,
            neat.past_species_list@.len() == 0,
            neat.species_list@.len() == (if pop_size == 0 {
                0int
            } else {
                1int
            }),
            pop_size > 0 ==> neat.species_list@[0]@ == Seq::new(
                pop_size as nat,
                |i: int| i as usize,
            ),
            neat.rates_spec() == (Rates {
                change_weights_chance: CHANGE_WEIGHTS_CHANCE,
                perturb_weights_chance: PERTURB_WEIGHTS_CHANCE,
                perturb_amount: PERTURB_AMOUNT,
                add_node_chance: ADD_NODE_CHANCE,
                add_connection_chance: ADD_CONNECTION_CHANCE,
            }),
            neat.measure() == (Measure {
                c1: EXCESS_COEFFICIENT as int,
                c2: DISJOINT_COEFFICIENT as int,
                c3: WEIGHT_COEFFICIENT as int,
                threshold: DISTANCE_THRESHOLD as int,
            }),
            neat.elite == ELITE,
            neat.preserve_champion_threshhold == 5,
    {
        let mut pop: Vec<Network> = Vec::new();
        let mut everyone: Vec<usize> = Vec::new();
        let mut made: u32 = 0;
        while made < pop_size
            invariant
                made <= pop_size,
                pop@.len() == made,
                everyone@.len() == made,
                forall|i: int| 0 <= i < made ==> (#[trigger] pop@[i]).wf(),
                forall|i: int|
                    0 <= i < made ==> (#[trigger] pop@[i])@ == NetworkView::minimal(
                        num_inputs,
                        num_outputs,
                    ),
                forall|i: int| 0 <= i < made ==> everyone@[i] == i,
            decreases pop_size - made,
        {
            let n = Network::new(num_inputs, num_outputs);
            pop.push(n);
            everyone.push(made as usize);
            made = made + 1;
        }
        let mut species_list: Vec<Vec<usize>> = Vec::new();
        let ghost members = everyone@;
        assert(members =~= Seq::new(pop_size as nat, |i: int| i as usize));
        if pop_size > 0 {
            species_list.push(everyone);
        }
        proof {
            let all = groups(species_list@);
            assert forall|i: int| 0 <= i < pop_size implies #[trigger] placed(all, i) by {
                assert(all[0] == members);
                assert(members[i] == i);
                assert(holds(all[0], i));
            }
            assert(is_partition(all, pop_size as int));
        }
        NEAT {
            global_inno_number: 1,
            generation: 0,
            pop_size,
            pop,
            species_list,
            past_pop: Vec::new(),
            past_species_list: Vec::new(),
            change_weights_chance: CHANGE_WEIGHTS_CHANCE,
            perturb_weights_chance: PERTURB_WEIGHTS_CHANCE,
            perturb_amount: PERTURB_AMOUNT,
            add_node_chance: ADD_NODE_CHANCE,
            add_connection_chance: ADD_CONNECTION_CHANCE,
            c1: EXCESS_COEFFICIENT,
            c2: DISJOINT_COEFFICIENT,
            c3: WEIGHT_COEFFICIENT,
            distance_threshold: DISTANCE_THRESHOLD,
            preserve_champion_threshhold: 5,
            elite: ELITE,
        }
    }

    /// The tunables of mutation.
    pub fn rates(&self) -> (rates: Rates)
        ensures
            rates == self.rates_spec(),
    {
        Rates {
            change_weights_chance: self.change_weights_chance,
            perturb_weights_chance: self.perturb_weights_chance,
            perturb_amount: self.perturb_amount,
            add_node_chance: self.add_node_chance,
            add_connection_chance: self.add_connection_chance,
        }
    }

    /// Whether the tunables are in their ranges; see [`NEAT::config_valid`].
    pub fn config_ok(&self) -> (ok: bool)
        ensures
            ok == self.config_valid(),
    {
        self.elite as usize <= self.pop.len() && self.perturb_amount >= 0 && self.c1 >= 0
            && self.c2 >= 0 && self.c3 >= 0
    }

    /// Whether the population is well-formed; see [`NEAT::wf`].
    pub fn is_well_formed(&self) -> (ok: bool)
        ensures
            ok == self.wf(),
    {
        if self.pop.len() != self.pop_size as usize {
            return false;
        }
        let mut i: usize = 0;
        while i < self.pop.len()
            invariant
                i <= self.pop.len(),
                forall|j: int| 0 <= j < i ==> (#[trigger] self.pop@[j]).wf(),
                forall|j: int|
                    0 <= j < i ==> (#[trigger] self.pop@[j])@.ids_from(
                        self.global_inno_number as int,
                    ),
            decreases self.pop.len() - i,
        {
            if !self.pop[i].is_well_formed() || !self.pop[i].ids_in_order(self.global_inno_number) {
                assert(!(self.pop@[i as int].wf() && self.pop@[i as int]@.ids_from(
                    self.global_inno_number as int,
                )));
                return false;
            }
            i = i + 1;
        }
        divides(&self.species_list, self.pop.len())
    }

    /// Whether the population can take one more generation; see
    /// [`NEAT::headroom`].
    pub fn has_headroom(&self) -> (ok: bool)
        ensures
            ok == self.headroom(),
    {
        if self.generation == u32::MAX {
            return false;
        }
        if self.global_inno_number as u128 + 3 * (self.pop.len() as u128) > u32::MAX as u128 {
            return false;
        }
        let mut i: usize = 0;
        while i < self.pop.len()
            invariant
                i <= self.pop.len(),
                forall|j: int| 0 <= j < i ==> (#[trigger] self.pop@[j])@.has_room(),
            decreases self.pop.len() - i,
        {
            if self.pop[i].nodes.len() >= u32::MAX as usize {
                assert(!self.pop@[i as int]@.has_room());
                return false;
            }
            i = i + 1;
        }
        true
    }

    /// Draws, for each species of the past generation, the place of one of
    /// its genomes within the species.
    pub fn draw_places(&self) -> (places: Vec<usize>)
        requires
            forall|s: int|
                0 <= s < self.past_species_list@.len()
                    ==> (#[trigger] self.past_species_list@[s])@.len()
                    > 0,
        ensures
            places@.len() == self.past_species_list@.len(),
            forall|s: int|
                0 <= s < places@.len()
                    ==> (#[trigger] places@[s]) < self.past_species_list@[s]@.len(),
    {
        let mut places: Vec<usize> = Vec::new();
        let mut s: usize = 0;
        while s < self.past_species_list.len()
            invariant
                s <= self.past_species_list.len(),
                places@.len() == s,
                forall|s: int|
                    0 <= s < self.past_species_list@.len()
                        ==> (#[trigger] self.past_species_list@[s])@.len()
                        > 0,
                forall|t: int|
                    0 <= t < s ==> (#[trigger] places@[t]) < self.past_species_list@[t]@.len(),
            decreases self.past_species_list.len() - s,
        {
            assert(self.past_species_list@[s as int]@.len() > 0);
            let rep_index = random_index(self.past_species_list[s].len());
            places.push(rep_index);
            s = s + 1;
        }
        places
    }

    /// The representatives of the species of the past generation: for each
    /// species the genome that stands at the given place within it.
    pub fn pick_representatives(&self, places: &Vec<usize>) -> (seeds: Vec<Network>)
        requires
            places@.len() == self.past_species_list@.len(),
            forall|s: int|
                0 <= s < places@.len()
                    ==> (#[trigger] places@[s]) < self.past_species_list@[s]@.len(),
            forall|s: int, p: int|
                0 <= s < self.past_species_list@.len() && 0 <= p < self.past_species_list@[s]@.len()
                    ==> (#[trigger] self.past_species_list@[s]@[p]) < self.past_pop@.len(),
        ensures
            views(seeds@)
                == chosen(views(self.past_pop@), groups(self.past_species_list@), places@),
            represents(views(seeds@), views(self.past_pop@), groups(self.past_species_list@)),
    {
        let mut species_reps: Vec<Network> = Vec::new();
        let mut s: usize = 0;
        while s < self.past_species_list.len()
            invariant
                s <= self.past_species_list.len(),
                species_reps@.len() == s,
                places@.len() == self.past_species_list@.len(),
                forall|s: int|
                    0 <= s < places@.len() ==> (#[trigger] places@[s])
                        < self.past_species_list@[s]@.len(),
                forall|s: int, p: int|
                    0 <= s < self.past_species_list@.len() && 0 <= p
                        < self.past_species_list@[s]@.len()
                        ==> (#[trigger] self.past_species_list@[s]@[p]) < self.past_pop@.len(),
                forall|t: int|
                    0 <= t < s ==> (#[trigger] species_reps@[t])@
                        == self.past_pop@[self.past_species_list@[t]@[places@[t] as int] as int]@,
            decreases self.past_species_list.len() - s,
        {
            assert(places@[s as int] < self.past_species_list@[s as int]@.len());
            let place = places[s];
            let member = self.past_species_list[s][place];
            assert(member == self.past_species_list@[s as int]@[place as int]);
            species_reps.push(self.past_pop[member].clone());
            s = s + 1;
        }
        proof {
            let seeds = views(species_reps@);
            let pop = views(self.past_pop@);
            let species = groups(self.past_species_list@);
            assert(seeds =~= chosen(pop, species, places@));
            assert forall|s: int| 0 <= s < species.len() implies member_of(
                #[trigger] seeds[s],
                pop,
                species[s],
            ) by {
                let p = places@[s] as int;
                assert(seeds[s] == pop[species[s][p] as int]);
            }
        }
        species_reps
    }

    /// The first species whose representative is within the threshold of
    /// `genome`, and the number of species where there is none.
    pub fn find_home(&self, genome: &Network, reps: &Vec<Network>) -> (place: usize)
        requires
            self.c1 >= 0,
            self.c2 >= 0,
            self.c3 >= 0,
            genome@.links.len() <= u32::MAX,
            forall|s: int| 0 <= s < reps@.len() ==> (#[trigger] reps@[s])@.links.len() <= u32::MAX,
        ensures
            place == self.measure().home_of(genome@, views(reps@), 0),
            place <= reps@.len(),
    {
        let mut s: usize = 0;
        while s < reps.len()
            invariant
                s <= reps.len(),
                self.c1 >= 0,
                self.c2 >= 0,
                self.c3 >= 0,
                genome@.links.len() <= u32::MAX,
                forall|s: int|
                    0 <= s < reps@.len() ==> (#[trigger] reps@[s])@.links.len() <= u32::MAX,
                self.measure().home_of(genome@, views(reps@), 0) == self.measure().home_of(
                    genome@,
                    views(reps@),
                    s as int,
                ),
            decreases reps.len() - s,
        {
            assert(views(reps@)[s as int] == reps@[s as int]@);
            if self.get_distance(genome, &reps[s]) <= self.distance_threshold as i64 {
                return s;
            }
            s = s + 1;
        }
        s
    }

    /// Places the genomes of the population in species, one after the other,
    /// starting from the representatives `seeds`; see [`Measure::speciated`].
    /// The result holds the species of each genome and the number of species.
    pub fn assign_species(&self, seeds: Vec<Network>) -> (found: (Vec<usize>, usize))
        requires
            self.c1 >= 0,
            self.c2 >= 0,
            self.c3 >= 0,
            forall|i: int|
                0 <= i < self.pop@.len() ==> (#[trigger] self.pop@[i])@.links.len() <= u32::MAX,
            forall|s: int| 0 <= s < seeds@.len()
                ==> (#[trigger] seeds@[s])@.links.len() <= u32::MAX,
        ensures
            found.0@ == self.measure().speciated(
                views(self.pop@),
                views(seeds@),
                self.pop@.len() as int,
            ).1,
            found.1 == self.measure().speciated(
                views(self.pop@),
                views(seeds@),
                self.pop@.len() as int,
            ).0.len(),
            found.0@.len() == self.pop@.len(),
            forall|i: int| 0 <= i < found.0@.len() ==> (#[trigger] found.0@[i]) < found.1,
    {
        let ghost m = self.measure();
        let ghost pop = views(self.pop@);
        let ghost start = views(seeds@);
        let mut reps = seeds;
        let mut home: Vec<usize> = Vec::new();
        let mut i: usize = 0;
        while i < self.pop.len()
            invariant
                i <= self.pop.len(),
                self.c1 >= 0,
                self.c2 >= 0,
                self.c3 >= 0,
                m == self.measure(),
                pop == views(self.pop@),
                forall|i: int|
                    0 <= i < self.pop@.len() ==> (#[trigger] self.pop@[i])@.links.len() <= u32::MAX,
                forall|s: int|
                    0 <= s < reps@.len() ==> (#[trigger] reps@[s])@.links.len() <= u32::MAX,
                views(reps@) == m.speciated(pop, start, i as int).0,
                home@ == m.speciated(pop, start, i as int).1,
            decreases self.pop.len() - i,
        {
            assert(pop[i as int] == self.pop@[i as int]@);
            let place = self.find_home(&self.pop[i], &reps);
            let ghost before = views(reps@);
            if place == reps.len() {
                reps.push(self.pop[i].clone());
                assert(views(reps@) =~= before.push(pop[i as int]));
            }
            home.push(place);
            i = i + 1;
        }
        proof {
            lemma_speciated_shape(m, pop, start, self.pop@.len() as int);
            assert(views(reps@).len() == reps@.len());
        }
        (home, reps.len())
    }

    /// `other` has the size and the tunables of this population.
    pub open spec fn same_settings(&self, other: &NEAT) -> bool {
        &&& other.pop_size == self.pop_size
        &&& other.rates_spec() == self.rates_spec()
        &&& other.measure() == self.measure()
        &&& other.preserve_champion_threshhold == self.preserve_champion_threshhold
        &&& other.elite == self.elite
    }

    /// `next` is what one generation makes of this population, where the
    /// genomes got the scores `fitness`, `order` is their ranking by these
    /// scores, `seeds` are the representatives that were drawn for the
    /// species, and `counters` holds the innovation counter as it stood before
    /// each genome was bred and, at its end, as it stands now:
    ///
    /// - the population and the species that entered are kept as the past;
    /// - the best genomes of the ranking stand unchanged at the end of the
    ///   new population, and the genomes before them are bred in turn from
    ///   the genomes of their ranks, by the tunables of the population, each
    ///   taking the shared counter where the one before it left it;
    /// - the new species list the ranked population, with the best carried
    ///   over, by the species in which the genomes were placed, one after
    ///   the other, starting from the seeds;
    /// - the generation is counted, and the innovation counter has moved by
    ///   at most three for each genome that was bred.
    pub open spec fn leads_to(
        &self,
        next: &NEAT,
        fitness: Seq<i32>,
        order: Seq<usize>,
        seeds: Seq<NetworkView>,
        counters: Seq<u32>,
    ) -> bool {
        let entering = views(self.pop@);
        let ranked = reordered(rescored(entering, fitness), order);
        let kept = with_elite(ranked, self.elite as int);
        &&& fitness.len() == entering.len()
        &&& is_ranking(order, fitness)
        &&& represents(seeds, entering, groups(self.species_list@))
        &&& next_generation(
            ranked,
            views(next.pop@),
            self.elite as int,
            self.rates_spec(),
            counters,
        )
        &&& counters[0] == self.global_inno_number
        &&& counters[entering.len() - self.elite] == next.global_inno_number
        &&& grouped(
            groups(next.species_list@),
            self.measure().speciated(kept, seeds, kept.len() as int).1,
        )
        &&& views(next.past_pop@) == entering
        &&& groups(next.past_species_list@) == groups(self.species_list@)
        &&& next.generation == self.generation + 1
        &&& self.global_inno_number <= next.global_inno_number <= self.global_inno_number + 3 * (
        entering.len() - self.elite)
        &&& self.same_settings(next)
    }

    /// Runs one generation: notes the population and its species as the
    /// past, has every genome scored by `scorer`, ranks the genomes by
    /// descending score, copies the best `elite` of them over the last
    /// places, divides the population into species around representatives
    /// drawn from the past species, changes every genome but the copies, and
    /// counts the generation. See [`NEAT::leads_to`] for what is known of the
    /// outcome.
    ///
    /// Fails with `ConfigError`, changing nothing, where a tunable is out of
    /// its range; see [`NEAT::config_valid`].
    pub fn train<F: Fn(&Network) -> i32>(&mut self, scorer: F) -> (result: Result<(), NeatError>)
        requires
            old(self).wf(),
            old(self).headroom(),
            forall|i: int|
                0 <= i < old(self).pop@.len() ==> call_requires(
                    scorer,
                    (&#[trigger] old(self).pop@[i],),
                ),
        ensures
            old(self).config_valid() <==> result is Ok,
            result is Err ==> result == Err::<(), NeatError>(NeatError::ConfigError) && *final(self)
                == *old(self),
            result is Ok ==> final(self).wf(),
            result is Ok ==> exists|
                fitness: Seq<i32>,
                order: Seq<usize>,
                seeds: Seq<NetworkView>,
                counters: Seq<u32>,
            |
                scored_by(scorer, old(self).pop@, fitness) && #[trigger] old(self).leads_to(
                    final(self),
                    fitness,
                    order,
                    seeds,
                    counters,
                ),
    {
        if !self.config_ok() {
            return Err(NeatError::ConfigError);
        }
        let elite = self.elite as usize;
        let ghost first_id = self.global_inno_number as int;
        let ghost entering = self.pop@;
        proof {
            assert forall|i: int| 0 <= i < views(entering).len() implies {
                &&& (#[trigger] views(entering)[i]).wf()
                &&& views(entering)[i].ids_from(first_id)
                &&& views(entering)[i].has_room()
            } by {
                assert(entering[i].wf());
                assert(entering[i]@.ids_from(first_id));
                assert(entering[i]@.has_room());
            }
            assert(sound(views(entering), first_id));
        }
        self.past_pop = clone_population(&self.pop);
        self.past_species_list = clone_species(&self.species_list);
        score_population(&mut self.pop, &scorer);
        let ghost fitness = fitness_of(views(self.pop@));
        let ghost scored = views(self.pop@);
        proof {
            lemma_rescored_sound(views(entering), fitness, first_id);
        }
        sort_by_fitness(&mut self.pop);
        let ghost order = choose|order: Seq<usize>| #[trigger]
            is_ranking(order, fitness_of(scored)) && views(self.pop@) == reordered(scored, order);
        let ghost ranked = views(self.pop@);
        proof {
            assert(fitness_of(scored) =~= fitness);
            lemma_reordered_sound(scored, order, first_id);
            lemma_with_elite_sound(ranked, elite as int, first_id);
        }
        keep_elite(&mut self.pop, elite);
        let ghost kept = views(self.pop@);
        proof {
            assert(ranked.len() == entering.len());
            assert(kept.len() == ranked.len());
            assert(kept.len() == self.pop@.len());
            let past = groups(self.past_species_list@);
            assert forall|s: int| 0 <= s < self.past_species_list@.len()
                implies (#[trigger] self.past_species_list@[s])@.len()
                > 0 by {
                assert(past[s] == self.past_species_list@[s]@);
                assert(past[s].len() > 0);
            }
            assert forall|s: int, p: int|
                0 <= s < self.past_species_list@.len() && 0 <= p
                    < self.past_species_list@[s]@.len()
                        implies (#[trigger] self.past_species_list@[s]@[p])
                < self.past_pop@.len() by {
                assert(past[s] == self.past_species_list@[s]@);
                assert(past[s][p] < entering.len());
                assert(views(self.past_pop@).len() == self.past_pop@.len());
                assert(views(entering).len() == entering.len());
            }
        }
        let places = self.draw_places();
        let seeds = self.pick_representatives(&places);
        let ghost seed_views = views(seeds@);
        proof {
            assert forall|i: int| 0 <= i < self.pop@.len()
                implies (#[trigger] self.pop@[i])@.links.len()
                <= u32::MAX by {
                assert(kept[i] == self.pop@[i]@);
                assert(kept[i].wf());
                lemma_ids_count(kept[i], first_id);
            }
            assert forall|s: int| 0 <= s < seeds@.len() implies (#[trigger] seeds@[s])@.links.len()
                <= u32::MAX by {
                assert(seed_views[s] == seeds@[s]@);
                let past = groups(self.past_species_list@);
                assert(member_of(seed_views[s], views(entering), past[s]));
                let p = choose|p: int|
                    0 <= p < past[s].len()
                        && seed_views[s] == views(entering)[(#[trigger] past[s][p]) as int];
                assert(past[s][p] < entering.len());
                assert(views(entering)[past[s][p] as int].wf());
                lemma_ids_count(views(entering)[past[s][p] as int], first_id);
            }
        }
        let found = self.assign_species(seeds);
        self.species_list = group_species(&found.0, found.1);
        let rates = self.rates();
        let ghost kept_pop = self.pop@;
        mutate_population(&mut self.pop, &mut self.global_inno_number, &rates, elite);
        self.generation = self.generation + 1;
        proof {
            let after = views(self.pop@);
            let bred_count = ranked.len() - elite;
            assert(after.len() == ranked.len());
            let counters = choose|counters: Seq<u32>|
                #[trigger] bred_in_turn(kept, after, rates, counters, bred_count) && counters[0]
                    == first_id && counters[bred_count] == self.global_inno_number;
            assert forall|k: int| 0 <= k < bred_count implies bred(
                ranked[k],
                counters[k],
                rates,
                #[trigger] after[k],
                counters[k + 1],
            ) by {
                assert(kept[k] == ranked[k]);
            }
            assert(bred_in_turn(ranked, after, rates, counters, bred_count));
            assert forall|k: int| ranked.len() - elite <= k < ranked.len()
                implies #[trigger] after[k]
                == ranked[k - (ranked.len() - elite)] by {
                assert(after[k] == self.pop@[k]@);
                assert(kept[k] == ranked[k - (ranked.len() - elite)]);
            }
            assert(next_generation(ranked, after, elite as int, rates, counters));
            assert(old(self).leads_to(self, fitness, order, seed_views, counters));
        }
        Ok(())
    }

    /// The compatibility distance of two genomes, by the coefficients of the
    /// population; see [`compatibility`]. It is the same whichever genome is
    /// named first.
    pub fn get_distance(&self, a: &Network, b: &Network) -> (distance: i64)
        requires
            self.c1 >= 0,
            self.c2 >= 0,
            self.c3 >= 0,
            a@.links.len() <= u32::MAX,
            b@.links.len() <= u32::MAX,
        ensures
            distance == compatibility(a@, b@, self.c1 as int, self.c2 as int, self.c3 as int),
            distance == compatibility(b@, a@, self.c1 as int, self.c2 as int, self.c3 as int),
            distance >= 0,
            a@.links == b@.links && a@.distinct_ids() ==> distance == 0,
    {
        proof {
            lemma_compatibility_symmetric(a@, b@, self.c1 as int, self.c2 as int, self.c3 as int);
            if a@.links == b@.links && a@.distinct_ids() {
                lemma_same_links_same_distance(
                    a@,
                    b@,
                    self.c1 as int,
                    self.c2 as int,
                    self.c3 as int,
                );
                lemma_compatibility_self(a@, self.c1 as int, self.c2 as int, self.c3 as int);
            }
        }
        let lone_a = a.lone_links(b);
        let lone_b = b.lone_links(a);
        let excess_count: u128 = lone_a.0 as u128 + lone_b.0 as u128;
        let disjoint_count: u128 = lone_a.1 as u128 + lone_b.1 as u128;
        let size: u128 = if a.links.len() == 0 && b.links.len() == 0 {
            1
        } else if a.links.len() >= b.links.len() {
            a.links.len() as u128
        } else {
            b.links.len() as u128
        };
        let found = a.matching_links(b);
        let average: u128 = if found.0 == 0 {
            0
        } else {
            found.1 / found.0
        };
        let c1 = self.c1 as u128;
        let c2 = self.c2 as u128;
        let c3 = self.c3 as u128;
        proof {
            assert(excess_count <= 2 * size && disjoint_count <= 2 * size);
            assert(c1 * excess_count <= c1 * (2 * size) && c2 * disjoint_count <= c2 * (2 * size))
                by (nonlinear_arith)
                requires
                    excess_count <= 2 * size,
                    disjoint_count <= 2 * size,
                    0 <= c1,
                    0 <= c2,
            ;
            assert(c1 * (2 * size) <= 0x8000_0000 * (2 * 0x1_0000_0000) && c2 * (2 * size)
                <= 0x8000_0000 * (2 * 0x1_0000_0000)) by (nonlinear_arith)
                requires
                    0 <= c1 <= 0x8000_0000,
                    0 <= c2 <= 0x8000_0000,
                    0 < size <= 0x1_0000_0000,
            ;
            if found.0 > 0 {
                assert(found.1 / found.0 <= 0xFFFF_FFFF) by (nonlinear_arith)
                    requires
                        found.0 > 0,
                        found.1 <= found.0 * 0xFFFF_FFFF,
                ;
            }
            assert(c3 * average <= 0x8000_0000 * 0xFFFF_FFFF) by (nonlinear_arith)
                requires
                    0 <= c3 <= 0x8000_0000,
                    0 <= average <= 0xFFFF_FFFF,
            ;
            lemma_share_bound(c1 as int, excess_count as int, size as int);
            lemma_share_bound(c2 as int, disjoint_count as int, size as int);
            assert(excess_count == excess(a@, b@));
            assert(disjoint_count == disjoint(a@, b@));
            assert(size == larger_size(a@, b@));
            assert(average == average_weight_gap(a@, b@));
        }
        let total: u128 = c1 * excess_count / size + c2 * disjoint_count / size + c3 * average
            / ONE as u128;
        total as i64
    }
}

/// The genome that ranks first has the highest score.
pub proof fn lemma_first_ranks_highest(order: Seq<usize>, fitness: Seq<i32>, i: int)
    requires
        is_ranking(order, fitness),
        0 <= i < fitness.len(),
    ensures
        0 <= order[0] < fitness.len(),
        fitness[i] <= fitness[order[0] as int],
{
    assert(holds(order, i));
    let at = choose|at: int| 0 <= at < order.len() && order[at] == i;
    assert(order[0] < fitness.len());
    if at > 0 {
        assert(crate::population::outranks(fitness, order[0] as int, order[at] as int));
    }
}

/// A generation that carries at least one genome over keeps its champion:
/// the genome with the highest score stands unchanged, with that score, at
/// the first of the last `elite` places of the next population.
pub proof fn lemma_champion_survives(
    before: &NEAT,
    after: &NEAT,
    fitness: Seq<i32>,
    order: Seq<usize>,
    seeds: Seq<NetworkView>,
    counters: Seq<u32>,
)
    requires
        before.leads_to(after, fitness, order, seeds, counters),
        1 <= before.elite <= before.pop@.len(),
    ensures
        0 <= order[0] < before.pop@.len(),
        forall|i: int| 0 <= i < fitness.len()
            ==> (#[trigger] fitness[i]) <= fitness[order[0] as int],
        after.pop@.len() == before.pop@.len(),
        after.pop@[before.pop@.len() - before.elite]@ == before.pop@[order[0] as int]@.with_fitness(
            fitness[order[0] as int],
        ),
{
    let entering = views(before.pop@);
    let ranked = reordered(rescored(entering, fitness), order);
    let next = views(after.pop@);
    let place = before.pop@.len() - before.elite;
    assert forall|i: int| 0 <= i < fitness.len() implies (#[trigger] fitness[i])
        <= fitness[order[0] as int] by {
        lemma_first_ranks_highest(order, fitness, i);
    }
    lemma_first_ranks_highest(order, fitness, 0);
    assert(next.len() == ranked.len());
    assert(next[place] == ranked[0]);
    assert(next[place] == after.pop@[place]@);
    assert(entering[order[0] as int] == before.pop@[order[0] as int]@);
}

/// With a scorer that gives a genome the same score whenever it sees it, and
/// that does not read the score noted on the genome, the best score of a
/// population never drops from one generation to the next, as long as at
/// least one genome is carried over: for each genome that entered, the next
/// population holds one that scores at least as high.
pub proof fn lemma_best_score_never_drops(
    before: &NEAT,
    after: &NEAT,
    fitness: Seq<i32>,
    order: Seq<usize>,
    seeds: Seq<NetworkView>,
    counters: Seq<u32>,
    score: spec_fn(NetworkView) -> i32,
    i: int,
)
    requires
        before.leads_to(after, fitness, order, seeds, counters),
        1 <= before.elite <= before.pop@.len(),
        forall|genome: NetworkView, noted: i32| #[trigger]
            score(genome.with_fitness(noted)) == score(genome),
        forall|j: int| 0 <= j < before.pop@.len()
            ==> #[trigger] fitness[j] == score(before.pop@[j]@),
        0 <= i < before.pop@.len(),
    ensures
        exists|t: int|
            0 <= t < after.pop@.len() && score((#[trigger] after.pop@[t])@) >= score(
                before.pop@[i]@,
            ),
{
    lemma_champion_survives(before, after, fitness, order, seeds, counters);
    let place = before.pop@.len() - before.elite;
    let champion = order[0] as int;
    assert(score(before.pop@[champion]@.with_fitness(fitness[champion])) == score(
        before.pop@[champion]@,
    ));
    assert(fitness[i] <= fitness[champion]);
    assert(score(after.pop@[place]@) >= score(before.pop@[i]@));
}

/// The genomes of the ranking are the genomes that entered, with their
/// scores, and well-formed like them.
pub proof fn lemma_ranked_genomes(before: &NEAT, fitness: Seq<i32>, order: Seq<usize>, k: int)
    requires
        before.wf(),
        fitness.len() == before.pop@.len(),
        is_ranking(order, fitness),
        0 <= k < before.pop@.len(),
    ensures
        0 <= order[k] < before.pop@.len(),
        reordered(rescored(views(before.pop@), fitness), order)[k]
            == before.pop@[order[k] as int]@.with_fitness(fitness[order[k] as int]),
        reordered(rescored(views(before.pop@), fitness), order)[k].wf(),
{
    let place = order[k] as int;
    assert(order[k] < fitness.len());
    assert(before.pop@[place].wf());
    assert(views(before.pop@)[place] == before.pop@[place]@);
    crate::network::lemma_fitness_apart(before.pop@[place]@, fitness[place]);
}

/// With no positive chance of a change, a generation ranks the population
/// and carries the best over, and changes nothing else: every genome before
/// the last places is the genome of its rank, and the innovation counter
/// stands where it stood.
pub proof fn lemma_generation_without_chances(
    before: &NEAT,
    after: &NEAT,
    fitness: Seq<i32>,
    order: Seq<usize>,
    seeds: Seq<NetworkView>,
    counters: Seq<u32>,
    k: int,
)
    requires
        before.leads_to(after, fitness, order, seeds, counters),
        before.elite <= before.pop@.len(),
        before.change_weights_chance <= 0,
        before.add_node_chance <= 0,
        before.add_connection_chance <= 0,
        0 <= k < before.pop@.len() - before.elite,
    ensures
        after.pop@[k]@ == reordered(rescored(views(before.pop@), fitness), order)[k],
        after.global_inno_number == before.global_inno_number,
{
    let ranked = reordered(rescored(views(before.pop@), fitness), order);
    let next = views(after.pop@);
    let count = before.pop@.len() - before.elite;
    crate::heredity::lemma_bred_in_turn_without_chances(
        ranked,
        next,
        before.rates_spec(),
        counters,
        count,
        k,
    );
    crate::heredity::lemma_bred_in_turn_without_chances(
        ranked,
        next,
        before.rates_spec(),
        counters,
        count,
        count - 1,
    );
    assert(next[k] == after.pop@[k]@);
}

/// A generation numbers its new links from the shared counter: a link that a
/// genome has gained carries an id at or above the counter as it stood
/// before the generation and below the counter as it stands after it.
pub proof fn lemma_generation_new_ids_are_fresh(
    before: &NEAT,
    after: &NEAT,
    fitness: Seq<i32>,
    order: Seq<usize>,
    seeds: Seq<NetworkView>,
    counters: Seq<u32>,
    k: int,
    at: int,
)
    requires
        before.wf(),
        before.leads_to(after, fitness, order, seeds, counters),
        before.elite <= before.pop@.len(),
        0 <= k < before.pop@.len() - before.elite,
        before.pop@[order[k] as int]@.links.len() <= at < after.pop@[k]@.links.len(),
    ensures
        before.global_inno_number <= after.pop@[k]@.links[at].inno_number
            < after.global_inno_number,
{
    let ranked = reordered(rescored(views(before.pop@), fitness), order);
    let next = views(after.pop@);
    let count = before.pop@.len() - before.elite;
    assert forall|i: int| 0 <= i < count implies (#[trigger] ranked[i]).wf() by {
        lemma_ranked_genomes(before, fitness, order, i);
    }
    lemma_ranked_genomes(before, fitness, order, k);
    assert(next[k] == after.pop@[k]@);
    crate::heredity::lemma_new_ids_are_fresh(
        ranked,
        next,
        before.rates_spec(),
        counters,
        count,
        k,
        at,
    );
}

/// No two links that different genomes have gained in one generation carry
/// the same innovation id: the genome that was bred first got the lower ids.
pub proof fn lemma_generation_new_ids_differ(
    before: &NEAT,
    after: &NEAT,
    fitness: Seq<i32>,
    order: Seq<usize>,
    seeds: Seq<NetworkView>,
    counters: Seq<u32>,
    j: int,
    at: int,
    k: int,
    other: int,
)
    requires
        before.wf(),
        before.leads_to(after, fitness, order, seeds, counters),
        before.elite <= before.pop@.len(),
        0 <= j < k < before.pop@.len() - before.elite,
        before.pop@[order[j] as int]@.links.len() <= at < after.pop@[j]@.links.len(),
        before.pop@[order[k] as int]@.links.len() <= other < after.pop@[k]@.links.len(),
    ensures
        after.pop@[j]@.links[at].inno_number < after.pop@[k]@.links[other].inno_number,
{
    let ranked = reordered(rescored(views(before.pop@), fitness), order);
    let next = views(after.pop@);
    let count = before.pop@.len() - before.elite;
    assert forall|i: int| 0 <= i < count implies (#[trigger] ranked[i]).wf() by {
        lemma_ranked_genomes(before, fitness, order, i);
    }
    lemma_ranked_genomes(before, fitness, order, j);
    lemma_ranked_genomes(before, fitness, order, k);
    assert(next[j] == after.pop@[j]@);
    assert(next[k] == after.pop@[k]@);
    crate::heredity::lemma_new_ids_differ(
        ranked,
        next,
        before.rates_spec(),
        counters,
        count,
        j,
        at,
        k,
        other,
    );
}

/// A generation that adds no link keeps every weight of the population
/// within -1.0 and 1.0, if every weight was.
pub proof fn lemma_generation_weights_within(
    before: &NEAT,
    after: &NEAT,
    fitness: Seq<i32>,
    order: Seq<usize>,
    seeds: Seq<NetworkView>,
    counters: Seq<u32>,
    k: int,
)
    requires
        before.wf(),
        before.leads_to(after, fitness, order, seeds, counters),
        before.elite <= before.pop@.len(),
        before.add_connection_chance <= 0,
        forall|i: int|
            0 <= i < before.pop@.len() ==> all_within(weights_of((#[trigger] before.pop@[i])@)),
        0 <= k < before.pop@.len(),
    ensures
        all_within(weights_of(after.pop@[k]@)),
{
    let ranked = reordered(rescored(views(before.pop@), fitness), order);
    let next = views(after.pop@);
    let count = before.pop@.len() - before.elite;
    assert(next[k] == after.pop@[k]@);
    let rank = if k < count {
        k
    } else {
        k - count
    };
    lemma_ranked_genomes(before, fitness, order, rank);
    let parent = before.pop@[order[rank] as int]@;
    assert(all_within(weights_of(before.pop@[order[rank] as int]@)));
    assert(all_within(weights_of(ranked[rank]))) by {
        assert(weights_of(ranked[rank]) =~= weights_of(parent));
    }
    if k < count {
        assert(bred(ranked[k], counters[k], before.rates_spec(), next[k], counters[k + 1]));
        crate::heredity::lemma_bred_weights_within(
            ranked[k],
            counters[k],
            before.rates_spec(),
            next[k],
            counters[k + 1],
        );
    } else {
        assert(next[k] == ranked[k - count]);
    }
}

} // verus!
