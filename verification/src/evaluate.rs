use crate::fixed::{
    knot_value, lemma_squash_bounded, rescaled, squash, squash_magnitude, KNOT_STEP, LAST_KNOT, ONE,
};
use crate::network::{Network, NetworkView};
use crate::node::NodeType;
use vstd::prelude::*;

verus! {

/// The range in which a caller wants to read the outputs of a network.
#[derive(Debug, Clone, Copy, PartialEq, Eq, Structural)]
pub enum OutputRange {
    /// The range of the squashing function itself, from -1.0 to 1.0.
    Symmetric,
    /// From 0.0 to 1.0: an output `v` is read as `(v + 1) / 2`.
    Unit,
}

impl OutputRange {
    /// What the squashed value `value` reads as in this range.
    pub open spec fn remapped(self, value: int) -> int {
        match self {
            OutputRange::Symmetric => value,
            OutputRange::Unit => (value + ONE) / 2,
        }
    }

    /// Maps a squashed value into this range.
    pub fn remap(&self, value: i32) -> (mapped: i32)
        requires
            -ONE <= value <= ONE,
        ensures
            mapped == self.remapped(value as int),
    {
        match self {
            OutputRange::Symmetric => value,
            OutputRange::Unit => (value + ONE) / 2,
        }
    }
}

impl NetworkView {
    /// The weighted sum that the enabled links among the first `upto` links
    /// carry into `node`, at twice the fixed-point scale.
    pub open spec fn weighted_input(self, values: Seq<i32>, node: int, upto: int) -> int
        decreases upto,
    {
        if upto <= 0 {
            0
        } else {
            let rest = self.weighted_input(values, node, upto - 1);
            let link = self.links[upto - 1];
            if link.enabled && link.out_index == node {
                rest + link.weight * values[link.in_index as int]
            } else {
                rest
            }
        }
    }

    /// The value that `node` takes when it fires: the squashed sum of what
    /// its enabled incoming links carry.
    pub open spec fn activation(self, values: Seq<i32>, node: int) -> i32 {
        squash(rescaled(self.weighted_input(values, node, self.links.len() as int))) as i32
    }

    /// The node values after `node` has fired.
    pub open spec fn fire(self, values: Seq<i32>, node: int) -> Seq<i32> {
        values.update(node, self.activation(values, node))
    }

    /// Node `i` is a hidden node on layer `level`.
    pub open spec fn on_level(self, i: int, level: int) -> bool {
        self.nodes[i].node_type is Hidden && self.nodes[i].level == level
    }

    /// Some hidden node is on layer `level`.
    pub open spec fn level_occupied(self, level: int) -> bool {
        exists|i: int| 0 <= i < self.nodes.len() && #[trigger] self.on_level(i, level)
    }

    /// The node values after those hidden nodes of layer `level` whose index
    /// is below `upto` have fired, in the order of their indices.
    pub open spec fn sweep(self, values: Seq<i32>, level: int, upto: int) -> Seq<i32>
        decreases upto,
    {
        if upto <= 0 {
            values
        } else {
            let before = self.sweep(values, level, upto - 1);
            if self.on_level(upto - 1, level) {
                self.fire(before, upto - 1)
            } else {
                before
            }
        }
    }

    /// The node values after the layers 1 to `levels` have been swept, lowest
    /// layer first.
    pub open spec fn hidden_pass(self, values: Seq<i32>, levels: nat) -> Seq<i32>
        decreases levels,
    {
        if levels == 0 {
            values
        } else {
            self.sweep(
                self.hidden_pass(values, (levels - 1) as nat),
                levels as int,
                self.nodes.len() as int,
            )
        }
    }

    /// The first layer at or above `level` that holds no hidden node.
    pub open spec fn first_gap(self, level: int) -> int
        decreases 0x1_0000_0000 - level,
    {
        if 1 <= level < 0x1_0000_0000 && self.level_occupied(level) {
            self.first_gap(level + 1)
        } else {
            level
        }
    }

    /// The number of hidden layers that evaluation sweeps: it goes up from
    /// layer 1 and stops before the first layer that holds no hidden node.
    pub open spec fn hidden_layers(self) -> nat {
        (self.first_gap(1) - 1) as nat
    }

    /// The node values after the output nodes whose index is below `upto`
    /// have fired, in the order of their indices.
    pub open spec fn output_pass(self, values: Seq<i32>, upto: int) -> Seq<i32>
        decreases upto,
    {
        if upto <= self.input_count {
            values
        } else {
            self.fire(self.output_pass(values, upto - 1), upto - 1)
        }
    }

    /// The node values before anything has fired: the inputs on the input
    /// nodes, zero everywhere else.
    pub open spec fn initial_values(self, inputs: Seq<i32>) -> Seq<i32> {
        Seq::new(
            self.nodes.len(),
            |i: int|
                if i < self.input_count {
                    inputs[i]
                } else {
                    0i32
                },
        )
    }

    /// The node values at the end of a forward pass: the hidden layers have
    /// been swept from the lowest up, then the outputs have fired.
    pub open spec fn settled(self, inputs: Seq<i32>) -> Seq<i32> {
        self.output_pass(
            self.hidden_pass(self.initial_values(inputs), self.hidden_layers()),
            self.fixed_count(),
        )
    }

    /// What the network answers to `inputs`: the settled values of its output
    /// nodes, in the order of the nodes, read in `range`.
    pub open spec fn outputs(self, inputs: Seq<i32>, range: OutputRange) -> Seq<i32> {
        Seq::new(
            self.output_count as nat,
            |j: int| range.remapped(self.settled(inputs)[self.input_count + j] as int) as i32,
        )
    }

    /// No enabled link carries any weight.
    pub open spec fn silent(self) -> bool {
        forall|k: int|
            0 <= k < self.links.len() && (#[trigger] self.links[k]).enabled ==> self.links[k].weight
                == 0
    }
}

/// Firing nodes changes their values and nothing else: the number of values
/// stays what it was.
pub proof fn lemma_sweep_len(net: NetworkView, values: Seq<i32>, level: int, upto: int)
    requires
        upto <= values.len(),
    ensures
        net.sweep(values, level, upto).len() == values.len(),
    decreases upto,
{
    if upto > 0 {
        lemma_sweep_len(net, values, level, upto - 1);
    }
}

/// Sweeping a layer that holds no hidden node changes nothing.
pub proof fn lemma_sweep_empty_level(net: NetworkView, values: Seq<i32>, level: int, upto: int)
    requires
        upto <= net.nodes.len(),
        !net.level_occupied(level),
    ensures
        net.sweep(values, level, upto) == values,
    decreases upto,
{
    if upto > 0 {
        lemma_sweep_empty_level(net, values, level, upto - 1);
        assert(!net.on_level(upto - 1, level));
    }
}

/// The pass over the hidden layers keeps the number of values.
pub proof fn lemma_hidden_pass_len(net: NetworkView, values: Seq<i32>, levels: nat)
    requires
        values.len() == net.nodes.len(),
    ensures
        net.hidden_pass(values, levels).len() == values.len(),
    decreases levels,
{
    if levels > 0 {
        lemma_hidden_pass_len(net, values, (levels - 1) as nat);
        lemma_sweep_len(
            net,
            net.hidden_pass(values, (levels - 1) as nat),
            levels as int,
            net.nodes.len() as int,
        );
    }
}

/// The pass over the outputs keeps the number of values.
pub proof fn lemma_output_pass_len(net: NetworkView, values: Seq<i32>, upto: int)
    requires
        upto <= values.len(),
    ensures
        net.output_pass(values, upto).len() == values.len(),
    decreases upto,
{
    if upto > net.input_count {
        lemma_output_pass_len(net, values, upto - 1);
    }
}

/// A product of two 32-bit numbers stays within 62 bits.
proof fn lemma_product_bound(weight: int, value: int)
    requires
        -0x8000_0000 <= weight < 0x8000_0000,
        -0x8000_0000 <= value < 0x8000_0000,
    ensures
        -0x4000_0000_0000_0000 <= weight * value <= 0x4000_0000_0000_0000,
{
    assert(-0x4000_0000_0000_0000 <= weight * value <= 0x4000_0000_0000_0000) by (nonlinear_arith)
        requires
            -0x8000_0000 <= weight < 0x8000_0000,
            -0x8000_0000 <= value < 0x8000_0000,
    ;
}

impl Network {
    /// The squashing function `2 / (1 + e^-x) - 1` in fixed point: the value
    /// of the table at `x`, interpolated between the two knots around it.
    pub fn sigmoid(x: i32) -> (y: i32)
        ensures
            y == squash(x as int),
            -ONE < y < ONE,
    {
        proof {
            lemma_squash_bounded(x as int);
        }
        let magnitude: i64 = if x < 0 {
            -(x as i64)
        } else {
            x as i64
        };
        let plateau: i64 = LAST_KNOT as i64 * KNOT_STEP as i64;
        let height: i32 = if magnitude >= plateau {
            ONE - 1
        } else {
            let i: usize = (magnitude / KNOT_STEP as i64) as usize;
            let part: i64 = magnitude % KNOT_STEP as i64;
            let low: i32 = knot_value(i);
            let high: i32 = knot_value(i + 1);
            proof {
                crate::fixed::lemma_knots_ascend(i);
                assert(0 <= (high - low) * part <= (high - low) * KNOT_STEP) by (nonlinear_arith)
                    requires
                        0 <= high - low,
                        0 <= part < KNOT_STEP,
                ;
            }
            low + ((high - low) as i64 * part / KNOT_STEP as i64) as i32
        };
        assert(height == squash_magnitude(magnitude as int));
        if x < 0 {
            -height
        } else {
            height
        }
    }

    /// Squashes a weighted sum, which comes at twice the fixed-point scale.
    fn squash_sum(sum: i128) -> (value: i32)
        ensures
            value == squash(rescaled(sum as int)),
            -ONE < value < ONE,
    {
        let plateau: u128 = LAST_KNOT as u128 * KNOT_STEP as u128;
        let magnitude: u128 = if sum < 0 {
            (-(sum + 1)) as u128 + 1
        } else {
            sum as u128
        };
        let scaled: u128 = magnitude / ONE as u128;
        let capped: i32 = if scaled > plateau {
            plateau as i32
        } else {
            scaled as i32
        };
        if sum < 0 {
            Self::sigmoid(-capped)
        } else {
            Self::sigmoid(capped)
        }
    }

    /// The weighted sum that the enabled links carry into `node`.
    fn weighted_sum(&self, values: &Vec<i32>, node: usize) -> (sum: i128)
        requires
            self.wf(),
            values@.len() == self@.nodes.len(),
        ensures
            sum == self@.weighted_input(values@, node as int, self@.links.len() as int),
    {
        let mut sum: i128 = 0;
        let mut k: usize = 0;
        while k < self.links.len()
            invariant
                self.wf(),
                values@.len() == self@.nodes.len(),
                k <= self.links.len(),
                sum == self@.weighted_input(values@, node as int, k as int),
                -0x4000_0000_0000_0000 * k <= sum <= 0x4000_0000_0000_0000 * k,
            decreases self.links.len() - k,
        {
            let link = self.links[k];
            proof {
                assert(self@.link_fits(k as int));
            }
            if link.enabled && link.out_index == node {
                proof {
                    lemma_product_bound(link.weight as int, values@[link.in_index as int] as int);
                }
                sum = sum + (link.weight as i128) * (values[link.in_index] as i128);
            }
            k = k + 1;
        }
        sum
    }

    /// Lets `node` fire: its value becomes the squashed sum of what its
    /// enabled incoming links carry.
    fn fire_node(&self, values: &mut Vec<i32>, node: usize)
        requires
            self.wf(),
            old(values)@.len() == self@.nodes.len(),
            node < self@.nodes.len(),
        ensures
            final(values)@ == self@.fire(old(values)@, node as int),
    {
        let sum = self.weighted_sum(values, node);
        let value = Self::squash_sum(sum);
        values.set(node, value);
    }

    /// Lets the hidden nodes of one layer fire, in the order of their
    /// indices, and says whether there were any.
    fn sweep_level(&self, values: &mut Vec<i32>, level: u64) -> (found: bool)
        requires
            self.wf(),
            old(values)@.len() == self@.nodes.len(),
        ensures
            final(values)@ == self@.sweep(old(values)@, level as int, self@.nodes.len() as int),
            found == self@.level_occupied(level as int),
    {
        let mut found = false;
        let mut i: usize = 0;
        while i < self.nodes.len()
            invariant
                self.wf(),
                i <= self.nodes.len(),
                values@.len() == self@.nodes.len(),
                values@ == self@.sweep(old(values)@, level as int, i as int),
                found == (exists|j: int| 0 <= j < i && #[trigger] self@.on_level(j, level as int)),
            decreases self.nodes.len() - i,
        {
            let node = self.nodes[i];
            let hidden = match node.node_type {
                NodeType::Hidden => true,
                _ => false,
            };
            if hidden && node.level as u64 == level {
                assert(self@.on_level(i as int, level as int));
                found = true;
                self.fire_node(values, i);
            }
            i = i + 1;
        }
        found
    }

    /// The forward pass. The hidden layers fire from layer 1 up, as far as
    /// they are occupied without a gap, each layer in the order of its nodes;
    /// then the output nodes fire. The result holds the values of the output
    /// nodes, in their order, read in `range`.
    pub fn evaluate(&self, input_values: Vec<i32>, range: OutputRange) -> (outputs: Vec<i32>)
        requires
            self.wf(),
            input_values@.len() == self.input_count,
        ensures
            outputs@ == self@.outputs(input_values@, range),
            outputs@.len() == self.output_count,
            self@.links.len() == 0 || self@.silent() ==> forall|j: int|
                0 <= j < self.output_count ==> outputs@[j] == range.remapped(squash(0)),
            forall|j: int| 0 <= j < self.output_count ==> -ONE < #[trigger] outputs@[j] < ONE,
            range is Unit ==> forall|j: int|
                0 <= j < self.output_count ==> 0 <= #[trigger] outputs@[j],
    {
        proof {
            if self@.links.len() == 0 || self@.silent() {
                lemma_silent_outputs(self@, input_values@, range);
            }
        }
        let node_count = self.nodes.len();
        let inputs = self.input_count as usize;
        let fixed = inputs + self.output_count as usize;
        let mut values: Vec<i32> = Vec::new();
        let mut i: usize = 0;
        while i < node_count
            invariant
                i <= node_count,
                node_count == self@.nodes.len(),
                inputs == self.input_count,
                input_values@.len() == inputs,
                values@.len() == i,
                forall|j: int| 0 <= j < i ==> values@[j] == self@.initial_values(input_values@)[j],
            decreases node_count - i,
        {
            if i < inputs {
                values.push(input_values[i]);
            } else {
                values.push(0);
            }
            i = i + 1;
        }
        assert(values@ =~= self@.initial_values(input_values@));
        let ghost start = values@;
        let mut level: u64 = 1;
        let mut more = true;
        while more
            invariant
                self.wf(),
                1 <= level <= 0x1_0000_0000,
                values@.len() == self@.nodes.len(),
                more ==> values@ == self@.hidden_pass(start, (level - 1) as nat),
                more ==> self@.first_gap(level as int) == self@.first_gap(1),
                !more ==> values@ == self@.hidden_pass(start, self@.hidden_layers()),
            decreases 0x1_0000_0000 - level + (if more { 1int } else { 0int }),
        {
            let ghost before = values@;
            let found = self.sweep_level(&mut values, level);
            proof {
                lemma_sweep_len(self@, before, level as int, self@.nodes.len() as int);
            }
            if found {
                proof {
                    // The layer holds a node, so it is a layer that a node can
                    // be on.
                    let on_it = choose|j: int|
                        0 <= j < self@.nodes.len() && #[trigger] self@.on_level(j, level as int);
                    assert(level == self@.nodes[on_it].level);
                }
                level = level + 1;
            } else {
                proof {
                    lemma_sweep_empty_level(self@, before, level as int, self@.nodes.len() as int);
                }
                more = false;
            }
        }
        let ghost hidden_done = values@;
        let mut o: usize = inputs;
        while o < fixed
            invariant
                self.wf(),
                inputs == self.input_count,
                fixed == self@.fixed_count(),
                inputs <= o <= fixed,
                values@.len() == self@.nodes.len(),
                values@ == self@.output_pass(hidden_done, o as int),
            decreases fixed - o,
        {
            self.fire_node(&mut values, o);
            o = o + 1;
        }
        assert(values@ == self@.settled(input_values@));
        let mut outputs: Vec<i32> = Vec::new();
        let mut j: usize = 0;
        while j < self.output_count as usize
            invariant
                self.wf(),
                inputs == self.input_count,
                j <= self.output_count,
                node_count == self@.nodes.len(),
                inputs + self.output_count <= node_count,
                values@ == self@.settled(input_values@),
                values@.len() == self@.nodes.len(),
                outputs@.len() == j,
                forall|n: int|
                    0 <= n < j ==> outputs@[n] == self@.outputs(input_values@, range)[n],
                forall|n: int| 0 <= n < j ==> -ONE < #[trigger] outputs@[n] < ONE,
                range is Unit ==> forall|n: int| 0 <= n < j ==> 0 <= #[trigger] outputs@[n],
            decreases self.output_count - j,
        {
            let value = values[inputs + j];
            proof {
                lemma_settled_outputs_bounded(self@, input_values@, inputs + j);
            }
            outputs.push(range.remap(value));
            j = j + 1;
        }
        assert(outputs@ =~= self@.outputs(input_values@, range));
        outputs
    }
}

/// At the end of a forward pass every output node holds a squashed value,
/// strictly between -1.0 and 1.0.
pub proof fn lemma_settled_outputs_bounded(net: NetworkView, inputs: Seq<i32>, node: int)
    requires
        net.wf(),
        net.input_count <= node < net.fixed_count(),
    ensures
        -ONE < net.settled(inputs)[node] < ONE,
{
    let hidden_done = net.hidden_pass(net.initial_values(inputs), net.hidden_layers());
    lemma_hidden_pass_len(net, net.initial_values(inputs), net.hidden_layers());
    lemma_output_pass_holds(net, hidden_done, net.fixed_count(), node);
    let fired = net.output_pass(hidden_done, node);
    lemma_squash_bounded(rescaled(net.weighted_input(fired, node, net.links.len() as int)));
}

/// Links without weight carry nothing, whatever the values of the nodes.
pub proof fn lemma_silent_input(net: NetworkView, values: Seq<i32>, node: int, upto: int)
    requires
        net.silent(),
        upto <= net.links.len(),
    ensures
        net.weighted_input(values, node, upto) == 0,
    decreases upto,
{
    if upto > 0 {
        lemma_silent_input(net, values, node, upto - 1);
        let link = net.links[upto - 1];
        if link.enabled {
            assert(link.weight * values[link.in_index as int] == 0) by (nonlinear_arith)
                requires
                    link.weight == 0,
            ;
        }
    }
}

/// A genome in which no enabled link carries any weight, and so a genome
/// without links, answers every input alike: each output is the squashed
/// value of zero, read in the range that was asked for.
pub proof fn lemma_silent_outputs(net: NetworkView, inputs: Seq<i32>, range: OutputRange)
    requires
        net.wf(),
        net.silent(),
    ensures
        net.outputs(inputs, range).len() == net.output_count,
        forall|j: int|
            0 <= j < net.output_count ==> net.outputs(inputs, range)[j] == range.remapped(
                squash(0),
            ),
{
    let hidden_done = net.hidden_pass(net.initial_values(inputs), net.hidden_layers());
    lemma_hidden_pass_len(net, net.initial_values(inputs), net.hidden_layers());
    crate::fixed::lemma_squash_zero();
    assert forall|j: int| 0 <= j < net.output_count implies net.outputs(inputs, range)[j]
        == range.remapped(squash(0)) by {
        let node = net.input_count + j;
        lemma_output_pass_holds(net, hidden_done, net.fixed_count(), node);
        lemma_silent_input(net, net.output_pass(hidden_done, node), node, net.links.len() as int);
    }
}

/// After the pass over the outputs below `upto`, each of them holds the value
/// it took when it fired.
pub proof fn lemma_output_pass_holds(net: NetworkView, values: Seq<i32>, upto: int, node: int)
    requires
        net.input_count <= node < upto <= values.len(),
    ensures
        net.output_pass(values, upto)[node] == net.activation(
            net.output_pass(values, node),
            node,
        ),
    decreases upto,
{
    lemma_output_pass_len(net, values, upto - 1);
    if node < upto - 1 {
        lemma_output_pass_holds(net, values, upto - 1, node);
    }
}

} // verus!
