use crate::evaluate::{
    lemma_hidden_pass_len, lemma_output_pass_holds, lemma_output_pass_len, lemma_sweep_len,
};
use crate::network::NetworkView;
use vstd::prelude::*;

verus! {

impl NetworkView {
    /// The hidden layers have no gap: every layer from 1 up to the layer of
    /// a hidden node holds a hidden node.
    pub open spec fn dense(self) -> bool {
        forall|i: int, level: int|
            0 <= i < self.nodes.len() && self.nodes[i].node_type is Hidden && 1 <= level
                <= self.nodes[i].level ==> #[trigger] self.level_beneath(i, level)
    }

    /// Layer `level`, which lies at or below the layer of node `i`, holds a
    /// hidden node.
    pub open spec fn level_beneath(self, i: int, level: int) -> bool {
        self.level_occupied(level)
    }

    /// Every enabled link into `node` comes from a node on which the two
    /// sequences of values agree.
    pub open spec fn agree_on_sources(self, first: Seq<i32>, second: Seq<i32>, node: int) -> bool {
        forall|k: int|
            0 <= k < self.links.len() && (#[trigger] self.links[k]).enabled
                && self.links[k].out_index == node ==> first[self.links[k].in_index as int]
                == second[self.links[k].in_index as int]
    }
}

/// The first gap at or above a layer is not below that layer.
pub proof fn lemma_first_gap_above(net: NetworkView, level: int)
    ensures
        net.first_gap(level) >= level,
    decreases 0x1_0000_0000 - level,
{
    if 1 <= level < 0x1_0000_0000 && net.level_occupied(level) {
        lemma_first_gap_above(net, level + 1);
    }
}

/// Where every layer from `from` to `top` holds a hidden node, the first gap
/// at or above `from` lies above `top`.
pub proof fn lemma_first_gap_beyond(net: NetworkView, from: int, top: int)
    requires
        1 <= from <= top + 1,
        forall|level: int| from <= level <= top ==> #[trigger] net.level_occupied(level),
    ensures
        net.first_gap(from) > top,
    decreases top + 1 - from,
{
    if from == top + 1 {
        lemma_first_gap_above(net, from);
    } else {
        assert(net.level_occupied(from));
        let i = choose|i: int| 0 <= i < net.nodes.len() && #[trigger] net.on_level(i, from);
        assert(from == net.nodes[i].level);
        lemma_first_gap_beyond(net, from + 1, top);
    }
}

/// In a genome without a gap in its layers, every hidden node stands on a
/// layer that the forward pass sweeps.
pub proof fn lemma_dense_layers_are_swept(net: NetworkView, i: int)
    requires
        net.dense(),
        0 <= i < net.nodes.len(),
        net.nodes[i].node_type is Hidden,
        net.nodes[i].level >= 1,
    ensures
        net.nodes[i].level <= net.hidden_layers(),
{
    let top = net.nodes[i].level as int;
    assert forall|level: int| 1 <= level <= top implies #[trigger] net.level_occupied(level) by {
        assert(net.level_beneath(i, level));
    }
    lemma_first_gap_beyond(net, 1, top);
}

/// The minimal genome has no gap in its layers: it has no hidden node.
pub proof fn lemma_minimal_dense(inputs: u32, outputs: u32)
    ensures
        NetworkView::minimal(inputs, outputs).dense(),
{
}

/// Whether the layers have a gap depends on the nodes alone.
pub proof fn lemma_dense_by_nodes(net: NetworkView, other: NetworkView)
    requires
        net.nodes == other.nodes,
        net.dense(),
    ensures
        other.dense(),
{
    assert forall|i: int, level: int|
        0 <= i < other.nodes.len() && other.nodes[i].node_type is Hidden && 1 <= level
            <= other.nodes[i].level implies #[trigger] other.level_beneath(i, level) by {
        assert(net.level_beneath(i, level));
        let j = choose|j: int| 0 <= j < net.nodes.len() && #[trigger] net.on_level(j, level);
        assert(other.on_level(j, level));
    }
}

/// The split of a link leaves no gap in the layers of a well-formed genome
/// that had none.
pub proof fn lemma_split_dense(net: NetworkView, id: u32, k: int)
    requires
        net.wf(),
        net.enabled_at(k),
        net.has_room(),
        net.dense(),
    ensures
        net.split(id, k).dense(),
{
    let after = net.split(id, k);
    let fresh = net.nodes.len() as int;
    let source = net.links[k].in_index as int;
    let destination = net.links[k].out_index as int;
    let raised = net.split_raises(k);
    assert(net.link_fits(k));
    assert(net.node_fits(source));
    assert(net.node_fits(destination));
    let new_level = net.nodes[source].level + 1;
    assert(after.nodes[fresh].level == new_level);
    assert(after.on_level(fresh, new_level));
    assert forall|i: int, level: int|
        0 <= i < after.nodes.len() && after.nodes[i].node_type is Hidden && 1 <= level
            <= after.nodes[i].level implies #[trigger] after.level_beneath(i, level) by {
        if level == after.nodes[i].level {
            assert(after.on_level(i, level));
        } else if level == new_level {
            assert(after.on_level(fresh, level));
        } else {
            // Some node stood on this layer before the split, and it is not
            // the node that the split moved.
            let below = if i == fresh {
                source
            } else {
                i
            };
            assert(net.nodes[below].node_type is Hidden);
            assert(level <= net.nodes[below].level);
            assert(net.level_beneath(below, level));
            let j = choose|j: int| 0 <= j < net.nodes.len() && #[trigger] net.on_level(j, level);
            assert(after.nodes[j] == net.nodes[j]);
            assert(after.on_level(j, level));
        }
    }
}

/// A sweep of a layer changes the values of the nodes that fire, and no
/// others.
pub proof fn lemma_sweep_keeps(net: NetworkView, values: Seq<i32>, level: int, upto: int, m: int)
    requires
        upto <= values.len(),
        0 <= m < values.len(),
        !net.on_level(m, level) || m >= upto,
    ensures
        net.sweep(values, level, upto)[m] == values[m],
    decreases upto,
{
    if upto > 0 {
        lemma_sweep_keeps(net, values, level, upto - 1, m);
        lemma_sweep_len(net, values, level, upto - 1);
    }
}

/// After the sweep of its layer, a node holds the value that it took when it
/// fired.
pub proof fn lemma_sweep_fires(net: NetworkView, values: Seq<i32>, level: int, upto: int, n: int)
    requires
        0 <= n < upto <= values.len(),
        net.on_level(n, level),
    ensures
        net.sweep(values, level, upto)[n] == net.activation(net.sweep(values, level, n), n),
    decreases upto,
{
    lemma_sweep_len(net, values, level, upto - 1);
    if n < upto - 1 {
        lemma_sweep_fires(net, values, level, upto - 1, n);
    }
}

/// The pass over the hidden layers leaves alone every node that is not on
/// one of the layers it sweeps.
pub proof fn lemma_hidden_pass_keeps(net: NetworkView, values: Seq<i32>, levels: nat, m: int)
    requires
        values.len() == net.nodes.len(),
        0 <= m < values.len(),
        !(net.nodes[m].node_type is Hidden) || net.nodes[m].level < 1 || net.nodes[m].level
            > levels,
    ensures
        net.hidden_pass(values, levels)[m] == values[m],
    decreases levels,
{
    if levels > 0 {
        let before = net.hidden_pass(values, (levels - 1) as nat);
        lemma_hidden_pass_keeps(net, values, (levels - 1) as nat, m);
        lemma_hidden_pass_len(net, values, (levels - 1) as nat);
        lemma_sweep_keeps(net, before, levels as int, net.nodes.len() as int, m);
    }
}

/// Once the layer of a node has been swept, the sweeps of the layers above
/// leave its value alone.
pub proof fn lemma_hidden_pass_settles(
    net: NetworkView,
    values: Seq<i32>,
    swept: nat,
    levels: nat,
    m: int,
)
    requires
        values.len() == net.nodes.len(),
        0 <= m < values.len(),
        net.nodes[m].level <= swept <= levels,
    ensures
        net.hidden_pass(values, levels)[m] == net.hidden_pass(values, swept)[m],
    decreases levels,
{
    if levels > swept {
        let before = net.hidden_pass(values, (levels - 1) as nat);
        lemma_hidden_pass_settles(net, values, swept, (levels - 1) as nat, m);
        lemma_hidden_pass_len(net, values, (levels - 1) as nat);
        lemma_sweep_keeps(net, before, levels as int, net.nodes.len() as int, m);
    }
}

/// The pass over the outputs changes the values of the outputs that fire, and
/// no others.
pub proof fn lemma_output_pass_keeps(net: NetworkView, values: Seq<i32>, upto: int, m: int)
    requires
        upto <= values.len(),
        0 <= m < values.len(),
        m < net.input_count || m >= upto,
    ensures
        net.output_pass(values, upto)[m] == values[m],
    decreases upto,
{
    if upto > net.input_count {
        lemma_output_pass_keeps(net, values, upto - 1, m);
        lemma_output_pass_len(net, values, upto - 1);
    }
}

/// What the links carry into a node depends on the values of their sources
/// alone.
pub proof fn lemma_input_by_sources(
    net: NetworkView,
    first: Seq<i32>,
    second: Seq<i32>,
    node: int,
    upto: int,
)
    requires
        net.agree_on_sources(first, second, node),
        upto <= net.links.len(),
    ensures
        net.weighted_input(first, node, upto) == net.weighted_input(second, node, upto),
    decreases upto,
{
    if upto > 0 {
        lemma_input_by_sources(net, first, second, node, upto - 1);
        let link = net.links[upto - 1];
        if link.enabled && link.out_index == node {
            assert(first[link.in_index as int] == second[link.in_index as int]);
        }
    }
}

/// In a well-formed genome whose layers are in order and without a gap, the
/// forward pass finds every value before it is used: at its end the inputs
/// hold what was put in, and every other node holds the squashed sum of what
/// its enabled links carry from the final values of their sources.
pub proof fn lemma_forward_pass_settles(net: NetworkView, inputs: Seq<i32>, node: int)
    requires
        net.wf(),
        net.layered(),
        net.dense(),
        0 <= node < net.nodes.len(),
    ensures
        net.settled(inputs).len() == net.nodes.len(),
        node < net.input_count ==> net.settled(inputs)[node] == net.initial_values(inputs)[node],
        node >= net.input_count ==> net.settled(inputs)[node] == net.activation(
            net.settled(inputs),
            node,
        ),
{
    let count = net.nodes.len() as int;
    let start = net.initial_values(inputs);
    let depth = net.hidden_layers();
    let hidden_done = net.hidden_pass(start, depth);
    let done = net.settled(inputs);
    lemma_hidden_pass_len(net, start, depth);
    lemma_output_pass_len(net, hidden_done, net.fixed_count());
    assert(net.node_fits(node));
    if node < net.input_count {
        lemma_output_pass_keeps(net, hidden_done, net.fixed_count(), node);
        lemma_hidden_pass_keeps(net, start, depth, node);
    } else if node < net.fixed_count() {
        // An output: it fires last, and none of its sources is an output.
        let fired = net.output_pass(hidden_done, node);
        lemma_output_pass_holds(net, hidden_done, net.fixed_count(), node);
        lemma_output_pass_len(net, hidden_done, node);
        assert forall|k: int|
            0 <= k < net.links.len() && (#[trigger] net.links[k]).enabled
                && net.links[k].out_index == node implies fired[net.links[k].in_index as int]
            == done[net.links[k].in_index as int] by {
            let from = net.links[k].in_index as int;
            assert(net.link_fits(k));
            assert(net.link_descends(k));
            assert(net.node_fits(from));
            lemma_output_pass_keeps(net, hidden_done, node, from);
            lemma_output_pass_keeps(net, hidden_done, net.fixed_count(), from);
        }
        lemma_input_by_sources(net, fired, done, node, net.links.len() as int);
    } else {
        // A hidden node: it fires in the sweep of its layer, after the layers
        // of all its sources.
        let level = net.nodes[node].level as nat;
        lemma_dense_layers_are_swept(net, node);
        let below = net.hidden_pass(start, (level - 1) as nat);
        lemma_hidden_pass_len(net, start, (level - 1) as nat);
        let fired = net.sweep(below, level as int, node);
        lemma_sweep_len(net, below, level as int, node);
        lemma_sweep_fires(net, below, level as int, count, node);
        lemma_hidden_pass_settles(net, start, level, depth, node);
        lemma_output_pass_keeps(net, hidden_done, net.fixed_count(), node);
        assert(done[node] == net.activation(fired, node));
        assert forall|k: int|
            0 <= k < net.links.len() && (#[trigger] net.links[k]).enabled
                && net.links[k].out_index == node implies fired[net.links[k].in_index as int]
            == done[net.links[k].in_index as int] by {
            let from = net.links[k].in_index as int;
            assert(net.link_fits(k));
            assert(net.link_descends(k));
            assert(net.node_fits(from));
            lemma_sweep_keeps(net, below, level as int, node, from);
            lemma_output_pass_keeps(net, hidden_done, net.fixed_count(), from);
            if from < net.input_count {
                lemma_hidden_pass_keeps(net, start, (level - 1) as nat, from);
                lemma_hidden_pass_keeps(net, start, depth, from);
            } else {
                lemma_hidden_pass_settles(net, start, (level - 1) as nat, depth, from);
            }
        }
        lemma_input_by_sources(net, fired, done, node, net.links.len() as int);
    }
}

} // verus!
