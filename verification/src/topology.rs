use crate::forward::{lemma_dense_by_nodes, lemma_split_dense};
use crate::mutation::{lemma_link_order_strict, lemma_reweighted_layers};
use crate::network::NetworkView;
use crate::node::Link;
use vstd::prelude::*;

verus! {

impl NetworkView {
    /// `path` is a walk through the genome: one or more enabled links, each
    /// of which starts at the node where the one before it ends.
    pub open spec fn is_walk(self, path: Seq<int>) -> bool {
        &&& path.len() > 0
        &&& forall|i: int| 0 <= i < path.len() ==> self.enabled_at(#[trigger] path[i])
        &&& forall|i: int|
            0 <= i < path.len() - 1 ==> self.links[path[i]].out_index
                == self.links[#[trigger] path[i + 1]].in_index
    }

    /// The node at which a walk starts.
    pub open spec fn walk_start(self, path: Seq<int>) -> int {
        self.links[path[0]].in_index as int
    }

    /// The node at which a walk ends.
    pub open spec fn walk_end(self, path: Seq<int>) -> int {
        self.links[path.last()].out_index as int
    }

    /// Some walk leads from the node `from` to the node `to`.
    pub open spec fn reaches(self, from: int, to: int) -> bool {
        exists|path: Seq<int>|
            #[trigger] self.is_walk(path) && self.walk_start(path) == from && self.walk_end(path)
                == to
    }

    /// `path` is a walk that ends where it starts.
    pub open spec fn is_cycle(self, path: Seq<int>) -> bool {
        self.is_walk(path) && self.walk_start(path) == self.walk_end(path)
    }

    /// The enabled links form no cycle.
    pub open spec fn acyclic(self) -> bool {
        forall|path: Seq<int>| !#[trigger] self.is_cycle(path)
    }

    /// The genome with the weights `weights` on its links, in their order.
    pub open spec fn with_weights(self, weights: Seq<i32>) -> NetworkView {
        NetworkView {
            links: Seq::new(
                self.links.len(),
                |k: int| Link { weight: weights[k], ..self.links[k] },
            ),
            ..self
        }
    }
}

/// One step of a genome's evolution.
pub enum Mutation {
    /// A link between two nodes, as `add_link` makes it.
    AddLink { first: int, second: int, weight: i32 },
    /// The split of a link, as `add_node` makes it.
    AddNode { link: int },
    /// New weights on all links, as the weight mutations give them.
    SetWeights { weights: Seq<i32> },
}

/// The genome and the innovation counter after one step. A step that the
/// operation refuses, or for which the counter or the genome has no room
/// left, changes nothing.
pub open spec fn mutated(net: NetworkView, counter: u32, step: Mutation) -> (NetworkView, u32) {
    match step {
        Mutation::AddLink { first, second, weight } => {
            match net.link_order(first, second) {
                Some((source, destination)) if counter < u32::MAX => (
                    net.with_link(counter, source, destination, weight),
                    (counter + 1) as u32,
                ),
                _ => (net, counter),
            }
        },
        Mutation::AddNode { link } => {
            if net.enabled_at(link) && net.has_room() && counter <= u32::MAX - 2 {
                (net.split(counter, link), (counter + 2) as u32)
            } else {
                (net, counter)
            }
        },
        Mutation::SetWeights { weights } => {
            if weights.len() == net.links.len() {
                (net.with_weights(weights), counter)
            } else {
                (net, counter)
            }
        },
    }
}

/// The genome and the innovation counter after a sequence of steps.
pub open spec fn evolved(net: NetworkView, counter: u32, steps: Seq<Mutation>) -> (NetworkView, u32)
    decreases steps.len(),
{
    if steps.len() == 0 {
        (net, counter)
    } else {
        let before = evolved(net, counter, steps.drop_last());
        mutated(before.0, before.1, steps.last())
    }
}

/// A step keeps the layers in order: it is no split, or the split moves the
/// destination into no layer that one of its own links leads to.
pub open spec fn keeps_layers(net: NetworkView, step: Mutation) -> bool {
    step matches Mutation::AddNode { link } ==> net.enabled_at(link) ==> net.split_keeps_layers(
        link,
    )
}

/// Every step of the sequence keeps the layers in order, in the genome that
/// the steps before it have made.
pub open spec fn all_keep_layers(net: NetworkView, counter: u32, steps: Seq<Mutation>) -> bool
    decreases steps.len(),
{
    if steps.len() == 0 {
        true
    } else {
        &&& all_keep_layers(net, counter, steps.drop_last())
        &&& keeps_layers(evolved(net, counter, steps.drop_last()).0, steps.last())
    }
}

/// Along a walk through a layered genome the depth grows: the walk ends
/// strictly deeper than it starts.
pub proof fn lemma_walk_descends(net: NetworkView, path: Seq<int>)
    requires
        net.layered(),
        net.is_walk(path),
    ensures
        net.depth(net.walk_start(path)) < net.depth(net.walk_end(path)),
    decreases path.len(),
{
    assert(net.enabled_at(path[path.len() - 1]));
    assert(net.link_descends(path.last()));
    if path.len() > 1 {
        let shorter = path.drop_last();
        assert(net.is_walk(shorter)) by {
            assert forall|i: int| 0 <= i < shorter.len() implies net.enabled_at(
                #[trigger] shorter[i],
            ) by {
                assert(net.enabled_at(path[i]));
            }
            assert forall|i: int| 0 <= i < shorter.len() - 1 implies net.links[shorter[i]].out_index
                == net.links[#[trigger] shorter[i + 1]].in_index by {
                assert(net.links[path[i]].out_index == net.links[path[i + 1]].in_index);
            }
        }
        lemma_walk_descends(net, shorter);
        assert(net.links[path[path.len() - 2]].out_index == net.links[path[path.len() - 2
            + 1]].in_index);
    } else {
        assert(path[0] == path.last());
    }
}

/// A layered genome has no cycle among its enabled links.
pub proof fn lemma_layered_acyclic(net: NetworkView)
    requires
        net.layered(),
    ensures
        net.acyclic(),
{
    assert forall|path: Seq<int>| !#[trigger] net.is_cycle(path) by {
        if net.is_cycle(path) {
            lemma_walk_descends(net, path);
        }
    }
}

/// A layered genome never leads from a node back to one that is not deeper.
pub proof fn lemma_layered_no_way_back(net: NetworkView, from: int, to: int)
    requires
        net.layered(),
        net.depth(to) <= net.depth(from),
    ensures
        !net.reaches(from, to),
{
    if net.reaches(from, to) {
        let path = choose|path: Seq<int>|
            #[trigger] net.is_walk(path) && net.walk_start(path) == from && net.walk_end(path)
                == to;
        lemma_walk_descends(net, path);
    }
}

/// One step leaves a well-formed genome well-formed, leaves no gap in its
/// layers where there was none and, where it keeps the layers in order,
/// leaves a layered genome layered.
pub proof fn lemma_step_keeps_layers(net: NetworkView, counter: u32, step: Mutation)
    requires
        net.wf(),
    ensures
        mutated(net, counter, step).0.wf(),
        net.dense() ==> mutated(net, counter, step).0.dense(),
        net.layered() && keeps_layers(net, step) ==> mutated(net, counter, step).0.layered(),
{
    let after = mutated(net, counter, step).0;
    match step {
        Mutation::AddLink { first, second, weight } => {
            if after != net {
                let order = net.link_order(first, second)->Some_0;
                lemma_link_order_strict(net, first, second);
                lemma_with_link_layers(net, counter, order.0, order.1, weight);
                if net.dense() {
                    lemma_dense_by_nodes(net, after);
                }
            }
        },
        Mutation::AddNode { link } => {
            if after != net {
                lemma_split_layers(net, counter, link);
                if net.dense() {
                    lemma_split_dense(net, counter, link);
                }
            }
        },
        Mutation::SetWeights { weights } => {
            if after != net {
                assert(net.reweighted(after));
                lemma_reweighted_layers(net, after);
                if net.dense() {
                    lemma_dense_by_nodes(net, after);
                }
            }
        },
    }
}

/// Whatever sequence of mutations a well-formed genome without a gap in its
/// layers goes through, it stays well-formed and without a gap.
pub proof fn lemma_evolution_dense(net: NetworkView, counter: u32, steps: Seq<Mutation>)
    requires
        net.wf(),
        net.dense(),
    ensures
        evolved(net, counter, steps).0.wf(),
        evolved(net, counter, steps).0.dense(),
    decreases steps.len(),
{
    if steps.len() > 0 {
        lemma_evolution_dense(net, counter, steps.drop_last());
        let before = evolved(net, counter, steps.drop_last());
        lemma_step_keeps_layers(before.0, before.1, steps.last());
    }
}

/// A link from a node to a strictly deeper one keeps a well-formed genome
/// well-formed and a layered genome layered.
pub proof fn lemma_with_link_layers(
    net: NetworkView,
    id: u32,
    source: int,
    destination: int,
    weight: i32,
)
    requires
        net.wf(),
        0 <= source < net.nodes.len(),
        0 <= destination < net.nodes.len(),
    ensures
        net.with_link(id, source, destination, weight).wf(),
        net.layered() && net.depth(source) < net.depth(destination) ==> net.with_link(
            id,
            source,
            destination,
            weight,
        ).layered(),
{
    let after = net.with_link(id, source, destination, weight);
    assert forall|i: int| 0 <= i < after.nodes.len() implies #[trigger] after.node_fits(i) by {
        assert(net.node_fits(i));
    }
    assert forall|k: int| 0 <= k < after.links.len() implies #[trigger] after.link_fits(k) by {
        if k < net.links.len() {
            assert(net.link_fits(k));
        }
    }
    if net.layered() && net.depth(source) < net.depth(destination) {
        assert forall|k: int|
            0 <= k < after.links.len() && after.links[k].enabled
                implies #[trigger] after.link_descends(
            k,
        ) by {
            if k < net.links.len() {
                assert(net.link_descends(k));
            }
        }
    }
}

/// The split of an enabled link keeps a well-formed genome well-formed and,
/// where it keeps the layers in order, a layered genome layered.
pub proof fn lemma_split_layers(net: NetworkView, id: u32, k: int)
    requires
        net.wf(),
        net.enabled_at(k),
        net.has_room(),
    ensures
        net.split(id, k).wf(),
        net.layered() && net.split_keeps_layers(k) ==> net.split(id, k).layered(),
{
    let after = net.split(id, k);
    assert(net.link_fits(k));
    assert(net.node_fits(net.links[k].in_index as int));
    assert(net.node_fits(net.links[k].out_index as int));
    assert forall|i: int| 0 <= i < after.nodes.len() implies #[trigger] after.node_fits(i) by {
        if i < net.nodes.len() {
            assert(net.node_fits(i));
        }
    }
    assert forall|j: int| 0 <= j < after.links.len() implies #[trigger] after.link_fits(j) by {
        if j < net.links.len() {
            assert(net.link_fits(j));
        }
    }
    if net.layered() && net.split_keeps_layers(k) {
        assert(net.link_descends(k));
        assert forall|j: int|
            0 <= j < after.links.len() && after.links[j].enabled
                implies #[trigger] after.link_descends(
            j,
        ) by {
            if j < net.links.len() {
                assert(net.link_descends(j));
                assert(net.link_fits(j));
                assert(net.node_fits(net.links[j].in_index as int));
                assert(net.node_fits(net.links[j].out_index as int));
                if net.split_raises(k) {
                    assert(!net.crowds(k, j));
                }
            }
        }
    }
}

/// Whatever sequence of mutations a well-formed, layered genome goes
/// through, it stays well-formed and layered, and so its enabled links never
/// form a cycle, as long as every split in the sequence keeps the layers in
/// order.
pub proof fn lemma_evolution_acyclic(net: NetworkView, counter: u32, steps: Seq<Mutation>)
    requires
        net.wf(),
        net.layered(),
        all_keep_layers(net, counter, steps),
    ensures
        evolved(net, counter, steps).0.wf(),
        evolved(net, counter, steps).0.layered(),
        evolved(net, counter, steps).0.acyclic(),
    decreases steps.len(),
{
    if steps.len() > 0 {
        lemma_evolution_acyclic(net, counter, steps.drop_last());
        let before = evolved(net, counter, steps.drop_last());
        lemma_step_keeps_layers(before.0, before.1, steps.last());
    }
    lemma_layered_acyclic(evolved(net, counter, steps).0);
}

} // verus!
