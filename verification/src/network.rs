use crate::cycles::{lemma_split_acyclic, lemma_with_link_acyclic};
use crate::error::NeatError;
use crate::fixed::ONE;
pub use crate::node::{Link, Node, NodeType};
use crate::select::{lemma_lists_next, lists_all};
use vstd::prelude::*;

verus! {

/// The depth at which every output node stands: beyond any layer that a
/// hidden node can be on.
pub const OUTPUT_DEPTH: u64 = 0x1_0000_0000;

/// One evolvable network: its nodes, its links and the score it last got.
///
/// Nodes and links are only ever appended, so an index into either list stays
/// valid for the life of the genome.
#[derive(Debug)]
pub struct Network {
    pub nodes: Vec<Node>,
    pub links: Vec<Link>,
    pub input_count: u32,
    pub output_count: u32,
    pub fitness: i32,
}

/// The mathematical content of a [`Network`].
pub struct NetworkView {
    pub nodes: Seq<Node>,
    pub links: Seq<Link>,
    pub input_count: u32,
    pub output_count: u32,
    pub fitness: i32,
}

impl View for Network {
    type V = NetworkView;

    open spec fn view(&self) -> NetworkView {
        NetworkView {
            nodes: self.nodes@,
            links: self.links@,
            input_count: self.input_count,
            output_count: self.output_count,
            fitness: self.fitness,
        }
    }
}

/// The links carry their innovation ids in ascending order.
pub open spec fn ascending_ids(links: Seq<Link>) -> bool {
    forall|k: int, j: int|
        0 <= k < j < links.len() ==> (#[trigger] links[k]).inno_number
            < (#[trigger] links[j]).inno_number
}

/// Every innovation id among the links is below `counter`.
pub open spec fn ids_under(links: Seq<Link>, counter: int) -> bool {
    forall|k: int| 0 <= k < links.len() ==> (#[trigger] links[k]).inno_number < counter
}

impl NetworkView {
    /// Number of input and output nodes; the hidden nodes follow them.
    pub open spec fn fixed_count(self) -> int {
        self.input_count + self.output_count
    }

    /// Number of hidden nodes.
    pub open spec fn hidden_count(self) -> int {
        self.nodes.len() - self.fixed_count()
    }

    /// Node `i` has the kind that its position calls for, and a layer that its
    /// kind allows: inputs first, then outputs, both on layer 0, then hidden
    /// nodes on layers from 1 up to the number of hidden nodes.
    pub open spec fn node_fits(self, i: int) -> bool {
        let node = self.nodes[i];
        if i < self.input_count {
            node.node_type is Input && node.level == 0
        } else if i < self.fixed_count() {
            node.node_type is Output && node.level == 0
        } else {
            node.node_type is Hidden && 1 <= node.level <= self.hidden_count()
        }
    }

    /// Both ends of link `k` are nodes of the genome.
    pub open spec fn link_fits(self, k: int) -> bool {
        self.links[k].in_index < self.nodes.len() && self.links[k].out_index < self.nodes.len()
    }

    /// Well-formedness of a genome.
    pub open spec fn wf(self) -> bool {
        &&& self.fixed_count() <= self.nodes.len() <= usize::MAX
        &&& forall|i: int| 0 <= i < self.nodes.len() ==> #[trigger] self.node_fits(i)
        &&& forall|k: int| 0 <= k < self.links.len() ==> #[trigger] self.link_fits(k)
    }

    /// How deep node `i` stands in the genome: an input at 0, a hidden node on
    /// its layer, an output beyond every layer.
    pub open spec fn depth(self, i: int) -> int {
        match self.nodes[i].node_type {
            NodeType::Input => 0,
            NodeType::Hidden => self.nodes[i].level as int,
            NodeType::Output => OUTPUT_DEPTH as int,
        }
    }

    /// Link `k` leads from a node to a strictly deeper one.
    pub open spec fn link_descends(self, k: int) -> bool {
        self.depth(self.links[k].in_index as int) < self.depth(self.links[k].out_index as int)
    }

    /// The layer invariant: every enabled link leads to a strictly deeper
    /// node.
    pub open spec fn layered(self) -> bool {
        forall|k: int|
            0 <= k < self.links.len() && self.links[k].enabled ==> #[trigger] self.link_descends(k)
    }

    /// Nodes `a` and `b` have the same kind and stand on the same layer, so
    /// that neither can be the source of a link to the other.
    pub open spec fn same_layer(self, a: int, b: int) -> bool {
        self.nodes[a].node_type == self.nodes[b].node_type && self.nodes[a].level
            == self.nodes[b].level
    }

    /// The direction that a link between `a` and `b` takes, source first: from
    /// the shallower node to the deeper one. There is none where either is no
    /// node of the genome, where both are the same node, or where both have
    /// the same kind and layer.
    pub open spec fn link_order(self, a: int, b: int) -> Option<(int, int)> {
        if !(0 <= a < self.nodes.len() && 0 <= b < self.nodes.len()) || a == b || self.same_layer(
            a,
            b,
        ) {
            None
        } else if self.depth(a) < self.depth(b) {
            Some((a, b))
        } else {
            Some((b, a))
        }
    }

    /// The genome with one more link at the end, enabled.
    pub open spec fn with_link(self, id: u32, source: int, destination: int, weight: i32)
        -> NetworkView {
        NetworkView {
            links: self.links.push(
                Link {
                    inno_number: id,
                    in_index: source as usize,
                    out_index: destination as usize,
                    weight,
                    enabled: true,
                },
            ),
            ..self
        }
    }

    /// Link `k` exists and is enabled: it takes part in evaluation and can be
    /// split.
    pub open spec fn enabled_at(self, k: int) -> bool {
        0 <= k < self.links.len() && self.links[k].enabled
    }

    /// Splitting link `k` moves its destination up by one layer: the
    /// destination stands exactly one layer above the source, where the new
    /// node has to go.
    pub open spec fn split_raises(self, k: int) -> bool {
        self.nodes[self.links[k].out_index as int].level
            == self.nodes[self.links[k].in_index as int].level + 1
    }

    /// The genome after link `k` was split: the link is disabled; a hidden
    /// node is appended one layer above the link's source; the destination
    /// moves up one layer if it stood there; a link of weight 1.0 from the
    /// source to the new node and a link of the old weight from the new node
    /// to the destination are appended, with the ids `id` and `id + 1`.
    pub open spec fn split(self, id: u32, k: int) -> NetworkView {
        let link = self.links[k];
        let source = link.in_index as int;
        let destination = link.out_index as int;
        let level = (self.nodes[source].level + 1) as u32;
        let fresh = self.nodes.len() as usize;
        let raised = if self.split_raises(k) {
            self.nodes.update(
                destination,
                Node { node_type: self.nodes[destination].node_type, level: (level + 1) as u32 },
            )
        } else {
            self.nodes
        };
        NetworkView {
            nodes: raised.push(Node { node_type: NodeType::Hidden, level }),
            links: self.links.update(k, Link { enabled: false, ..link }).push(
                Link {
                    inno_number: id,
                    in_index: link.in_index,
                    out_index: fresh,
                    weight: ONE,
                    enabled: true,
                },
            ).push(
                Link {
                    inno_number: (id + 1) as u32,
                    in_index: fresh,
                    out_index: link.out_index,
                    weight: link.weight,
                    enabled: true,
                },
            ),
            ..self
        }
    }

    /// Link `j` leaves the destination of link `k` for a node that stands
    /// exactly one layer deeper.
    pub open spec fn crowds(self, k: int, j: int) -> bool {
        &&& self.links[j].enabled
        &&& self.links[j].in_index == self.links[k].out_index
        &&& self.depth(self.links[j].out_index as int) == self.depth(self.links[k].out_index as int)
            + 1
    }

    /// Splitting link `k` leaves the layer invariant intact: either the
    /// destination keeps its layer, or no enabled link leaves it for the layer
    /// it moves to.
    pub open spec fn split_keeps_layers(self, k: int) -> bool {
        self.split_raises(k) ==> forall|j: int| 0 <= j < self.links.len()
            ==> !#[trigger] self.crowds(k, j)
    }

    /// There is room for one more hidden node: its layer, and the layer of a
    /// node that it pushes up, can still be written down.
    pub open spec fn has_room(self) -> bool {
        self.nodes.len() < u32::MAX
    }

    /// The links carry their innovation ids in ascending order: a link that
    /// was added later has a larger id.
    pub open spec fn ids_ascend(self) -> bool {
        ascending_ids(self.links)
    }

    /// Every innovation id of the genome is below `counter`.
    pub open spec fn ids_below(self, counter: int) -> bool {
        ids_under(self.links, counter)
    }

    /// The genome got its ids from a counter that now stands at `counter`:
    /// they ascend and are below it.
    pub open spec fn ids_from(self, counter: int) -> bool {
        self.ids_ascend() && self.ids_below(counter)
    }

    /// Node `i` has the kind `node_type` and stands on layer `level`.
    pub open spec fn node_matches(self, i: int, node_type: NodeType, level: u32) -> bool {
        self.nodes[i].node_type == node_type && self.nodes[i].level == level
    }

    /// Link `k` ends in `node`, enabled or not.
    pub open spec fn enters(self, k: int, node: int) -> bool {
        self.links[k].out_index == node
    }

    /// The genome with the score `fitness`.
    pub open spec fn with_fitness(self, fitness: i32) -> NetworkView {
        NetworkView { fitness, ..self }
    }

    /// The genome with inputs and outputs only: no hidden node, no link.
    pub open spec fn minimal(inputs: u32, outputs: u32) -> NetworkView {
        NetworkView {
            nodes: Seq::new(
                (inputs + outputs) as nat,
                |i: int|
                    if i < inputs {
                        Node { node_type: NodeType::Input, level: 0 }
                    } else {
                        Node { node_type: NodeType::Output, level: 0 }
                    },
            ),
            links: Seq::empty(),
            input_count: inputs,
            output_count: outputs,
            fitness: 0,
        }
    }
}

/// The score of a genome has no part in what makes it well-formed, layered
/// or numbered in order.
pub proof fn lemma_fitness_apart(net: NetworkView, fitness: i32)
    ensures
        net.with_fitness(fitness).wf() == net.wf(),
        net.with_fitness(fitness).layered() == net.layered(),
        net.with_fitness(fitness).has_room() == net.has_room(),
        forall|counter: int| net.with_fitness(fitness).ids_from(counter) == net.ids_from(counter),
{
    let other = net.with_fitness(fitness);
    if net.wf() {
        assert forall|i: int| 0 <= i < other.nodes.len() implies #[trigger] other.node_fits(i) by {
            assert(net.node_fits(i));
        }
        assert forall|k: int| 0 <= k < other.links.len() implies #[trigger] other.link_fits(k) by {
            assert(net.link_fits(k));
        }
    }
    if other.wf() {
        assert forall|i: int| 0 <= i < net.nodes.len() implies #[trigger] net.node_fits(i) by {
            assert(other.node_fits(i));
        }
        assert forall|k: int| 0 <= k < net.links.len() implies #[trigger] net.link_fits(k) by {
            assert(other.link_fits(k));
        }
    }
    if net.layered() {
        assert forall|k: int|
            0 <= k < other.links.len() && other.links[k].enabled
                implies #[trigger] other.link_descends(
            k,
        ) by {
            assert(net.link_descends(k));
        }
    }
    if other.layered() {
        assert forall|k: int|
            0 <= k < net.links.len() && net.links[k].enabled implies #[trigger] net.link_descends(
            k,
        ) by {
            assert(other.link_descends(k));
        }
    }
}

/// Links with ascending innovation ids carry ids that are at least their
/// places.
pub proof fn lemma_ascending_ids_grow(links: Seq<Link>, k: int)
    requires
        ascending_ids(links),
        0 <= k < links.len(),
    ensures
        links[k].inno_number >= k,
    decreases k,
{
    if k > 0 {
        lemma_ascending_ids_grow(links, k - 1);
        assert(links[k - 1].inno_number < links[k].inno_number);
    }
}

/// A genome has no more links than the counter that numbered them has
/// counted.
pub proof fn lemma_ids_count(net: NetworkView, counter: int)
    requires
        net.ids_from(counter),
        0 <= counter,
    ensures
        net.links.len() <= counter,
{
    if net.links.len() > 0 {
        lemma_ascending_ids_grow(net.links, net.links.len() - 1);
        assert(net.links[net.links.len() - 1].inno_number < counter);
    }
}

impl Clone for Network {
    fn clone(&self) -> (copy: Network)
        ensures
            copy@ == self@,
    {
        Network {
            nodes: self.nodes.clone(),
            links: self.links.clone(),
            input_count: self.input_count,
            output_count: self.output_count,
            fitness: self.fitness,
        }
    }
}

impl Network {
    /// Well-formedness of the genome; see [`NetworkView::wf`].
    pub open spec fn wf(&self) -> bool {
        self@.wf()
    }

    /// A genome with `inputs` input nodes followed by `outputs` output nodes
    /// and nothing else.
    pub fn new(inputs: u32, outputs: u32) -> (network: Network)
        ensures
            network@ == NetworkView::minimal(inputs, outputs),
            network.wf(),
    {
        let mut nodes: Vec<Node> = Vec::new();
        let mut made: u32 = 0;
        while made < inputs
            invariant
                made <= inputs,
                nodes@.len() == made,
                forall|i: int|
                    0 <= i < made ==> nodes@[i] == (Node { node_type: NodeType::Input, level: 0 }),
            decreases inputs - made,
        {
            nodes.push(Node::new(NodeType::Input));
            made = made + 1;
        }
        let mut made: u32 = 0;
        while made < outputs
            invariant
                made <= outputs,
                nodes@.len() == inputs + made,
                forall|i: int|
                    0 <= i < inputs
                        ==> nodes@[i] == (Node { node_type: NodeType::Input, level: 0 }),
                forall|i: int|
                    inputs <= i < inputs + made ==> nodes@[i] == (Node {
                        node_type: NodeType::Output,
                        level: 0,
                    }),
            decreases outputs - made,
        {
            nodes.push(Node::new(NodeType::Output));
            made = made + 1;
        }
        let node_count = nodes.len();
        assert(node_count == inputs + outputs);
        let network = Network {
            nodes,
            links: Vec::new(),
            input_count: inputs,
            output_count: outputs,
            fitness: 0,
        };
        proof {
            let target = NetworkView::minimal(inputs, outputs);
            assert(network@.nodes =~= target.nodes);
            assert(network@.links =~= target.links);
            assert forall|i: int| 0 <= i < network@.nodes.len()
                implies #[trigger] network@.node_fits(
                i,
            ) by {}
        }
        network
    }

    /// Whether the genome is well-formed; see [`NetworkView::wf`].
    pub fn is_well_formed(&self) -> (ok: bool)
        ensures
            ok == self.wf(),
    {
        let count = self.nodes.len();
        let fixed: u64 = self.input_count as u64 + self.output_count as u64;
        if (count as u64) < fixed {
            return false;
        }
        let hidden: u64 = count as u64 - fixed;
        let mut i: usize = 0;
        while i < count
            invariant
                i <= count,
                count == self@.nodes.len(),
                fixed == self@.fixed_count(),
                hidden == self@.hidden_count(),
                forall|j: int| 0 <= j < i ==> #[trigger] self@.node_fits(j),
            decreases count - i,
        {
            let node = self.nodes[i];
            let fits = if (i as u64) < self.input_count as u64 {
                node.node_type == NodeType::Input && node.level == 0
            } else if (i as u64) < fixed {
                node.node_type == NodeType::Output && node.level == 0
            } else {
                node.node_type == NodeType::Hidden && 1 <= node.level && node.level as u64
                    <= hidden
            };
            if !fits {
                assert(!self@.node_fits(i as int));
                return false;
            }
            i = i + 1;
        }
        let mut k: usize = 0;
        while k < self.links.len()
            invariant
                k <= self.links.len(),
                count == self@.nodes.len(),
                forall|j: int| 0 <= j < k ==> #[trigger] self@.link_fits(j),
            decreases self.links.len() - k,
        {
            if self.links[k].in_index >= count || self.links[k].out_index >= count {
                assert(!self@.link_fits(k as int));
                return false;
            }
            k = k + 1;
        }
        true
    }

    /// Whether the genome got its innovation ids from a counter that now
    /// stands at `counter`: they ascend and are below it.
    pub fn ids_in_order(&self, counter: u32) -> (ok: bool)
        ensures
            ok == self@.ids_from(counter as int),
    {
        let mut k: usize = 0;
        while k < self.links.len()
            invariant
                k <= self.links.len(),
                forall|i: int, j: int|
                    0 <= i < j < k ==> (#[trigger] self@.links[i]).inno_number
                        < (#[trigger] self@.links[j]).inno_number,
                forall|i: int| 0 <= i < k ==> (#[trigger] self@.links[i]).inno_number < counter,
            decreases self.links.len() - k,
        {
            let id = self.links[k].inno_number;
            if id >= counter {
                assert(!(self@.links[k as int].inno_number < counter));
                return false;
            }
            if k > 0 && self.links[k - 1].inno_number >= id {
                assert(!(self@.links[k - 1].inno_number < self@.links[k as int].inno_number));
                return false;
            }
            proof {
                assert forall|i: int, j: int| 0 <= i < j < k + 1
                    implies (#[trigger] self@.links[i]).inno_number
                    < (#[trigger] self@.links[j]).inno_number by {
                    if j == k && i < k - 1 {
                        assert(self@.links[i].inno_number < self@.links[k - 1].inno_number);
                    }
                }
            }
            k = k + 1;
        }
        true
    }

    /// The indices of the nodes of kind `node_type` on layer `level`, in
    /// ascending order.
    pub fn filter_node_indexes(&self, node_type: NodeType, level: u32) -> (indexes: Vec<usize>)
        ensures
            lists_all(
                indexes@,
                self@.nodes.len() as int,
                |i: int| self@.node_matches(i, node_type, level),
            ),
    {
        let ghost wanted = |i: int| self@.node_matches(i, node_type, level);
        let mut filtered_nodes: Vec<usize> = Vec::new();
        let mut i: usize = 0;
        while i < self.nodes.len()
            invariant
                i <= self.nodes.len(),
                wanted == (|i: int| self@.node_matches(i, node_type, level)),
                lists_all(filtered_nodes@, i as int, wanted),
            decreases self.nodes.len() - i,
        {
            let node = self.nodes[i];
            proof {
                lemma_lists_next(filtered_nodes@, i as int, wanted);
            }
            if node.node_type == node_type && node.level == level {
                filtered_nodes.push(i);
            }
            i = i + 1;
        }
        filtered_nodes
    }

    /// The indices of the links that end in the node at `node_index`, enabled
    /// or not, in ascending order.
    pub fn input_links(&self, node_index: usize) -> (inputs: Vec<usize>)
        ensures
            lists_all(
                inputs@,
                self@.links.len() as int,
                |k: int| self@.enters(k, node_index as int),
            ),
    {
        let ghost wanted = |k: int| self@.enters(k, node_index as int);
        let mut inputs: Vec<usize> = Vec::new();
        let mut i: usize = 0;
        while i < self.links.len()
            invariant
                i <= self.links.len(),
                wanted == (|k: int| self@.enters(k, node_index as int)),
                lists_all(inputs@, i as int, wanted),
            decreases self.links.len() - i,
        {
            proof {
                lemma_lists_next(inputs@, i as int, wanted);
            }
            if self.links[i].out_index == node_index {
                inputs.push(i);
            }
            i = i + 1;
        }
        inputs
    }

    /// How deep a node stands; see [`NetworkView::depth`].
    fn depth_of(node: &Node) -> (depth: u64)
        ensures
            depth == (match node.node_type {
                NodeType::Input => 0,
                NodeType::Hidden => node.level as int,
                NodeType::Output => OUTPUT_DEPTH as int,
            }),
    {
        match node.node_type {
            NodeType::Input => 0,
            NodeType::Hidden => node.level as u64,
            NodeType::Output => OUTPUT_DEPTH,
        }
    }

    /// Links two nodes, in the direction that their depths give, with a fresh
    /// innovation id taken from `global_inno_number`.
    ///
    /// Fails with `InvalidTopology`, changing nothing, where the two are the
    /// same node, have the same kind and layer, or are no nodes of the genome.
    /// It does not look for an existing link between the two.
    pub fn add_link(
        &mut self,
        global_inno_number: &mut u32,
        node_index_1: usize,
        node_index_2: usize,
        weight: i32,
    ) -> (result: Result<(), NeatError>)
        requires
            old(self).wf(),
            old(self)@.link_order(node_index_1 as int, node_index_2 as int) is Some ==> *old(
                global_inno_number,
            ) < u32::MAX,
        ensures
            final(self).wf(),
            match old(self)@.link_order(node_index_1 as int, node_index_2 as int) {
                None => {
                    &&& result == Err::<(), NeatError>(NeatError::InvalidTopology)
                    &&& final(self)@ == old(self)@
                    &&& *final(global_inno_number) == *old(global_inno_number)
                },
                Some((source, destination)) => {
                    &&& result is Ok
                    &&& final(self)@ == old(self)@.with_link(
                        *old(global_inno_number),
                        source,
                        destination,
                        weight,
                    )
                    &&& *final(global_inno_number) == *old(global_inno_number) + 1
                    &&& old(self)@.depth(source) < old(self)@.depth(destination)
                    &&& !(old(self)@.nodes[source].node_type is Output)
                    &&& !(old(self)@.nodes[destination].node_type is Input)
                },
            },
            node_index_1 == node_index_2 ==> result == Err::<(), NeatError>(
                NeatError::InvalidTopology,
            ),
            old(self)@.layered() ==> final(self)@.layered(),
            // The new link closes a cycle exactly where a walk led from its
            // end back to its start.
            old(self)@.link_order(node_index_1 as int, node_index_2 as int) matches Some(
                (source, destination),
            ) ==> (final(self)@.acyclic() <==> old(self)@.acyclic() && !old(self)@.reaches(
                destination,
                source,
            )),
            old(self)@.ids_from(*old(global_inno_number) as int) ==> final(self)@.ids_from(
                *final(global_inno_number) as int,
            ),
    {
        if node_index_1 >= self.nodes.len() || node_index_2 >= self.nodes.len() || node_index_1
            == node_index_2 {
            return Err(NeatError::InvalidTopology);
        }
        let node1 = self.nodes[node_index_1];
        let node2 = self.nodes[node_index_2];
        if node1.node_type == node2.node_type && node1.level == node2.level {
            return Err(NeatError::InvalidTopology);
        }
        proof {
            assert(self@.node_fits(node_index_1 as int));
            assert(self@.node_fits(node_index_2 as int));
        }
        let (in_index, out_index) = if Self::depth_of(&node1) < Self::depth_of(&node2) {
            (node_index_1, node_index_2)
        } else {
            (node_index_2, node_index_1)
        };
        self.links.push(Link::new(*global_inno_number, in_index, out_index, weight));
        *global_inno_number = *global_inno_number + 1;
        proof {
            let before = old(self)@;
            let after = self@;
            assert(after.links =~= before.with_link(
                *old(global_inno_number),
                in_index as int,
                out_index as int,
                weight,
            ).links);
            assert forall|i: int| 0 <= i < after.nodes.len() implies #[trigger] after.node_fits(
                i,
            ) by {
                assert(before.node_fits(i));
            }
            assert forall|k: int| 0 <= k < after.links.len() implies #[trigger] after.link_fits(
                k,
            ) by {
                if k < before.links.len() {
                    assert(before.link_fits(k));
                }
            }
            if before.layered() {
                assert forall|k: int|
                    0 <= k < after.links.len() && after.links[k].enabled
                        implies #[trigger] after.link_descends(
                    k,
                ) by {
                    if k < before.links.len() {
                        assert(before.link_descends(k));
                    }
                }
            }
            lemma_with_link_acyclic(
                before,
                *old(global_inno_number),
                in_index as int,
                out_index as int,
                weight,
            );
        }
        Ok(())
    }

    /// Splits the enabled link at `link_index` in two, with a new hidden node
    /// between them; see [`NetworkView::split`] for what the genome is
    /// afterwards.
    ///
    /// Fails with `NoLinksAvailable`, changing nothing, where there is no
    /// enabled link at `link_index`.
    pub fn add_node(&mut self, global_inno_number: &mut u32, link_index: usize) -> (result: Result<
        (),
        NeatError,
    >)
        requires
            old(self).wf(),
            old(self)@.enabled_at(link_index as int) ==> old(self)@.has_room() && *old(
                global_inno_number,
            ) <= u32::MAX - 2,
        ensures
            final(self).wf(),
            !old(self)@.enabled_at(link_index as int) ==> {
                &&& result == Err::<(), NeatError>(NeatError::NoLinksAvailable)
                &&& final(self)@ == old(self)@
                &&& *final(global_inno_number) == *old(global_inno_number)
            },
            old(self)@.enabled_at(link_index as int) ==> {
                &&& result is Ok
                &&& final(self)@ == old(self)@.split(*old(global_inno_number), link_index as int)
                &&& *final(global_inno_number) == *old(global_inno_number) + 2
            },
            // The split link stays where it was, disabled; the two new links
            // run through the new node, which stands one layer above the source.
            old(self)@.enabled_at(link_index as int) ==> {
                let split = old(self)@.links[link_index as int];
                let fresh = old(self)@.nodes.len() as int;
                let first = final(self)@.links[old(self)@.links.len() as int];
                let second = final(self)@.links[old(self)@.links.len() as int + 1];
                &&& final(self)@.links.len() == old(self)@.links.len() + 2
                &&& final(self)@.nodes.len() == fresh + 1
                &&& final(self)@.links[link_index as int] == (Link { enabled: false, ..split })
                &&& first.in_index == split.in_index && first.out_index == fresh && first.weight
                    == ONE && first.enabled
                &&& second.in_index == fresh && second.out_index == split.out_index && second.weight
                    == split.weight && second.enabled
                &&& final(self)@.nodes[fresh].node_type is Hidden
                &&& final(self)@.nodes[fresh].level == old(self)@.nodes[split.in_index as int].level
                    + 1
            },
            // The destination moves up by exactly one layer if it stood one
            // layer above the source, and keeps its layer otherwise.
            old(self)@.enabled_at(link_index as int) ==> {
                let split = old(self)@.links[link_index as int];
                let before = old(self)@.nodes[split.out_index as int].level;
                let after = final(self)@.nodes[split.out_index as int].level;
                if before == old(self)@.nodes[split.in_index as int].level + 1 {
                    after == before + 1
                } else {
                    after == before
                }
            },
            old(self)@.layered() && old(self)@.split_keeps_layers(link_index as int)
                ==> final(self)@.layered(),
            old(self)@.acyclic() ==> final(self)@.acyclic(),
            old(self)@.dense() ==> final(self)@.dense(),
            old(self)@.ids_from(*old(global_inno_number) as int) ==> final(self)@.ids_from(
                *final(global_inno_number) as int,
            ),
    {
        if link_index >= self.links.len() {
            return Err(NeatError::NoLinksAvailable);
        }
        let link = self.links[link_index];
        if !link.enabled {
            return Err(NeatError::NoLinksAvailable);
        }
        proof {
            assert(self@.link_fits(link_index as int));
            assert(self@.node_fits(link.in_index as int));
            assert(self@.node_fits(link.out_index as int));
        }
        let in_node = self.nodes[link.in_index];
        let out_node = self.nodes[link.out_index];
        let level: u32 = in_node.level + 1;
        if out_node.level == level {
            self.nodes.set(
                link.out_index,
                Node { node_type: out_node.node_type, level: level + 1 },
            );
        }
        let new_index = self.nodes.len();
        self.nodes.push(Node { node_type: NodeType::Hidden, level });
        self.links.set(
            link_index,
            Link {
                inno_number: link.inno_number,
                in_index: link.in_index,
                out_index: link.out_index,
                weight: link.weight,
                enabled: false,
            },
        );
        self.links.push(Link::new(*global_inno_number, link.in_index, new_index, ONE));
        self.links.push(
            Link::new(*global_inno_number + 1, new_index, link.out_index, link.weight),
        );
        *global_inno_number = *global_inno_number + 2;
        proof {
            let before = old(self)@;
            let after = self@;
            let k = link_index as int;
            let target = before.split(*old(global_inno_number), k);
            assert(after.nodes =~= target.nodes);
            assert(after.links =~= target.links);
            if before.acyclic() {
                lemma_split_acyclic(before, *old(global_inno_number), k);
            }
            if before.dense() {
                crate::forward::lemma_split_dense(before, *old(global_inno_number), k);
            }
            assert forall|i: int| 0 <= i < after.nodes.len() implies #[trigger] after.node_fits(
                i,
            ) by {
                if i < before.nodes.len() {
                    assert(before.node_fits(i));
                }
            }
            assert forall|j: int| 0 <= j < after.links.len() implies #[trigger] after.link_fits(
                j,
            ) by {
                if j < before.links.len() {
                    assert(before.link_fits(j));
                }
            }
            if before.layered() && before.split_keeps_layers(k) {
                assert(before.link_descends(k));
                assert forall|j: int|
                    0 <= j < after.links.len() && after.links[j].enabled
                        implies #[trigger] after.link_descends(
                    j,
                ) by {
                    if j < before.links.len() {
                        assert(before.link_descends(j));
                        assert(before.link_fits(j));
                        assert(before.node_fits(before.links[j].in_index as int));
                        assert(before.node_fits(before.links[j].out_index as int));
                        if before.split_raises(k) {
                            assert(!before.crowds(k, j));
                        }
                    }
                }
            }
        }
        Ok(())
    }
}

} // verus!
