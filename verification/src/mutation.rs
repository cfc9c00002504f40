use crate::error::NeatError;
use crate::fixed::{clamp, clamped, ONE};
use crate::network::{Network, NetworkView};
use crate::node::Link;
use crate::rng::{random_between, random_index};
use crate::select::{lemma_lists_empty, lemma_lists_next, lists_all};
use vstd::prelude::*;

verus! {

/// A link that a random mutation adds gets a weight from -5.0 up to, and
/// without, 5.0.
pub const LINK_WEIGHT_LIMIT: i32 = 327680;

/// A weight after a perturbation: moved by `draw * amount - amount / 2`, where
/// `draw` stands for a number from 0.0 up to 1.0, then limited to the range
/// from -1.0 to 1.0.
pub open spec fn perturbed_weight(weight: int, draw: int, amount: int) -> int {
    clamped(weight + draw * amount / (ONE as int) - amount / 2, -ONE as int, ONE as int)
}

/// `after` is what a perturbation by some draw makes of the weight `before`.
pub open spec fn perturbation(before: int, after: int, amount: int) -> bool {
    exists|draw: int| 0 <= draw < ONE && after == #[trigger] perturbed_weight(before, draw, amount)
}

impl NetworkView {
    /// Link `k` runs between the nodes `a` and `b`, in either direction.
    pub open spec fn joins(self, k: int, a: int, b: int) -> bool {
        ||| self.links[k].in_index == a && self.links[k].out_index == b
        ||| self.links[k].in_index == b && self.links[k].out_index == a
    }

    /// Some link, enabled or not, runs between the nodes `a` and `b`.
    pub open spec fn linked(self, a: int, b: int) -> bool {
        exists|k: int| 0 <= k < self.links.len() && #[trigger] self.joins(k, a, b)
    }

    /// A link between `a` and `b` can be added: the two admit a direction and
    /// no link runs between them yet.
    pub open spec fn legal_pair(self, a: int, b: int) -> bool {
        self.link_order(a, b) is Some && !self.linked(a, b)
    }

    /// Some node can be linked to node `a`.
    pub open spec fn has_candidate(self, a: int) -> bool {
        exists|b: int| 0 <= b < self.nodes.len() && #[trigger] self.legal_pair(a, b)
    }

    /// `other` is this genome with other weights on its links, and nothing
    /// else changed.
    pub open spec fn reweighted(self, other: NetworkView) -> bool {
        &&& other.nodes == self.nodes
        &&& other.input_count == self.input_count
        &&& other.output_count == self.output_count
        &&& other.fitness == self.fitness
        &&& other.links.len() == self.links.len()
        &&& forall|k: int|
            0 <= k < self.links.len() ==> #[trigger] other.links[k] == (Link {
                weight: other.links[k].weight,
                ..self.links[k]
            })
    }
}

/// Whether two nodes can be linked does not depend on the order in which
/// they are named.
pub proof fn lemma_legal_pair_symmetric(net: NetworkView, a: int, b: int)
    ensures
        net.legal_pair(a, b) == net.legal_pair(b, a),
{
    if net.linked(a, b) {
        let k = choose|k: int| 0 <= k < net.links.len() && #[trigger] net.joins(k, a, b);
        assert(net.joins(k, b, a));
    }
    if net.linked(b, a) {
        let k = choose|k: int| 0 <= k < net.links.len() && #[trigger] net.joins(k, b, a);
        assert(net.joins(k, a, b));
    }
}

/// In a well-formed genome two nodes that admit a direction stand at
/// different depths.
pub proof fn lemma_link_order_strict(net: NetworkView, a: int, b: int)
    requires
        net.wf(),
        net.link_order(a, b) is Some,
    ensures
        net.depth(a) != net.depth(b),
        net.link_order(a, b) == net.link_order(b, a),
        net.depth(net.link_order(a, b)->Some_0.0) < net.depth(net.link_order(a, b)->Some_0.1),
{
    assert(net.node_fits(a));
    assert(net.node_fits(b));
}

/// Which nodes can be linked does not depend on the weights.
pub proof fn lemma_reweighted_candidates(net: NetworkView, other: NetworkView, a: int)
    requires
        net.reweighted(other),
    ensures
        net.has_candidate(a) ==> other.has_candidate(a),
{
    if net.has_candidate(a) {
        let b = choose|b: int| 0 <= b < net.nodes.len() && #[trigger] net.legal_pair(a, b);
        if other.linked(a, b) {
            let k = choose|k: int| 0 <= k < other.links.len() && #[trigger] other.joins(k, a, b);
            assert(other.links[k].in_index == net.links[k].in_index);
            assert(net.joins(k, a, b));
        }
        assert(other.legal_pair(a, b));
    }
}

/// Other weights leave the layer invariant as it was.
pub proof fn lemma_reweighted_layers(net: NetworkView, other: NetworkView)
    requires
        net.reweighted(other),
    ensures
        net.wf() ==> other.wf(),
        net.layered() == other.layered(),
        forall|counter: int| net.ids_from(counter) ==> other.ids_from(counter),
{
    assert forall|counter: int| net.ids_from(counter) implies other.ids_from(counter) by {
        assert forall|k: int, j: int| 0 <= k < j < other.links.len()
            implies (#[trigger] other.links[k]).inno_number
            < (#[trigger] other.links[j]).inno_number by {
            assert(other.links[k].inno_number == net.links[k].inno_number);
            assert(other.links[j].inno_number == net.links[j].inno_number);
        }
        assert forall|k: int| 0 <= k < other.links.len()
            implies (#[trigger] other.links[k]).inno_number
            < counter by {
            assert(other.links[k].inno_number == net.links[k].inno_number);
        }
    }
    if net.wf() {
        assert forall|i: int| 0 <= i < other.nodes.len() implies #[trigger] other.node_fits(i) by {
            assert(net.node_fits(i));
        }
        assert forall|k: int| 0 <= k < other.links.len() implies #[trigger] other.link_fits(k) by {
            assert(net.link_fits(k));
            assert(other.links[k].in_index == net.links[k].in_index);
        }
    }
    if net.layered() {
        assert forall|k: int|
            0 <= k < other.links.len() && other.links[k].enabled
                implies #[trigger] other.link_descends(
            k,
        ) by {
            assert(other.links[k].in_index == net.links[k].in_index);
            assert(net.link_descends(k));
        }
    }
    if other.layered() {
        assert forall|k: int|
            0 <= k < net.links.len() && net.links[k].enabled implies #[trigger] net.link_descends(
            k,
        ) by {
            assert(other.links[k].in_index == net.links[k].in_index);
            assert(other.link_descends(k));
        }
    }
}

impl Network {
    /// The indices of the enabled links, in ascending order.
    pub fn enabled_links(&self) -> (available: Vec<usize>)
        ensures
            lists_all(available@, self@.links.len() as int, |k: int| self@.enabled_at(k)),
    {
        let ghost wanted = |k: int| self@.enabled_at(k);
        let mut available_links: Vec<usize> = Vec::new();
        let mut i: usize = 0;
        while i < self.links.len()
            invariant
                i <= self.links.len(),
                wanted == (|k: int| self@.enabled_at(k)),
                lists_all(available_links@, i as int, wanted),
            decreases self.links.len() - i,
        {
            proof {
                lemma_lists_next(available_links@, i as int, wanted);
            }
            if self.links[i].enabled {
                available_links.push(i);
            }
            i = i + 1;
        }
        available_links
    }

    /// Whether some link, enabled or not, runs between the two nodes.
    pub fn has_link_between(&self, a: usize, b: usize) -> (found: bool)
        ensures
            found == self@.linked(a as int, b as int),
    {
        let mut k: usize = 0;
        while k < self.links.len()
            invariant
                k <= self.links.len(),
                forall|j: int| 0 <= j < k ==> !#[trigger] self@.joins(j, a as int, b as int),
            decreases self.links.len() - k,
        {
            let link = self.links[k];
            if (link.in_index == a && link.out_index == b) || (link.in_index == b
                && link.out_index == a) {
                assert(self@.joins(k as int, a as int, b as int));
                return true;
            }
            k = k + 1;
        }
        false
    }

    /// The indices of the nodes to which a link from or to `node` can be
    /// added, in ascending order: those that are not `node` itself, differ
    /// from it in kind or layer, and are not linked with it yet.
    pub fn link_candidates(&self, node: usize) -> (candidates: Vec<usize>)
        requires
            self.wf(),
        ensures
            lists_all(
                candidates@,
                self@.nodes.len() as int,
                |b: int| self@.legal_pair(node as int, b),
            ),
            candidates@.len() == 0 <==> !self@.has_candidate(node as int),
    {
        let ghost wanted = |b: int| self@.legal_pair(node as int, b);
        let mut selection: Vec<usize> = Vec::new();
        let mut i: usize = 0;
        while i < self.nodes.len()
            invariant
                self.wf(),
                i <= self.nodes.len(),
                wanted == (|b: int| self@.legal_pair(node as int, b)),
                lists_all(selection@, i as int, wanted),
            decreases self.nodes.len() - i,
        {
            proof {
                lemma_lists_next(selection@, i as int, wanted);
            }
            if node < self.nodes.len() && node != i {
                let node1 = self.nodes[node];
                let node2 = self.nodes[i];
                if node1.node_type != node2.node_type || node1.level != node2.level {
                    if !self.has_link_between(node, i) {
                        selection.push(i);
                    }
                }
            }
            i = i + 1;
        }
        proof {
            lemma_lists_empty(selection@, self@.nodes.len() as int, wanted);
            if self@.has_candidate(node as int) {
                let b = choose|b: int|
                    0 <= b < self@.nodes.len() && #[trigger] self@.legal_pair(node as int, b);
                assert(wanted(b));
            }
            if selection@.len() > 0 {
                assert(wanted(selection@[0] as int));
            }
        }
        selection
    }

    /// Adds a link between a node drawn at random and a node drawn among
    /// those that can be linked to it, with a weight drawn from
    /// `-LINK_WEIGHT_LIMIT` up to, and without, `LINK_WEIGHT_LIMIT`.
    ///
    /// Fails with `NoCandidateError`, changing nothing, where the genome has
    /// no node or no node can be linked to the one that was drawn first.
    pub fn add_random_link(&mut self, global_inno_number: &mut u32) -> (result: Result<
        (),
        NeatError,
    >)
        requires
            old(self).wf(),
            *old(global_inno_number) < u32::MAX,
        ensures
            final(self).wf(),
            match result {
                Ok(()) => {
                    let fresh = final(self)@.links.last();
                    &&& final(self)@ == old(self)@.with_link(
                        *old(global_inno_number),
                        fresh.in_index as int,
                        fresh.out_index as int,
                        fresh.weight,
                    )
                    &&& *final(global_inno_number) == *old(global_inno_number) + 1
                    &&& old(self)@.legal_pair(fresh.in_index as int, fresh.out_index as int)
                    &&& old(self)@.depth(fresh.in_index as int) < old(self)@.depth(
                        fresh.out_index as int,
                    )
                    &&& -LINK_WEIGHT_LIMIT <= fresh.weight < LINK_WEIGHT_LIMIT
                },
                Err(error) => {
                    &&& error == NeatError::NoCandidateError
                    &&& final(self)@ == old(self)@
                    &&& *final(global_inno_number) == *old(global_inno_number)
                    &&& old(self)@.nodes.len() == 0 || exists|a: int|
                        0 <= a < old(self)@.nodes.len() && !#[trigger] old(self)@.has_candidate(a)
                },
            },
            (forall|a: int| 0 <= a < old(self)@.nodes.len()
                ==> !#[trigger] old(self)@.has_candidate(a))
                ==> result is Err,
            old(self)@.nodes.len() > 0 && (forall|a: int|
                0 <= a < old(self)@.nodes.len() ==> #[trigger] old(self)@.has_candidate(a))
                ==> result is Ok,
            old(self)@.layered() ==> final(self)@.layered(),
            old(self)@.acyclic() && old(self)@.layered() ==> final(self)@.acyclic(),
            result is Ok ==> (final(self)@.acyclic() <==> old(self)@.acyclic() && !old(
                self,
            )@.reaches(
                final(self)@.links.last().out_index as int,
                final(self)@.links.last().in_index as int,
            )),
            old(self)@.ids_from(*old(global_inno_number) as int) ==> final(self)@.ids_from(
                *final(global_inno_number) as int,
            ),
    {
        if self.nodes.len() == 0 {
            return Err(NeatError::NoCandidateError);
        }
        let node1_index = random_index(self.nodes.len());
        let node2_selection = self.link_candidates(node1_index);
        if node2_selection.len() == 0 {
            return Err(NeatError::NoCandidateError);
        }
        let node2_index = node2_selection[random_index(node2_selection.len())];
        let weight = random_between(-LINK_WEIGHT_LIMIT, LINK_WEIGHT_LIMIT);
        proof {
            assert(self@.legal_pair(node1_index as int, node2_index as int));
            lemma_legal_pair_symmetric(self@, node1_index as int, node2_index as int);
            lemma_link_order_strict(self@, node1_index as int, node2_index as int);
        }
        let added = self.add_link(global_inno_number, node1_index, node2_index, weight);
        proof {
            let before = old(self)@;
            let order = before.link_order(node1_index as int, node2_index as int)->Some_0;
            assert(self@.links.last() == before.with_link(
                *old(global_inno_number),
                order.0,
                order.1,
                weight,
            ).links.last());
            if before.layered() {
                crate::topology::lemma_layered_acyclic(self@);
            }
        }
        added
    }

    /// Splits an enabled link drawn at random; see [`Network::add_node`].
    ///
    /// Fails with `NoLinksAvailable`, changing nothing, where no link is
    /// enabled.
    pub fn add_random_node(&mut self, global_inno_number: &mut u32) -> (result: Result<
        (),
        NeatError,
    >)
        requires
            old(self).wf(),
            old(self)@.has_room(),
            *old(global_inno_number) <= u32::MAX - 2,
        ensures
            final(self).wf(),
            match result {
                Ok(()) => {
                    &&& exists|k: int| #[trigger]
                        old(self)@.enabled_at(k) && final(self)@ == old(self)@.split(
                            *old(global_inno_number),
                            k,
                        )
                    &&& *final(global_inno_number) == *old(global_inno_number) + 2
                },
                Err(error) => {
                    &&& error == NeatError::NoLinksAvailable
                    &&& final(self)@ == old(self)@
                    &&& *final(global_inno_number) == *old(global_inno_number)
                },
            },
            result is Err <==> forall|k: int| !#[trigger] old(self)@.enabled_at(k),
            old(self)@.layered() && (forall|k: int| #[trigger]
                old(self)@.enabled_at(k) ==> old(self)@.split_keeps_layers(k))
                ==> final(self)@.layered(),
            old(self)@.acyclic() ==> final(self)@.acyclic(),
            old(self)@.dense() ==> final(self)@.dense(),
            old(self)@.ids_from(*old(global_inno_number) as int) ==> final(self)@.ids_from(
                *final(global_inno_number) as int,
            ),
    {
        let available_links = self.enabled_links();
        proof {
            lemma_lists_empty(
                available_links@,
                self@.links.len() as int,
                |k: int| self@.enabled_at(k),
            );
        }
        if available_links.len() == 0 {
            assert forall|k: int| !#[trigger] self@.enabled_at(k) by {
                if 0 <= k < self@.links.len() {
                    assert(!(|k: int| self@.enabled_at(k))(k));
                }
            }
            return Err(NeatError::NoLinksAvailable);
        }
        let link_index = available_links[random_index(available_links.len())];
        assert(self@.enabled_at(link_index as int));
        self.add_node(global_inno_number, link_index)
    }

    /// A weight after a perturbation by the draw `draw`; see
    /// [`perturbed_weight`].
    pub fn perturbed(weight: i32, draw: i32, amount: i32) -> (moved: i32)
        requires
            0 <= draw < ONE,
            0 <= amount,
        ensures
            moved == perturbed_weight(weight as int, draw as int, amount as int),
            -ONE <= moved <= ONE,
    {
        assert(0 <= draw * amount <= ONE * amount) by (nonlinear_arith)
            requires
                0 <= draw < ONE,
                0 <= amount,
        ;
        let shift: i64 = draw as i64 * amount as i64 / ONE as i64 - amount as i64 / 2;
        clamp(weight as i64 + shift, -ONE, ONE)
    }

    /// Perturbs the weight of every link, each by a draw of its own: a weight
    /// moves by at most half of `amount` either way and stays within -1.0 and
    /// 1.0.
    pub fn perturb_weights(&mut self, amount: i32)
        requires
            old(self).wf(),
            0 <= amount,
        ensures
            final(self).wf(),
            old(self)@.reweighted(final(self)@),
            forall|k: int|
                0 <= k < old(self)@.links.len() ==> perturbation(
                    old(self)@.links[k].weight as int,
                    (#[trigger] final(self)@.links[k]).weight as int,
                    amount as int,
                ),
            old(self)@.layered() == final(self)@.layered(),
            old(self)@.acyclic() == final(self)@.acyclic(),
            forall|counter: int| old(self)@.ids_from(counter) ==> final(self)@.ids_from(counter),
    {
        let mut i: usize = 0;
        while i < self.links.len()
            invariant
                0 <= amount,
                i <= self.links.len(),
                self.links@.len() == old(self).links@.len(),
                self.nodes@ == old(self).nodes@,
                self.input_count == old(self).input_count,
                self.output_count == old(self).output_count,
                self.fitness == old(self).fitness,
                forall|k: int|
                    0 <= k < self.links@.len() ==> #[trigger] self.links@[k] == (Link {
                        weight: self.links@[k].weight,
                        ..old(self).links@[k]
                    }),
                forall|k: int| i <= k < self.links@.len() ==> self.links@[k] == old(self).links@[k],
                forall|k: int|
                    0 <= k < i ==> perturbation(
                        old(self).links@[k].weight as int,
                        (#[trigger] self.links@[k]).weight as int,
                        amount as int,
                    ),
            decreases self.links.len() - i,
        {
            let link = self.links[i];
            let draw = random_between(0, ONE);
            let weight = Self::perturbed(link.weight, draw, amount);
            self.links.set(
                i,
                Link {
                    inno_number: link.inno_number,
                    in_index: link.in_index,
                    out_index: link.out_index,
                    weight,
                    enabled: link.enabled,
                },
            );
            assert(self.links@[i as int].weight == perturbed_weight(
                old(self).links@[i as int].weight as int,
                draw as int,
                amount as int,
            ));
            assert(perturbation(
                old(self).links@[i as int].weight as int,
                self.links@[i as int].weight as int,
                amount as int,
            ));
            i = i + 1;
        }
        proof {
            lemma_reweighted_layers(old(self)@, self@);
            crate::cycles::lemma_reweighted_acyclic(old(self)@, self@);
        }
    }

    /// Replaces the weight of every link by a draw of its own from -1.0 to
    /// 1.0, both included.
    pub fn randomize_weights(&mut self)
        requires
            old(self).wf(),
        ensures
            final(self).wf(),
            old(self)@.reweighted(final(self)@),
            forall|k: int|
                0 <= k < old(self)@.links.len()
                    ==> -ONE <= (#[trigger] final(self)@.links[k]).weight
                    <= ONE,
            old(self)@.layered() == final(self)@.layered(),
            old(self)@.acyclic() == final(self)@.acyclic(),
            forall|counter: int| old(self)@.ids_from(counter) ==> final(self)@.ids_from(counter),
    {
        let mut i: usize = 0;
        while i < self.links.len()
            invariant
                i <= self.links.len(),
                self.links@.len() == old(self).links@.len(),
                self.nodes@ == old(self).nodes@,
                self.input_count == old(self).input_count,
                self.output_count == old(self).output_count,
                self.fitness == old(self).fitness,
                forall|k: int|
                    0 <= k < self.links@.len() ==> #[trigger] self.links@[k] == (Link {
                        weight: self.links@[k].weight,
                        ..old(self).links@[k]
                    }),
                forall|k: int| 0 <= k < i ==> -ONE <= (#[trigger] self.links@[k]).weight <= ONE,
            decreases self.links.len() - i,
        {
            let link = self.links[i];
            let weight = random_between(-ONE, ONE + 1);
            self.links.set(
                i,
                Link {
                    inno_number: link.inno_number,
                    in_index: link.in_index,
                    out_index: link.out_index,
                    weight,
                    enabled: link.enabled,
                },
            );
            i = i + 1;
        }
        proof {
            lemma_reweighted_layers(old(self)@, self@);
            crate::cycles::lemma_reweighted_acyclic(old(self)@, self@);
        }
    }
}

} // verus!
