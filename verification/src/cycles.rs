use crate::network::NetworkView;
use crate::topology::{evolved, mutated, Mutation};
use vstd::prelude::*;

verus! {

/// The first place at which `path` uses the link `link`, and the length of
/// `path` where it never does.
pub open spec fn first_use(path: Seq<int>, link: int) -> int
    decreases path.len(),
{
    if path.len() == 0 {
        0
    } else if path[0] == link {
        0
    } else {
        1 + first_use(path.drop_first(), link)
    }
}

/// What the first use of a link is: a place of the path or its length, with
/// the link there and nowhere before.
pub proof fn lemma_first_use(path: Seq<int>, link: int)
    ensures
        0 <= first_use(path, link) <= path.len(),
        first_use(path, link) < path.len() ==> path[first_use(path, link)] == link,
        forall|i: int| 0 <= i < first_use(path, link) ==> path[i] != link,
    decreases path.len(),
{
    if path.len() > 0 && path[0] != link {
        let rest = path.drop_first();
        lemma_first_use(rest, link);
        assert forall|i: int| 0 <= i < first_use(path, link) implies path[i] != link by {
            if i > 0 {
                assert(rest[i - 1] == path[i]);
            }
        }
    }
}

/// A stretch of a walk is a walk, from where its first link starts to where
/// its last link ends.
pub proof fn lemma_walk_part(net: NetworkView, path: Seq<int>, from: int, to: int)
    requires
        net.is_walk(path),
        0 <= from < to <= path.len(),
    ensures
        net.is_walk(path.subrange(from, to)),
        net.walk_start(path.subrange(from, to)) == net.links[path[from]].in_index,
        net.walk_end(path.subrange(from, to)) == net.links[path[to - 1]].out_index,
{
    let part = path.subrange(from, to);
    assert forall|i: int| 0 <= i < part.len() implies net.enabled_at(#[trigger] part[i]) by {
        assert(net.enabled_at(path[from + i]));
    }
    assert forall|i: int| 0 <= i < part.len() - 1 implies net.links[part[i]].out_index
        == net.links[#[trigger] part[i + 1]].in_index by {
        assert(net.links[path[from + i]].out_index == net.links[path[from + i + 1]].in_index);
    }
}

/// A walk that ends where another starts goes on into it.
pub proof fn lemma_walk_join(net: NetworkView, first: Seq<int>, second: Seq<int>)
    requires
        net.is_walk(first),
        net.is_walk(second),
        net.walk_end(first) == net.walk_start(second),
    ensures
        net.is_walk(first + second),
        net.walk_start(first + second) == net.walk_start(first),
        net.walk_end(first + second) == net.walk_end(second),
{
    let whole = first + second;
    assert forall|i: int| 0 <= i < whole.len() implies net.enabled_at(#[trigger] whole[i]) by {
        if i < first.len() {
            assert(net.enabled_at(first[i]));
        } else {
            assert(net.enabled_at(second[i - first.len()]));
        }
    }
    assert forall|i: int| 0 <= i < whole.len() - 1 implies net.links[whole[i]].out_index
        == net.links[#[trigger] whole[i + 1]].in_index by {
        if i + 1 < first.len() {
            assert(net.links[first[i]].out_index == net.links[first[i + 1]].in_index);
        } else if i + 1 == first.len() {
            assert(whole[i] == first.last());
            assert(whole[i + 1] == second[0]);
        } else {
            assert(net.links[second[i - first.len()]].out_index == net.links[second[i
                - first.len() + 1]].in_index);
        }
    }
    assert(whole[0] == first[0]);
    assert(whole.last() == second.last());
}

/// A single enabled link is a walk.
pub proof fn lemma_walk_of_one(net: NetworkView, link: int)
    requires
        net.enabled_at(link),
    ensures
        net.is_walk(seq![link]),
        net.walk_start(seq![link]) == net.links[link].in_index,
        net.walk_end(seq![link]) == net.links[link].out_index,
{
    let path = seq![link];
    assert(path[0] == link);
    assert(path.last() == link);
}

/// A walk through one genome is a walk through another that has the links
/// of the walk just as they are.
pub proof fn lemma_walk_carries(net: NetworkView, other: NetworkView, path: Seq<int>)
    requires
        net.is_walk(path),
        forall|i: int|
            0 <= i < path.len() ==> (#[trigger] path[i]) < other.links.len() && other.links[path[i]]
                == net.links[path[i]],
    ensures
        other.is_walk(path),
        other.walk_start(path) == net.walk_start(path),
        other.walk_end(path) == net.walk_end(path),
{
    assert forall|i: int| 0 <= i < path.len() implies other.enabled_at(#[trigger] path[i]) by {
        assert(net.enabled_at(path[i]));
    }
    assert forall|i: int| 0 <= i < path.len() - 1 implies other.links[path[i]].out_index
        == other.links[#[trigger] path[i + 1]].in_index by {
        assert(net.links[path[i]].out_index == net.links[path[i + 1]].in_index);
        assert(other.links[path[i]] == net.links[path[i]]);
    }
    assert(other.links[path[0]] == net.links[path[0]]);
    assert(other.links[path[path.len() - 1]] == net.links[path[path.len() - 1]]);
}

/// A walk through a genome with one more link that does not use that link
/// is a walk through the genome without it.
proof fn lemma_walk_without_new_link(
    net: NetworkView,
    id: u32,
    source: int,
    destination: int,
    weight: i32,
    path: Seq<int>,
)
    requires
        net.with_link(id, source, destination, weight).is_walk(path),
        forall|i: int| 0 <= i < path.len() ==> path[i] != net.links.len(),
    ensures
        net.is_walk(path),
        net.walk_start(path) == net.with_link(id, source, destination, weight).walk_start(path),
        net.walk_end(path) == net.with_link(id, source, destination, weight).walk_end(path),
{
    let longer = net.with_link(id, source, destination, weight);
    assert forall|i: int|
        0 <= i < path.len() implies (#[trigger] path[i]) < net.links.len() && net.links[path[i]]
        == longer.links[path[i]] by {
        assert(longer.enabled_at(path[i]));
    }
    lemma_walk_carries(longer, net, path);
}

/// A link from `source` to `destination` leaves a genome free of cycles
/// exactly if the genome was free of cycles, the two nodes differ and no
/// walk led from `destination` back to `source`.
pub proof fn lemma_with_link_acyclic(
    net: NetworkView,
    id: u32,
    source: int,
    destination: int,
    weight: i32,
)
    requires
        0 <= source <= usize::MAX,
        0 <= destination <= usize::MAX,
    ensures
        net.with_link(id, source, destination, weight).acyclic() <==> net.acyclic() && source
            != destination && !net.reaches(destination, source),
{
    let longer = net.with_link(id, source, destination, weight);
    let fresh = net.links.len() as int;
    assert(longer.links[fresh].in_index == source);
    assert(longer.links[fresh].out_index == destination);
    assert(longer.enabled_at(fresh));
    lemma_walk_of_one(longer, fresh);
    if !net.acyclic() {
        let path = choose|path: Seq<int>| #[trigger] net.is_cycle(path);
        assert forall|i: int|
            0 <= i < path.len() implies (#[trigger] path[i]) < longer.links.len()
            && longer.links[path[i]] == net.links[path[i]] by {
            assert(net.enabled_at(path[i]));
        }
        lemma_walk_carries(net, longer, path);
        assert(longer.is_cycle(path));
    }
    if source == destination {
        assert(longer.is_cycle(seq![fresh]));
    }
    if net.reaches(destination, source) {
        let back = choose|path: Seq<int>|
            #[trigger] net.is_walk(path) && net.walk_start(path) == destination && net.walk_end(
                path,
            ) == source;
        assert forall|i: int|
            0 <= i < back.len() implies (#[trigger] back[i]) < longer.links.len()
            && longer.links[back[i]] == net.links[back[i]] by {
            assert(net.enabled_at(back[i]));
        }
        lemma_walk_carries(net, longer, back);
        lemma_walk_join(longer, back, seq![fresh]);
        assert(longer.is_cycle(back + seq![fresh]));
    }
    if net.acyclic() && source != destination && !net.reaches(destination, source) {
        assert forall|path: Seq<int>| !#[trigger] longer.is_cycle(path) by {
            if longer.is_cycle(path) {
                lemma_cycle_through_new_link(net, id, source, destination, weight, path);
            }
        }
    }
}

/// A cycle through a genome with one more link, between two different
/// nodes, shows a cycle or a walk back from the link's end to its start in
/// the genome without the link.
proof fn lemma_cycle_through_new_link(
    net: NetworkView,
    id: u32,
    source: int,
    destination: int,
    weight: i32,
    path: Seq<int>,
)
    requires
        0 <= source <= usize::MAX,
        0 <= destination <= usize::MAX,
        source != destination,
        net.with_link(id, source, destination, weight).is_cycle(path),
    ensures
        !net.acyclic() || net.reaches(destination, source),
{
    let longer = net.with_link(id, source, destination, weight);
    let fresh = net.links.len() as int;
    assert(longer.links[fresh].in_index == source);
    assert(longer.links[fresh].out_index == destination);
    let at = first_use(path, fresh);
    lemma_first_use(path, fresh);
    if at == path.len() {
        lemma_walk_without_new_link(net, id, source, destination, weight, path);
        assert(net.is_cycle(path));
    } else {
        // The rest of the cycle, from behind the new link round to before it,
        // leads from the link's end to its start.
        let round = path.subrange(at + 1, path.len() as int) + path.subrange(0, at);
        if at + 1 < path.len() {
            lemma_walk_part(longer, path, at + 1, path.len() as int);
            assert(longer.links[path[at]].out_index == longer.links[path[at + 1]].in_index);
        }
        if 0 < at {
            lemma_walk_part(longer, path, 0, at);
            assert(longer.links[path[at - 1]].out_index == longer.links[path[at - 1 + 1]].in_index);
        }
        if at + 1 < path.len() && 0 < at {
            lemma_walk_join(longer, path.subrange(at + 1, path.len() as int), path.subrange(0, at));
        } else if at + 1 < path.len() {
            assert(round =~= path.subrange(at + 1, path.len() as int));
        } else if 0 < at {
            assert(round =~= path.subrange(0, at));
        } else {
            assert(path.len() == 1);
            assert(path[0] == path.last());
        }
        assert(longer.is_walk(round));
        assert(longer.walk_start(round) == destination);
        assert(longer.walk_end(round) == source);
        let stop = first_use(round, fresh);
        lemma_first_use(round, fresh);
        if stop == 0 {
            assert(round[0] == fresh);
        } else {
            let back = round.subrange(0, stop);
            lemma_walk_part(longer, round, 0, stop);
            if stop < round.len() {
                assert(longer.links[round[stop - 1]].out_index == longer.links[round[stop - 1
                    + 1]].in_index);
            } else {
                assert(back =~= round);
            }
            assert forall|i: int| 0 <= i < back.len() implies back[i] != net.links.len() by {
                assert(back[i] == round[i]);
            }
            lemma_walk_without_new_link(net, id, source, destination, weight, back);
            assert(net.is_walk(back) && net.walk_start(back) == destination && net.walk_end(back)
                == source);
        }
    }
}

/// A walk through a genome after a split that neither starts nor ends at the
/// new node shows a walk between the same nodes through the genome before
/// the split: wherever the walk passes the new node, the split link leads
/// the same way.
proof fn lemma_walk_before_split(net: NetworkView, id: u32, k: int, path: Seq<int>) -> (before: Seq<
    int,
>)
    requires
        net.wf(),
        net.enabled_at(k),
        net.split(id, k).is_walk(path),
        net.split(id, k).walk_start(path) != net.nodes.len(),
        net.split(id, k).walk_end(path) != net.nodes.len(),
    ensures
        net.is_walk(before),
        net.walk_start(before) == net.split(id, k).walk_start(path),
        net.walk_end(before) == net.split(id, k).walk_end(path),
    decreases path.len(),
{
    let after = net.split(id, k);
    let fresh = net.nodes.len() as int;
    let first = net.links.len() as int;
    let second = first + 1;
    let head = path[0];
    assert(after.enabled_at(head));
    assert(net.link_fits(k));
    assert(after.links[first].in_index == net.links[k].in_index);
    assert(after.links[first].out_index == fresh);
    assert(after.links[second].in_index == fresh);
    assert(after.links[second].out_index == net.links[k].out_index);
    if head < first {
        assert(head != k);
        assert(after.links[head] == net.links[head]);
        assert(net.link_fits(head));
        lemma_walk_of_one(net, head);
        if path.len() == 1 {
            assert(path.last() == head);
            seq![head]
        } else {
            let rest = path.subrange(1, path.len() as int);
            lemma_walk_part(after, path, 1, path.len() as int);
            assert(after.links[path[0]].out_index == after.links[path[0int + 1]].in_index);
            let tail = lemma_walk_before_split(net, id, k, rest);
            lemma_walk_join(net, seq![head], tail);
            seq![head] + tail
        }
    } else if head == first {
        // The walk enters the new node, so it must leave it by the second
        // new link: no other link starts there.
        assert(path.len() >= 2) by {
            if path.len() == 1 {
                assert(path.last() == head);
            }
        }
        assert(after.links[path[0]].out_index == after.links[path[0int + 1]].in_index);
        let next = path[1];
        assert(after.enabled_at(next));
        assert(next == second) by {
            if next < first {
                assert(after.links[next].in_index == net.links[next].in_index);
                assert(net.link_fits(next));
            }
        }
        lemma_walk_of_one(net, k);
        if path.len() == 2 {
            assert(path.last() == next);
            seq![k]
        } else {
            let rest = path.subrange(2, path.len() as int);
            lemma_walk_part(after, path, 2, path.len() as int);
            assert(after.links[path[1]].out_index == after.links[path[1int + 1]].in_index);
            let tail = lemma_walk_before_split(net, id, k, rest);
            lemma_walk_join(net, seq![k], tail);
            seq![k] + tail
        }
    } else {
        assert(head == second);
        seq![k]
    }
}

/// The split of an enabled link leaves a genome free of cycles.
pub proof fn lemma_split_acyclic(net: NetworkView, id: u32, k: int)
    requires
        net.wf(),
        net.enabled_at(k),
        net.acyclic(),
    ensures
        net.split(id, k).acyclic(),
{
    let after = net.split(id, k);
    let fresh = net.nodes.len() as int;
    let first = net.links.len() as int;
    let second = first + 1;
    assert(net.link_fits(k));
    assert(after.links[first].in_index == net.links[k].in_index);
    assert(after.links[first].out_index == fresh);
    assert(after.links[second].in_index == fresh);
    assert(after.links[second].out_index == net.links[k].out_index);
    lemma_walk_of_one(net, k);
    assert forall|path: Seq<int>| !#[trigger] after.is_cycle(path) by {
        if after.is_cycle(path) {
            if after.walk_start(path) != fresh {
                let before = lemma_walk_before_split(net, id, k, path);
                assert(net.is_cycle(before));
            } else {
                // A cycle through the new node leaves it by the second new
                // link and comes back by the first.
                let out = path[0];
                let back = path.last();
                assert(after.enabled_at(out) && after.enabled_at(back));
                assert(out == second) by {
                    if out < first {
                        assert(after.links[out].in_index == net.links[out].in_index);
                        assert(net.link_fits(out));
                    }
                }
                assert(back == first) by {
                    if back < first {
                        assert(after.links[back].out_index == net.links[back].out_index);
                        assert(net.link_fits(back));
                    }
                }
                assert(path.len() >= 2);
                assert(after.links[path[0]].out_index == after.links[path[0int + 1]].in_index);
                assert(after.links[path[path.len() - 2]].out_index == after.links[path[path.len()
                    - 2 + 1]].in_index);
                if path.len() == 2 {
                    assert(net.links[k].out_index == net.links[k].in_index);
                    assert(net.is_cycle(seq![k]));
                } else {
                    let middle = path.subrange(1, path.len() - 1);
                    lemma_walk_part(after, path, 1, path.len() - 1);
                    let way = lemma_walk_before_split(net, id, k, middle);
                    lemma_walk_join(net, seq![k], way);
                    assert(net.is_cycle(seq![k] + way));
                }
            }
        }
    }
}

/// Other weights leave the walks of a genome as they are.
pub proof fn lemma_reweighted_acyclic(net: NetworkView, other: NetworkView)
    requires
        net.reweighted(other),
    ensures
        net.acyclic() == other.acyclic(),
{
    if !net.acyclic() {
        let path = choose|path: Seq<int>| #[trigger] net.is_cycle(path);
        lemma_reweighted_walk(net, other, path);
        assert(other.is_cycle(path));
    }
    if !other.acyclic() {
        let path = choose|path: Seq<int>| #[trigger] other.is_cycle(path);
        assert(other.reweighted(net)) by {
            assert forall|j: int| 0 <= j < other.links.len() implies #[trigger] net.links[j] == (
            crate::node::Link { weight: net.links[j].weight, ..other.links[j] }) by {
                assert(other.links[j].in_index == net.links[j].in_index);
            }
        }
        lemma_reweighted_walk(other, net, path);
        assert(net.is_cycle(path));
    }
}

/// A walk through a genome is a walk through the genome with other weights.
proof fn lemma_reweighted_walk(net: NetworkView, other: NetworkView, path: Seq<int>)
    requires
        net.reweighted(other),
        net.is_walk(path),
    ensures
        other.is_walk(path),
        other.walk_start(path) == net.walk_start(path),
        other.walk_end(path) == net.walk_end(path),
{
    assert forall|i: int| 0 <= i < path.len() implies other.enabled_at(#[trigger] path[i]) by {
        assert(net.enabled_at(path[i]));
        assert(other.links[path[i]].enabled == net.links[path[i]].enabled);
    }
    assert forall|i: int| 0 <= i < path.len() - 1 implies other.links[path[i]].out_index
        == other.links[#[trigger] path[i + 1]].in_index by {
        assert(net.links[path[i]].out_index == net.links[path[i + 1]].in_index);
        assert(net.enabled_at(path[i]));
        assert(net.enabled_at(path[i + 1]));
        assert(other.links[path[i]].out_index == net.links[path[i]].out_index);
        assert(other.links[path[i + 1]].in_index == net.links[path[i + 1]].in_index);
    }
    assert(net.enabled_at(path[0]));
    assert(net.enabled_at(path[path.len() - 1]));
    assert(other.links[path[0]].in_index == net.links[path[0]].in_index);
    assert(other.links[path[path.len() - 1]].out_index == net.links[path[path.len()
        - 1]].out_index);
}

/// The step adds a link that closes a cycle: it is a link that the genome
/// takes, and a walk leads from its end back to its start.
pub open spec fn closes_cycle(net: NetworkView, counter: u32, step: Mutation) -> bool {
    step matches Mutation::AddLink { first, second, .. } && counter < u32::MAX && (
    net.link_order(first, second) matches Some((source, destination)) && net.reaches(
        destination,
        source,
    ))
}

/// No step of the sequence closes a cycle in the genome that the steps
/// before it have made.
pub open spec fn none_closes_cycle(net: NetworkView, counter: u32, steps: Seq<Mutation>) -> bool
    decreases steps.len(),
{
    if steps.len() == 0 {
        true
    } else {
        let before = evolved(net, counter, steps.drop_last());
        &&& none_closes_cycle(net, counter, steps.drop_last())
        &&& !closes_cycle(before.0, before.1, steps.last())
    }
}

/// One step leaves a well-formed genome without cycles free of cycles
/// exactly if it does not add a link that closes one.
pub proof fn lemma_step_acyclic(net: NetworkView, counter: u32, step: Mutation)
    requires
        net.wf(),
        net.acyclic(),
    ensures
        mutated(net, counter, step).0.acyclic() <==> !closes_cycle(net, counter, step),
{
    let after = mutated(net, counter, step).0;
    match step {
        Mutation::AddLink { first, second, weight } => {
            if after != net {
                let order = net.link_order(first, second)->Some_0;
                lemma_with_link_acyclic(net, counter, order.0, order.1, weight);
            }
        },
        Mutation::AddNode { link } => {
            if after != net {
                lemma_split_acyclic(net, counter, link);
            }
        },
        Mutation::SetWeights { weights } => {
            if after != net {
                assert(net.reweighted(after));
                lemma_reweighted_acyclic(net, after);
            }
        },
    }
}

/// Whatever sequence of mutations a well-formed genome without cycles goes
/// through, its enabled links form no cycle afterwards, as long as no step
/// adds a link from a node to one from which a walk leads back.
pub proof fn lemma_evolution_stays_acyclic(net: NetworkView, counter: u32, steps: Seq<Mutation>)
    requires
        net.wf(),
        net.acyclic(),
        none_closes_cycle(net, counter, steps),
    ensures
        evolved(net, counter, steps).0.wf(),
        evolved(net, counter, steps).0.acyclic(),
    decreases steps.len(),
{
    if steps.len() > 0 {
        lemma_evolution_stays_acyclic(net, counter, steps.drop_last());
        let before = evolved(net, counter, steps.drop_last());
        crate::topology::lemma_step_keeps_layers(before.0, before.1, steps.last());
        lemma_step_acyclic(before.0, before.1, steps.last());
    }
}

} // verus!
