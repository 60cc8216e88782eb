// This file is part of Lectev.
//
//  Lectev is free software: you can redistribute it and/or modify
//  it under the terms of the GNU General Public License as published by
//  the Free Software Foundation, either version 3 of the License, or
//  (at your option) any later version.
//
//  Lectev is distributed in the hope that it will be useful,
//  but WITHOUT ANY WARRANTY; without even the implied warranty of
//  MERCHANTABILITY or FITNESS FOR A PARTICULAR PURPOSE.  See the
//  GNU General Public License for more details.
//
//  You should have received a copy of the GNU General Public License
//  along with Lectev.  If not, see <https://www.gnu.org/licenses/>.

//! # Dependency graphs and the orders that honour them
//!
//! A graph is a sequence of nodes; a node is an item's id together with the
//! ids that block it. An order of the graph emits every node once, and each
//! node only after an item with each of its blocking ids has been emitted.
//! Nodes are told apart by their position in the graph, so nothing here
//! depends on ids being unique.
use vstd::prelude::*;

verus! {

/// A leaf item as the sorter sees it: its id and the ids it waits for.
pub struct Node {
    pub id: Seq<char>,
    pub blockers: Set<Seq<char>>,
}

/// The ids of the nodes at the positions `picks`, in that order.
pub open spec fn ids_of(graph: Seq<Node>, picks: Seq<int>) -> Seq<Seq<char>> {
    picks.map_values(|p: int| graph[p].id)
}

/// The ids emitted by the first `k` of `picks`.
pub open spec fn emitted_before(graph: Seq<Node>, picks: Seq<int>, k: int) -> Set<Seq<char>> {
    Set::new(
        |id: Seq<char>|
            exists|j: int| 0 <= j < k && j < picks.len() && graph[#[trigger] picks[j]].id == id,
    )
}

/// Every one of `picks` is a position of a graph with `n` nodes.
pub open spec fn in_range(picks: Seq<int>, n: nat) -> bool {
    forall|k: int| 0 <= k < picks.len() ==> 0 <= #[trigger] picks[k] < n
}

/// No node is picked before all the ids that block it have been emitted.
pub open spec fn respects_blockers(graph: Seq<Node>, picks: Seq<int>) -> bool {
    forall|k: int|
        #![trigger picks[k]]
        0 <= k < picks.len() ==> graph[picks[k]].blockers.subset_of(
            emitted_before(graph, picks, k),
        )
}

/// `picks` could be the start of an order: positions of the graph, none
/// twice, each after its blockers.
pub open spec fn is_partial_emission(graph: Seq<Node>, picks: Seq<int>) -> bool {
    &&& in_range(picks, graph.len())
    &&& picks.no_duplicates()
    &&& respects_blockers(graph, picks)
}

/// `picks` emits every node of the graph exactly once, each after its
/// blockers.
pub open spec fn is_emission(graph: Seq<Node>, picks: Seq<int>) -> bool {
    &&& is_partial_emission(graph, picks)
    &&& picks.len() == graph.len()
    &&& forall|i: int| 0 <= i < graph.len() ==> picks.contains(i)
}

/// `order` lists the ids of the graph's nodes in an order that honours every
/// dependency.
pub open spec fn is_valid_order(graph: Seq<Node>, order: Seq<Seq<char>>) -> bool {
    exists|picks: Seq<int>| is_emission(graph, picks) && order == ids_of(graph, picks)
}

/// Whether the graph can be ordered at all. It cannot where nodes block each
/// other in a cycle, or where a blocking id belongs to no node.
pub open spec fn has_valid_order(graph: Seq<Node>) -> bool {
    exists|picks: Seq<int>| is_emission(graph, picks)
}

/// A node that waits for nothing.
pub open spec fn is_free(node: Node) -> bool {
    node.blockers == Set::<Seq<char>>::empty()
}

/// The nodes that still wait for something, in their order.
pub open spec fn still_blocked(nodes: Seq<Node>) -> Seq<Node>
    decreases nodes.len(),
{
    if nodes.len() == 0 {
        Seq::empty()
    } else if is_free(nodes.last()) {
        still_blocked(nodes.drop_last())
    } else {
        still_blocked(nodes.drop_last()).push(nodes.last())
    }
}

/// The ids of the nodes that wait for nothing, in their order.
pub open spec fn freed_ids(nodes: Seq<Node>) -> Seq<Seq<char>>
    decreases nodes.len(),
{
    if nodes.len() == 0 {
        Seq::empty()
    } else if is_free(nodes.last()) {
        freed_ids(nodes.drop_last()).push(nodes.last().id)
    } else {
        freed_ids(nodes.drop_last())
    }
}

/// Every node either still waits or is freed.
pub proof fn lemma_blocked_or_freed(nodes: Seq<Node>)
    ensures
        still_blocked(nodes).len() + freed_ids(nodes).len() == nodes.len(),
    decreases nodes.len(),
{
    if nodes.len() > 0 {
        lemma_blocked_or_freed(nodes.drop_last());
    }
}

/// The node once the item `done` has been emitted: it waits for it no
/// longer.
pub open spec fn without(node: Node, done: Seq<char>) -> Node {
    Node { id: node.id, blockers: node.blockers.remove(done) }
}

/// The nodes once the item `done` has been emitted: nobody waits for it any
/// longer.
pub open spec fn unblocked(nodes: Seq<Node>, done: Seq<char>) -> Seq<Node> {
    nodes.map_values(|n: Node| without(n, done))
}

/// Where a sort ends when it always emits the last of the ready items, as
/// long as there is one: what it has emitted, and what is left blocked.
pub open spec fn completed(
    emitted: Seq<Seq<char>>,
    ready: Seq<Seq<char>>,
    blocked: Seq<Node>,
) -> (Seq<Seq<char>>, Seq<Node>)
    decreases ready.len() + blocked.len(),
{
    if ready.len() == 0 {
        (emitted, blocked)
    } else {
        let rest = unblocked(blocked, ready.last());
        proof {
            lemma_blocked_or_freed(rest);
        }
        completed(
            emitted.push(ready.last()),
            ready.drop_last() + freed_ids(rest),
            still_blocked(rest),
        )
    }
}

/// No two nodes of the graph have the same id.
pub open spec fn ids_unique(graph: Seq<Node>) -> bool {
    forall|i: int, j: int|
        0 <= i < j < graph.len() ==> (#[trigger] graph[i]).id != (#[trigger] graph[j]).id
}

/// Node `a` waits for node `b`: the id of `b` is among the blockers of `a`.
pub open spec fn waits_for(graph: Seq<Node>, a: int, b: int) -> bool {
    graph[a].blockers.contains(graph[b].id)
}

/// Every blocking id is the id of some node of the graph.
pub open spec fn blockers_exist(graph: Seq<Node>) -> bool {
    forall|i: int, id: Seq<char>|
        0 <= i < graph.len() && (#[trigger] graph[i].blockers.contains(id)) ==> exists|j: int|
            0 <= j < graph.len() && (#[trigger] graph[j]).id == id
}

/// `path` is a cycle of the graph: each of its nodes waits for the next,
/// and the last for the first. A node that waits for itself is a cycle of
/// one.
pub open spec fn is_cycle(graph: Seq<Node>, path: Seq<int>) -> bool {
    &&& path.len() > 0
    &&& in_range(path, graph.len())
    &&& forall|k: int|
        0 <= k < path.len() - 1 ==> waits_for(graph, #[trigger] path[k], path[k + 1])
    &&& waits_for(graph, path.last(), path[0])
}

/// Whether some nodes of the graph wait for each other in a cycle.
pub open spec fn has_cycle(graph: Seq<Node>) -> bool {
    exists|path: Seq<int>| is_cycle(graph, path)
}

/// An order emits every node once, so it is as long as the graph, and with
/// unique ids no id occurs twice in it.
pub proof fn lemma_valid_order_emits_each_once(graph: Seq<Node>, order: Seq<Seq<char>>)
    requires
        is_valid_order(graph, order),
    ensures
        order.len() == graph.len(),
        forall|i: int|
            0 <= i < graph.len() ==> order.contains((#[trigger] graph[i]).id),
        ids_unique(graph) ==> order.no_duplicates(),
{
    let picks = choose|picks: Seq<int>| is_emission(graph, picks) && order == ids_of(graph, picks);
    assert forall|i: int| 0 <= i < graph.len() implies order.contains(
        (#[trigger] graph[i]).id,
    ) by {
        assert(picks.contains(i));
        let k = choose|k: int| 0 <= k < picks.len() && picks[k] == i;
        assert(order[k] == graph[i].id);
    }
    if ids_unique(graph) {
        assert forall|i: int, j: int| 0 <= i < order.len() && 0 <= j < order.len() && i
            != j implies order[i] != order[j] by {
            assert(picks[i] != picks[j]);
            assert(0 <= picks[i] < graph.len() && 0 <= picks[j] < graph.len());
            if picks[i] < picks[j] {
                assert(graph[picks[i]].id != graph[picks[j]].id);
            } else {
                assert(graph[picks[j]].id != graph[picks[i]].id);
            }
        }
    }
}

/// Order validity: in every order of the graph, wherever node `a` waits for
/// the id `blocker`, that id stands at an earlier place than the id of `a`.
/// With unique ids these are the only places of the two ids.
pub proof fn lemma_valid_order_respects_dependency(
    graph: Seq<Node>,
    order: Seq<Seq<char>>,
    a: int,
    blocker: Seq<char>,
)
    requires
        is_valid_order(graph, order),
        0 <= a < graph.len(),
        graph[a].blockers.contains(blocker),
    ensures
        exists|i: int, j: int|
            0 <= j < i < order.len() && #[trigger] order[i] == graph[a].id && #[trigger] order[j]
                == blocker,
        ids_unique(graph) ==> order.index_of(blocker) < order.index_of(graph[a].id),
{
    let picks = choose|picks: Seq<int>| is_emission(graph, picks) && order == ids_of(graph, picks);
    assert(picks.contains(a));
    let i = choose|i: int| 0 <= i < picks.len() && picks[i] == a;
    assert(graph[picks[i]].blockers.subset_of(emitted_before(graph, picks, i)));
    assert(emitted_before(graph, picks, i).contains(blocker));
    let j = choose|j: int| 0 <= j < i && j < picks.len() && graph[#[trigger] picks[j]].id == blocker;
    assert(order[i] == graph[a].id && order[j] == blocker);
    if ids_unique(graph) {
        lemma_valid_order_emits_each_once(graph, order);
        assert(order.contains(blocker));
        assert(order.contains(graph[a].id));
        order.index_of_first_ensures(blocker);
        order.index_of_first_ensures(graph[a].id);
        let jj = order.index_of(blocker);
        let ii = order.index_of(graph[a].id);
        assert(order[jj] == order[j]);
        assert(order[ii] == order[i]);
        assert(jj == j);
        assert(ii == i);
    }
}

/// The place at which `picks` emits node `x`.
spec fn place_of(picks: Seq<int>, x: int) -> int {
    choose|k: int| 0 <= k < picks.len() && picks[k] == x
}

/// Along a cycle every node would have to come before the one before it.
proof fn lemma_places_descend(graph: Seq<Node>, picks: Seq<int>, path: Seq<int>, k: int)
    requires
        ids_unique(graph),
        is_emission(graph, picks),
        is_cycle(graph, path),
        0 <= k < path.len(),
    ensures
        place_of(picks, path[k]) <= place_of(picks, path[0]) - k,
    decreases k,
{
    if k > 0 {
        lemma_places_descend(graph, picks, path, k - 1);
        lemma_blocker_comes_first(graph, picks, path[k - 1], path[k]);
    }
}

/// In an order of a graph with unique ids, a node comes after each node
/// that it waits for.
proof fn lemma_blocker_comes_first(graph: Seq<Node>, picks: Seq<int>, a: int, b: int)
    requires
        ids_unique(graph),
        is_emission(graph, picks),
        0 <= a < graph.len(),
        0 <= b < graph.len(),
        waits_for(graph, a, b),
    ensures
        place_of(picks, b) < place_of(picks, a),
{
    assert(picks.contains(a));
    assert(picks.contains(b));
    let i = place_of(picks, a);
    let jb = place_of(picks, b);
    assert(graph[picks[i]].blockers.subset_of(emitted_before(graph, picks, i)));
    assert(emitted_before(graph, picks, i).contains(graph[b].id));
    let j = choose|j: int|
        0 <= j < i && j < picks.len() && graph[#[trigger] picks[j]].id == graph[b].id;
    assert(0 <= picks[j] < graph.len());
    if picks[j] < b {
        assert(graph[picks[j]].id != graph[b].id);
    } else if b < picks[j] {
        assert(graph[b].id != graph[picks[j]].id);
    }
    assert(picks[j] == b);
    if jb != j {
        assert(picks[jb] != picks[j]);
    }
}

/// Cycle detection: a graph with unique ids in which nodes wait for each
/// other in a cycle has no order. Two items that each depend on the other,
/// and an item that depends on itself, are such cycles.
pub proof fn lemma_cycle_has_no_order(graph: Seq<Node>, path: Seq<int>)
    requires
        ids_unique(graph),
        is_cycle(graph, path),
    ensures
        !has_valid_order(graph),
{
    if has_valid_order(graph) {
        let picks = choose|picks: Seq<int>| is_emission(graph, picks);
        let last = path.len() - 1;
        lemma_places_descend(graph, picks, path, last);
        assert(0 <= path[last] < graph.len());
        assert(0 <= path[0] < graph.len());
        lemma_blocker_comes_first(graph, picks, path[last], path[0]);
    }
}

/// Two nodes of a graph with unique ids that each wait for the other leave
/// the graph without an order.
pub proof fn lemma_mutual_dependency_has_no_order(graph: Seq<Node>, a: int, b: int)
    requires
        ids_unique(graph),
        0 <= a < graph.len(),
        0 <= b < graph.len(),
        waits_for(graph, a, b),
        waits_for(graph, b, a),
    ensures
        !has_valid_order(graph),
{
    let path = seq![a, b];
    assert(path[0] == a && path[1] == b);
    assert(is_cycle(graph, path));
    lemma_cycle_has_no_order(graph, path);
}

/// The graph of three items of which the second waits for the first and the
/// third for both.
pub open spec fn chain_of_three(a: Seq<char>, b: Seq<char>, c: Seq<char>) -> Seq<Node> {
    seq![
        Node { id: a, blockers: Set::empty() },
        Node { id: b, blockers: Set::empty().insert(a) },
        Node { id: c, blockers: Set::empty().insert(a).insert(b) },
    ]
}

/// A chain of three has one order and no other: no two of its items are
/// ever ready together, so chance has nothing to decide.
pub proof fn lemma_chain_of_three_has_one_order(
    a: Seq<char>,
    b: Seq<char>,
    c: Seq<char>,
    order: Seq<Seq<char>>,
)
    requires
        a != b,
        a != c,
        b != c,
    ensures
        is_valid_order(chain_of_three(a, b, c), order) <==> order == seq![a, b, c],
{
    let g = chain_of_three(a, b, c);
    if is_valid_order(g, order) {
        let picks = choose|picks: Seq<int>| is_emission(g, picks) && order == ids_of(g, picks);
        assert(0 <= picks[0] < 3 && 0 <= picks[1] < 3 && 0 <= picks[2] < 3);
        assert(g[picks[0]].blockers.subset_of(emitted_before(g, picks, 0)));
        assert(g[picks[1]].blockers.subset_of(emitted_before(g, picks, 1)));
        assert(g[1].blockers.contains(a));
        assert(g[2].blockers.contains(a));
        assert(g[2].blockers.contains(b));
        assert(picks[0] == 0) by {
            if picks[0] != 0 {
                assert(emitted_before(g, picks, 0).contains(a));
            }
        }
        assert(picks[1] == 1) by {
            if picks[1] != 1 {
                assert(picks[1] != picks[0]);
                assert(emitted_before(g, picks, 1).contains(b));
            }
        }
        assert(picks[2] != picks[0] && picks[2] != picks[1]);
        assert(order =~= seq![a, b, c]);
    }
    if order == seq![a, b, c] {
        let picks = seq![0int, 1int, 2int];
        assert(emitted_before(g, picks, 1).contains(a)) by {
            assert(g[picks[0]].id == a);
        }
        assert(emitted_before(g, picks, 2).contains(a)) by {
            assert(g[picks[0]].id == a);
        }
        assert(emitted_before(g, picks, 2).contains(b)) by {
            assert(g[picks[1]].id == b);
        }
        assert(is_emission(g, picks)) by {
            assert(picks[0] == 0 && picks[1] == 1 && picks[2] == 2);
            assert forall|i: int| 0 <= i < g.len() implies picks.contains(i) by {
                assert(picks[i] == i);
            }
        }
        assert(ids_of(g, picks) =~= seq![a, b, c]);
    }
}

} // verus!
