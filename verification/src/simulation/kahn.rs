// This file is part of Lectev.
//
//  Lectev is free software: you can redistribute it and/or modify
//  it under the terms of the GNU General Public License as published by
//  the Free Software Foundation, either version 3 of the License, or
//  (at your option) any later version.
//
//  Lectev is distributed in the hope that it will be useful,
//  but WITHOUT ANY WARRANTY; without even the implied warranty of
//  MERCHANTABILITY or FITNESS FOR A PARTICULAR PURPOSE.  See the
//  GNU General Public License for more details.
//
//  You should have received a copy of the GNU General Public License
//  along with Lectev.  If not, see <https://www.gnu.org/licenses/>.

//! # The bookkeeping behind the sort
//!
//! The sorter keeps three collections: what it has emitted, what is ready,
//! and what is still blocked. This module says, position by position, which
//! nodes of the graph those collections stand for, and proves that each step
//! of the sort keeps that account consistent.
use crate::simulation::graph::{
    blockers_exist, emitted_before, freed_ids, has_cycle, has_valid_order, ids_of, in_range,
    is_cycle, is_emission, is_free, is_partial_emission, respects_blockers, still_blocked,
    unblocked, waits_for, Node,
};
use vstd::prelude::*;
use vstd::set_lib::{lemma_int_range, lemma_len_subset, set_int_range};

verus! {

/// Which nodes of the graph have been emitted, are ready, or are blocked,
/// each collection in the sorter's own order.
pub struct Account {
    pub picks: Seq<int>,
    pub ready: Seq<int>,
    pub blocked: Seq<int>,
}

/// The ids that `picks` has emitted.
pub open spec fn done_ids(graph: Seq<Node>, picks: Seq<int>) -> Set<Seq<char>> {
    emitted_before(graph, picks, picks.len() as int)
}

/// The nodes at the positions `blocked`, each waiting only for what `done`
/// does not hold yet.
pub open spec fn waiting(graph: Seq<Node>, blocked: Seq<int>, done: Set<Seq<char>>) -> Seq<Node> {
    blocked.map_values(
        |i: int| Node { id: graph[i].id, blockers: graph[i].blockers.difference(done) },
    )
}

/// The account is sound but for one thing: a node filed as blocked may have
/// become free.
pub open spec fn loosely_consistent(graph: Seq<Node>, p: Account) -> bool {
    &&& is_partial_emission(graph, p.picks)
    &&& in_range(p.ready, graph.len())
    &&& in_range(p.blocked, graph.len())
    &&& p.ready.no_duplicates()
    &&& p.blocked.no_duplicates()
    &&& forall|x: int| !(#[trigger] p.picks.contains(x) && p.ready.contains(x))
    &&& forall|x: int| !(#[trigger] p.picks.contains(x) && p.blocked.contains(x))
    &&& forall|x: int| !(#[trigger] p.ready.contains(x) && p.blocked.contains(x))
    &&& forall|i: int|
        0 <= i < graph.len() ==> #[trigger] p.picks.contains(i) || p.ready.contains(i)
            || p.blocked.contains(i)
    &&& p.picks.len() + p.ready.len() + p.blocked.len() == graph.len()
    &&& forall|k: int|
        #![trigger p.ready[k]]
        0 <= k < p.ready.len() ==> graph[p.ready[k]].blockers.subset_of(done_ids(graph, p.picks))
}

/// The account is sound: every node is filed once, what is ready waits for
/// nothing, and what is blocked waits for something.
pub open spec fn consistent(graph: Seq<Node>, p: Account) -> bool {
    &&& loosely_consistent(graph, p)
    &&& forall|k: int|
        #![trigger p.blocked[k]]
        0 <= k < p.blocked.len() ==> !graph[p.blocked[k]].blockers.subset_of(
            done_ids(graph, p.picks),
        )
}

/// The positions in `nodes` of the nodes that wait for nothing, ascending.
pub open spec fn free_positions(nodes: Seq<Node>) -> Seq<int>
    decreases nodes.len(),
{
    if nodes.len() == 0 {
        Seq::empty()
    } else if is_free(nodes.last()) {
        free_positions(nodes.drop_last()).push(nodes.len() - 1)
    } else {
        free_positions(nodes.drop_last())
    }
}

/// The positions in `nodes` of the nodes that wait for something, ascending.
pub open spec fn blocked_positions(nodes: Seq<Node>) -> Seq<int>
    decreases nodes.len(),
{
    if nodes.len() == 0 {
        Seq::empty()
    } else if is_free(nodes.last()) {
        blocked_positions(nodes.drop_last())
    } else {
        blocked_positions(nodes.drop_last()).push(nodes.len() - 1)
    }
}

/// `positions` are positions of a sequence of length `n`, strictly ascending.
pub open spec fn ascending_below(positions: Seq<int>, n: int) -> bool {
    &&& forall|k: int| 0 <= k < positions.len() ==> 0 <= #[trigger] positions[k] < n
    &&& forall|j: int, k: int|
        0 <= j < k < positions.len() ==> #[trigger] positions[j] < #[trigger] positions[k]
}

/// The two position lists split the positions of `nodes` between them, and
/// name exactly the nodes that `still_blocked` and `freed_ids` keep.
pub proof fn lemma_positions(nodes: Seq<Node>)
    ensures
        ascending_below(free_positions(nodes), nodes.len() as int),
        ascending_below(blocked_positions(nodes), nodes.len() as int),
        free_positions(nodes).len() + blocked_positions(nodes).len() == nodes.len(),
        forall|k: int|
            0 <= k < free_positions(nodes).len() ==> is_free(
                nodes[#[trigger] free_positions(nodes)[k]],
            ),
        forall|k: int|
            0 <= k < blocked_positions(nodes).len() ==> !is_free(
                nodes[#[trigger] blocked_positions(nodes)[k]],
            ),
        forall|i: int|
            0 <= i < nodes.len() ==> #[trigger] free_positions(nodes).contains(i)
                || blocked_positions(nodes).contains(i),
        still_blocked(nodes) == blocked_positions(nodes).map_values(|k: int| nodes[k]),
        freed_ids(nodes) == free_positions(nodes).map_values(|k: int| nodes[k].id),
    decreases nodes.len(),
{
    if nodes.len() > 0 {
        let front = nodes.drop_last();
        let last = nodes.len() - 1;
        lemma_positions(front);
        let free = free_positions(nodes);
        let blocked = blocked_positions(nodes);
        assert forall|i: int| 0 <= i < nodes.len() implies #[trigger] free.contains(i)
            || blocked.contains(i) by {
            if i < last {
                if free_positions(front).contains(i) {
                    let k = choose|k: int|
                        0 <= k < free_positions(front).len() && free_positions(front)[k] == i;
                    assert(free[k] == i);
                } else {
                    assert(blocked_positions(front).contains(i));
                    let k = choose|k: int|
                        0 <= k < blocked_positions(front).len() && blocked_positions(front)[k]
                            == i;
                    assert(blocked[k] == i);
                }
            } else if is_free(nodes.last()) {
                assert(free[free.len() - 1] == i);
            } else {
                assert(blocked[blocked.len() - 1] == i);
            }
        }
        assert(still_blocked(nodes) =~= blocked.map_values(|k: int| nodes[k]));
        assert(freed_ids(nodes) =~= free.map_values(|k: int| nodes[k].id));
    }
}

/// Before the sort has looked at anything: every node is filed as blocked.
pub open spec fn initial(graph: Seq<Node>) -> Account {
    Account {
        picks: Seq::empty(),
        ready: Seq::empty(),
        blocked: Seq::new(graph.len(), |i: int| i),
    }
}

/// The account after the nodes that have become free moved from blocked to
/// the end of ready, in their order.
pub open spec fn settled(graph: Seq<Node>, p: Account) -> Account {
    let nodes = waiting(graph, p.blocked, done_ids(graph, p.picks));
    Account {
        picks: p.picks,
        ready: p.ready + free_positions(nodes).map_values(|k: int| p.blocked[k]),
        blocked: blocked_positions(nodes).map_values(|k: int| p.blocked[k]),
    }
}

/// The account after the last of the ready nodes was emitted.
pub open spec fn emitted(p: Account) -> Account {
    Account { picks: p.picks.push(p.ready.last()), ready: p.ready.drop_last(), blocked: p.blocked }
}

/// The account after the ready nodes were rearranged: place `i` now holds
/// what place `perm[i]` held.
pub open spec fn rearranged(p: Account, perm: Seq<int>) -> Account {
    Account {
        picks: p.picks,
        ready: Seq::new(p.ready.len(), |i: int| p.ready[perm[i]]),
        blocked: p.blocked,
    }
}

/// `perm` names each of the places `0 .. n` exactly once.
pub open spec fn is_rearrangement_of_places(perm: Seq<int>, n: nat) -> bool {
    &&& perm.len() == n
    &&& forall|i: int| 0 <= i < n ==> 0 <= #[trigger] perm[i] < n
    &&& forall|i: int, j: int| 0 <= i < j < n ==> #[trigger] perm[i] != #[trigger] perm[j]
    &&& forall|v: int| 0 <= v < n ==> #[trigger] perm.contains(v)
}

/// At the start the account is loosely consistent, and the blocked nodes
/// are the graph itself.
pub proof fn lemma_initial(graph: Seq<Node>)
    ensures
        loosely_consistent(graph, initial(graph)),
        waiting(graph, initial(graph).blocked, done_ids(graph, initial(graph).picks)) == graph,
        ids_of(graph, initial(graph).picks) == Seq::<Seq<char>>::empty(),
        ids_of(graph, initial(graph).ready) == Seq::<Seq<char>>::empty(),
{
    let p = initial(graph);
    let done = done_ids(graph, p.picks);
    assert(done =~= Set::<Seq<char>>::empty());
    assert forall|i: int| 0 <= i < graph.len() implies #[trigger] p.picks.contains(i)
        || p.ready.contains(i) || p.blocked.contains(i) by {
        assert(p.blocked[i] == i);
    }
    assert forall|k: int| 0 <= k < graph.len() implies #[trigger] waiting(graph, p.blocked, done)[k]
        == graph[k] by {
        assert(graph[k].blockers.difference(done) =~= graph[k].blockers);
    }
    assert(waiting(graph, p.blocked, done) =~= graph);
    assert(ids_of(graph, p.picks) =~= Seq::<Seq<char>>::empty());
    assert(ids_of(graph, p.ready) =~= Seq::<Seq<char>>::empty());
}

/// Moving the freed nodes to ready makes a loosely consistent account
/// consistent, and is what `still_blocked` and `freed_ids` compute.
pub proof fn lemma_settle(graph: Seq<Node>, p: Account)
    requires
        loosely_consistent(graph, p),
    ensures
        consistent(graph, settled(graph, p)),
        waiting(graph, settled(graph, p).blocked, done_ids(graph, p.picks)) == still_blocked(
            waiting(graph, p.blocked, done_ids(graph, p.picks)),
        ),
        ids_of(graph, settled(graph, p).ready) == ids_of(graph, p.ready) + freed_ids(
            waiting(graph, p.blocked, done_ids(graph, p.picks)),
        ),
        settled(graph, p).ready.len() + settled(graph, p).blocked.len() == p.ready.len()
            + p.blocked.len(),
{
    let done = done_ids(graph, p.picks);
    let nodes = waiting(graph, p.blocked, done);
    let fp = free_positions(nodes);
    let bp = blocked_positions(nodes);
    let freed = fp.map_values(|k: int| p.blocked[k]);
    let kept = bp.map_values(|k: int| p.blocked[k]);
    let q = settled(graph, p);
    lemma_positions(nodes);
    assert(q.ready == p.ready + freed);
    assert(q.blocked == kept);

    // Where the members of the new collections come from.
    assert forall|x: int| #[trigger] freed.contains(x) implies p.blocked.contains(x) by {
        let k = choose|k: int| 0 <= k < freed.len() && freed[k] == x;
        assert(p.blocked[fp[k]] == x);
    }
    assert forall|x: int| #[trigger] kept.contains(x) implies p.blocked.contains(x) by {
        let k = choose|k: int| 0 <= k < kept.len() && kept[k] == x;
        assert(p.blocked[bp[k]] == x);
    }
    assert forall|x: int| #[trigger] q.ready.contains(x) implies p.ready.contains(x)
        || freed.contains(x) by {
        let k = choose|k: int| 0 <= k < q.ready.len() && q.ready[k] == x;
        if k < p.ready.len() {
            assert(p.ready[k] == x);
        } else {
            assert(freed[k - p.ready.len()] == x);
        }
    }

    assert(in_range(q.ready, graph.len())) by {
        assert forall|k: int| 0 <= k < q.ready.len() implies 0 <= #[trigger] q.ready[k]
            < graph.len() by {
            if k >= p.ready.len() {
                assert(q.ready[k] == p.blocked[fp[k - p.ready.len()]]);
            }
        }
    }
    assert(in_range(q.blocked, graph.len())) by {
        assert forall|k: int| 0 <= k < kept.len() implies 0 <= #[trigger] kept[k]
            < graph.len() by {
            assert(kept[k] == p.blocked[bp[k]]);
        }
    }
    assert(kept.no_duplicates()) by {
        assert forall|a: int, b: int| 0 <= a < kept.len() && 0 <= b < kept.len() && a != b implies kept[a]
            != kept[b] by {
            assert(kept[a] == p.blocked[bp[a]] && kept[b] == p.blocked[bp[b]]);
            assert(bp[a] != bp[b]);
        }
    }
    assert(freed.no_duplicates()) by {
        assert forall|a: int, b: int|
            0 <= a < freed.len() && 0 <= b < freed.len() && a != b implies freed[a]
            != freed[b] by {
            assert(freed[a] == p.blocked[fp[a]] && freed[b] == p.blocked[fp[b]]);
            assert(fp[a] != fp[b]);
        }
    }
    assert(q.ready.no_duplicates()) by {
        assert forall|a: int, b: int|
            0 <= a < q.ready.len() && 0 <= b < q.ready.len() && a != b implies q.ready[a]
            != q.ready[b] by {
            let n = p.ready.len() as int;
            if a >= n && b >= n {
                assert(freed[a - n] != freed[b - n]);
            } else if a >= n {
                assert(freed.contains(freed[a - n]));
                assert(p.ready.contains(p.ready[b]));
            } else if b >= n {
                assert(freed.contains(freed[b - n]));
                assert(p.ready.contains(p.ready[a]));
            }
        }
    }
    assert forall|x: int| !(#[trigger] q.ready.contains(x) && q.blocked.contains(x)) by {
        if q.ready.contains(x) && kept.contains(x) {
            assert(p.blocked.contains(x));
            assert(!p.ready.contains(x));
            let a = choose|a: int| 0 <= a < freed.len() && freed[a] == x;
            let b = choose|b: int| 0 <= b < kept.len() && kept[b] == x;
            assert(p.blocked[fp[a]] == p.blocked[bp[b]]);
            assert(fp[a] == bp[b]);
        }
    }
    assert forall|i: int| 0 <= i < graph.len() implies #[trigger] q.picks.contains(i)
        || q.ready.contains(i) || q.blocked.contains(i) by {
        if p.ready.contains(i) {
            let k = choose|k: int| 0 <= k < p.ready.len() && p.ready[k] == i;
            assert(q.ready[k] == i);
        } else if p.blocked.contains(i) {
            let j = choose|j: int| 0 <= j < p.blocked.len() && p.blocked[j] == i;
            if fp.contains(j) {
                let a = choose|a: int| 0 <= a < fp.len() && fp[a] == j;
                assert(q.ready[p.ready.len() + a] == i);
            } else {
                assert(bp.contains(j));
                let b = choose|b: int| 0 <= b < bp.len() && bp[b] == j;
                assert(kept[b] == i);
            }
        } else {
            assert(p.picks.contains(i));
        }
    }
    assert forall|k: int| 0 <= k < q.ready.len() implies graph[#[trigger] q.ready[k]].blockers.subset_of(
        done,
    ) by {
        let n = p.ready.len() as int;
        if k >= n {
            let j = fp[k - n];
            assert(q.ready[k] == p.blocked[j]);
            assert(is_free(nodes[j]));
            assert(nodes[j].blockers == graph[p.blocked[j]].blockers.difference(done));
            assert forall|b: Seq<char>| graph[p.blocked[j]].blockers.contains(b) implies done.contains(
                b,
            ) by {
                if !done.contains(b) {
                    assert(nodes[j].blockers.contains(b));
                }
            }
        } else {
            assert(q.ready[k] == p.ready[k]);
        }
    }
    assert forall|k: int| 0 <= k < q.blocked.len() implies !graph[#[trigger] q.blocked[k]].blockers.subset_of(
        done,
    ) by {
        let j = bp[k];
        assert(q.blocked[k] == p.blocked[j]);
        assert(!is_free(nodes[j]));
        assert(nodes[j].blockers == graph[p.blocked[j]].blockers.difference(done));
        if graph[p.blocked[j]].blockers.subset_of(done) {
            assert(nodes[j].blockers =~= Set::<Seq<char>>::empty());
        }
    }
    assert(waiting(graph, kept, done) =~= still_blocked(nodes));
    assert(ids_of(graph, q.ready) =~= ids_of(graph, p.ready) + freed_ids(nodes));
}

/// The rearrangement of `n` places that moves place `k` to the end and
/// keeps the others in their order.
pub open spec fn last_is(n: nat, k: int) -> Seq<int> {
    Seq::new(
        n,
        |i: int|
            if i < k {
                i
            } else if i < n - 1 {
                i + 1
            } else {
                k
            },
    )
}

/// The account after the ready node at place `k` was emitted.
pub open spec fn picked(p: Account, k: int) -> Account {
    emitted(rearranged(p, last_is(p.ready.len(), k)))
}

/// Emitting the ready node at place `k` leaves the account loosely
/// consistent; the other ready nodes keep their order, and the blocked nodes
/// no longer wait for the emitted id.
pub proof fn lemma_pick(graph: Seq<Node>, p: Account, k: int)
    requires
        consistent(graph, p),
        0 <= k < p.ready.len(),
    ensures
        loosely_consistent(graph, picked(p, k)),
        picked(p, k).blocked == p.blocked,
        picked(p, k).picks == p.picks.push(p.ready[k]),
        picked(p, k).ready == p.ready.remove(k),
        ids_of(graph, picked(p, k).picks) == ids_of(graph, p.picks).push(graph[p.ready[k]].id),
        ids_of(graph, picked(p, k).ready) == ids_of(graph, p.ready).remove(k),
        waiting(graph, p.blocked, done_ids(graph, picked(p, k).picks)) == unblocked(
            waiting(graph, p.blocked, done_ids(graph, p.picks)),
            graph[p.ready[k]].id,
        ),
{
    let n = p.ready.len();
    let perm = last_is(n, k);
    assert(is_rearrangement_of_places(perm, n)) by {
        assert forall|v: int| 0 <= v < n implies #[trigger] perm.contains(v) by {
            if v < k {
                assert(perm[v] == v);
            } else if v == k {
                assert(perm[n - 1] == v);
            } else {
                assert(perm[v - 1] == v);
            }
        }
    }
    lemma_rearrange(graph, p, perm);
    let q = rearranged(p, perm);
    assert(q.ready.last() == p.ready[k]);
    lemma_emit(graph, q);
    assert(q.ready.drop_last() =~= p.ready.remove(k));
    assert(ids_of(graph, p.ready.remove(k)) =~= ids_of(graph, p.ready).remove(k));
}

/// Rearranging the ready nodes keeps the account consistent.
pub proof fn lemma_rearrange(graph: Seq<Node>, p: Account, perm: Seq<int>)
    requires
        consistent(graph, p),
        is_rearrangement_of_places(perm, p.ready.len()),
    ensures
        consistent(graph, rearranged(p, perm)),
        rearranged(p, perm).ready.len() == p.ready.len(),
{
    let q = rearranged(p, perm);
    assert forall|x: int| #[trigger] q.ready.contains(x) implies p.ready.contains(x) by {
        let k = choose|k: int| 0 <= k < q.ready.len() && q.ready[k] == x;
        assert(p.ready[perm[k]] == x);
    }
    assert forall|x: int| #[trigger] p.ready.contains(x) implies q.ready.contains(x) by {
        let j = choose|j: int| 0 <= j < p.ready.len() && p.ready[j] == x;
        assert(perm.contains(j));
        let k = choose|k: int| 0 <= k < perm.len() && perm[k] == j;
        assert(q.ready[k] == x);
    }
    assert forall|k: int| 0 <= k < q.ready.len() implies 0 <= #[trigger] q.ready[k]
        < graph.len() by {
        assert(q.ready[k] == p.ready[perm[k]]);
    }
    assert(q.ready.no_duplicates()) by {
        assert forall|a: int, b: int|
            0 <= a < q.ready.len() && 0 <= b < q.ready.len() && a != b implies q.ready[a]
            != q.ready[b] by {
            assert(perm[a] != perm[b]);
        }
    }
    assert forall|k: int| 0 <= k < q.ready.len() implies graph[#[trigger] q.ready[k]].blockers.subset_of(
        done_ids(graph, q.picks),
    ) by {
        assert(q.ready[k] == p.ready[perm[k]]);
    }
}

/// Emitting the last ready node leaves the account loosely consistent, and
/// the blocked nodes no longer wait for the emitted id.
pub proof fn lemma_emit(graph: Seq<Node>, p: Account)
    requires
        consistent(graph, p),
        p.ready.len() > 0,
    ensures
        loosely_consistent(graph, emitted(p)),
        ids_of(graph, emitted(p).picks) == ids_of(graph, p.picks).push(
            graph[p.ready.last()].id,
        ),
        ids_of(graph, emitted(p).ready) == ids_of(graph, p.ready).drop_last(),
        waiting(graph, p.blocked, done_ids(graph, emitted(p).picks)) == unblocked(
            waiting(graph, p.blocked, done_ids(graph, p.picks)),
            graph[p.ready.last()].id,
        ),
{
    let q = emitted(p);
    let head = p.ready.last();
    let done = done_ids(graph, p.picks);
    let done_after = done_ids(graph, q.picks);
    assert(p.ready.contains(head));
    assert(q.picks[p.picks.len() as int] == head);
    assert(done_after =~= done.insert(graph[head].id)) by {
        assert forall|id: Seq<char>| done.insert(graph[head].id).contains(id) implies done_after.contains(
            id,
        ) by {
            if done.contains(id) {
                let j = choose|j: int|
                    0 <= j < p.picks.len() && graph[#[trigger] p.picks[j]].id == id;
                assert(graph[q.picks[j]].id == id);
            } else {
                assert(graph[q.picks[p.picks.len() as int]].id == id);
            }
        }
        assert forall|id: Seq<char>| done_after.contains(id) implies done.insert(
            graph[head].id,
        ).contains(id) by {
            let j = choose|j: int| 0 <= j < q.picks.len() && graph[#[trigger] q.picks[j]].id == id;
            if j < p.picks.len() {
                assert(graph[p.picks[j]].id == id);
            }
        }
    }
    assert forall|x: int| #[trigger] q.picks.contains(x) implies p.picks.contains(x) || x
        == head by {
        let k = choose|k: int| 0 <= k < q.picks.len() && q.picks[k] == x;
        if k < p.picks.len() {
            assert(p.picks[k] == x);
        }
    }
    assert forall|x: int| #[trigger] q.ready.contains(x) implies p.ready.contains(x) && x
        != head by {
        let k = choose|k: int| 0 <= k < q.ready.len() && q.ready[k] == x;
        assert(p.ready[k] == x);
    }
    assert(in_range(q.picks, graph.len())) by {
        assert forall|k: int| 0 <= k < q.picks.len() implies 0 <= #[trigger] q.picks[k]
            < graph.len() by {
            if k < p.picks.len() {
                assert(q.picks[k] == p.picks[k]);
            }
        }
    }
    assert(q.picks.no_duplicates()) by {
        assert forall|a: int, b: int|
            0 <= a < q.picks.len() && 0 <= b < q.picks.len() && a != b implies q.picks[a]
            != q.picks[b] by {
            let n = p.picks.len() as int;
            if a < n && b < n {
                assert(p.picks[a] != p.picks[b]);
            } else if a < n {
                assert(p.picks.contains(p.picks[a]));
            } else {
                assert(p.picks.contains(p.picks[b]));
            }
        }
    }
    assert(respects_blockers(graph, q.picks)) by {
        assert forall|k: int| 0 <= k < q.picks.len() implies graph[#[trigger] q.picks[k]].blockers.subset_of(
            emitted_before(graph, q.picks, k),
        ) by {
            let n = p.picks.len() as int;
            if k < n {
                assert(q.picks[k] == p.picks[k]);
                assert forall|id: Seq<char>|
                    emitted_before(graph, p.picks, k).contains(id) implies emitted_before(
                    graph,
                    q.picks,
                    k,
                ).contains(id) by {
                    let j = choose|j: int|
                        0 <= j < k && j < p.picks.len() && graph[#[trigger] p.picks[j]].id == id;
                    assert(graph[q.picks[j]].id == id);
                }
            } else {
                assert(graph[head].blockers.subset_of(done));
                assert forall|id: Seq<char>| done.contains(id) implies emitted_before(
                    graph,
                    q.picks,
                    k,
                ).contains(id) by {
                    let j = choose|j: int|
                        0 <= j < p.picks.len() && graph[#[trigger] p.picks[j]].id == id;
                    assert(graph[q.picks[j]].id == id);
                }
            }
        }
    }
    assert forall|i: int| 0 <= i < graph.len() implies #[trigger] q.picks.contains(i)
        || q.ready.contains(i) || q.blocked.contains(i) by {
        if i == head {
            assert(q.picks[p.picks.len() as int] == i);
        } else if p.picks.contains(i) {
            let k = choose|k: int| 0 <= k < p.picks.len() && p.picks[k] == i;
            assert(q.picks[k] == i);
        } else if p.ready.contains(i) {
            let k = choose|k: int| 0 <= k < p.ready.len() && p.ready[k] == i;
            assert(q.ready[k] == i);
        }
    }
    assert forall|k: int| 0 <= k < q.ready.len() implies graph[#[trigger] q.ready[k]].blockers.subset_of(
        done_after,
    ) by {
        assert(q.ready[k] == p.ready[k]);
    }
    assert(q.ready.no_duplicates());
    assert(ids_of(graph, q.picks) =~= ids_of(graph, p.picks).push(graph[head].id));
    assert(ids_of(graph, q.ready) =~= ids_of(graph, p.ready).drop_last());
    assert forall|k: int| 0 <= k < p.blocked.len() implies #[trigger] waiting(
        graph,
        p.blocked,
        done_after,
    )[k] == unblocked(waiting(graph, p.blocked, done), graph[head].id)[k] by {
        let b = graph[p.blocked[k]].blockers;
        assert(b.difference(done_after) =~= b.difference(done).remove(graph[head].id));
    }
    assert(waiting(graph, p.blocked, done_after) =~= unblocked(
        waiting(graph, p.blocked, done),
        graph[head].id,
    ));
}

/// With nothing ready and nothing blocked, the emitted nodes are an order
/// of the whole graph.
pub proof fn lemma_complete(graph: Seq<Node>, p: Account)
    requires
        consistent(graph, p),
        p.ready.len() == 0,
        p.blocked.len() == 0,
    ensures
        is_emission(graph, p.picks),
{
    assert forall|i: int| 0 <= i < graph.len() implies p.picks.contains(i) by {
        assert(p.picks.contains(i) || p.ready.contains(i) || p.blocked.contains(i));
    }
}

/// With nothing ready while something is blocked, the graph has no order:
/// whatever an order emitted first among the blocked nodes would still be
/// waiting.
pub proof fn lemma_stuck(graph: Seq<Node>, p: Account)
    requires
        consistent(graph, p),
        p.ready.len() == 0,
        p.blocked.len() > 0,
    ensures
        !has_valid_order(graph),
{
    if has_valid_order(graph) {
        let other = choose|other: Seq<int>| is_emission(graph, other);
        lemma_order_stays_within(graph, p, other, other.len() as int);
        let b = p.blocked[0];
        assert(p.blocked.contains(b));
        assert(other.contains(b));
        let k = choose|k: int| 0 <= k < other.len() && other[k] == b;
        assert(p.picks.contains(other[k]));
    }
}

/// The first `k` nodes of any order are nodes that the sort has emitted, as
/// long as nothing is ready.
proof fn lemma_order_stays_within(graph: Seq<Node>, p: Account, other: Seq<int>, k: int)
    requires
        consistent(graph, p),
        p.ready.len() == 0,
        is_emission(graph, other),
        0 <= k <= other.len(),
    ensures
        forall|j: int| 0 <= j < k ==> p.picks.contains(#[trigger] other[j]),
    decreases k,
{
    if k > 0 {
        lemma_order_stays_within(graph, p, other, k - 1);
        let x = other[k - 1];
        let done = done_ids(graph, p.picks);
        assert(graph[x].blockers.subset_of(emitted_before(graph, other, k - 1)));
        assert forall|id: Seq<char>| graph[x].blockers.contains(id) implies done.contains(id) by {
            assert(emitted_before(graph, other, k - 1).contains(id));
            let j = choose|j: int|
                0 <= j < k - 1 && j < other.len() && graph[#[trigger] other[j]].id == id;
            assert(p.picks.contains(other[j]));
            let i = choose|i: int| 0 <= i < p.picks.len() && p.picks[i] == other[j];
            assert(graph[p.picks[i]].id == id);
        }
        assert(graph[x].blockers.subset_of(done));
        assert(p.picks.contains(x) || p.ready.contains(x) || p.blocked.contains(x));
        if p.blocked.contains(x) {
            let b = choose|b: int| 0 <= b < p.blocked.len() && p.blocked[b] == x;
            assert(!graph[p.blocked[b]].blockers.subset_of(done));
        }
        if p.ready.contains(x) {
            let r = choose|r: int| 0 <= r < p.ready.len() && p.ready[r] == x;
        }
    }
}

/// From any consistent account the sort can go on until nothing is ready.
pub proof fn lemma_runs_to_end(graph: Seq<Node>, p: Account) -> (q: Account)
    requires
        consistent(graph, p),
    ensures
        consistent(graph, q),
        q.ready.len() == 0,
    decreases p.ready.len() + p.blocked.len(),
{
    if p.ready.len() == 0 {
        p
    } else {
        lemma_emit(graph, p);
        lemma_settle(graph, emitted(p));
        lemma_runs_to_end(graph, settled(graph, emitted(p)))
    }
}

/// A blocked node that the blocked node `x` waits for.
spec fn next_blocked(graph: Seq<Node>, p: Account, x: int) -> int {
    choose|j: int| 0 <= j < graph.len() && waits_for(graph, x, j) && p.blocked.contains(j)
}

/// When nothing is ready, every blocked node waits for another blocked
/// node, as long as every blocking id belongs to some node.
proof fn lemma_next_blocked(graph: Seq<Node>, p: Account, x: int)
    requires
        consistent(graph, p),
        p.ready.len() == 0,
        blockers_exist(graph),
        p.blocked.contains(x),
    ensures
        0 <= next_blocked(graph, p, x) < graph.len(),
        waits_for(graph, x, next_blocked(graph, p, x)),
        p.blocked.contains(next_blocked(graph, p, x)),
{
    let done = done_ids(graph, p.picks);
    let k = choose|k: int| 0 <= k < p.blocked.len() && p.blocked[k] == x;
    assert(!graph[p.blocked[k]].blockers.subset_of(done));
    let id = choose|id: Seq<char>| graph[x].blockers.contains(id) && !done.contains(id);
    assert(0 <= x < graph.len());
    assert(graph[x].blockers.contains(id));
    let j = choose|j: int| 0 <= j < graph.len() && (#[trigger] graph[j]).id == id;
    assert(p.picks.contains(j) || p.ready.contains(j) || p.blocked.contains(j));
    if p.picks.contains(j) {
        let m = choose|m: int| 0 <= m < p.picks.len() && p.picks[m] == j;
        assert(graph[p.picks[m]].id == id);
        assert(done.contains(id));
    }
    if p.ready.contains(j) {
        let r = choose|r: int| 0 <= r < p.ready.len() && p.ready[r] == j;
    }
    assert(waits_for(graph, x, j) && p.blocked.contains(j));
}

/// The node reached from `start` after `k` steps, each from a blocked node
/// to a blocked node that it waits for.
spec fn walk(graph: Seq<Node>, p: Account, start: int, k: nat) -> int
    decreases k,
{
    if k == 0 {
        start
    } else {
        next_blocked(graph, p, walk(graph, p, start, (k - 1) as nat))
    }
}

proof fn lemma_walk_stays_blocked(graph: Seq<Node>, p: Account, start: int, k: nat)
    requires
        consistent(graph, p),
        p.ready.len() == 0,
        blockers_exist(graph),
        p.blocked.contains(start),
    ensures
        p.blocked.contains(walk(graph, p, start, k)),
        0 <= walk(graph, p, start, k) < graph.len(),
        waits_for(graph, walk(graph, p, start, k), walk(graph, p, start, k + 1)),
    decreases k,
{
    if k > 0 {
        lemma_walk_stays_blocked(graph, p, start, (k - 1) as nat);
        lemma_next_blocked(graph, p, walk(graph, p, start, (k - 1) as nat));
    }
    let here = walk(graph, p, start, k);
    assert(p.blocked.contains(here));
    let b = choose|b: int| 0 <= b < p.blocked.len() && p.blocked[b] == here;
    assert(0 <= p.blocked[b] < graph.len());
    lemma_next_blocked(graph, p, here);
}

/// A sequence of more than `n` numbers below `n` holds one of them twice.
proof fn lemma_pigeonhole(numbers: Seq<int>, n: nat)
    requires
        in_range(numbers, n),
        numbers.len() > n,
    ensures
        exists|a: int, b: int|
            0 <= a < b < numbers.len() && #[trigger] numbers[a] == #[trigger] numbers[b],
{
    if numbers.no_duplicates() {
        numbers.unique_seq_to_set();
        lemma_int_range(0, n as int);
        assert(numbers.to_set().subset_of(set_int_range(0, n as int))) by {
            assert forall|x: int| numbers.to_set().contains(x) implies set_int_range(
                0,
                n as int,
            ).contains(x) by {
                let k = choose|k: int| 0 <= k < numbers.len() && numbers[k] == x;
                assert(0 <= numbers[k] < n);
            }
        }
        lemma_len_subset(numbers.to_set(), set_int_range(0, n as int));
    } else {
        let (i, j) = choose|i: int, j: int|
            0 <= i < numbers.len() && 0 <= j < numbers.len() && i != j && numbers[i]
                == numbers[j];
        if i < j {
            assert(numbers[i] == numbers[j]);
        } else {
            assert(numbers[j] == numbers[i]);
        }
    }
}

/// With nothing ready while something is blocked, and every blocking id
/// belonging to some node, the blocked nodes hold a cycle.
pub proof fn lemma_stuck_has_cycle(graph: Seq<Node>, p: Account)
    requires
        consistent(graph, p),
        p.ready.len() == 0,
        p.blocked.len() > 0,
        blockers_exist(graph),
    ensures
        has_cycle(graph),
{
    let start = p.blocked[0];
    assert(p.blocked.contains(start));
    let steps = Seq::new(graph.len() + 1, |k: int| walk(graph, p, start, k as nat));
    assert forall|k: int| 0 <= k < steps.len() implies 0 <= #[trigger] steps[k] < graph.len() by {
        lemma_walk_stays_blocked(graph, p, start, k as nat);
    }
    lemma_pigeonhole(steps, graph.len());
    let (a, b) = choose|a: int, b: int|
        0 <= a < b < steps.len() && #[trigger] steps[a] == #[trigger] steps[b];
    let path = Seq::new((b - a) as nat, |k: int| steps[a + k]);
    assert forall|k: int| 0 <= k < path.len() - 1 implies waits_for(
        graph,
        #[trigger] path[k],
        path[k + 1],
    ) by {
        lemma_walk_stays_blocked(graph, p, start, (a + k) as nat);
        assert(steps[a + k + 1] == walk(graph, p, start, (a + k + 1) as nat));
    }
    assert(waits_for(graph, path.last(), path[0])) by {
        lemma_walk_stays_blocked(graph, p, start, (b - 1) as nat);
        assert(path.last() == steps[b - 1]);
        assert(steps[b] == walk(graph, p, start, b as nat));
        assert(path[0] == steps[a]);
    }
    assert(is_cycle(graph, path));
}

/// Acyclicity: a graph has an order whenever every blocking id belongs to
/// some node and no nodes wait for each other in a cycle.
pub proof fn lemma_acyclic_graph_has_order(graph: Seq<Node>)
    requires
        blockers_exist(graph),
        !has_cycle(graph),
    ensures
        has_valid_order(graph),
{
    lemma_initial(graph);
    lemma_settle(graph, initial(graph));
    let end = lemma_runs_to_end(graph, settled(graph, initial(graph)));
    if end.blocked.len() > 0 {
        lemma_stuck_has_cycle(graph, end);
    } else {
        lemma_complete(graph, end);
    }
}

} // verus!
