// This file is part of Lectev.
//
//  Lectev is free software: you can redistribute it and/or modify
//  it under the terms of the GNU General Public License as published by
//  the Free Software Foundation, either version 3 of the License, or
//  (at your option) any later version.
//
//  Lectev is distributed in the hope that it will be useful,
//  but WITHOUT ANY WARRANTY; without even the implied warranty of
//  MERCHANTABILITY or FITNESS FOR A PARTICULAR PURPOSE.  See the
//  GNU General Public License for more details.
//
//  You should have received a copy of the GNU General Public License
//  along with Lectev.  If not, see <https://www.gnu.org/licenses/>.

//! # Randomized Topological Sort
//!
//! This module provides a randomized topological sort based on
//! [Kahn's algorithm](https://en.wikipedia.org/wiki/Topological_sorting#Kahn.27s_algorithm).
//! The goal is to provide a randomized sorting where the dependencies are still respected.
use crate::simulation::external::{
    forest_leaves, work_leaves, Work, WorkGroup, WorkGroupId, WorkItem, WorkItemId,
    WorkItemOrGroupId,
};
use crate::simulation::graph::{
    blockers_exist, completed, freed_ids, has_cycle, has_valid_order, ids_of, ids_unique,
    is_emission, is_free, is_valid_order, lemma_blocked_or_freed, still_blocked, unblocked,
    without, Node,
};
use crate::simulation::index;
use crate::simulation::index::group_items;
use crate::simulation::kahn::{
    consistent, done_ids, initial, is_rearrangement_of_places, lemma_acyclic_graph_has_order,
    lemma_complete, lemma_initial, lemma_pick, lemma_rearrange, lemma_settle, lemma_stuck,
    picked, rearranged, settled, waiting, Account,
};
use rand::rngs::ThreadRng;
use rand::seq::SliceRandom;
#[allow(deprecated)]
use retain_mut::RetainMut;
use vstd::prelude::*;

verus! {

/// Enumerates the errors provided by this module
#[derive(Debug, Clone, Copy, PartialEq, Eq, Structural)]
pub enum Error {
    /// Returned if there is a cycle in the dependencies.
    CycleDetected,
    /// Returned if we unexpectedly run out of sorted heads on the sorted stack. There shouldn't be
    /// any way for this to happen in the normal course of events.
    EmptyStack,
}

/// The texts of a sequence of ids, in order.
pub open spec fn ids_view(ids: Seq<&WorkItemId>) -> Seq<Seq<char>> {
    ids.map_values(|id: &WorkItemId| id@)
}

/// The texts of a collection of ids, as a set.
pub open spec fn id_set(ids: Seq<&WorkItemId>) -> Set<Seq<char>> {
    Set::new(|text: Seq<char>| exists|i: int| 0 <= i < ids.len() && (#[trigger] ids[i])@ == text)
}

/// No text occurs twice among `ids`.
pub open spec fn distinct(ids: Seq<&WorkItemId>) -> bool {
    forall|i: int, j: int|
        0 <= i < j < ids.len() ==> (#[trigger] ids[i])@ != (#[trigger] ids[j])@
}

/// The ids that one dependency reference stands for: the item itself, or
/// the leaf items that `groups` lists for the group. A group that `groups`
/// does not know, or that has no leaves, stands for nothing.
pub open spec fn resolve_one(
    groups: Seq<(WorkGroupId, Seq<WorkItem>)>,
    reference: WorkItemOrGroupId,
) -> Seq<Seq<char>> {
    match reference {
        WorkItemOrGroupId::WorkItem(id) => seq![id@],
        WorkItemOrGroupId::WorkGroup(id) => group_items(groups, id@).map_values(
            |item: WorkItem| item.id@,
        ),
    }
}

/// The ids that any of `references` stands for.
pub open spec fn resolve_all(
    groups: Seq<(WorkGroupId, Seq<WorkItem>)>,
    references: Seq<WorkItemOrGroupId>,
) -> Set<Seq<char>> {
    Set::new(
        |text: Seq<char>|
            exists|i: int|
                0 <= i < references.len() && resolve_one(groups, #[trigger] references[i]).contains(
                    text,
                ),
    )
}

/// The leaf items at or beneath `work`, each with all it waits for: what it
/// declares itself, what each group around it declares, and `inherited`.
pub open spec fn flatten_work(
    groups: Seq<(WorkGroupId, Seq<WorkItem>)>,
    work: Work,
    inherited: Set<Seq<char>>,
) -> Seq<Node>
    decreases work,
{
    match work {
        Work::WorkItem(item) => seq![
            Node { id: item.id@, blockers: inherited + resolve_all(groups, item.dependencies@) },
        ],
        Work::WorkGroup(group) => flatten_forest(
            groups,
            group.children@,
            inherited + resolve_all(groups, group.dependencies@),
        ),
    }
}

/// The flattened leaves of a sequence of nodes, one node after the other.
pub open spec fn flatten_forest(
    groups: Seq<(WorkGroupId, Seq<WorkItem>)>,
    forest: Seq<Work>,
    inherited: Set<Seq<char>>,
) -> Seq<Node>
    decreases forest,
{
    if forest.len() == 0 {
        Seq::empty()
    } else {
        flatten_forest(groups, forest.drop_last(), inherited) + flatten_work(
            groups,
            forest.last(),
            inherited,
        )
    }
}

/// Everything that is handed down to `work` reaches every leaf item at or
/// beneath it, and the flattened leaves are the leaf items of `work`, one
/// node each, in order.
pub proof fn lemma_flatten_work(
    groups: Seq<(WorkGroupId, Seq<WorkItem>)>,
    work: Work,
    inherited: Set<Seq<char>>,
)
    ensures
        flatten_work(groups, work, inherited).len() == work_leaves(work).len(),
        forall|k: int|
            0 <= k < work_leaves(work).len() ==> (#[trigger] flatten_work(
                groups,
                work,
                inherited,
            )[k]).id == work_leaves(work)[k].id@,
        forall|k: int|
            0 <= k < work_leaves(work).len() ==> inherited.subset_of(
                (#[trigger] flatten_work(groups, work, inherited)[k]).blockers,
            ),
    decreases work,
{
    match work {
        Work::WorkItem(item) => {},
        Work::WorkGroup(group) => {
            let handed_down = inherited + resolve_all(groups, group.dependencies@);
            lemma_flatten_forest(groups, group.children@, handed_down);
        },
    }
}

/// The same for a sequence of nodes.
pub proof fn lemma_flatten_forest(
    groups: Seq<(WorkGroupId, Seq<WorkItem>)>,
    forest: Seq<Work>,
    inherited: Set<Seq<char>>,
)
    ensures
        flatten_forest(groups, forest, inherited).len() == forest_leaves(forest).len(),
        forall|k: int|
            0 <= k < forest_leaves(forest).len() ==> (#[trigger] flatten_forest(
                groups,
                forest,
                inherited,
            )[k]).id == forest_leaves(forest)[k].id@,
        forall|k: int|
            0 <= k < forest_leaves(forest).len() ==> inherited.subset_of(
                (#[trigger] flatten_forest(groups, forest, inherited)[k]).blockers,
            ),
    decreases forest,
{
    if forest.len() > 0 {
        lemma_flatten_forest(groups, forest.drop_last(), inherited);
        lemma_flatten_work(groups, forest.last(), inherited);
    }
}

/// No two leaf items of the forest have the same id.
pub open spec fn item_ids_unique(forest: Seq<Work>) -> bool {
    forall|i: int, j: int|
        0 <= i < j < forest_leaves(forest).len() ==> (#[trigger] forest_leaves(forest)[i]).id@
            != (#[trigger] forest_leaves(forest)[j]).id@
}

/// A forest whose leaf items have unique ids flattens to a graph with unique
/// ids.
pub proof fn lemma_unique_items_give_unique_nodes(
    groups: Seq<(WorkGroupId, Seq<WorkItem>)>,
    forest: Seq<Work>,
    inherited: Set<Seq<char>>,
)
    requires
        item_ids_unique(forest),
    ensures
        ids_unique(flatten_forest(groups, forest, inherited)),
{
    lemma_flatten_forest(groups, forest, inherited);
    let graph = flatten_forest(groups, forest, inherited);
    assert forall|i: int, j: int| 0 <= i < j < graph.len() implies (#[trigger] graph[i]).id
        != (#[trigger] graph[j]).id by {
        assert(graph[i].id == forest_leaves(forest)[i].id@);
        assert(graph[j].id == forest_leaves(forest)[j].id@);
    }
}

/// Group inheritance: whatever a group depends on, every leaf item nested
/// anywhere beneath the group waits for it, however deep it is nested and
/// whatever it declares itself. The same holds for what was handed down to
/// the group from the groups around it.
pub proof fn lemma_group_dependencies_are_inherited(
    groups: Seq<(WorkGroupId, Seq<WorkItem>)>,
    group: WorkGroup,
    inherited: Set<Seq<char>>,
    k: int,
)
    requires
        0 <= k < forest_leaves(group.children@).len(),
    ensures
        flatten_work(groups, Work::WorkGroup(group), inherited)[k].id == forest_leaves(
            group.children@,
        )[k].id@,
        resolve_all(groups, group.dependencies@).subset_of(
            flatten_work(groups, Work::WorkGroup(group), inherited)[k].blockers,
        ),
        inherited.subset_of(flatten_work(groups, Work::WorkGroup(group), inherited)[k].blockers),
{
    let handed_down = inherited + resolve_all(groups, group.dependencies@);
    lemma_flatten_forest(groups, group.children@, handed_down);
    let node = flatten_forest(groups, group.children@, handed_down)[k];
    assert(handed_down.subset_of(node.blockers));
}

/// Empty-group reference: a reference to a group that the index does not
/// know, or for which it lists no leaf item, stands for nothing, and adds
/// nothing to what a list of references stands for.
pub proof fn lemma_group_without_leaves_adds_nothing(
    groups: Seq<(WorkGroupId, Seq<WorkItem>)>,
    references: Seq<WorkItemOrGroupId>,
    group: WorkGroupId,
)
    requires
        group_items(groups, group@).len() == 0,
    ensures
        resolve_one(groups, WorkItemOrGroupId::WorkGroup(group)) == Seq::<Seq<char>>::empty(),
        resolve_all(groups, references.push(WorkItemOrGroupId::WorkGroup(group))) == resolve_all(
            groups,
            references,
        ),
{
    let reference = WorkItemOrGroupId::WorkGroup(group);
    let longer = references.push(reference);
    assert(resolve_one(groups, reference) =~= Seq::<Seq<char>>::empty());
    assert forall|text: Seq<char>| resolve_all(groups, longer).contains(
        text,
    ) implies resolve_all(groups, references).contains(text) by {
        let i = choose|i: int|
            0 <= i < longer.len() && resolve_one(groups, #[trigger] longer[i]).contains(text);
        if i < references.len() {
            assert(resolve_one(groups, references[i]).contains(text));
        }
    }
    assert forall|text: Seq<char>| resolve_all(groups, references).contains(
        text,
    ) implies resolve_all(groups, longer).contains(text) by {
        let i = choose|i: int|
            0 <= i < references.len() && resolve_one(groups, #[trigger] references[i]).contains(
                text,
            );
        assert(resolve_one(groups, longer[i]).contains(text));
    }
    assert(resolve_all(groups, longer) =~= resolve_all(groups, references));
}

/// The dependency graph of an indexed model: one node for each leaf item of
/// the forest, in the order of a depth-first walk.
pub open spec fn flat_graph(indices: index::Indices) -> Seq<Node> {
    flatten_forest(indices.groups(), indices.simulation.work@, Set::empty())
}

/// This holds a flattened work item. The dependencies are the dependencies of
/// the work item itself and its parents, each id once.
#[derive(Debug)]
pub struct WorkItemFlatDeps<'a> {
    work_item_id: &'a WorkItemId,
    dependencies: Vec<&'a WorkItemId>,
}

impl<'a> View for WorkItemFlatDeps<'a> {
    type V = Node;

    closed spec fn view(&self) -> Node {
        Node { id: self.work_item_id@, blockers: id_set(self.dependencies@) }
    }
}

impl<'a> WorkItemFlatDeps<'a> {
    #[verifier::type_invariant]
    spec fn each_once(&self) -> bool {
        distinct(self.dependencies@)
    }

    /// The item that this record is about.
    pub fn work_item_id(&self) -> (id: &'a WorkItemId)
        ensures
            id@ == self@.id,
    {
        self.work_item_id
    }

    /// What the item waits for, each id once, in no particular order.
    pub fn dependencies(&self) -> (ids: &Vec<&'a WorkItemId>)
        ensures
            id_set(ids@) == self@.blockers,
            distinct(ids@),
    {
        proof {
            use_type_invariant(self);
        }
        &self.dependencies
    }
}

/// The nodes that a sequence of flattened items stands for.
pub open spec fn flat_view(items: Seq<WorkItemFlatDeps>) -> Seq<Node> {
    items.map_values(|item: WorkItemFlatDeps| item@)
}

/// Whether `id` is among `ids`.
fn contains_id(ids: &Vec<&WorkItemId>, id: &WorkItemId) -> (found: bool)
    ensures
        found == id_set(ids@).contains(id@),
{
    let mut i: usize = 0;
    while i < ids.len()
        invariant
            i <= ids.len(),
            forall|k: int| 0 <= k < i ==> (#[trigger] ids@[k])@ != id@,
        decreases ids.len() - i,
    {
        if *ids[i] == *id {
            return true;
        }
        i += 1;
    }
    false
}

/// Adds `id` to `ids` unless an id with the same text is there already.
fn insert_id<'a>(ids: &mut Vec<&'a WorkItemId>, id: &'a WorkItemId)
    ensures
        id_set(final(ids)@) == id_set(old(ids)@).insert(id@),
        distinct(old(ids)@) ==> distinct(final(ids)@),
{
    if !contains_id(ids, id) {
        ids.push(id);
        assert forall|text: Seq<char>| id_set(old(ids)@).insert(id@).contains(text) implies id_set(
            ids@,
        ).contains(text) by {
            if text == id@ {
                assert(ids@[ids@.len() - 1]@ == text);
            } else {
                let k = choose|k: int| 0 <= k < old(ids)@.len() && (#[trigger] old(ids)@[k])@ == text;
                assert(ids@[k]@ == text);
            }
        }
        assert forall|text: Seq<char>| id_set(ids@).contains(text) implies id_set(
            old(ids)@,
        ).insert(id@).contains(text) by {
            let k = choose|k: int| 0 <= k < ids@.len() && (#[trigger] ids@[k])@ == text;
            if k < old(ids)@.len() {
                assert(old(ids)@[k]@ == text);
            }
        }
        assert(distinct(old(ids)@) ==> distinct(ids@)) by {
            if distinct(old(ids)@) {
                assert forall|i: int, j: int| 0 <= i < j < ids@.len() implies (#[trigger] ids@[i])@
                    != (#[trigger] ids@[j])@ by {
                    if j < old(ids)@.len() {
                        assert(old(ids)@[i]@ != old(ids)@[j]@);
                    } else {
                        assert(old(ids)@[i]@ != id@);
                    }
                }
            }
        }
    }
    assert(id_set(ids@) =~= id_set(old(ids)@).insert(id@));
}

/// Adds every one of `more` to `ids`, each text at most once.
fn insert_ids<'a>(ids: &mut Vec<&'a WorkItemId>, more: &Vec<&'a WorkItemId>)
    ensures
        id_set(final(ids)@) == id_set(old(ids)@) + id_set(more@),
        distinct(old(ids)@) ==> distinct(final(ids)@),
{
    let mut k: usize = 0;
    while k < more.len()
        invariant
            k <= more.len(),
            id_set(ids@) == id_set(old(ids)@) + id_set(more@.take(k as int)),
            distinct(old(ids)@) ==> distinct(ids@),
        decreases more.len() - k,
    {
        insert_id(ids, more[k]);
        proof {
            lemma_id_set_take(more@, k as int);
        }
        k += 1;
    }
    assert(more@.take(k as int) =~= more@);
}

proof fn lemma_id_set_take(ids: Seq<&WorkItemId>, k: int)
    requires
        0 <= k < ids.len(),
    ensures
        id_set(ids.take(k + 1)) == id_set(ids.take(k)).insert(ids[k]@),
        id_set(ids.take(0)) == Set::<Seq<char>>::empty(),
{
    let a = ids.take(k);
    let b = ids.take(k + 1);
    assert forall|text: Seq<char>| id_set(a).insert(ids[k]@).contains(text) implies id_set(
        b,
    ).contains(text) by {
        if text == ids[k]@ {
            assert(b[k]@ == text);
        } else {
            let i = choose|i: int| 0 <= i < a.len() && (#[trigger] a[i])@ == text;
            assert(b[i]@ == text);
        }
    }
    assert forall|text: Seq<char>| id_set(b).contains(text) implies id_set(a).insert(
        ids[k]@,
    ).contains(text) by {
        let i = choose|i: int| 0 <= i < b.len() && (#[trigger] b[i])@ == text;
        if i < k {
            assert(a[i]@ == text);
        }
    }
    assert(id_set(b) =~= id_set(a).insert(ids[k]@));
    assert(id_set(ids.take(0)) =~= Set::<Seq<char>>::empty());
}

/// Given an id that may be a [`WorkGroupId`] or a [`WorkItemId`] return all the [`WorkItemId`]s
/// associated with them. For a [`WorkGroupId`] that vector will include all of the [`WorkItemId`]s
/// associated with both children and descendants, and will be empty where the group is unknown
/// or has no leaf items.
pub fn resolve_dependency_ids<'a>(indexes: &index::Indices<'a>, id: &'a WorkItemOrGroupId) -> (ids:
    Vec<&'a WorkItemId>)
    ensures
        ids_view(ids@) == resolve_one(indexes.groups(), *id),
{
    let mut ids: Vec<&'a WorkItemId> = Vec::new();
    match id {
        WorkItemOrGroupId::WorkGroup(group_id) => {
            match indexes.items_for_group(group_id) {
                Some(data) => {
                    let mut k: usize = 0;
                    while k < data.len()
                        invariant
                            k <= data.len(),
                            ids@.len() == k,
                            forall|j: int| 0 <= j < k ==> (#[trigger] ids@[j])@ == data@[j].id@,
                        decreases data.len() - k,
                    {
                        ids.push(&data[k].id);
                        k += 1;
                    }
                    assert(ids_view(ids@) =~= index::items_of(data@).map_values(
                        |item: WorkItem| item.id@,
                    ));
                },
                None => {
                    assert(ids_view(ids@) =~= resolve_one(indexes.groups(), *id));
                },
            }
        },
        WorkItemOrGroupId::WorkItem(item_id) => {
            ids.push(item_id);
            assert(ids_view(ids@) =~= seq![item_id@]);
        },
    }
    ids
}

/// Given a list of [`WorkItemOrGroupId`], resolve all the related [`WorkItemId`]s, each once.
pub fn resolve_all_dependencies<'a>(
    indexes: &index::Indices<'a>,
    ids: &'a Vec<WorkItemOrGroupId>,
) -> (resolved: Vec<&'a WorkItemId>)
    ensures
        id_set(resolved@) == resolve_all(indexes.groups(), ids@),
        distinct(resolved@),
{
    let mut resolved: Vec<&'a WorkItemId> = Vec::new();
    let mut i: usize = 0;
    assert(id_set(resolved@) =~= resolve_all(indexes.groups(), ids@.take(0)));
    while i < ids.len()
        invariant
            i <= ids.len(),
            id_set(resolved@) == resolve_all(indexes.groups(), ids@.take(i as int)),
            distinct(resolved@),
        decreases ids.len() - i,
    {
        let found = resolve_dependency_ids(indexes, &ids[i]);
        insert_ids(&mut resolved, &found);
        proof {
            lemma_resolve_all_step(indexes.groups(), ids@, i as int, found@);
        }
        i += 1;
    }
    assert(ids@.take(i as int) =~= ids@);
    resolved
}

proof fn lemma_resolve_all_step(
    groups: Seq<(WorkGroupId, Seq<WorkItem>)>,
    references: Seq<WorkItemOrGroupId>,
    i: int,
    found: Seq<&WorkItemId>,
)
    requires
        0 <= i < references.len(),
        ids_view(found) == resolve_one(groups, references[i]),
    ensures
        resolve_all(groups, references.take(i + 1)) == resolve_all(groups, references.take(i))
            + id_set(found),
{
    let a = references.take(i);
    let b = references.take(i + 1);
    let one = resolve_one(groups, references[i]);
    assert forall|text: Seq<char>| id_set(found).contains(text) <==> one.contains(text) by {
        if id_set(found).contains(text) {
            let k = choose|k: int| 0 <= k < found.len() && (#[trigger] found[k])@ == text;
            assert(ids_view(found)[k] == text);
        }
        if one.contains(text) {
            let k = choose|k: int| 0 <= k < one.len() && one[k] == text;
            assert(ids_view(found)[k] == text);
            assert(found[k]@ == text);
        }
    }
    assert forall|text: Seq<char>| resolve_all(groups, b).contains(text) implies (resolve_all(
        groups,
        a,
    ) + id_set(found)).contains(text) by {
        let k = choose|k: int|
            0 <= k < b.len() && resolve_one(groups, #[trigger] b[k]).contains(text);
        if k < i {
            assert(resolve_one(groups, a[k]).contains(text));
        }
    }
    assert forall|text: Seq<char>| (resolve_all(groups, a) + id_set(found)).contains(
        text,
    ) implies resolve_all(groups, b).contains(text) by {
        if resolve_all(groups, a).contains(text) {
            let k = choose|k: int|
                0 <= k < a.len() && resolve_one(groups, #[trigger] a[k]).contains(text);
            assert(resolve_one(groups, b[k]).contains(text));
        } else {
            assert(resolve_one(groups, b[i]).contains(text));
        }
    }
    assert(resolve_all(groups, b) =~= resolve_all(groups, a) + id_set(found));
}

/// Walking one node further adds that node's flattened leaves at the end.
proof fn lemma_flatten_forest_step(
    groups: Seq<(WorkGroupId, Seq<WorkItem>)>,
    forest: Seq<Work>,
    inherited: Set<Seq<char>>,
    i: int,
)
    requires
        0 <= i < forest.len(),
    ensures
        flatten_forest(groups, forest.take(i + 1), inherited) == flatten_forest(
            groups,
            forest.take(i),
            inherited,
        ) + flatten_work(groups, forest[i], inherited),
{
    assert(forest.take(i + 1).drop_last() =~= forest.take(i));
}

proof fn lemma_flat_view_concat(a: Seq<WorkItemFlatDeps>, b: Seq<WorkItemFlatDeps>)
    ensures
        flat_view(a + b) == flat_view(a) + flat_view(b),
{
    assert(flat_view(a + b) =~= flat_view(a) + flat_view(b));
}

/// The flattened record of one leaf item beneath groups that together
/// hand down `inherited`.
fn flatten_item<'a>(
    indexes: &index::Indices<'a>,
    item: &'a WorkItem,
    inherited: &Vec<&'a WorkItemId>,
) -> (flat: WorkItemFlatDeps<'a>)
    ensures
        seq![flat@] == flatten_work(indexes.groups(), Work::WorkItem(*item), id_set(inherited@)),
{
    let mut deps = resolve_all_dependencies(indexes, &item.dependencies);
    let ghost own = id_set(deps@);
    insert_ids(&mut deps, inherited);
    assert(id_set(deps@) =~= id_set(inherited@) + own);
    WorkItemFlatDeps { work_item_id: &item.id, dependencies: deps }
}

/// This function flattens the dependency tree, pushing dependencies at the node level to
/// dependencies at the leaves: every leaf beneath `work_group` gets what the group depends on
/// and what was handed down to the group in `deps`, besides what it depends on itself.
/// This is a recursive function, but the depth of the tree should never reach a point where the
/// stack size becomes a problem.
fn flatten_group<'a>(
    indexes: &index::Indices<'a>,
    work_group: &'a WorkGroup,
    deps: &Vec<&'a WorkItemId>,
) -> (result: Vec<WorkItemFlatDeps<'a>>)
    ensures
        flat_view(result@) == flatten_work(
            indexes.groups(),
            Work::WorkGroup(*work_group),
            id_set(deps@),
        ),
    decreases work_group,
{
    let mut group_deps = resolve_all_dependencies(indexes, &work_group.dependencies);
    let ghost own = id_set(group_deps@);
    insert_ids(&mut group_deps, deps);
    let ghost handed_down = id_set(deps@) + resolve_all(
        indexes.groups(),
        work_group.dependencies@,
    );
    assert(id_set(group_deps@) =~= handed_down);

    let mut result: Vec<WorkItemFlatDeps<'a>> = Vec::new();
    let mut i: usize = 0;
    while i < work_group.children.len()
        invariant
            i <= work_group.children.len(),
            id_set(group_deps@) == handed_down,
            flat_view(result@) == flatten_forest(
                indexes.groups(),
                work_group.children@.take(i as int),
                handed_down,
            ),
        decreases work_group.children.len() - i,
    {
        proof {
            lemma_flatten_forest_step(
                indexes.groups(),
                work_group.children@,
                handed_down,
                i as int,
            );
        }
        match &work_group.children[i] {
            Work::WorkGroup(group) => {
                let mut inner = flatten_group(indexes, group, &group_deps);
                proof {
                    lemma_flat_view_concat(result@, inner@);
                }
                result.append(&mut inner);
            },
            Work::WorkItem(item) => {
                let flat = flatten_item(indexes, item, &group_deps);
                proof {
                    lemma_flat_view_concat(result@, seq![flat]);
                    assert(flat_view(seq![flat]) =~= seq![flat@]);
                    assert(result@.push(flat) =~= result@ + seq![flat]);
                }
                result.push(flat);
            },
        }
        i += 1;
    }
    assert(work_group.children@.take(i as int) =~= work_group.children@);
    result
}

/// This function converts the data pointed to by an index to a vector of [`WorkItemFlatDeps`].
/// Essentially, it flattens out the groups and ends up with just workable work: one record for
/// each leaf item of the forest, in the order of a depth-first walk.
pub fn index_to_flat_deps<'a>(indices: &index::Indices<'a>) -> (result: Vec<WorkItemFlatDeps<'a>>)
    ensures
        flat_view(result@) == flat_graph(*indices),
{
    let nothing: Vec<&'a WorkItemId> = Vec::new();
    assert(id_set(nothing@) =~= Set::<Seq<char>>::empty());
    let mut result: Vec<WorkItemFlatDeps<'a>> = Vec::new();
    let mut i: usize = 0;
    while i < indices.simulation.work.len()
        invariant
            i <= indices.simulation.work.len(),
            id_set(nothing@) == Set::<Seq<char>>::empty(),
            flat_view(result@) == flatten_forest(
                indices.groups(),
                indices.simulation.work@.take(i as int),
                Set::empty(),
            ),
        decreases indices.simulation.work.len() - i,
    {
        proof {
            lemma_flatten_forest_step(
                indices.groups(),
                indices.simulation.work@,
                Set::empty(),
                i as int,
            );
        }
        match &indices.simulation.work[i] {
            Work::WorkGroup(group) => {
                let mut inner = flatten_group(indices, group, &nothing);
                proof {
                    lemma_flat_view_concat(result@, inner@);
                }
                result.append(&mut inner);
            },
            Work::WorkItem(item) => {
                let flat = flatten_item(indices, item, &nothing);
                proof {
                    lemma_flat_view_concat(result@, seq![flat]);
                    assert(flat_view(seq![flat]) =~= seq![flat@]);
                    assert(result@.push(flat) =~= result@ + seq![flat]);
                }
                result.push(flat);
            },
        }
        i += 1;
    }
    assert(indices.simulation.work@.take(i as int) =~= indices.simulation.work@);
    result
}

/// This holds the inverse of [`WorkItemFlatDeps`]: a work item with the links that come in
/// from the items it waits for. Humans tend to think in terms of outgoing dependencies, so the
/// external simulation takes them in that way. The sorting algorithm needs, for every item,
/// the links that still hold it back.
#[derive(Debug)]
pub struct WorkItemIncomingLinks<'a> {
    work_item_id: &'a WorkItemId,
    incoming_links: Vec<&'a WorkItemId>,
}

impl<'a> View for WorkItemIncomingLinks<'a> {
    type V = Node;

    closed spec fn view(&self) -> Node {
        Node { id: self.work_item_id@, blockers: id_set(self.incoming_links@) }
    }
}

/// The nodes that a sequence of items with their incoming links stands for.
pub open spec fn links_view(items: Seq<WorkItemIncomingLinks>) -> Seq<Node> {
    items.map_values(|item: WorkItemIncomingLinks| item@)
}

/// Represents a prepared list of work items that can be sorted. The caller can reuse this set of
/// work items to sort as many times as they wish, handing a clone to each sort.
#[derive(Debug)]
pub struct Prepared<'a> {
    elements: Vec<WorkItemIncomingLinks<'a>>,
}

impl<'a> View for Prepared<'a> {
    type V = Seq<Node>;

    closed spec fn view(&self) -> Seq<Node> {
        links_view(self.elements@)
    }
}

/// A second list of the same references.
fn copy_ids<'a>(ids: &Vec<&'a WorkItemId>) -> (copy: Vec<&'a WorkItemId>)
    ensures
        copy@ == ids@,
{
    let mut copy: Vec<&'a WorkItemId> = Vec::new();
    let mut k: usize = 0;
    while k < ids.len()
        invariant
            k <= ids.len(),
            copy@ == ids@.take(k as int),
        decreases ids.len() - k,
    {
        copy.push(ids[k]);
        assert(ids@.take(k as int + 1) =~= ids@.take(k as int).push(ids@[k as int]));
        k += 1;
    }
    assert(ids@.take(k as int) =~= ids@);
    copy
}

impl<'a> Clone for Prepared<'a> {
    /// An independent copy of the same graph.
    fn clone(&self) -> (copy: Self)
        ensures
            copy@ == self@,
    {
        let mut elements: Vec<WorkItemIncomingLinks<'a>> = Vec::new();
        let mut i: usize = 0;
        while i < self.elements.len()
            invariant
                i <= self.elements.len(),
                elements@.len() == i,
                forall|j: int| 0 <= j < i ==> (#[trigger] elements@[j])@ == self.elements@[j]@,
            decreases self.elements.len() - i,
        {
            let link = &self.elements[i];
            elements.push(
                WorkItemIncomingLinks {
                    work_item_id: link.work_item_id,
                    incoming_links: copy_ids(&link.incoming_links),
                },
            );
            i += 1;
        }
        assert(links_view(elements@) =~= links_view(self.elements@));
        Prepared { elements }
    }
}

impl<'a> Prepared<'a> {
    /// How many work items the graph holds.
    pub fn len(&self) -> (n: usize)
        ensures
            n == self@.len(),
    {
        self.elements.len()
    }
}

/// This function turns an array of [`WorkItemFlatDeps`] into an array of
/// [`WorkItemIncomingLinks`], item for item: what an item depends on is what links into it.
/// This sets up for the sorting process that needs incoming links rather than out going deps.
fn outgoing_deps_to_incoming_deps<'a>(outgoing: &Vec<WorkItemFlatDeps<'a>>) -> (result: Vec<
    WorkItemIncomingLinks<'a>,
>)
    ensures
        links_view(result@) == flat_view(outgoing@),
{
    let mut result: Vec<WorkItemIncomingLinks<'a>> = Vec::new();
    let mut i: usize = 0;
    while i < outgoing.len()
        invariant
            i <= outgoing.len(),
            result@.len() == i,
            forall|j: int| 0 <= j < i ==> (#[trigger] result@[j])@ == outgoing@[j]@,
        decreases outgoing.len() - i,
    {
        let item = &outgoing[i];
        result.push(
            WorkItemIncomingLinks {
                work_item_id: item.work_item_id,
                incoming_links: copy_ids(&item.dependencies),
            },
        );
        i += 1;
    }
    assert(links_view(result@) =~= flat_view(outgoing@));
    result
}

/// Prepares the indices for sorting. The caller can call prepare once and then resort the prepared
/// instances as often as they like. The prepared graph holds one node for each leaf item of the
/// forest, with everything that the item and the groups around it depend on.
pub fn prepare<'a>(indices: &index::Indices<'a>) -> (prepared: Prepared<'a>)
    ensures
        prepared@ == flat_graph(*indices),
{
    let flattened_deps = index_to_flat_deps(indices);
    Prepared { elements: outgoing_deps_to_incoming_deps(&flattened_deps) }
}

/// [`rand::rngs::ThreadRng`], the handle to a thread's random number
/// generator. It is carried from where it is made to where it is used, and
/// nothing is known of what is in it.
#[verifier::external_type_specification]
#[verifier::external_body]
pub struct ExThreadRng(rand::rngs::ThreadRng);

/// [`rand::thread_rng`] hands out the calling thread's random number
/// generator, seeded by the system. Nothing is claimed of the generator. The
/// call takes no argument; it panics where the system cannot seed it.
pub assume_specification[ rand::thread_rng ]() -> (rng: ThreadRng);

/// `after` holds what `before` held, place `i` of `after` being place
/// `perm[i]` of `before`, and `perm` names every place once.
pub open spec fn is_rearranged<T>(before: Seq<T>, after: Seq<T>, perm: Seq<int>) -> bool {
    &&& is_rearrangement_of_places(perm, before.len())
    &&& after.len() == before.len()
    &&& forall|i: int| 0 <= i < after.len() ==> #[trigger] after[i] == before[perm[i]]
}

/// [`SliceRandom::shuffle`] of the `rand` crate, on the whole vector. It
/// shuffles by swapping elements in place, so all that is claimed is that
/// the vector afterwards holds the same elements in some arrangement; which
/// one is up to the generator. That every arrangement is as likely as any
/// other is the crate's promise and is not stated here.
#[verifier::external_body]
fn shuffle<T>(items: &mut Vec<T>, rng: &mut ThreadRng)
    ensures
        exists|perm: Seq<int>| is_rearranged(old(items)@, final(items)@, perm),
{
    items.shuffle(rng);
}

/// Takes the link from `head` out of `link`. Where that leaves the item
/// waiting for nothing, its id goes to the end of `no_deps` and the answer
/// is `false`: the item need not be kept among the blocked ones.
fn settle<'a>(
    link: &mut WorkItemIncomingLinks<'a>,
    head: &WorkItemId,
    no_deps: &mut Vec<&'a WorkItemId>,
) -> (keep: bool)
    ensures
        final(link)@ == without(old(link)@, head@),
        keep == !is_free(final(link)@),
        keep ==> final(no_deps)@ == old(no_deps)@,
        !keep ==> final(no_deps)@ == old(no_deps)@.push(old(link).work_item_id),
{
    let mut kept: Vec<&'a WorkItemId> = Vec::new();
    let mut k: usize = 0;
    assert(id_set(kept@) =~= id_set(link.incoming_links@.take(0)).remove(head@));
    while k < link.incoming_links.len()
        invariant
            k <= link.incoming_links.len(),
            *link == *old(link),
            id_set(kept@) == id_set(link.incoming_links@.take(k as int)).remove(head@),
        decreases link.incoming_links.len() - k,
    {
        let id = link.incoming_links[k];
        let ghost before = kept@;
        proof {
            lemma_id_set_take(link.incoming_links@, k as int);
        }
        if !(*id == *head) {
            kept.push(id);
            assert(kept@ =~= before.push(id));
            assert(kept@.take(before.len() as int) =~= before);
            proof {
                lemma_id_set_take(kept@, before.len() as int);
            }
            assert(kept@.take(kept@.len() as int) =~= kept@);
            assert(id_set(kept@) =~= id_set(link.incoming_links@.take(k as int + 1)).remove(
                head@,
            ));
        } else {
            assert(id_set(kept@) =~= id_set(link.incoming_links@.take(k as int + 1)).remove(
                head@,
            ));
        }
        k += 1;
    }
    assert(link.incoming_links@.take(k as int) =~= link.incoming_links@);
    link.incoming_links = kept;
    if link.incoming_links.is_empty() {
        assert(id_set(link.incoming_links@) =~= Set::<Seq<char>>::empty());
        no_deps.push(link.work_item_id);
        false
    } else {
        assert(id_set(link.incoming_links@).contains(link.incoming_links@[0]@));
        true
    }
}

/// [`RetainMut::retain_mut`] of the `retain_mut` crate, with [`settle`] as
/// the predicate. The crate visits each element once, in order, hands it to
/// the predicate by mutable reference, and keeps, in order, the elements for
/// which the predicate answers `true`. With what `settle` is proved to do,
/// this leaves in `elements` the items that still wait for something once the
/// links from `head` are gone, and adds to `no_deps`, in order, the ids of
/// those that wait for nothing any more.
#[allow(deprecated)]
#[verifier::external_body]
fn release_dependents<'a>(
    elements: &mut Vec<WorkItemIncomingLinks<'a>>,
    head: &WorkItemId,
    no_deps: &mut Vec<&'a WorkItemId>,
)
    ensures
        links_view(final(elements)@) == still_blocked(
            unblocked(links_view(old(elements)@), head@),
        ),
        ids_view(final(no_deps)@) == ids_view(old(no_deps)@) + freed_ids(
            unblocked(links_view(old(elements)@), head@),
        ),
{
    RetainMut::retain_mut(elements, |link| settle(link, head, no_deps));
}

/// This function kicks of the topo sort algorithm by finding the elements with no incoming links:
/// their ids go to the end of `no_deps`, in order, and only the others stay in `items`.
fn find_and_load_no_incoming<'a>(
    items: &mut Vec<WorkItemIncomingLinks<'a>>,
    no_deps: &mut Vec<&'a WorkItemId>,
)
    ensures
        links_view(final(items)@) == still_blocked(links_view(old(items)@)),
        ids_view(final(no_deps)@) == ids_view(old(no_deps)@) + freed_ids(links_view(old(items)@)),
{
    let mut all: Vec<WorkItemIncomingLinks<'a>> = Vec::new();
    core::mem::swap(items, &mut all);
    let ghost source = links_view(all@);
    assert(links_view(items@) =~= still_blocked(source.take(0)));
    assert(ids_view(no_deps@) =~= ids_view(old(no_deps)@) + freed_ids(source.take(0)));
    for link in it: all
        invariant
            links_view(it.seq()) == source,
            links_view(items@) == still_blocked(source.take(it.index() as int)),
            ids_view(no_deps@) == ids_view(old(no_deps)@) + freed_ids(
                source.take(it.index() as int),
            ),
    {
        let ghost i = it.index() as int;
        assert(source.take(i + 1).drop_last() =~= source.take(i));
        assert(source.take(i + 1).last() == link@);
        let ghost kept_before = items@;
        let ghost free_before = no_deps@;
        if link.incoming_links.is_empty() {
            assert(id_set(link.incoming_links@) =~= Set::<Seq<char>>::empty());
            no_deps.push(link.work_item_id);
            assert(ids_view(no_deps@) =~= ids_view(free_before).push(link@.id));
        } else {
            assert(id_set(link.incoming_links@).contains(link.incoming_links@[0]@));
            items.push(link);
            assert(links_view(items@) =~= links_view(kept_before).push(link@));
        }
    }
    assert(source.take(source.len() as int) =~= source);
}

/// What a sort of `graph` may hand back: an order that honours every
/// dependency, or else the cycle signal, and that only where the graph has
/// no such order.
pub open spec fn sort_outcome(graph: Seq<Node>, result: Result<Seq<Seq<char>>, Error>) -> bool {
    match result {
        Ok(order) => is_valid_order(graph, order),
        Err(error) => error == Error::CycleDetected && !has_valid_order(graph),
    }
}

/// Idempotent preparation: two sorts of one graph, such as sorts of two
/// clones of one [`Prepared`], agree on whether the graph can be ordered,
/// and each order they give is an order of that graph. The two orders need
/// not be equal.
pub proof fn lemma_sorts_of_one_graph_agree(
    graph: Seq<Node>,
    first: Result<Seq<Seq<char>>, Error>,
    second: Result<Seq<Seq<char>>, Error>,
)
    requires
        sort_outcome(graph, first),
        sort_outcome(graph, second),
    ensures
        first is Ok <==> second is Ok,
        first is Ok <==> has_valid_order(graph),
        first matches Ok(order) ==> is_valid_order(graph, order),
        second matches Ok(order) ==> is_valid_order(graph, order),
        first is Err ==> first == second,
{
    if let Ok(order) = first {
        let picks = choose|picks: Seq<int>|
            is_emission(graph, picks) && order == ids_of(graph, picks);
        assert(is_emission(graph, picks));
    }
    if let Ok(order) = second {
        let picks = choose|picks: Seq<int>|
            is_emission(graph, picks) && order == ids_of(graph, picks);
        assert(is_emission(graph, picks));
    }
}

/// A sort fails only for a reason: some items wait for each other in a
/// cycle, or some item waits for an id that no item has.
pub proof fn lemma_failed_sort_has_a_reason(
    graph: Seq<Node>,
    result: Result<Seq<Seq<char>>, Error>,
)
    requires
        sort_outcome(graph, result),
        result is Err,
    ensures
        has_cycle(graph) || !blockers_exist(graph),
{
    if !has_cycle(graph) && blockers_exist(graph) {
        lemma_acyclic_graph_has_order(graph);
    }
}

/// The texts of a sort's result.
pub open spec fn result_view(result: Result<Vec<&WorkItemId>, Error>) -> Result<
    Seq<Seq<char>>,
    Error,
> {
    match result {
        Ok(order) => Ok(ids_view(order@)),
        Err(error) => Err(error),
    }
}

/// What a sort that has ended hands back: the order where nothing is left
/// blocked, the cycle signal otherwise.
pub open spec fn outcome_of(end: (Seq<Seq<char>>, Seq<Node>)) -> Result<Seq<Seq<char>>, Error> {
    if end.1.len() == 0 {
        Ok(end.0)
    } else {
        Err(Error::CycleDetected)
    }
}

/// A sort under way: the items emitted so far, the items that are ready, and
/// the items that are still blocked, each with the links that hold it back.
///
/// An item is ready once all it waits for has been emitted. Emitting any of
/// the ready items is a step of the sort; which one is for the caller to say,
/// or for chance.
pub struct Sorting<'a> {
    elements: Vec<WorkItemIncomingLinks<'a>>,
    no_deps: Vec<&'a WorkItemId>,
    sorted_elements: Vec<&'a WorkItemId>,
    graph: Ghost<Seq<Node>>,
    account: Ghost<Account>,
}

impl<'a> Sorting<'a> {
    #[verifier::type_invariant]
    spec fn sound(&self) -> bool {
        &&& consistent(self.graph@, self.account@)
        &&& ids_view(self.sorted_elements@) == ids_of(self.graph@, self.account@.picks)
        &&& ids_view(self.no_deps@) == ids_of(self.graph@, self.account@.ready)
        &&& links_view(self.elements@) == waiting(
            self.graph@,
            self.account@.blocked,
            done_ids(self.graph@, self.account@.picks),
        )
    }

    /// The graph that is being sorted.
    pub closed spec fn graph(&self) -> Seq<Node> {
        self.graph@
    }

    /// The ids emitted so far, in order.
    pub closed spec fn emitted(&self) -> Seq<Seq<char>> {
        ids_view(self.sorted_elements@)
    }

    /// The ids of the items that are ready.
    pub closed spec fn ready(&self) -> Seq<Seq<char>> {
        ids_view(self.no_deps@)
    }

    /// The items that are still blocked, each with what it still waits for.
    pub closed spec fn blocked(&self) -> Seq<Node> {
        links_view(self.elements@)
    }

    /// Starts a sort: nothing has been emitted, and the items that wait for
    /// nothing are ready.
    pub fn start(prepared: Prepared<'a>) -> (sorting: Self)
        ensures
            sorting.graph() == prepared@,
            sorting.emitted() == Seq::<Seq<char>>::empty(),
            sorting.ready() == freed_ids(prepared@),
            sorting.blocked() == still_blocked(prepared@),
    {
        let ghost graph = prepared@;
        let mut elements = prepared.elements;
        let sorted_elements: Vec<&'a WorkItemId> = Vec::with_capacity(elements.len());
        let mut no_deps: Vec<&'a WorkItemId> = Vec::new();
        proof {
            lemma_initial(graph);
            lemma_settle(graph, initial(graph));
            assert(ids_view(no_deps@) =~= Seq::<Seq<char>>::empty());
            assert(ids_view(sorted_elements@) =~= Seq::<Seq<char>>::empty());
        }
        find_and_load_no_incoming(&mut elements, &mut no_deps);
        assert(ids_view(no_deps@) =~= freed_ids(graph));
        Sorting {
            elements,
            no_deps,
            sorted_elements,
            graph: Ghost(graph),
            account: Ghost(settled(graph, initial(graph))),
        }
    }

    /// The items that are ready, in the order in which [`Sorting::emit`]
    /// counts them.
    pub fn ready_items(&self) -> (items: &Vec<&'a WorkItemId>)
        ensures
            ids_view(items@) == self.ready(),
    {
        &self.no_deps
    }

    /// Emits the ready item at place `k`: it goes to the end of what has been
    /// emitted, the links from it are taken out of the blocked items, and
    /// those that wait for nothing any more become ready, after the items
    /// that were ready already.
    pub fn emit(self, k: usize) -> (next: Self)
        requires
            k < self.ready().len(),
        ensures
            next.graph() == self.graph(),
            next.emitted() == self.emitted().push(self.ready()[k as int]),
            next.ready() == self.ready().remove(k as int) + freed_ids(
                unblocked(self.blocked(), self.ready()[k as int]),
            ),
            next.blocked() == still_blocked(unblocked(self.blocked(), self.ready()[k as int])),
            next.ready().len() + next.blocked().len() + 1 == self.ready().len()
                + self.blocked().len(),
    {
        proof {
            use_type_invariant(&self);
        }
        let ghost graph = self.graph@;
        let ghost account = self.account@;
        let ghost was_ready = ids_view(self.no_deps@);
        let ghost was_blocked = links_view(self.elements@);
        let mut elements = self.elements;
        let mut no_deps = self.no_deps;
        let mut sorted_elements = self.sorted_elements;

        assert(was_ready.len() == account.ready.len());
        let head = no_deps.remove(k);
        sorted_elements.push(head);
        proof {
            assert(head@ == was_ready[k as int]);
            assert(head@ == graph[account.ready[k as int]].id);
            lemma_pick(graph, account, k as int);
            lemma_settle(graph, picked(account, k as int));
            lemma_blocked_or_freed(unblocked(was_blocked, head@));
            assert(ids_view(no_deps@) =~= was_ready.remove(k as int));
            assert(ids_view(sorted_elements@) =~= ids_of(graph, account.picks).push(head@));
        }
        release_dependents(&mut elements, head, &mut no_deps);
        Sorting {
            elements,
            no_deps,
            sorted_elements,
            graph: Ghost(graph),
            account: Ghost(settled(graph, picked(account, k as int))),
        }
    }

    /// Puts the ready items into an arrangement that chance decides: the
    /// same items are ready afterwards, each as often as before, and nothing
    /// else changes. Which arrangement it is, chance decides; it may be the
    /// one that was there.
    fn shuffle(self, rng: &mut ThreadRng) -> (next: Self)
        ensures
            next.graph() == self.graph(),
            next.emitted() == self.emitted(),
            next.blocked() == self.blocked(),
            exists|perm: Seq<int>| is_rearranged(self.ready(), next.ready(), perm),
    {
        proof {
            use_type_invariant(&self);
        }
        let ghost graph = self.graph@;
        let ghost account = self.account@;
        let ghost before = self.no_deps@;
        let ghost was_ready = self.ready();
        let elements = self.elements;
        let mut no_deps = self.no_deps;
        let sorted_elements = self.sorted_elements;
        shuffle(&mut no_deps, rng);
        let ghost perm = choose|perm: Seq<int>| is_rearranged(before, no_deps@, perm);
        let ghost now_ready = ids_view(no_deps@);
        proof {
            assert(ids_view(before).len() == account.ready.len());
            lemma_rearrange(graph, account, perm);
            assert forall|i: int| 0 <= i < now_ready.len() implies #[trigger] now_ready[i]
                == was_ready[perm[i]] by {
                assert(no_deps@[i] == before[perm[i]]);
            }
            assert(now_ready =~= ids_of(graph, rearranged(account, perm).ready));
            assert(is_rearranged(was_ready, now_ready, perm));
        }
        let next = Sorting {
            elements,
            no_deps,
            sorted_elements,
            graph: Ghost(graph),
            account: Ghost(rearranged(account, perm)),
        };
        assert(next.ready() == now_ready);
        assert(is_rearranged(self.ready(), next.ready(), perm));
        next
    }

    /// Ends the sort: as long as an item is ready, the last of the ready items
    /// is emitted. Where that leaves nothing blocked, the result is the order
    /// in which the items were emitted, which honours every dependency of the
    /// graph; where items are left blocked, the graph has no such order, and
    /// the result is [`Error::CycleDetected`].
    pub fn finish(self) -> (result: Result<Vec<&'a WorkItemId>, Error>)
        ensures
            result_view(result) == outcome_of(
                completed(self.emitted(), self.ready(), self.blocked()),
            ),
            sort_outcome(self.graph(), result_view(result)),
    {
        let ghost end = completed(self.emitted(), self.ready(), self.blocked());
        let ghost graph = self.graph();
        let mut sorting = self;
        while !sorting.ready_items().is_empty()
            invariant
                sorting.graph() == graph,
                completed(sorting.emitted(), sorting.ready(), sorting.blocked()) == end,
            decreases sorting.ready().len() + sorting.blocked().len(),
        {
            let last = sorting.ready_items().len() - 1;
            assert(sorting.ready().remove(last as int) =~= sorting.ready().drop_last());
            sorting = sorting.emit(last);
        }
        proof {
            use_type_invariant(&sorting);
            assert(ids_view(sorting.no_deps@).len() == sorting.account@.ready.len());
            assert(links_view(sorting.elements@).len() == sorting.account@.blocked.len());
        }
        if sorting.elements.is_empty() {
            proof {
                lemma_complete(sorting.graph@, sorting.account@);
            }
            Ok(sorting.sorted_elements)
        } else {
            proof {
                lemma_stuck(sorting.graph@, sorting.account@);
            }
            Err(Error::CycleDetected)
        }
    }
}

/// Topo sort the elements with incoming links such that things are correctly sorted but with an
/// element of randomness: whenever several items are ready, chance decides which comes next.
///
/// Whatever chance decides, the result lists every item of the graph once, each after all the
/// items it waits for. Where no such order exists, because items wait for each other in a
/// cycle or for an id that no item has, the result is [`Error::CycleDetected`].
pub fn sort<'a>(prepared: Prepared<'a>) -> (result: Result<Vec<&'a WorkItemId>, Error>)
    ensures
        sort_outcome(prepared@, result_view(result)),
{
    let mut rng = rand::thread_rng();
    let ghost graph = prepared@;
    let mut sorting = Sorting::start(prepared);

    while !sorting.ready_items().is_empty()
        invariant
            sorting.graph() == graph,
        decreases sorting.ready().len() + sorting.blocked().len(),
    {
        sorting = sorting.shuffle(&mut rng);
        let last = sorting.ready_items().len() - 1;
        sorting = sorting.emit(last);
    }

    sorting.finish()
}

} // verus!
