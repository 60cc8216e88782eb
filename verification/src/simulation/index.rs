// This file is part of Lectev.
//
//  Lectev is free software: you can redistribute it and/or modify
//  it under the terms of the GNU General Public License as published by
//  the Free Software Foundation, either version 3 of the License, or
//  (at your option) any later version.
//
//  Lectev is distributed in the hope that it will be useful,
//  but WITHOUT ANY WARRANTY; without even the implied warranty of
//  MERCHANTABILITY or FITNESS FOR A PARTICULAR PURPOSE.  See the
//  GNU General Public License for more details.
//
//  You should have received a copy of the GNU General Public License
//  along with Lectev.  If not, see <https://www.gnu.org/licenses/>.

//! This module provides a set of useful indexes on work and work groups that makes working with
//! the data much simpler.
use crate::simulation::external::{
    forest_groups, forest_leaves, lemma_forest_groups_step, lemma_forest_leaves_step,
    work_groups, work_leaves, Simulation, Work, WorkGroup, WorkGroupId, WorkItem, WorkItemId,
};
use vstd::prelude::*;

verus! {

/// Lookup tables over a work model. They borrow from the model they were
/// built from.
///
/// `work_items_for_group` holds one entry for each group, and
/// `work_items_by_id` one entry for each leaf item. Where an id occurs more
/// than once, a lookup finds the entry that comes first.
#[derive(Debug)]
pub struct Indices<'a> {
    pub simulation: &'a Simulation,
    pub work_items_for_group: Vec<(&'a WorkGroupId, Vec<&'a WorkItem>)>,
    pub work_items_by_id: Vec<(&'a WorkItemId, &'a WorkItem)>,
}

/// The items that a sequence of references points at.
pub open spec fn items_of(refs: Seq<&WorkItem>) -> Seq<WorkItem> {
    refs.map_values(|r: &WorkItem| *r)
}

/// The group table as plain values: each group's id with its leaf items.
pub open spec fn group_table(entries: Seq<(&WorkGroupId, Vec<&WorkItem>)>) -> Seq<
    (WorkGroupId, Seq<WorkItem>),
> {
    entries.map_values(|e: (&WorkGroupId, Vec<&WorkItem>)| (*e.0, items_of(e.1@)))
}

/// The item table as plain values: each key with the item filed under it.
pub open spec fn item_table(entries: Seq<(&WorkItemId, &WorkItem)>) -> Seq<
    (WorkItemId, WorkItem),
> {
    entries.map_values(|e: (&WorkItemId, &WorkItem)| (*e.0, *e.1))
}

/// Each of `items` filed under its own id.
pub open spec fn keyed_by_own_id(items: Seq<WorkItem>) -> Seq<(WorkItemId, WorkItem)> {
    items.map_values(|item: WorkItem| (item.id, item))
}

/// The leaf items that `groups` lists for the group named `id`: those of the
/// first entry with that id, and none where no entry has it.
pub open spec fn group_items(groups: Seq<(WorkGroupId, Seq<WorkItem>)>, id: Seq<char>) -> Seq<
    WorkItem,
>
    decreases groups.len(),
{
    if groups.len() == 0 {
        Seq::empty()
    } else if groups[0].0@ == id {
        groups[0].1
    } else {
        group_items(groups.drop_first(), id)
    }
}

/// Whether `groups` has an entry for the group named `id`.
pub open spec fn has_group(groups: Seq<(WorkGroupId, Seq<WorkItem>)>, id: Seq<char>) -> bool {
    exists|i: int| 0 <= i < groups.len() && (#[trigger] groups[i]).0@ == id
}

/// The item that `items` files under `id`: that of the first entry with that
/// key, if there is one.
pub open spec fn item_with_id(items: Seq<(WorkItemId, WorkItem)>, id: Seq<char>) -> Option<
    WorkItem,
>
    decreases items.len(),
{
    if items.len() == 0 {
        None
    } else if items[0].0@ == id {
        Some(items[0].1)
    } else {
        item_with_id(items.drop_first(), id)
    }
}

/// A lookup finds the group at entry `k` wherever no entry before it has the
/// same id, as in every model whose ids are unique: the leaf items that it
/// gives are those of entry `k`.
pub proof fn lemma_group_is_found(groups: Seq<(WorkGroupId, Seq<WorkItem>)>, k: int)
    requires
        0 <= k < groups.len(),
        forall|i: int| 0 <= i < k ==> (#[trigger] groups[i]).0@ != groups[k].0@,
    ensures
        has_group(groups, groups[k].0@),
        group_items(groups, groups[k].0@) == groups[k].1,
    decreases k,
{
    if k > 0 {
        let rest = groups.drop_first();
        assert(groups[0].0@ != groups[k].0@);
        assert(rest[k - 1] == groups[k]);
        assert forall|i: int| 0 <= i < k - 1 implies (#[trigger] rest[i]).0@ != rest[k - 1].0@ by {
            assert(rest[i] == groups[i + 1]);
        }
        lemma_group_is_found(rest, k - 1);
    }
}

/// A lookup finds the item at entry `k` wherever no entry before it has the
/// same key, as in every model whose ids are unique.
pub proof fn lemma_item_is_found(items: Seq<(WorkItemId, WorkItem)>, k: int)
    requires
        0 <= k < items.len(),
        forall|i: int| 0 <= i < k ==> (#[trigger] items[i]).0@ != items[k].0@,
    ensures
        item_with_id(items, items[k].0@) == Some(items[k].1),
    decreases k,
{
    if k > 0 {
        let rest = items.drop_first();
        assert(items[0].0@ != items[k].0@);
        assert(rest[k - 1] == items[k]);
        assert forall|i: int| 0 <= i < k - 1 implies (#[trigger] rest[i]).0@ != rest[k - 1].0@ by {
            assert(rest[i] == items[i + 1]);
        }
        lemma_item_is_found(rest, k - 1);
    }
}

proof fn lemma_items_of_push(refs: Seq<&WorkItem>, item: &WorkItem)
    ensures
        items_of(refs.push(item)) == items_of(refs).push(*item),
{
    assert(items_of(refs.push(item)) =~= items_of(refs).push(*item));
}

proof fn lemma_items_of_concat(a: Seq<&WorkItem>, b: Seq<&WorkItem>)
    ensures
        items_of(a + b) == items_of(a) + items_of(b),
{
    assert(items_of(a + b) =~= items_of(a) + items_of(b));
}

proof fn lemma_keyed_concat(a: Seq<WorkItem>, b: Seq<WorkItem>)
    ensures
        keyed_by_own_id(a + b) == keyed_by_own_id(a) + keyed_by_own_id(b),
{
    assert(keyed_by_own_id(a + b) =~= keyed_by_own_id(a) + keyed_by_own_id(b));
}

proof fn lemma_group_table_concat(
    a: Seq<(&WorkGroupId, Vec<&WorkItem>)>,
    b: Seq<(&WorkGroupId, Vec<&WorkItem>)>,
)
    ensures
        group_table(a + b) == group_table(a) + group_table(b),
{
    assert(group_table(a + b) =~= group_table(a) + group_table(b));
}

/// Appends to `leaves` the references that `more` holds, in order.
fn extend_refs<'a>(leaves: &mut Vec<&'a WorkItem>, more: &Vec<&'a WorkItem>)
    ensures
        final(leaves)@ == old(leaves)@ + more@,
{
    let mut k: usize = 0;
    while k < more.len()
        invariant
            k <= more.len(),
            leaves@ == old(leaves)@ + more@.take(k as int),
        decreases more.len() - k,
    {
        leaves.push(more[k]);
        assert(more@.take(k as int + 1) =~= more@.take(k as int).push(more@[k as int]));
        k += 1;
    }
    assert(more@.take(more.len() as int) =~= more@);
}

/// Lists `work_group` and every group nested in it, each with the leaf items
/// found anywhere beneath it. The entry of `work_group` itself comes first.
fn find_work_items_for_a_group<'a>(work_group: &'a WorkGroup) -> (index: Vec<
    (&'a WorkGroupId, Vec<&'a WorkItem>),
>)
    ensures
        group_table(index@) == work_groups(Work::WorkGroup(*work_group)),
    decreases work_group,
{
    let mut leaves: Vec<&'a WorkItem> = Vec::new();
    let mut nested: Vec<(&'a WorkGroupId, Vec<&'a WorkItem>)> = Vec::new();
    let mut i: usize = 0;
    while i < work_group.children.len()
        invariant
            i <= work_group.children.len(),
            items_of(leaves@) == forest_leaves(work_group.children@.take(i as int)),
            group_table(nested@) == forest_groups(work_group.children@.take(i as int)),
        decreases work_group.children.len() - i,
    {
        proof {
            lemma_forest_leaves_step(work_group.children@, i as int);
            lemma_forest_groups_step(work_group.children@, i as int);
        }
        match &work_group.children[i] {
            Work::WorkItem(item) => {
                proof {
                    lemma_items_of_push(leaves@, item);
                }
                leaves.push(item);
                assert(work_leaves(work_group.children@[i as int]) =~= seq![*item]);
                assert(items_of(leaves@) =~= forest_leaves(
                    work_group.children@.take(i as int + 1),
                ));
                assert(group_table(nested@) =~= forest_groups(
                    work_group.children@.take(i as int + 1),
                ));
            },
            Work::WorkGroup(group) => {
                let mut sub = find_work_items_for_a_group(group);
                assert(sub@.len() > 0 && items_of(sub@[0].1@) == forest_leaves(group.children@))
                    by {
                    let t = group_table(sub@);
                    assert(t.len() == sub@.len());
                    assert(t[0] == (group.id, forest_leaves(group.children@)));
                }
                proof {
                    lemma_items_of_concat(leaves@, sub@[0].1@);
                    lemma_group_table_concat(nested@, sub@);
                }
                extend_refs(&mut leaves, &sub[0].1);
                nested.append(&mut sub);
            },
        }
        i += 1;
    }
    assert(work_group.children@.take(i as int) =~= work_group.children@);
    let mut index: Vec<(&'a WorkGroupId, Vec<&'a WorkItem>)> = Vec::new();
    index.push((&work_group.id, leaves));
    proof {
        lemma_group_table_concat(index@, nested@);
        assert(group_table(index@) =~= seq![(work_group.id, forest_leaves(work_group.children@))]);
    }
    index.append(&mut nested);
    index
}

/// The group table of a whole model: every group of its forest.
fn build_items_for_group_index<'a>(sim: &'a Simulation) -> (map: Vec<
    (&'a WorkGroupId, Vec<&'a WorkItem>),
>)
    ensures
        group_table(map@) == forest_groups(sim.work@),
{
    let mut map: Vec<(&'a WorkGroupId, Vec<&'a WorkItem>)> = Vec::new();
    let mut i: usize = 0;
    while i < sim.work.len()
        invariant
            i <= sim.work.len(),
            group_table(map@) == forest_groups(sim.work@.take(i as int)),
        decreases sim.work.len() - i,
    {
        proof {
            lemma_forest_groups_step(sim.work@, i as int);
        }
        match &sim.work[i] {
            Work::WorkItem(_) => {},
            Work::WorkGroup(group) => {
                let mut found = find_work_items_for_a_group(group);
                proof {
                    lemma_group_table_concat(map@, found@);
                }
                map.append(&mut found);
            },
        }
        i += 1;
    }
    assert(sim.work@.take(i as int) =~= sim.work@);
    map
}

/// Files every leaf item beneath `group` under its own id, after the entries
/// that `acc` already holds.
fn build_items_by_id_index_prime<'a>(
    group: &'a WorkGroup,
    acc: &mut Vec<(&'a WorkItemId, &'a WorkItem)>,
)
    ensures
        item_table(final(acc)@) == item_table(old(acc)@) + keyed_by_own_id(
            forest_leaves(group.children@),
        ),
    decreases group,
{
    let mut i: usize = 0;
    while i < group.children.len()
        invariant
            i <= group.children.len(),
            item_table(acc@) == item_table(old(acc)@) + keyed_by_own_id(
                forest_leaves(group.children@.take(i as int)),
            ),
        decreases group.children.len() - i,
    {
        proof {
            lemma_forest_leaves_step(group.children@, i as int);
            lemma_keyed_concat(
                forest_leaves(group.children@.take(i as int)),
                work_leaves(group.children@[i as int]),
            );
        }
        match &group.children[i] {
            Work::WorkItem(item) => {
                let ghost before = acc@;
                acc.push((&item.id, item));
                assert(item_table(acc@) =~= item_table(before).push((item.id, *item)));
                assert(work_leaves(group.children@[i as int]) =~= seq![*item]);
                assert(keyed_by_own_id(seq![*item]) =~= seq![(item.id, *item)]);
            },
            Work::WorkGroup(inner) => {
                build_items_by_id_index_prime(inner, acc);
            },
        }
        i += 1;
    }
    assert(group.children@.take(i as int) =~= group.children@);
}

/// The item table of a whole model: every leaf item of its forest.
fn build_items_by_id_index<'a>(sim: &'a Simulation) -> (map: Vec<(&'a WorkItemId, &'a WorkItem)>)
    ensures
        item_table(map@) == keyed_by_own_id(forest_leaves(sim.work@)),
{
    let mut map: Vec<(&'a WorkItemId, &'a WorkItem)> = Vec::new();
    let mut i: usize = 0;
    while i < sim.work.len()
        invariant
            i <= sim.work.len(),
            item_table(map@) == keyed_by_own_id(forest_leaves(sim.work@.take(i as int))),
        decreases sim.work.len() - i,
    {
        proof {
            lemma_forest_leaves_step(sim.work@, i as int);
            lemma_keyed_concat(
                forest_leaves(sim.work@.take(i as int)),
                work_leaves(sim.work@[i as int]),
            );
        }
        match &sim.work[i] {
            Work::WorkItem(item) => {
                let ghost before = map@;
                map.push((&item.id, item));
                assert(item_table(map@) =~= item_table(before).push((item.id, *item)));
                assert(work_leaves(sim.work@[i as int]) =~= seq![*item]);
                assert(keyed_by_own_id(seq![*item]) =~= seq![(item.id, *item)]);
            },
            Work::WorkGroup(group) => {
                build_items_by_id_index_prime(group, &mut map);
            },
        }
        i += 1;
    }
    assert(sim.work@.take(i as int) =~= sim.work@);
    map
}

/// Builds both lookup tables for `sim`. Every group of the forest gets an
/// entry, a group without leaves an empty one, and every leaf item is filed
/// under its own id.
pub fn sim_to_indexes<'a>(sim: &'a Simulation) -> (indices: Indices<'a>)
    ensures
        indices.simulation == sim,
        indices.groups() == forest_groups(sim.work@),
        indices.items() == keyed_by_own_id(forest_leaves(sim.work@)),
{
    Indices {
        simulation: sim,
        work_items_for_group: build_items_for_group_index(sim),
        work_items_by_id: build_items_by_id_index(sim),
    }
}

impl<'a> Indices<'a> {
    /// The group table as plain values.
    pub open spec fn groups(&self) -> Seq<(WorkGroupId, Seq<WorkItem>)> {
        group_table(self.work_items_for_group@)
    }

    /// The item table as plain values.
    pub open spec fn items(&self) -> Seq<(WorkItemId, WorkItem)> {
        item_table(self.work_items_by_id@)
    }

    /// The leaf items listed for the group `id`, or `None` where the table
    /// has no such group. An entry may well be empty.
    pub fn items_for_group(&self, id: &WorkGroupId) -> (found: Option<&Vec<&'a WorkItem>>)
        ensures
            found is Some <==> has_group(self.groups(), id@),
            found matches Some(items) ==> items_of(items@) == group_items(self.groups(), id@),
            found is None ==> group_items(self.groups(), id@) == Seq::<WorkItem>::empty(),
    {
        let ghost table = self.groups();
        assert(table.skip(0) =~= table);
        let mut i: usize = 0;
        while i < self.work_items_for_group.len()
            invariant
                i <= self.work_items_for_group.len(),
                table == self.groups(),
                forall|k: int| 0 <= k < i ==> (#[trigger] table[k]).0@ != id@,
                group_items(table, id@) == group_items(table.skip(i as int), id@),
            decreases self.work_items_for_group.len() - i,
        {
            assert(table.skip(i as int)[0] == table[i as int]);
            assert(table.skip(i as int).drop_first() =~= table.skip(i as int + 1));
            if *self.work_items_for_group[i].0 == *id {
                return Some(&self.work_items_for_group[i].1);
            }
            i += 1;
        }
        assert(table.skip(i as int).len() == 0);
        None
    }

    /// The leaf item filed under `id`, or `None` where there is none.
    pub fn item_by_id(&self, id: &WorkItemId) -> (found: Option<&'a WorkItem>)
        ensures
            found matches Some(item) ==> item_with_id(self.items(), id@) == Some(*item),
            found is None ==> item_with_id(self.items(), id@) is None,
    {
        let ghost table = self.items();
        assert(table.skip(0) =~= table);
        let mut i: usize = 0;
        while i < self.work_items_by_id.len()
            invariant
                i <= self.work_items_by_id.len(),
                table == self.items(),
                item_with_id(table, id@) == item_with_id(table.skip(i as int), id@),
            decreases self.work_items_by_id.len() - i,
        {
            assert(table.skip(i as int)[0] == table[i as int]);
            assert(table.skip(i as int).drop_first() =~= table.skip(i as int + 1));
            if *self.work_items_by_id[i].0 == *id {
                return Some(self.work_items_by_id[i].1);
            }
            i += 1;
        }
        assert(table.skip(i as int).len() == 0);
        None
    }
}

} // verus!
