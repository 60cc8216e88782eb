// This file is part of Lectev.
//
//  Lectev is free software: you can redistribute it and/or modify
//  it under the terms of the GNU General Public License as published by
//  the Free Software Foundation, either version 3 of the License, or
//  (at your option) any later version.
//
//  Lectev is distributed in the hope that it will be useful,
//  but WITHOUT ANY WARRANTY; without even the implied warranty of
//  MERCHANTABILITY or FITNESS FOR A PARTICULAR PURPOSE.  See the
//  GNU General Public License for more details.
//
//  You should have received a copy of the GNU General Public License
//  along with Lectev.  If not, see <https://www.gnu.org/licenses/>.

use lectev::simulation::external::{
    Simulation, Work, WorkGroup, WorkGroupId, WorkItem, WorkItemId, WorkItemOrGroupId,
};
use lectev::simulation::index::sim_to_indexes;

fn ix_item_id(text: &str) -> WorkItemId {
    WorkItemId::new(text.to_string()).unwrap()
}

fn ix_group_id(text: &str) -> WorkGroupId {
    WorkGroupId::new(text.to_string()).unwrap()
}

fn ix_item(text: &str) -> Work {
    Work::WorkItem(WorkItem {
        id: ix_item_id(text),
        estimates: Vec::new(),
        dependencies: Vec::new(),
        skills: Vec::new(),
    })
}

fn ix_group(text: &str, children: Vec<Work>) -> Work {
    Work::WorkGroup(WorkGroup {
        id: ix_group_id(text),
        children,
        dependencies: Vec::<WorkItemOrGroupId>::new(),
    })
}

fn ix_names(items: &Vec<&WorkItem>) -> Vec<String> {
    items.iter().map(|item| item.id.as_str().to_string()).collect()
}

fn ix_model() -> Simulation {
    Simulation {
        workers: Vec::new(),
        work: vec![
            ix_item("root-item"),
            ix_group(
                "outer",
                vec![
                    ix_item("a"),
                    ix_group("inner", vec![ix_item("b"), ix_group("deep", vec![ix_item("c")])]),
                    ix_item("d"),
                    ix_group("hollow", vec![]),
                ],
            ),
            ix_group("second", vec![ix_item("e")]),
        ],
    }
}

#[test]
fn a_group_lists_the_leaves_of_its_nested_groups_once_each() {
    let sim = ix_model();
    let indices = sim_to_indexes(&sim);
    let outer = indices.items_for_group(&ix_group_id("outer")).unwrap();
    assert_eq!(ix_names(outer), vec!["a", "b", "c", "d"]);
    let inner = indices.items_for_group(&ix_group_id("inner")).unwrap();
    assert_eq!(ix_names(inner), vec!["b", "c"]);
    let deep = indices.items_for_group(&ix_group_id("deep")).unwrap();
    assert_eq!(ix_names(deep), vec!["c"]);
    let second = indices.items_for_group(&ix_group_id("second")).unwrap();
    assert_eq!(ix_names(second), vec!["e"]);
}

#[test]
fn a_group_without_children_has_an_empty_entry() {
    let sim = ix_model();
    let indices = sim_to_indexes(&sim);
    let hollow = indices.items_for_group(&ix_group_id("hollow")).unwrap();
    assert!(hollow.is_empty());
}

#[test]
fn an_unknown_group_has_no_entry() {
    let sim = ix_model();
    let indices = sim_to_indexes(&sim);
    assert!(indices.items_for_group(&ix_group_id("nowhere")).is_none());
    assert!(indices.items_for_group(&ix_group_id("a")).is_none());
}

#[test]
fn every_group_has_one_entry() {
    let sim = ix_model();
    let indices = sim_to_indexes(&sim);
    let groups: Vec<&str> =
        indices.work_items_for_group.iter().map(|entry| entry.0.as_str()).collect();
    assert_eq!(groups, vec!["outer", "inner", "deep", "hollow", "second"]);
}

#[test]
fn every_leaf_is_found_by_its_id() {
    let sim = ix_model();
    let indices = sim_to_indexes(&sim);
    for name in ["root-item", "a", "b", "c", "d", "e"] {
        let found = indices.item_by_id(&ix_item_id(name)).unwrap();
        assert_eq!(found.id.as_str(), name);
    }
    assert_eq!(indices.work_items_by_id.len(), 6);
}

#[test]
fn a_group_is_not_found_among_the_items() {
    let sim = ix_model();
    let indices = sim_to_indexes(&sim);
    assert!(indices.item_by_id(&ix_item_id("outer")).is_none());
    assert!(indices.item_by_id(&ix_item_id("missing")).is_none());
}

#[test]
fn the_index_of_an_empty_model_is_empty() {
    let sim = Simulation { workers: Vec::new(), work: Vec::new() };
    let indices = sim_to_indexes(&sim);
    assert!(indices.work_items_for_group.is_empty());
    assert!(indices.work_items_by_id.is_empty());
    assert!(indices.simulation.work.is_empty());
}
