// This file is part of Lectev.
//
//  Lectev is free software: you can redistribute it and/or modify
//  it under the terms of the GNU General Public License as published by
//  the Free Software Foundation, either version 3 of the License, or
//  (at your option) any later version.
//
//  Lectev is distributed in the hope that it will be useful,
//  but WITHOUT ANY WARRANTY; without even the implied warranty of
//  MERCHANTABILITY or FITNESS FOR A PARTICULAR PURPOSE.  See the
//  GNU General Public License for more details.
//
//  You should have received a copy of the GNU General Public License
//  along with Lectev.  If not, see <https://www.gnu.org/licenses/>.

use lectev::simulation::external::{
    Simulation, Work, WorkGroup, WorkGroupId, WorkItem, WorkItemId, WorkItemOrGroupId,
};
use lectev::simulation::index::sim_to_indexes;
use lectev::simulation::rand_topo::{index_to_flat_deps, prepare, sort, Error, Sorting};

fn item_id(text: &str) -> WorkItemId {
    WorkItemId::new(text.to_string()).unwrap()
}

fn group_id(text: &str) -> WorkGroupId {
    WorkGroupId::new(text.to_string()).unwrap()
}

fn on_item(text: &str) -> WorkItemOrGroupId {
    WorkItemOrGroupId::WorkItem(item_id(text))
}

fn on_group(text: &str) -> WorkItemOrGroupId {
    WorkItemOrGroupId::WorkGroup(group_id(text))
}

fn item(text: &str, dependencies: Vec<WorkItemOrGroupId>) -> Work {
    Work::WorkItem(WorkItem {
        id: item_id(text),
        estimates: Vec::new(),
        dependencies,
        skills: Vec::new(),
    })
}

fn group(text: &str, dependencies: Vec<WorkItemOrGroupId>, children: Vec<Work>) -> Work {
    Work::WorkGroup(WorkGroup { id: group_id(text), children, dependencies })
}

fn model(work: Vec<Work>) -> Simulation {
    Simulation { workers: Vec::new(), work }
}

fn sorted_texts(sim: &Simulation) -> Result<Vec<String>, Error> {
    let indices = sim_to_indexes(sim);
    let prepared = prepare(&indices);
    sort(prepared).map(|order| order.iter().map(|id| id.as_str().to_string()).collect())
}

/// Checks `order` against the flattened dependencies of `sim`: every leaf
/// once, and every dependency before the item that has it.
fn assert_honours_dependencies(sim: &Simulation, order: &Vec<String>) {
    let indices = sim_to_indexes(sim);
    let flat = index_to_flat_deps(&indices);
    assert_eq!(order.len(), flat.len());
    for node in flat.iter() {
        let name = node.work_item_id().as_str();
        let places: Vec<usize> =
            order.iter().enumerate().filter(|(_, text)| text.as_str() == name).map(|(k, _)| k).collect();
        assert_eq!(places.len(), 1, "{} is emitted once", name);
        for dependency in node.dependencies().iter() {
            let before = order.iter().position(|text| text.as_str() == dependency.as_str());
            assert!(before.is_some(), "{} is emitted", dependency.as_str());
            assert!(before.unwrap() < places[0], "{} before {}", dependency.as_str(), name);
        }
    }
}

fn diamond_with_groups() -> Simulation {
    model(vec![
        item("design", vec![]),
        group(
            "build",
            vec![on_item("design")],
            vec![
                item("frame", vec![]),
                group("walls", vec![on_item("frame")], vec![item("north", vec![]), item("south", vec![])]),
                item("roof", vec![on_group("walls")]),
            ],
        ),
        item("inspect", vec![on_group("build")]),
        item("paint", vec![on_item("roof"), on_item("inspect")]),
        item("garden", vec![]),
    ])
}

#[test]
fn chain_of_three_has_one_order() {
    let sim = model(vec![
        item("A", vec![]),
        item("B", vec![on_item("A")]),
        item("C", vec![on_item("A"), on_item("B")]),
    ]);
    for _ in 0..50 {
        assert_eq!(sorted_texts(&sim), Ok(vec!["A".to_string(), "B".to_string(), "C".to_string()]));
    }
}

#[test]
fn chain_of_three_in_any_listing_order_has_one_order() {
    let sim = model(vec![
        item("C", vec![on_item("B"), on_item("A")]),
        item("A", vec![]),
        item("B", vec![on_item("A")]),
    ]);
    for _ in 0..50 {
        assert_eq!(sorted_texts(&sim), Ok(vec!["A".to_string(), "B".to_string(), "C".to_string()]));
    }
}

#[test]
fn every_item_of_a_dag_is_emitted_once_after_its_dependencies() {
    let sim = diamond_with_groups();
    for _ in 0..200 {
        let order = sorted_texts(&sim).unwrap();
        assert_eq!(order.len(), 8);
        assert_honours_dependencies(&sim, &order);
    }
}

#[test]
fn sorts_of_two_clones_are_both_valid() {
    let sim = diamond_with_groups();
    let indices = sim_to_indexes(&sim);
    let prepared = prepare(&indices);
    for _ in 0..50 {
        let first: Vec<String> =
            sort(prepared.clone()).unwrap().iter().map(|id| id.as_str().to_string()).collect();
        let second: Vec<String> =
            sort(prepared.clone()).unwrap().iter().map(|id| id.as_str().to_string()).collect();
        assert_honours_dependencies(&sim, &first);
        assert_honours_dependencies(&sim, &second);
    }
    assert_eq!(prepared.len(), 8);
}

#[test]
fn sorts_of_two_clones_of_a_cycle_both_fail() {
    let sim = model(vec![item("A", vec![on_item("B")]), item("B", vec![on_item("A")])]);
    let indices = sim_to_indexes(&sim);
    let prepared = prepare(&indices);
    assert_eq!(sort(prepared.clone()), Err(Error::CycleDetected));
    assert_eq!(sort(prepared.clone()), Err(Error::CycleDetected));
    assert_eq!(sort(prepared), Err(Error::CycleDetected));
}

#[test]
fn independent_items_come_out_in_more_than_one_order() {
    let names = ["a", "b", "c", "d", "e", "f", "g", "h"];
    let sim = model(names.iter().map(|name| item(name, vec![])).collect());
    let first = sorted_texts(&sim).unwrap();
    let mut differs = false;
    for _ in 0..200 {
        let order = sorted_texts(&sim).unwrap();
        assert_honours_dependencies(&sim, &order);
        if order != first {
            differs = true;
        }
    }
    assert!(differs);
}

#[test]
fn two_items_waiting_for_each_other_are_a_cycle() {
    let sim = model(vec![item("A", vec![on_item("B")]), item("B", vec![on_item("A")])]);
    assert_eq!(sorted_texts(&sim), Err(Error::CycleDetected));
}

#[test]
fn two_items_waiting_for_each_other_through_a_shared_group_are_a_cycle() {
    let sim = model(vec![group(
        "G",
        vec![],
        vec![item("A", vec![on_group("G")]), item("B", vec![on_group("G")])],
    )]);
    assert_eq!(sorted_texts(&sim), Err(Error::CycleDetected));
}

#[test]
fn a_cycle_fails_even_when_other_items_are_free() {
    let sim = model(vec![
        item("free", vec![]),
        item("A", vec![on_item("B"), on_item("free")]),
        item("B", vec![on_item("C")]),
        item("C", vec![on_item("A")]),
        item("also-free", vec![]),
    ]);
    for _ in 0..20 {
        assert_eq!(sorted_texts(&sim), Err(Error::CycleDetected));
    }
}

#[test]
fn an_item_waiting_for_itself_is_a_cycle() {
    let sim = model(vec![item("A", vec![on_item("A")])]);
    assert_eq!(sorted_texts(&sim), Err(Error::CycleDetected));
}

#[test]
fn a_group_that_depends_on_its_own_leaf_is_a_cycle() {
    let sim = model(vec![group("G", vec![on_item("X")], vec![item("X", vec![]), item("Y", vec![])])]);
    assert_eq!(sorted_texts(&sim), Err(Error::CycleDetected));
}

#[test]
fn an_item_waiting_for_an_id_that_no_item_has_is_never_ready() {
    let sim = model(vec![item("A", vec![]), item("B", vec![on_item("nobody")])]);
    assert_eq!(sorted_texts(&sim), Err(Error::CycleDetected));
}

#[test]
fn a_dependency_on_an_empty_group_does_not_hold_an_item_back() {
    let sim = model(vec![
        group("empty", vec![], vec![]),
        item("A", vec![on_group("empty"), on_group("unknown")]),
    ]);
    assert_eq!(sorted_texts(&sim), Ok(vec!["A".to_string()]));
}

#[test]
fn an_empty_model_sorts_to_nothing() {
    let sim = model(vec![]);
    assert_eq!(sorted_texts(&sim), Ok(Vec::<String>::new()));
}

#[test]
fn a_single_item_sorts_to_itself() {
    let sim = model(vec![item("only", vec![])]);
    assert_eq!(sorted_texts(&sim), Ok(vec!["only".to_string()]));
}

#[test]
fn group_dependency_reaches_both_leaves() {
    let sim = model(vec![
        item("Z", vec![]),
        group("G", vec![on_item("Z")], vec![item("X", vec![]), item("Y", vec![])]),
    ]);
    for _ in 0..50 {
        let order = sorted_texts(&sim).unwrap();
        assert_eq!(order[0], "Z");
        assert_honours_dependencies(&sim, &order);
    }
}

#[test]
fn dependency_on_a_group_waits_for_all_its_leaves() {
    let sim = model(vec![
        item("last", vec![on_group("G")]),
        group("G", vec![], vec![item("X", vec![]), group("H", vec![], vec![item("Y", vec![])])]),
    ]);
    for _ in 0..50 {
        let order = sorted_texts(&sim).unwrap();
        assert_eq!(order.len(), 3);
        assert_eq!(order[2], "last");
    }
}

#[test]
fn a_long_chain_comes_out_in_chain_order() {
    let mut work = Vec::new();
    for k in (0..40).rev() {
        let dependencies = if k == 0 { vec![] } else { vec![on_item(&format!("step-{}", k - 1))] };
        work.push(item(&format!("step-{}", k), dependencies));
    }
    let sim = model(work);
    let expected: Vec<String> = (0..40).map(|k| format!("step-{}", k)).collect();
    assert_eq!(sorted_texts(&sim), Ok(expected));
}

fn texts(ids: &Vec<&WorkItemId>) -> Vec<String> {
    ids.iter().map(|id| id.as_str().to_string()).collect()
}

#[test]
fn without_chance_the_last_ready_item_is_emitted_first() {
    let names = ["a", "b", "c", "d", "e"];
    let sim = model(names.iter().map(|name| item(name, vec![])).collect());
    let indices = sim_to_indexes(&sim);
    let order = Sorting::start(prepare(&indices)).finish().unwrap();
    assert_eq!(texts(&order), vec!["e", "d", "c", "b", "a"]);
}

#[test]
fn the_caller_may_say_which_ready_item_comes_next() {
    let sim = model(vec![
        item("A", vec![]),
        item("B", vec![on_item("A")]),
        item("C", vec![]),
        item("D", vec![on_item("A"), on_item("C")]),
    ]);
    let indices = sim_to_indexes(&sim);
    let sorting = Sorting::start(prepare(&indices));
    assert_eq!(texts(sorting.ready_items()), vec!["A", "C"]);
    let sorting = sorting.emit(0);
    assert_eq!(texts(sorting.ready_items()), vec!["C", "B"]);
    let sorting = sorting.emit(0);
    assert_eq!(texts(sorting.ready_items()), vec!["B", "D"]);
    assert_eq!(texts(&sorting.finish().unwrap()), vec!["A", "C", "D", "B"]);
}

#[test]
fn emitting_the_first_ready_item_every_time_keeps_the_listing_order() {
    let names = ["a", "b", "c", "d", "e"];
    let sim = model(names.iter().map(|name| item(name, vec![])).collect());
    let indices = sim_to_indexes(&sim);
    let mut sorting = Sorting::start(prepare(&indices));
    while !sorting.ready_items().is_empty() {
        sorting = sorting.emit(0);
    }
    assert_eq!(texts(&sorting.finish().unwrap()), vec!["a", "b", "c", "d", "e"]);
}

#[test]
fn in_a_chain_one_item_is_ready_at_a_time() {
    let sim = model(vec![
        item("C", vec![on_item("A"), on_item("B")]),
        item("B", vec![on_item("A")]),
        item("A", vec![]),
    ]);
    let indices = sim_to_indexes(&sim);
    let mut sorting = Sorting::start(prepare(&indices));
    let mut seen = Vec::new();
    while !sorting.ready_items().is_empty() {
        assert_eq!(sorting.ready_items().len(), 1);
        seen.push(sorting.ready_items()[0].as_str().to_string());
        sorting = sorting.emit(0);
    }
    assert_eq!(seen, vec!["A", "B", "C"]);
    assert_eq!(texts(&sorting.finish().unwrap()), vec!["A", "B", "C"]);
}

#[test]
fn a_cycle_leaves_nothing_ready_and_ends_in_the_cycle_signal() {
    let sim = model(vec![
        item("free", vec![]),
        item("A", vec![on_item("B"), on_item("free")]),
        item("B", vec![on_item("A")]),
    ]);
    let indices = sim_to_indexes(&sim);
    let sorting = Sorting::start(prepare(&indices));
    assert_eq!(texts(sorting.ready_items()), vec!["free"]);
    let sorting = sorting.emit(0);
    assert!(sorting.ready_items().is_empty());
    assert_eq!(sorting.finish(), Err(Error::CycleDetected));
}
