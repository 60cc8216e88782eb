// This file is part of Lectev.
//
//  Lectev is free software: you can redistribute it and/or modify
//  it under the terms of the GNU General Public License as published by
//  the Free Software Foundation, either version 3 of the License, or
//  (at your option) any later version.
//
//  Lectev is distributed in the hope that it will be useful,
//  but WITHOUT ANY WARRANTY; without even the implied warranty of
//  MERCHANTABILITY or FITNESS FOR A PARTICULAR PURPOSE.  See the
//  GNU General Public License for more details.
//
//  You should have received a copy of the GNU General Public License
//  along with Lectev.  If not, see <https://www.gnu.org/licenses/>.

use lectev::simulation::external::{Error, Skill, WorkGroupId, WorkItemId, WorkItemOrGroupId, WorkerId};
use lectev::time::Timestamp;

#[test]
fn worker_id_keeps_its_text() {
    let id = WorkerId::new("ada".to_string()).unwrap();
    assert_eq!(id.as_str(), "ada");
}

#[test]
fn empty_worker_id_is_refused() {
    assert_eq!(
        WorkerId::new(String::new()),
        Err(Error::InstantiateWorkerId { id: String::new() })
    );
}

#[test]
fn work_item_id_keeps_its_text() {
    let id = WorkItemId::new("item-1".to_string()).unwrap();
    assert_eq!(id.as_str(), "item-1");
}

#[test]
fn empty_work_item_id_is_refused() {
    assert_eq!(
        WorkItemId::new(String::new()),
        Err(Error::CreateWorkItemId { id: String::new() })
    );
}

#[test]
fn work_group_id_keeps_its_text() {
    let id = WorkGroupId::new("group-1".to_string()).unwrap();
    assert_eq!(id.as_str(), "group-1");
}

#[test]
fn empty_work_group_id_is_refused() {
    assert_eq!(
        WorkGroupId::new(String::new()),
        Err(Error::CreateWorkGroupId { id: String::new() })
    );
}

#[test]
fn skill_keeps_its_text() {
    let skill = Skill::new("rust".to_string()).unwrap();
    assert_eq!(skill.as_str(), "rust");
}

#[test]
fn empty_skill_is_refused() {
    assert_eq!(Skill::new(String::new()), Err(Error::InstantiateSkill { id: String::new() }));
}

#[test]
fn a_single_space_is_an_identifier() {
    assert_eq!(WorkItemId::new(" ".to_string()).unwrap().as_str(), " ");
}

#[test]
fn rejected_text_is_handed_back() {
    let error = WorkItemId::new(String::new()).unwrap_err();
    assert_eq!(error.rejected(), "");
}

#[test]
fn identifiers_compare_by_text() {
    let a = WorkItemId::new("same".to_string()).unwrap();
    let b = WorkItemId::new("same".to_string()).unwrap();
    let c = WorkItemId::new("other".to_string()).unwrap();
    assert_eq!(a, b);
    assert_ne!(a, c);
    assert_eq!(a.clone(), a);
}

#[test]
fn an_item_and_a_group_of_one_name_are_different_references() {
    let item = WorkItemOrGroupId::WorkItem(WorkItemId::new("x".to_string()).unwrap());
    let group = WorkItemOrGroupId::WorkGroup(WorkGroupId::new("x".to_string()).unwrap());
    assert_ne!(item, group);
    assert_eq!(item.clone(), item);
    assert_eq!(group.clone(), group);
}

#[test]
fn timestamps_order_by_seconds_then_nanos() {
    let early = Timestamp { seconds: 10, nanos: 999_999_999 };
    let late = Timestamp { seconds: 11, nanos: 0 };
    let later = Timestamp { seconds: 11, nanos: 1 };
    assert!(early.before(&late));
    assert!(late.before(&later));
    assert!(!later.before(&late));
    assert!(!late.before(&late));
    assert!(Timestamp { seconds: -5, nanos: 0 }.before(&Timestamp { seconds: -4, nanos: 0 }));
}
