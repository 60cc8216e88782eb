// This file is part of Lectev.
//
//  Lectev is free software: you can redistribute it and/or modify
//  it under the terms of the GNU General Public License as published by
//  the Free Software Foundation, either version 3 of the License, or
//  (at your option) any later version.
//
//  Lectev is distributed in the hope that it will be useful,
//  but WITHOUT ANY WARRANTY; without even the implied warranty of
//  MERCHANTABILITY or FITNESS FOR A PARTICULAR PURPOSE.  See the
//  GNU General Public License for more details.
//
//  You should have received a copy of the GNU General Public License
//  along with Lectev.  If not, see <https://www.gnu.org/licenses/>.

use lectev::simulation::convert_template::{
    template_to_event, templates_to_work, Error, Level, Template,
};
use lectev::simulation::external as sim_external;
use lectev::simulation::external::{
    Skill, Work, WorkGroup, WorkGroupId, WorkItem, WorkItemId, WorkItemOrGroupId,
};

fn row(id: &str, level: usize, skills: &[&str], dependencies: &[&str]) -> Template {
    let label = Some(format!("about {}", id));
    Template {
        id: id.to_string(),
        rung: if level == 0 { label.clone() } else { None },
        task: if level == 1 { label.clone() } else { None },
        sub_task: if level == 2 { label.clone() } else { None },
        skills: skills.iter().map(|s| s.to_string()).collect(),
        dependencies: dependencies.iter().map(|d| d.to_string()).collect(),
    }
}

fn rung(id: &str, dependencies: &[&str]) -> Template {
    row(id, 0, &[], dependencies)
}

fn task(id: &str, skills: &[&str], dependencies: &[&str]) -> Template {
    row(id, 1, skills, dependencies)
}

fn sub_task(id: &str, skills: &[&str], dependencies: &[&str]) -> Template {
    row(id, 2, skills, dependencies)
}

fn to_item(id: &str) -> WorkItemOrGroupId {
    WorkItemOrGroupId::WorkItem(WorkItemId::new(id.to_string()).unwrap())
}

fn to_group(id: &str) -> WorkItemOrGroupId {
    WorkItemOrGroupId::WorkGroup(WorkGroupId::new(id.to_string()).unwrap())
}

fn leaf(id: &str, skills: &[&str], dependencies: Vec<WorkItemOrGroupId>) -> Work {
    Work::WorkItem(WorkItem {
        id: WorkItemId::new(id.to_string()).unwrap(),
        estimates: Vec::new(),
        dependencies,
        skills: skills.iter().map(|s| Skill::new(s.to_string()).unwrap()).collect(),
    })
}

fn node(id: &str, dependencies: Vec<WorkItemOrGroupId>, children: Vec<Work>) -> Work {
    Work::WorkGroup(WorkGroup {
        id: WorkGroupId::new(id.to_string()).unwrap(),
        children,
        dependencies,
    })
}

#[test]
fn no_rows_give_no_work() {
    assert_eq!(templates_to_work(vec![]), Ok(vec![]));
}

#[test]
fn consecutive_sub_tasks_stay_under_the_same_task() {
    let rows = vec![
        rung("r", &[]),
        task("t", &[], &[]),
        sub_task("s1", &["rust"], &[]),
        sub_task("s2", &["verus"], &[]),
        sub_task("s3", &[], &[]),
    ];
    let expected = vec![node(
        "r",
        vec![],
        vec![node(
            "t",
            vec![],
            vec![leaf("s1", &["rust"], vec![]), leaf("s2", &["verus"], vec![]), leaf("s3", &[], vec![])],
        )],
    )];
    assert_eq!(templates_to_work(rows), Ok(expected));
}

#[test]
fn a_new_rung_closes_the_previous_rung() {
    let rows = vec![
        rung("r1", &[]),
        task("t1", &[], &[]),
        sub_task("s1", &[], &[]),
        rung("r2", &[]),
        task("t2", &[], &[]),
        sub_task("s2", &[], &[]),
    ];
    let expected = vec![
        node("r1", vec![], vec![node("t1", vec![], vec![leaf("s1", &[], vec![])])]),
        node("r2", vec![], vec![node("t2", vec![], vec![leaf("s2", &[], vec![])])]),
    ];
    assert_eq!(templates_to_work(rows), Ok(expected));
}

#[test]
fn a_new_task_closes_the_previous_task() {
    let rows = vec![
        rung("r", &[]),
        task("t1", &[], &[]),
        sub_task("s1", &[], &[]),
        task("t2", &[], &[]),
        sub_task("s2", &[], &[]),
        sub_task("s3", &[], &[]),
    ];
    let expected = vec![node(
        "r",
        vec![],
        vec![
            node("t1", vec![], vec![leaf("s1", &[], vec![])]),
            node("t2", vec![], vec![leaf("s2", &[], vec![]), leaf("s3", &[], vec![])]),
        ],
    )];
    assert_eq!(templates_to_work(rows), Ok(expected));
}

#[test]
fn tasks_without_sub_tasks_are_work_items() {
    let rows = vec![
        rung("r", &[]),
        task("t1", &["rust"], &[]),
        task("t2", &[], &[]),
        rung("r2", &[]),
        task("t3", &[], &[]),
    ];
    let expected = vec![
        node("r", vec![], vec![leaf("t1", &["rust"], vec![]), leaf("t2", &[], vec![])]),
        node("r2", vec![], vec![leaf("t3", &[], vec![])]),
    ];
    assert_eq!(templates_to_work(rows), Ok(expected));
}

#[test]
fn tasks_with_and_without_sub_tasks_mix_under_one_rung() {
    let rows = vec![
        rung("r", &[]),
        task("plain", &[], &[]),
        task("split", &["dropped"], &[]),
        sub_task("part", &[], &[]),
        task("last", &[], &[]),
    ];
    let expected = vec![node(
        "r",
        vec![],
        vec![
            leaf("plain", &[], vec![]),
            node("split", vec![], vec![leaf("part", &[], vec![])]),
            leaf("last", &[], vec![]),
        ],
    )];
    assert_eq!(templates_to_work(rows), Ok(expected));
}

#[test]
fn a_rung_without_tasks_is_an_empty_group() {
    let rows = vec![rung("r1", &[]), rung("r2", &[])];
    let expected = vec![node("r1", vec![], vec![]), node("r2", vec![], vec![])];
    assert_eq!(templates_to_work(rows), Ok(expected));
}

#[test]
fn rows_that_no_rung_precedes_stand_at_the_root() {
    let rows = vec![
        sub_task("s0", &[], &[]),
        task("t1", &[], &[]),
        sub_task("s1", &[], &[]),
        task("t2", &[], &[]),
        rung("r", &[]),
        sub_task("s2", &[], &[]),
    ];
    let expected = vec![
        leaf("s0", &[], vec![]),
        node("t1", vec![], vec![leaf("s1", &[], vec![])]),
        leaf("t2", &[], vec![]),
        node("r", vec![], vec![leaf("s2", &[], vec![])]),
    ];
    assert_eq!(templates_to_work(rows), Ok(expected));
}

#[test]
fn dependencies_refer_to_earlier_rows_as_items_or_groups() {
    let rows = vec![
        rung("r", &[]),
        task("plain", &[], &[]),
        task("split", &[], &["plain"]),
        sub_task("part", &[], &["split", "r", "plain"]),
        rung("r2", &["r", "part"]),
    ];
    let expected = vec![
        node(
            "r",
            vec![],
            vec![
                leaf("plain", &[], vec![]),
                node(
                    "split",
                    vec![to_item("plain")],
                    vec![leaf("part", &[], vec![to_group("split"), to_group("r"), to_item("plain")])],
                ),
            ],
        ),
        node("r2", vec![to_group("r"), to_item("part")], vec![]),
    ];
    assert_eq!(templates_to_work(rows), Ok(expected));
}

#[test]
fn a_dependency_on_a_later_row_is_refused() {
    let rows = vec![rung("r", &[]), task("t1", &[], &["t2"]), task("t2", &[], &[])];
    assert_eq!(
        templates_to_work(rows),
        Err(Error::UnableToResolveDependency { dep: "t2".to_string() })
    );
}

#[test]
fn a_dependency_on_the_row_itself_is_refused() {
    let rows = vec![rung("r", &[]), task("t1", &[], &["r", "t1"])];
    assert_eq!(
        templates_to_work(rows),
        Err(Error::UnableToResolveDependency { dep: "t1".to_string() })
    );
}

#[test]
fn the_first_unknown_dependency_is_reported() {
    let rows = vec![rung("r", &[]), task("t1", &[], &["r", "ghost", "phantom"])];
    assert_eq!(
        templates_to_work(rows),
        Err(Error::UnableToResolveDependency { dep: "ghost".to_string() })
    );
}

#[test]
fn a_row_without_a_level_is_refused() {
    let mut blank = rung("blank", &[]);
    blank.rung = None;
    let rows = vec![rung("r", &[]), blank];
    assert_eq!(templates_to_work(rows), Err(Error::InvalidWorkItem { id: "blank".to_string() }));
}

#[test]
fn a_row_with_two_levels_is_refused() {
    let mut both = rung("both", &[]);
    both.sub_task = Some("also a sub-task".to_string());
    let rows = vec![rung("r", &[]), both];
    assert_eq!(templates_to_work(rows), Err(Error::InvalidWorkItem { id: "both".to_string() }));
}

#[test]
fn a_row_with_three_levels_is_refused() {
    let mut all = task("all", &[], &[]);
    all.rung = Some("rung".to_string());
    all.sub_task = Some("sub-task".to_string());
    assert_eq!(
        templates_to_work(vec![all]),
        Err(Error::InvalidWorkItem { id: "all".to_string() })
    );
}

#[test]
fn a_row_without_a_level_is_reported_before_any_other_fault() {
    let mut blank = task("blank", &[], &[]);
    blank.task = None;
    let rows = vec![task("t1", &[], &["ghost"]), rung("", &[]), blank];
    assert_eq!(templates_to_work(rows), Err(Error::InvalidWorkItem { id: "blank".to_string() }));
}

#[test]
fn the_first_faulty_row_is_reported() {
    let rows = vec![rung("r", &[]), task("", &[], &[]), task("t", &[], &["ghost"])];
    assert_eq!(
        templates_to_work(rows),
        Err(Error::InvalidWorkItemId {
            id: String::new(),
            source: sim_external::Error::CreateWorkItemId { id: String::new() },
        })
    );
}

#[test]
fn a_rung_with_an_empty_id_is_refused() {
    assert_eq!(
        templates_to_work(vec![rung("", &[])]),
        Err(Error::InvalidWorkGroupId {
            id: String::new(),
            source: sim_external::Error::CreateWorkGroupId { id: String::new() },
        })
    );
}

#[test]
fn a_task_with_sub_tasks_and_an_empty_id_is_refused_as_a_group() {
    let rows = vec![task("", &[], &[]), sub_task("s", &[], &[])];
    assert_eq!(
        templates_to_work(rows),
        Err(Error::InvalidWorkGroupId {
            id: String::new(),
            source: sim_external::Error::CreateWorkGroupId { id: String::new() },
        })
    );
}

#[test]
fn a_sub_task_with_an_empty_id_is_refused() {
    let rows = vec![task("t", &[], &[]), sub_task("", &[], &[])];
    assert_eq!(
        templates_to_work(rows),
        Err(Error::InvalidWorkItemId {
            id: String::new(),
            source: sim_external::Error::CreateWorkItemId { id: String::new() },
        })
    );
}

#[test]
fn an_unknown_dependency_is_reported_before_an_empty_id() {
    let rows = vec![task("", &[], &["ghost"])];
    assert_eq!(
        templates_to_work(rows),
        Err(Error::UnableToResolveDependency { dep: "ghost".to_string() })
    );
}

#[test]
fn an_empty_skill_of_a_work_item_is_refused() {
    let rows = vec![task("t", &["rust", ""], &[])];
    assert_eq!(
        templates_to_work(rows),
        Err(Error::InvalidSkill {
            id: "t".to_string(),
            source: sim_external::Error::InstantiateSkill { id: String::new() },
        })
    );
}

#[test]
fn the_skills_of_a_group_are_not_looked_at() {
    let rows = vec![rung("r", &[]), task("t", &[""], &[]), sub_task("s", &[], &[])];
    let mut first = rung("r", &[]);
    first.skills = vec![String::new()];
    let expected = vec![node("r", vec![], vec![node("t", vec![], vec![leaf("s", &[], vec![])])])];
    assert_eq!(templates_to_work(rows), Ok(expected));
    assert_eq!(
        templates_to_work(vec![first]),
        Ok(vec![node("r", vec![], vec![])])
    );
}

#[test]
fn a_skill_named_twice_is_listed_once() {
    let rows = vec![task("t", &["rust", "verus", "rust", "rust", "proof", "verus"], &[])];
    let expected = vec![leaf("t", &["rust", "verus", "proof"], vec![])];
    assert_eq!(templates_to_work(rows), Ok(expected));
}

#[test]
fn a_later_row_with_the_same_id_takes_over_the_name() {
    let rows = vec![
        rung("twice", &[]),
        task("twice", &[], &[]),
        task("user", &[], &["twice"]),
    ];
    let expected = vec![node(
        "twice",
        vec![],
        vec![leaf("twice", &[], vec![]), leaf("user", &[], vec![to_item("twice")])],
    )];
    assert_eq!(templates_to_work(rows), Ok(expected));
}

#[test]
fn reading_the_level_of_a_row() {
    let as_rung = rung("r", &[]);
    let as_task = task("t", &[], &[]);
    let as_sub_task = sub_task("s", &[], &[]);
    let event = template_to_event(&as_rung).unwrap();
    assert_eq!(event.level, Level::Rung);
    assert_eq!(event.description, "about r");
    assert_eq!(event.template, &as_rung);
    assert_eq!(template_to_event(&as_task).unwrap().level, Level::Task);
    assert_eq!(template_to_event(&as_sub_task).unwrap().level, Level::SubTask);
    let mut blank = rung("blank", &[]);
    blank.rung = None;
    assert_eq!(
        template_to_event(&blank).unwrap_err(),
        Error::InvalidWorkItem { id: "blank".to_string() }
    );
}
