// This file is part of Lectev.
//
//  Lectev is free software: you can redistribute it and/or modify
//  it under the terms of the GNU General Public License as published by
//  the Free Software Foundation, either version 3 of the License, or
//  (at your option) any later version.
//
//  Lectev is distributed in the hope that it will be useful,
//  but WITHOUT ANY WARRANTY; without even the implied warranty of
//  MERCHANTABILITY or FITNESS FOR A PARTICULAR PURPOSE.  See the
//  GNU General Public License for more details.
//
//  You should have received a copy of the GNU General Public License
//  along with Lectev.  If not, see <https://www.gnu.org/licenses/>.

//! # Work from template rows
//!
//! A template is a flat, ordered list of rows. Each row names one of three
//! levels: a `rung`, a `task` or a `sub_task`. This module turns such a list
//! into the forest of work groups and work items that the simulation uses.
//!
//! A rung is a group at the root; it holds the tasks that follow it, up to
//! the next rung. A task that is followed by sub-tasks is a group that holds
//! them; a task without sub-tasks is a work item, and so is every sub-task.
//! A task or sub-task that no rung, or no task, precedes takes the place that
//! its parent would have taken.
use crate::simulation::external as sim_external;
use crate::simulation::external::{
    forest_leaves, forest_model, references, skill_texts, work_model, Reference, Skill, Work,
    WorkGroup, WorkGroupId, WorkItem, WorkItemId, WorkItemOrGroupId, WorkModel,
};
use vstd::prelude::*;

verus! {

#[derive(Debug, PartialEq, Eq)]
pub enum Error {
    /// Error produced if a dependency can not be resolved. Dependencies must appear earlier in the
    /// template file than the item that depends on them.
    UnableToResolveDependency { dep: String },
    /// Error produced if we can't produce a [`sim_external::WorkGroupId`] from the id column of
    /// the template.
    InvalidWorkGroupId { id: String, source: sim_external::Error },
    /// Error produced if a row names no level, or more than one.
    InvalidWorkItem { id: String },
    /// Error produced if we can't produce a [`sim_external::WorkItemId`] from the id column of
    /// the template.
    InvalidWorkItemId { id: String, source: sim_external::Error },
    /// Error produced if one of the skills of the work item `id` is the empty string.
    InvalidSkill { id: String, source: sim_external::Error },
}

/// An [`Error`] by the texts it carries.
pub enum Failure {
    UnableToResolveDependency { dep: Seq<char> },
    InvalidWorkGroupId { id: Seq<char> },
    InvalidWorkItem { id: Seq<char> },
    InvalidWorkItemId { id: Seq<char> },
    InvalidSkill { id: Seq<char> },
}

impl View for Error {
    type V = Failure;

    open spec fn view(&self) -> Failure {
        match self {
            Error::UnableToResolveDependency { dep } => Failure::UnableToResolveDependency {
                dep: dep@,
            },
            Error::InvalidWorkGroupId { id, .. } => Failure::InvalidWorkGroupId { id: id@ },
            Error::InvalidWorkItem { id } => Failure::InvalidWorkItem { id: id@ },
            Error::InvalidWorkItemId { id, .. } => Failure::InvalidWorkItemId { id: id@ },
            Error::InvalidSkill { id, .. } => Failure::InvalidSkill { id: id@ },
        }
    }
}

impl Error {
    /// Where the error wraps an identifier's error, that one is of the
    /// matching kind and carries the empty text that was refused.
    pub open spec fn well_sourced(&self) -> bool {
        match self {
            Error::InvalidWorkGroupId { source, .. } => source
                matches sim_external::Error::CreateWorkGroupId { id } && id@.len() == 0,
            Error::InvalidWorkItemId { source, .. } => source
                matches sim_external::Error::CreateWorkItemId { id } && id@.len() == 0,
            Error::InvalidSkill { source, .. } => source
                matches sim_external::Error::InstantiateSkill { id } && id@.len() == 0,
            _ => true,
        }
    }
}

/// One row of a template. Exactly one of `rung`, `task` and `sub_task`
/// should be filled in; it says at which level the row stands.
#[derive(Debug, PartialEq, Eq)]
pub struct Template {
    pub id: String,
    pub rung: Option<String>,
    pub task: Option<String>,
    pub sub_task: Option<String>,
    pub skills: Vec<String>,
    pub dependencies: Vec<String>,
}

/// The level at which a row stands.
#[derive(Debug, Clone, Copy, PartialEq, Eq, Structural)]
pub enum Level {
    Rung,
    Task,
    SubTask,
}

/// A row whose level has been read: the row, its level and the text that
/// stood in the level's column.
#[derive(Debug)]
pub struct TemplateEvent<'a> {
    pub level: Level,
    pub description: &'a String,
    pub template: &'a Template,
}

/// A row by its texts. `level` is `None` where the row names no level, or
/// more than one.
pub struct Row {
    pub level: Option<Level>,
    pub id: Seq<char>,
    pub skills: Seq<Seq<char>>,
    pub dependencies: Seq<Seq<char>>,
}

/// The level that a row names, if it names exactly one.
pub open spec fn level_of(template: Template) -> Option<Level> {
    match (template.rung, template.task, template.sub_task) {
        (Some(_), None, None) => Some(Level::Rung),
        (None, Some(_), None) => Some(Level::Task),
        (None, None, Some(_)) => Some(Level::SubTask),
        _ => None,
    }
}

/// The texts of a list of strings.
pub open spec fn texts(strings: Seq<String>) -> Seq<Seq<char>> {
    strings.map_values(|s: String| s@)
}

impl View for Template {
    type V = Row;

    open spec fn view(&self) -> Row {
        Row {
            level: level_of(*self),
            id: self.id@,
            skills: texts(self.skills@),
            dependencies: texts(self.dependencies@),
        }
    }
}

/// The rows of a template, by their texts.
pub open spec fn rows_of(templates: Seq<Template>) -> Seq<Row> {
    templates.map_values(|t: Template| t@)
}

/// Whether row `i` becomes a group: every rung does, and a task does where
/// the row after it is a sub-task.
pub open spec fn is_group_row(rows: Seq<Row>, i: int) -> bool {
    rows[i].level == Some(Level::Rung) || (rows[i].level == Some(Level::Task) && i + 1
        < rows.len() && rows[i + 1].level == Some(Level::SubTask))
}

/// What a later row refers to when it names the id of row `i`.
pub open spec fn introduced(rows: Seq<Row>, i: int) -> Reference {
    if is_group_row(rows, i) {
        Reference::Group(rows[i].id)
    } else {
        Reference::Item(rows[i].id)
    }
}

/// The ids that the first `i` rows introduce, in row order.
pub open spec fn known_before(rows: Seq<Row>, i: int) -> Seq<(Seq<char>, Reference)> {
    Seq::new(i as nat, |j: int| (rows[j].id, introduced(rows, j)))
}

/// What `name` refers to among `known`: the latest entry under that name.
pub open spec fn latest_entry(known: Seq<(Seq<char>, Reference)>, name: Seq<char>) -> Option<
    Reference,
>
    decreases known.len(),
{
    if known.len() == 0 {
        None
    } else if known.last().0 == name {
        Some(known.last().1)
    } else {
        latest_entry(known.drop_last(), name)
    }
}

/// What each of `names` refers to among `known`.
pub open spec fn resolved_among(known: Seq<(Seq<char>, Reference)>, names: Seq<Seq<char>>) -> Seq<
    Reference,
> {
    names.map_values(|name: Seq<char>| latest_entry(known, name).unwrap())
}

/// Whether each of `names` refers to something among `known`.
pub open spec fn all_resolve_among(known: Seq<(Seq<char>, Reference)>, names: Seq<Seq<char>>) -> bool {
    forall|k: int| 0 <= k < names.len() ==> latest_entry(known, #[trigger] names[k]) is Some
}

/// Whether `names[k]` is the first of `names` that refers to nothing among
/// `known`.
pub open spec fn first_unresolved_among(
    known: Seq<(Seq<char>, Reference)>,
    names: Seq<Seq<char>>,
    k: int,
) -> bool {
    &&& 0 <= k < names.len()
    &&& latest_entry(known, names[k]) is None
    &&& forall|j: int| 0 <= j < k ==> latest_entry(known, #[trigger] names[j]) is Some
}

/// What the dependencies of row `i` refer to. Each must name a row before
/// row `i`.
pub open spec fn resolved_dependencies(rows: Seq<Row>, i: int) -> Seq<Reference> {
    resolved_among(known_before(rows, i), rows[i].dependencies)
}

/// The skills of a row, each once, in the order of their first occurrence.
pub open spec fn each_once(skills: Seq<Seq<char>>) -> Seq<Seq<char>>
    decreases skills.len(),
{
    if skills.len() == 0 {
        Seq::empty()
    } else if each_once(skills.drop_last()).contains(skills.last()) {
        each_once(skills.drop_last())
    } else {
        each_once(skills.drop_last()).push(skills.last())
    }
}

/// The work item that row `i` becomes.
pub open spec fn leaf_at(rows: Seq<Row>, i: int) -> WorkModel {
    WorkModel::Item {
        id: rows[i].id,
        skills: each_once(rows[i].skills),
        dependencies: resolved_dependencies(rows, i),
    }
}

/// The first row at or after `i` that is no sub-task, or the number of rows.
pub open spec fn sub_tasks_end(rows: Seq<Row>, i: int) -> int
    decreases rows.len() - i,
{
    if 0 <= i < rows.len() && rows[i].level == Some(Level::SubTask) {
        sub_tasks_end(rows, i + 1)
    } else {
        i
    }
}

/// The first row at or after `i` that is a rung, or the number of rows.
pub open spec fn rung_end(rows: Seq<Row>, i: int) -> int
    decreases rows.len() - i,
{
    if 0 <= i < rows.len() && rows[i].level != Some(Level::Rung) {
        rung_end(rows, i + 1)
    } else {
        i
    }
}

/// The work items that the rows from `lo` up to `hi` become, one each.
pub open spec fn leaves_between(rows: Seq<Row>, lo: int, hi: int) -> Seq<WorkModel> {
    Seq::new((hi - lo) as nat, |k: int| leaf_at(rows, lo + k))
}

/// The node that starts at row `i`, a task or a sub-task: a group with the
/// sub-tasks that follow it, or a single work item.
pub open spec fn task_node(rows: Seq<Row>, i: int) -> WorkModel {
    if is_group_row(rows, i) {
        WorkModel::Group {
            id: rows[i].id,
            children: leaves_between(rows, i + 1, sub_tasks_end(rows, i + 1)),
            dependencies: resolved_dependencies(rows, i),
        }
    } else {
        leaf_at(rows, i)
    }
}

/// The row after the node that starts at row `i`, a task or a sub-task.
pub open spec fn task_next(rows: Seq<Row>, i: int) -> int {
    if is_group_row(rows, i) {
        sub_tasks_end(rows, i + 1)
    } else {
        i + 1
    }
}

/// The nodes that the rows from `lo` up to `hi` become, none of them a rung.
pub open spec fn tasks_between(rows: Seq<Row>, lo: int, hi: int) -> Seq<WorkModel>
    decreases
            (if lo < hi {
                hi - lo
            } else {
                0
            }),
{
    if lo < hi && lo < task_next(rows, lo) {
        seq![task_node(rows, lo)] + tasks_between(rows, task_next(rows, lo), hi)
    } else {
        Seq::empty()
    }
}

/// The root node that starts at row `i`: a rung with the tasks that follow
/// it, or a task or sub-task that no rung precedes.
pub open spec fn root_node(rows: Seq<Row>, i: int) -> WorkModel {
    if rows[i].level == Some(Level::Rung) {
        WorkModel::Group {
            id: rows[i].id,
            children: tasks_between(rows, i + 1, rung_end(rows, i + 1)),
            dependencies: resolved_dependencies(rows, i),
        }
    } else {
        task_node(rows, i)
    }
}

/// The row after the root node that starts at row `i`.
pub open spec fn root_next(rows: Seq<Row>, i: int) -> int {
    if rows[i].level == Some(Level::Rung) {
        rung_end(rows, i + 1)
    } else {
        task_next(rows, i)
    }
}

/// The root nodes that the rows from `i` on become.
pub open spec fn roots_from(rows: Seq<Row>, i: int) -> Seq<WorkModel>
    decreases
            (if i < rows.len() {
                rows.len() - i
            } else {
                0
            }),
{
    if 0 <= i < rows.len() && i < root_next(rows, i) {
        seq![root_node(rows, i)] + roots_from(rows, root_next(rows, i))
    } else {
        Seq::empty()
    }
}

/// Whether every dependency of row `i` names a row before it.
pub open spec fn dependencies_resolve(rows: Seq<Row>, i: int) -> bool {
    all_resolve_among(known_before(rows, i), rows[i].dependencies)
}

/// Whether one of `skills` is the empty text.
pub open spec fn has_empty(skills: Seq<Seq<char>>) -> bool {
    exists|k: int| 0 <= k < skills.len() && (#[trigger] skills[k]).len() == 0
}

/// Whether row `i` is a work item with an empty skill.
pub open spec fn has_empty_skill(rows: Seq<Row>, i: int) -> bool {
    !is_group_row(rows, i) && has_empty(rows[i].skills)
}

/// Whether row `i` can be converted, the rows before it being known.
pub open spec fn row_converts(rows: Seq<Row>, i: int) -> bool {
    &&& dependencies_resolve(rows, i)
    &&& rows[i].id.len() > 0
    &&& !has_empty_skill(rows, i)
}

/// Whether `failure` is what row `i` fails with: its first dependency that
/// names no earlier row, else its empty id, else its empty skill.
pub open spec fn row_fails_with(rows: Seq<Row>, i: int, failure: Failure) -> bool {
    if !dependencies_resolve(rows, i) {
        exists|k: int|
            #[trigger] first_unresolved_among(known_before(rows, i), rows[i].dependencies, k)
                && failure == (Failure::UnableToResolveDependency {
                dep: rows[i].dependencies[k],
            })
    } else if rows[i].id.len() == 0 {
        if is_group_row(rows, i) {
            failure == (Failure::InvalidWorkGroupId { id: rows[i].id })
        } else {
            failure == (Failure::InvalidWorkItemId { id: rows[i].id })
        }
    } else {
        has_empty_skill(rows, i) && failure == (Failure::InvalidSkill { id: rows[i].id })
    }
}

/// What converting `rows` must give.
///
/// Where a row names no level or several, the first such row is reported,
/// whatever else is wrong. Otherwise the rows are converted in order, and the
/// first that cannot be is reported. Where every row converts, the result is
/// the forest that the rows describe.
pub open spec fn conversion_outcome(rows: Seq<Row>, result: Result<Seq<WorkModel>, Failure>) -> bool {
    match result {
        Ok(forest) => {
            &&& forall|i: int| 0 <= i < rows.len() ==> (#[trigger] rows[i]).level is Some
            &&& forall|i: int| 0 <= i < rows.len() ==> #[trigger] row_converts(rows, i)
            &&& forest == roots_from(rows, 0)
        },
        Err(failure) => {
            if exists|i: int| 0 <= i < rows.len() && (#[trigger] rows[i]).level is None {
                exists|i: int|
                    0 <= i < rows.len() && (#[trigger] rows[i]).level is None && (forall|j: int|
                        0 <= j < i ==> (#[trigger] rows[j]).level is Some) && failure
                        == (Failure::InvalidWorkItem { id: rows[i].id })
            } else {
                exists|i: int|
                    0 <= i < rows.len() && !#[trigger] row_converts(rows, i) && (forall|j: int|
                        0 <= j < i ==> #[trigger] row_converts(rows, j)) && row_fails_with(
                        rows,
                        i,
                        failure,
                    )
            }
        },
    }
}

/// The label of a row: the text in the column of its level.
pub open spec fn label_of(template: Template) -> String {
    match (template.rung, template.task, template.sub_task) {
        (Some(rung), None, None) => rung,
        (None, Some(task), None) => task,
        (None, None, Some(sub_task)) => sub_task,
        _ => template.id,
    }
}

/// Reads the level of a row. A row that names no level, or more than one,
/// is refused with [`Error::InvalidWorkItem`].
pub fn template_to_event<'a>(template: &'a Template) -> (result: Result<TemplateEvent<'a>, Error>)
    ensures
        match level_of(*template) {
            Some(level) => result matches Ok(event) && event.level == level && event.template
                == template && *event.description == label_of(*template),
            None => result matches Err(error) && error@ == (Failure::InvalidWorkItem {
                id: template.id@,
            }),
        },
{
    match (&template.rung, &template.task, &template.sub_task) {
        (Some(rung), None, None) => Ok(
            TemplateEvent { level: Level::Rung, description: rung, template },
        ),
        (None, Some(task), None) => Ok(
            TemplateEvent { level: Level::Task, description: task, template },
        ),
        (None, None, Some(sub_task)) => Ok(
            TemplateEvent { level: Level::SubTask, description: sub_task, template },
        ),
        _ => Err(Error::InvalidWorkItem { id: template.id.clone() }),
    }
}

/// The ids introduced so far, by their texts.
pub open spec fn cache_model(cache: Seq<(String, WorkItemOrGroupId)>) -> Seq<
    (Seq<char>, Reference),
> {
    cache.map_values(|entry: (String, WorkItemOrGroupId)| (entry.0@, entry.1@))
}

/// What `name` refers to: the latest entry of the cache under that name.
fn lookup<'c>(dep_cache: &'c Vec<(String, WorkItemOrGroupId)>, name: &String) -> (found: Option<
    &'c WorkItemOrGroupId,
>)
    ensures
        match found {
            Some(reference) => latest_entry(cache_model(dep_cache@), name@) == Some(reference@),
            None => latest_entry(cache_model(dep_cache@), name@) is None,
        },
{
    let ghost known = cache_model(dep_cache@);
    let mut i: usize = dep_cache.len();
    assert(known.take(i as int) =~= known);
    while i > 0
        invariant
            i <= dep_cache.len(),
            known == cache_model(dep_cache@),
            latest_entry(known, name@) == latest_entry(known.take(i as int), name@),
        decreases i,
    {
        i -= 1;
        assert(known.take(i as int + 1).drop_last() =~= known.take(i as int));
        assert(known.take(i as int + 1).last() == known[i as int]);
        if dep_cache[i].0 == *name {
            return Some(&dep_cache[i].1);
        }
    }
    None
}

/// This takes deps as strings and converts them to an id. One caveat here is that deps must
/// appear in the file top down: `dep_cache` holds the ids of the rows converted so far, so a
/// dep that appears later in the file is an error.
pub fn transform_deps(deps: &Vec<String>, dep_cache: &Vec<(String, WorkItemOrGroupId)>) -> (result:
    Result<Vec<WorkItemOrGroupId>, Error>)
    ensures
        match result {
            Ok(found) => all_resolve_among(cache_model(dep_cache@), texts(deps@)) && references(
                found@,
            ) == resolved_among(cache_model(dep_cache@), texts(deps@)),
            Err(error) => exists|k: int|
                #[trigger] first_unresolved_among(cache_model(dep_cache@), texts(deps@), k)
                    && error@ == (Failure::UnableToResolveDependency { dep: deps@[k]@ }),
        },
{
    let ghost known = cache_model(dep_cache@);
    let ghost names = texts(deps@);
    let mut found: Vec<WorkItemOrGroupId> = Vec::new();
    let mut k: usize = 0;
    while k < deps.len()
        invariant
            k <= deps.len(),
            known == cache_model(dep_cache@),
            names == texts(deps@),
            found@.len() == k,
            forall|j: int| 0 <= j < k ==> latest_entry(known, #[trigger] names[j]) is Some,
            forall|j: int|
                0 <= j < k ==> (#[trigger] found@[j])@ == latest_entry(known, names[j]).unwrap(),
        decreases deps.len() - k,
    {
        assert(names[k as int] == deps@[k as int]@);
        match lookup(dep_cache, &deps[k]) {
            Some(reference) => {
                found.push(reference.clone());
            },
            None => {
                assert(first_unresolved_among(known, names, k as int));
                return Err(Error::UnableToResolveDependency { dep: deps[k].clone() });
            },
        }
        k += 1;
    }
    assert(references(found@) =~= resolved_among(known, names));
    Ok(found)
}

/// Whether `failure` is what a row with this id and these dependencies
/// fails with before its skills are looked at: its first dependency that
/// refers to nothing among `known`, else its empty id.
pub open spec fn head_fails_with(
    known: Seq<(Seq<char>, Reference)>,
    template: Template,
    as_group: bool,
    failure: Failure,
) -> bool {
    if !all_resolve_among(known, texts(template.dependencies@)) {
        exists|k: int|
            #[trigger] first_unresolved_among(known, texts(template.dependencies@), k) && failure
                == (Failure::UnableToResolveDependency { dep: texts(template.dependencies@)[k] })
    } else {
        template.id@.len() == 0 && if as_group {
            failure == (Failure::InvalidWorkGroupId { id: template.id@ })
        } else {
            failure == (Failure::InvalidWorkItemId { id: template.id@ })
        }
    }
}

/// Convert a template to a Work Group without children. This assumes the work has been done
/// to ensure that the template actually represents a work group. The group's id joins the
/// cache, so that later rows can depend on it.
pub fn template_to_work_group(
    template: &Template,
    dep_cache: &mut Vec<(String, WorkItemOrGroupId)>,
) -> (result: Result<WorkGroup, Error>)
    ensures
        match result {
            Ok(group) => {
                &&& all_resolve_among(cache_model(old(dep_cache)@), texts(template.dependencies@))
                &&& template.id@.len() > 0
                &&& group.id@ == template.id@
                &&& group.children@.len() == 0
                &&& references(group.dependencies@) == resolved_among(
                    cache_model(old(dep_cache)@),
                    texts(template.dependencies@),
                )
                &&& cache_model(final(dep_cache)@) == cache_model(old(dep_cache)@).push(
                    (template.id@, Reference::Group(template.id@)),
                )
            },
            Err(error) => {
                &&& head_fails_with(cache_model(old(dep_cache)@), *template, true, error@)
                &&& error.well_sourced()
            },
        },
{
    let dependencies = match transform_deps(&template.dependencies, dep_cache) {
        Ok(dependencies) => dependencies,
        Err(error) => {
            return Err(error);
        },
    };
    let work_group_id = match WorkGroupId::new(template.id.clone()) {
        Ok(id) => id,
        Err(source) => {
            return Err(Error::InvalidWorkGroupId { id: template.id.clone(), source });
        },
    };
    let ghost before = dep_cache@;
    dep_cache.push((template.id.clone(), WorkItemOrGroupId::WorkGroup(work_group_id.clone())));
    assert(cache_model(dep_cache@) =~= cache_model(before).push(
        (template.id@, Reference::Group(template.id@)),
    ));
    Ok(WorkGroup { id: work_group_id, children: Vec::new(), dependencies })
}

/// The skills of a work item: each of `skills` once, in the order of their
/// first occurrence. An empty skill is refused.
fn instantiate_skills(id: &String, skills: &Vec<String>) -> (result: Result<Vec<Skill>, Error>)
    ensures
        match result {
            Ok(made) => !has_empty(texts(skills@)) && skill_texts(made@) == each_once(
                texts(skills@),
            ),
            Err(error) => has_empty(texts(skills@)) && error@ == (Failure::InvalidSkill {
                id: id@,
            }) && error.well_sourced(),
        },
{
    let ghost names = texts(skills@);
    let mut made: Vec<Skill> = Vec::new();
    let mut k: usize = 0;
    while k < skills.len()
        invariant
            k <= skills.len(),
            names == texts(skills@),
            forall|j: int| 0 <= j < k ==> (#[trigger] names[j]).len() > 0,
            skill_texts(made@) == each_once(names.take(k as int)),
        decreases skills.len() - k,
    {
        assert(names[k as int] == skills@[k as int]@);
        assert(names.take(k as int + 1).drop_last() =~= names.take(k as int));
        assert(names.take(k as int + 1).last() == names[k as int]);
        let skill = match Skill::new(skills[k].clone()) {
            Ok(skill) => skill,
            Err(source) => {
                return Err(Error::InvalidSkill { id: id.clone(), source });
            },
        };
        let ghost before = made@;
        let mut seen = false;
        let mut j: usize = 0;
        while j < made.len()
            invariant
                j <= made.len(),
                made@ == before,
                seen <==> exists|m: int| 0 <= m < j && (#[trigger] made@[m])@ == skill@,
            decreases made.len() - j,
        {
            if made[j] == skill {
                seen = true;
            }
            j += 1;
        }
        assert(seen <==> skill_texts(before).contains(skill@)) by {
            if seen {
                let m = choose|m: int| 0 <= m < before.len() && (#[trigger] before[m])@ == skill@;
                assert(skill_texts(before)[m] == skill@);
            }
            if skill_texts(before).contains(skill@) {
                let m = choose|m: int|
                    0 <= m < skill_texts(before).len() && skill_texts(before)[m] == skill@;
                assert(before[m]@ == skill@);
            }
        }
        if !seen {
            made.push(skill);
            assert(skill_texts(made@) =~= skill_texts(before).push(skill@));
        }
        k += 1;
    }
    assert(names.take(k as int) =~= names);
    Ok(made)
}

/// Convert a template to a Work Item. This assumes the work has been done to ensure that the
/// template actually represents a work item. The item's id joins the cache, so that later
/// rows can depend on it.
pub fn template_to_work_item(
    template: &Template,
    dep_cache: &mut Vec<(String, WorkItemOrGroupId)>,
) -> (result: Result<WorkItem, Error>)
    ensures
        match result {
            Ok(item) => {
                &&& all_resolve_among(cache_model(old(dep_cache)@), texts(template.dependencies@))
                &&& template.id@.len() > 0
                &&& !has_empty(texts(template.skills@))
                &&& item.id@ == template.id@
                &&& item.estimates@.len() == 0
                &&& skill_texts(item.skills@) == each_once(texts(template.skills@))
                &&& references(item.dependencies@) == resolved_among(
                    cache_model(old(dep_cache)@),
                    texts(template.dependencies@),
                )
                &&& cache_model(final(dep_cache)@) == cache_model(old(dep_cache)@).push(
                    (template.id@, Reference::Item(template.id@)),
                )
            },
            Err(error) => {
                &&& error.well_sourced()
                &&& if all_resolve_among(
                    cache_model(old(dep_cache)@),
                    texts(template.dependencies@),
                ) && template.id@.len() > 0 {
                    has_empty(texts(template.skills@)) && error@ == (Failure::InvalidSkill {
                        id: template.id@,
                    })
                } else {
                    head_fails_with(cache_model(old(dep_cache)@), *template, false, error@)
                }
            },
        },
{
    let dependencies = match transform_deps(&template.dependencies, dep_cache) {
        Ok(dependencies) => dependencies,
        Err(error) => {
            return Err(error);
        },
    };
    let work_item_id = match WorkItemId::new(template.id.clone()) {
        Ok(id) => id,
        Err(source) => {
            return Err(Error::InvalidWorkItemId { id: template.id.clone(), source });
        },
    };
    let skills = match instantiate_skills(&template.id, &template.skills) {
        Ok(skills) => skills,
        Err(error) => {
            return Err(error);
        },
    };
    let ghost before = dep_cache@;
    dep_cache.push((template.id.clone(), WorkItemOrGroupId::WorkItem(work_item_id.clone())));
    assert(cache_model(dep_cache@) =~= cache_model(before).push(
        (template.id@, Reference::Item(template.id@)),
    ));
    Ok(WorkItem { id: work_item_id, estimates: Vec::new(), dependencies, skills })
}

/// The rows behind a list of events.
pub open spec fn event_rows(events: Seq<TemplateEvent>) -> Seq<Row> {
    events.map_values(|event: TemplateEvent| event.template@)
}

/// Whether every event carries the level that its row names.
pub open spec fn levels_read(events: Seq<TemplateEvent>) -> bool {
    forall|i: int|
        0 <= i < events.len() ==> level_of(*(#[trigger] events[i]).template) == Some(
            events[i].level,
        )
}

/// Whether no leaf item of `forest` carries an estimate.
pub open spec fn without_estimates(forest: Seq<Work>) -> bool {
    forall|k: int|
        0 <= k < forest_leaves(forest).len() ==> (#[trigger] forest_leaves(
            forest,
        )[k]).estimates@.len() == 0
}

proof fn lemma_known_step(rows: Seq<Row>, i: int)
    requires
        0 <= i < rows.len(),
    ensures
        known_before(rows, i + 1) == known_before(rows, i).push(
            (rows[i].id, introduced(rows, i)),
        ),
{
    assert(known_before(rows, i + 1) =~= known_before(rows, i).push(
        (rows[i].id, introduced(rows, i)),
    ));
}

proof fn lemma_forest_push(forest: Seq<Work>, work: Work)
    ensures
        forest_model(forest.push(work)) == forest_model(forest).push(work_model(work)),
        forest_leaves(forest.push(work)) == forest_leaves(forest) + sim_external::work_leaves(
            work,
        ),
{
    assert(forest.push(work).drop_last() =~= forest);
}

proof fn lemma_forest_single(work: Work)
    ensures
        forest_model(seq![work]) == seq![work_model(work)],
        forest_leaves(seq![work]) == sim_external::work_leaves(work),
{
    lemma_forest_push(Seq::empty(), work);
    assert(Seq::<Work>::empty().push(work) =~= seq![work]);
    assert(forest_model(seq![work]) =~= seq![work_model(work)]);
    assert(forest_leaves(seq![work]) =~= sim_external::work_leaves(work));
}

/// The rung that ends a run of tasks also ends it when the run is entered
/// after the sub-tasks of one of its tasks.
proof fn lemma_rung_end_after_sub_tasks(rows: Seq<Row>, i: int)
    requires
        0 <= i <= rows.len(),
    ensures
        i <= sub_tasks_end(rows, i) <= rows.len(),
        rung_end(rows, sub_tasks_end(rows, i)) == rung_end(rows, i),
        forall|j: int|
            i <= j < sub_tasks_end(rows, i) ==> (#[trigger] rows[j]).level == Some(
                Level::SubTask,
            ),
        sub_tasks_end(rows, i) < rows.len() ==> rows[sub_tasks_end(rows, i)].level != Some(
            Level::SubTask,
        ),
    decreases rows.len() - i,
{
    if i < rows.len() && rows[i].level == Some(Level::SubTask) {
        lemma_rung_end_after_sub_tasks(rows, i + 1);
    }
}

proof fn lemma_rung_end_bounds(rows: Seq<Row>, i: int)
    requires
        0 <= i <= rows.len(),
    ensures
        i <= rung_end(rows, i) <= rows.len(),
        rung_end(rows, i) < rows.len() ==> rows[rung_end(rows, i)].level == Some(Level::Rung),
    decreases rows.len() - i,
{
    if i < rows.len() && rows[i].level != Some(Level::Rung) {
        lemma_rung_end_bounds(rows, i + 1);
    }
}

/// Converts the task or sub-task at row `i`, with the sub-tasks that follow
/// a task, and says at which row the next node starts.
fn task_to_work<'a>(
    events: &Vec<TemplateEvent<'a>>,
    i: usize,
    dep_cache: &mut Vec<(String, WorkItemOrGroupId)>,
) -> (result: Result<(Work, usize), Error>)
    requires
        i < events.len(),
        levels_read(events@),
        events[i as int].level != Level::Rung,
        cache_model(old(dep_cache)@) == known_before(event_rows(events@), i as int),
    ensures
        match result {
            Ok((work, next)) => {
                &&& next == task_next(event_rows(events@), i as int)
                &&& i < next <= events.len()
                &&& work_model(work) == task_node(event_rows(events@), i as int)
                &&& without_estimates(seq![work])
                &&& forall|j: int|
                    i <= j < next ==> #[trigger] row_converts(event_rows(events@), j)
                &&& cache_model(final(dep_cache)@) == known_before(
                    event_rows(events@),
                    next as int,
                )
            },
            Err(error) => {
                &&& error.well_sourced()
                &&& exists|j: int|
                    i <= j < events.len() && !#[trigger] row_converts(event_rows(events@), j)
                        && (forall|m: int|
                        i <= m < j ==> #[trigger] row_converts(event_rows(events@), m))
                        && row_fails_with(event_rows(events@), j, error@)
            },
        },
{
    let ghost rows = event_rows(events@);
    assert(forall|j: int| 0 <= j < rows.len() ==> (#[trigger] rows[j]).level == Some(events@[j].level));
    proof {
        lemma_known_step(rows, i as int);
        lemma_rung_end_after_sub_tasks(rows, i as int + 1);
    }
    if events[i].level == Level::Task && i + 1 < events.len() && events[i + 1].level
        == Level::SubTask {
        assert(is_group_row(rows, i as int));
        let mut group = match template_to_work_group(events[i].template, dep_cache) {
            Ok(group) => group,
            Err(error) => {
                assert(!row_converts(rows, i as int));
                assert(row_fails_with(rows, i as int, error@));
                return Err(error);
            },
        };
        assert(row_converts(rows, i as int));
        let ghost end = sub_tasks_end(rows, i as int + 1);
        let mut k: usize = i + 1;
        assert(forest_model(group.children@) =~= leaves_between(rows, i as int + 1, k as int));
        while k < events.len() && events[k].level == Level::SubTask
            invariant
                i < k <= events.len(),
                k <= end,
                levels_read(events@),
                rows == event_rows(events@),
                end == sub_tasks_end(rows, i as int + 1),
                end == sub_tasks_end(rows, k as int),
                group.id@ == rows[i as int].id,
                references(group.dependencies@) == resolved_dependencies(rows, i as int),
                forest_model(group.children@) == leaves_between(rows, i as int + 1, k as int),
                without_estimates(group.children@),
                forall|j: int| i <= j < k ==> #[trigger] row_converts(rows, j),
                cache_model(dep_cache@) == known_before(rows, k as int),
            decreases events.len() - k,
        {
            assert(rows[k as int].level == Some(events@[k as int].level));
            assert(!is_group_row(rows, k as int));
            proof {
                lemma_known_step(rows, k as int);
                lemma_rung_end_after_sub_tasks(rows, k as int + 1);
            }
            let item = match template_to_work_item(events[k].template, dep_cache) {
                Ok(item) => item,
                Err(error) => {
                    assert(!row_converts(rows, k as int));
                    assert(row_fails_with(rows, k as int, error@));
                    return Err(error);
                },
            };
            assert(row_converts(rows, k as int));
            let ghost before = group.children@;
            proof {
                lemma_forest_push(before, Work::WorkItem(item));
            }
            group.children.push(Work::WorkItem(item));
            assert(work_model(Work::WorkItem(item)) == leaf_at(rows, k as int));
            assert(forest_model(group.children@) =~= leaves_between(
                rows,
                i as int + 1,
                k as int + 1,
            ));
            assert(without_estimates(group.children@)) by {
                assert(sim_external::work_leaves(Work::WorkItem(item)) =~= seq![item]);
            }
            k += 1;
        }
        assert(k == end) by {
            if k < events.len() {
                assert(rows[k as int].level == Some(events@[k as int].level));
            }
        }
        let work = Work::WorkGroup(group);
        assert(without_estimates(seq![work])) by {
            lemma_forest_single(work);
            assert(sim_external::work_leaves(work) == forest_leaves(group.children@));
        }
        Ok((work, k))
    } else {
        assert(!is_group_row(rows, i as int)) by {
            assert(rows[i as int].level == Some(events@[i as int].level));
            if i + 1 < events.len() {
                assert(rows[i as int + 1].level == Some(events@[i as int + 1].level));
            }
        }
        let item = match template_to_work_item(events[i].template, dep_cache) {
            Ok(item) => item,
            Err(error) => {
                assert(!row_converts(rows, i as int));
                assert(row_fails_with(rows, i as int, error@));
                return Err(error);
            },
        };
        assert(row_converts(rows, i as int));
        let work = Work::WorkItem(item);
        assert(without_estimates(seq![work])) by {
            lemma_forest_single(work);
        }
        Ok((work, i + 1))
    }
}

/// Converts the rung at row `i` with the tasks that follow it, and says at
/// which row the next root node starts.
fn rung_to_work<'a>(
    events: &Vec<TemplateEvent<'a>>,
    i: usize,
    dep_cache: &mut Vec<(String, WorkItemOrGroupId)>,
) -> (result: Result<(Work, usize), Error>)
    requires
        i < events.len(),
        levels_read(events@),
        events[i as int].level == Level::Rung,
        cache_model(old(dep_cache)@) == known_before(event_rows(events@), i as int),
    ensures
        match result {
            Ok((work, next)) => {
                &&& next == root_next(event_rows(events@), i as int)
                &&& i < next <= events.len()
                &&& work_model(work) == root_node(event_rows(events@), i as int)
                &&& without_estimates(seq![work])
                &&& forall|j: int|
                    i <= j < next ==> #[trigger] row_converts(event_rows(events@), j)
                &&& cache_model(final(dep_cache)@) == known_before(
                    event_rows(events@),
                    next as int,
                )
            },
            Err(error) => {
                &&& error.well_sourced()
                &&& exists|j: int|
                    i <= j < events.len() && !#[trigger] row_converts(event_rows(events@), j)
                        && (forall|m: int|
                        i <= m < j ==> #[trigger] row_converts(event_rows(events@), m))
                        && row_fails_with(event_rows(events@), j, error@)
            },
        },
{
    let ghost rows = event_rows(events@);
    assert(forall|j: int|
        0 <= j < rows.len() ==> (#[trigger] rows[j]).level == Some(events@[j].level));
    assert(is_group_row(rows, i as int));
    proof {
        lemma_known_step(rows, i as int);
        lemma_rung_end_bounds(rows, i as int + 1);
    }
    let mut group = match template_to_work_group(events[i].template, dep_cache) {
        Ok(group) => group,
        Err(error) => {
            assert(!row_converts(rows, i as int));
            assert(row_fails_with(rows, i as int, error@));
            return Err(error);
        },
    };
    assert(row_converts(rows, i as int));
    let ghost end = rung_end(rows, i as int + 1);
    let mut k: usize = i + 1;
    assert(forest_model(group.children@) + tasks_between(rows, k as int, end) =~= tasks_between(
        rows,
        i as int + 1,
        end,
    ));
    while k < events.len() && events[k].level != Level::Rung
        invariant
            i < k <= events.len(),
            k <= end <= events.len(),
            levels_read(events@),
            rows == event_rows(events@),
            end == rung_end(rows, i as int + 1),
            end == rung_end(rows, k as int),
            group.id@ == rows[i as int].id,
            references(group.dependencies@) == resolved_dependencies(rows, i as int),
            forest_model(group.children@) + tasks_between(rows, k as int, end) == tasks_between(
                rows,
                i as int + 1,
                end,
            ),
            without_estimates(group.children@),
            forall|j: int| i <= j < k ==> #[trigger] row_converts(rows, j),
            cache_model(dep_cache@) == known_before(rows, k as int),
        decreases events.len() - k,
    {
        assert(rows[k as int].level == Some(events@[k as int].level));
        proof {
            lemma_rung_end_bounds(rows, k as int + 1);
            lemma_rung_end_after_sub_tasks(rows, k as int + 1);
        }
        let (work, next) = match task_to_work(events, k, dep_cache) {
            Ok(made) => made,
            Err(error) => {
                return Err(error);
            },
        };
        proof {
            lemma_rung_end_bounds(rows, next as int);
            lemma_forest_push(group.children@, work);
            lemma_forest_single(work);
            assert(tasks_between(rows, k as int, end) == seq![task_node(rows, k as int)]
                + tasks_between(rows, next as int, end));
            assert(forest_model(group.children@.push(work)) + tasks_between(
                rows,
                next as int,
                end,
            ) =~= forest_model(group.children@) + tasks_between(rows, k as int, end));
        }
        group.children.push(work);
        k = next;
    }
    assert(k == end) by {
        if k < events.len() {
            assert(rows[k as int].level == Some(events@[k as int].level));
        }
    }
    assert(forest_model(group.children@) =~= tasks_between(rows, i as int + 1, end));
    let work = Work::WorkGroup(group);
    assert(without_estimates(seq![work])) by {
        lemma_forest_single(work);
        assert(sim_external::work_leaves(work) == forest_leaves(group.children@));
    }
    Ok((work, k))
}

/// What a conversion handed back, by its texts.
pub open spec fn result_model(result: Result<Vec<Work>, Error>) -> Result<Seq<WorkModel>, Failure> {
    match result {
        Ok(forest) => Ok(forest_model(forest@)),
        Err(error) => Err(error@),
    }
}

/// The template is more rigid then the hierarchical work structure that we have.
/// The template has 'rungs', 'tasks' and 'sub_tasks'. Those generally equate to epics, stories
/// and sub_tasks in most peoples thinking. In our simulation structure they equate to two
/// levels of WorkGroup -> WorkGroup -> WorkItem. We allow the user to omit the sub_tasks. If
/// they do that then we end up with WorkGroup -> WorkItem. Either is just fine, we just have
/// to take it into account when 'parsing' the work.
///
/// No work item of the result carries an estimate, and every skill is listed once.
pub fn templates_to_work(templates: Vec<Template>) -> (result: Result<Vec<Work>, Error>)
    ensures
        conversion_outcome(rows_of(templates@), result_model(result)),
        result matches Ok(forest) ==> without_estimates(forest@),
        result matches Err(error) ==> error.well_sourced(),
{
    let ghost rows = rows_of(templates@);
    let mut events: Vec<TemplateEvent> = Vec::with_capacity(templates.len());
    let mut n: usize = 0;
    while n < templates.len()
        invariant
            n <= templates.len(),
            rows == rows_of(templates@),
            events@.len() == n,
            forall|j: int| 0 <= j < n ==> (#[trigger] events@[j]).template == templates@[j],
            forall|j: int| 0 <= j < n ==> (#[trigger] rows[j]).level is Some,
            levels_read(events@),
        decreases templates.len() - n,
    {
        let event = match template_to_event(&templates[n]) {
            Ok(event) => event,
            Err(error) => {
                assert(rows[n as int].level is None);
                return Err(error);
            },
        };
        assert(rows[n as int].level is Some);
        events.push(event);
        n += 1;
    }
    assert(event_rows(events@) =~= rows);
    assert(!(exists|i: int| 0 <= i < rows.len() && (#[trigger] rows[i]).level is None));

    let mut dep_cache: Vec<(String, WorkItemOrGroupId)> = Vec::new();
    let mut result: Vec<Work> = Vec::with_capacity(templates.len());
    let mut i: usize = 0;
    assert(cache_model(dep_cache@) =~= known_before(rows, 0));
    assert(forest_model(result@) + roots_from(rows, 0) =~= roots_from(rows, 0));
    while i < events.len()
        invariant
            i <= events.len(),
            events@.len() == rows.len(),
            levels_read(events@),
            rows == event_rows(events@),
            rows == rows_of(templates@),
            forall|j: int| 0 <= j < rows.len() ==> (#[trigger] rows[j]).level is Some,
            forest_model(result@) + roots_from(rows, i as int) == roots_from(rows, 0),
            without_estimates(result@),
            forall|j: int| 0 <= j < i ==> #[trigger] row_converts(rows, j),
            cache_model(dep_cache@) == known_before(rows, i as int),
        decreases events.len() - i,
    {
        assert(rows[i as int].level == Some(events@[i as int].level));
        let converted = if events[i].level == Level::Rung {
            rung_to_work(&events, i, &mut dep_cache)
        } else {
            task_to_work(&events, i, &mut dep_cache)
        };
        let (work, next) = match converted {
            Ok(made) => made,
            Err(error) => {
                proof {
                    let j = choose|j: int|
                        i <= j < events.len() && !#[trigger] row_converts(rows, j) && (forall|
                            m: int,
                        |
                            i <= m < j ==> #[trigger] row_converts(rows, m)) && row_fails_with(
                            rows,
                            j,
                            error@,
                        );
                    assert forall|m: int| 0 <= m < j implies #[trigger] row_converts(
                        rows,
                        m,
                    ) by {
                        if m >= i {
                        }
                    }
                    assert(!(exists|u: int|
                        0 <= u < rows.len() && (#[trigger] rows[u]).level is None));
                }
                return Err(error);
            },
        };
        proof {
            lemma_forest_push(result@, work);
            lemma_forest_single(work);
            assert(roots_from(rows, i as int) == seq![root_node(rows, i as int)] + roots_from(
                rows,
                next as int,
            ));
            assert(forest_model(result@.push(work)) + roots_from(rows, next as int)
                =~= forest_model(result@) + roots_from(rows, i as int));
        }
        result.push(work);
        i = next;
    }
    assert(forest_model(result@) =~= roots_from(rows, 0));
    Ok(result)
}

} // verus!
