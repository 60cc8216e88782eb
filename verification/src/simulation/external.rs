// This file is part of Lectev.
//
//  Lectev is free software: you can redistribute it and/or modify
//  it under the terms of the GNU General Public License as published by
//  the Free Software Foundation, either version 3 of the License, or
//  (at your option) any later version.
//
//  Lectev is distributed in the hope that it will be useful,
//  but WITHOUT ANY WARRANTY; without even the implied warranty of
//  MERCHANTABILITY or FITNESS FOR A PARTICULAR PURPOSE.  See the
//  GNU General Public License for more details.
//
//  You should have received a copy of the GNU General Public License
//  along with Lectev.  If not, see <https://www.gnu.org/licenses/>.

//! # Data types related to simulation
//!
//! Identifiers, workers and the recursive work model: a forest of work groups
//! whose leaves are work items, with "depends on" references between them.
use crate::time::Timestamp;
use vstd::prelude::*;
use vstd::std_specs::cmp::PartialEqSpecImpl;

verus! {

/// Why an identifier could not be built. Each variant carries the rejected text.
#[derive(Debug, PartialEq, Eq)]
pub enum Error {
    /// Empty string provided for worker id
    InstantiateWorkerId { id: String },
    /// Empty string provided for work item id
    CreateWorkItemId { id: String },
    /// Empty string provided for work group id
    CreateWorkGroupId { id: String },
    /// Empty string provided for creating a skill
    InstantiateSkill { id: String },
}

impl Error {
    /// The text that was refused.
    pub fn rejected(&self) -> (res: &String)
        ensures
            res@ == self.rejected_text(),
    {
        match self {
            Error::InstantiateWorkerId { id } => id,
            Error::CreateWorkItemId { id } => id,
            Error::CreateWorkGroupId { id } => id,
            Error::InstantiateSkill { id } => id,
        }
    }

    /// The text carried by the error, whatever its variant.
    pub open spec fn rejected_text(&self) -> Seq<char> {
        match self {
            Error::InstantiateWorkerId { id } => id@,
            Error::CreateWorkItemId { id } => id@,
            Error::CreateWorkGroupId { id } => id@,
            Error::InstantiateSkill { id } => id@,
        }
    }
}

/// Identifies a worker. Never empty.
#[derive(Debug, Hash)]
pub struct WorkerId(String);

impl View for WorkerId {
    type V = Seq<char>;

    closed spec fn view(&self) -> Seq<char> {
        self.0@
    }
}

impl WorkerId {
    #[verifier::type_invariant]
    spec fn non_empty(&self) -> bool {
        self.0@.len() > 0
    }

    /// Wraps `value`; the empty string is refused and handed back in the error.
    pub fn new(value: String) -> (res: Result<Self, Error>)
        ensures
            value@.len() == 0 ==> (res matches Err(Error::InstantiateWorkerId { id }) && id@ == value@),
            value@.len() > 0 ==> (res matches Ok(made) && made@ == value@),
    {
        if value.as_str().is_empty() {
            Err(Error::InstantiateWorkerId { id: value })
        } else {
            Ok(Self(value))
        }
    }

    /// The identifier's text, which has at least one character.
    pub fn as_str(&self) -> (res: &str)
        ensures
            res@ == self@,
            res@.len() > 0,
    {
        proof {
            use_type_invariant(self);
        }
        self.0.as_str()
    }
}

impl Clone for WorkerId {
    fn clone(&self) -> (res: Self)
        ensures
            res == *self,
    {
        proof {
            use_type_invariant(self);
        }
        WorkerId(self.0.clone())
    }
}

impl PartialEq for WorkerId {
    fn eq(&self, other: &Self) -> (res: bool) {
        self.0 == other.0
    }
}

impl PartialEqSpecImpl for WorkerId {
    open spec fn obeys_eq_spec() -> bool {
        true
    }

    open spec fn eq_spec(&self, other: &Self) -> bool {
        self@ == other@
    }
}

impl Eq for WorkerId {}

/// Identifies a leaf work item. Never empty.
#[derive(Debug, Hash)]
pub struct WorkItemId(String);

impl View for WorkItemId {
    type V = Seq<char>;

    closed spec fn view(&self) -> Seq<char> {
        self.0@
    }
}

impl WorkItemId {
    #[verifier::type_invariant]
    spec fn non_empty(&self) -> bool {
        self.0@.len() > 0
    }

    /// Wraps `value`; the empty string is refused and handed back in the error.
    pub fn new(value: String) -> (res: Result<Self, Error>)
        ensures
            value@.len() == 0 ==> (res matches Err(Error::CreateWorkItemId { id }) && id@ == value@),
            value@.len() > 0 ==> (res matches Ok(made) && made@ == value@),
    {
        if value.as_str().is_empty() {
            Err(Error::CreateWorkItemId { id: value })
        } else {
            Ok(Self(value))
        }
    }

    /// The identifier's text, which has at least one character.
    pub fn as_str(&self) -> (res: &str)
        ensures
            res@ == self@,
            res@.len() > 0,
    {
        proof {
            use_type_invariant(self);
        }
        self.0.as_str()
    }
}

impl Clone for WorkItemId {
    fn clone(&self) -> (res: Self)
        ensures
            res == *self,
    {
        proof {
            use_type_invariant(self);
        }
        WorkItemId(self.0.clone())
    }
}

impl PartialEq for WorkItemId {
    fn eq(&self, other: &Self) -> (res: bool) {
        self.0 == other.0
    }
}

impl PartialEqSpecImpl for WorkItemId {
    open spec fn obeys_eq_spec() -> bool {
        true
    }

    open spec fn eq_spec(&self, other: &Self) -> bool {
        self@ == other@
    }
}

impl Eq for WorkItemId {}

/// Identifies a work group. Never empty.
#[derive(Debug, Hash)]
pub struct WorkGroupId(String);

impl View for WorkGroupId {
    type V = Seq<char>;

    closed spec fn view(&self) -> Seq<char> {
        self.0@
    }
}

impl WorkGroupId {
    #[verifier::type_invariant]
    spec fn non_empty(&self) -> bool {
        self.0@.len() > 0
    }

    /// Wraps `value`; the empty string is refused and handed back in the error.
    pub fn new(value: String) -> (res: Result<Self, Error>)
        ensures
            value@.len() == 0 ==> (res matches Err(Error::CreateWorkGroupId { id }) && id@ == value@),
            value@.len() > 0 ==> (res matches Ok(made) && made@ == value@),
    {
        if value.as_str().is_empty() {
            Err(Error::CreateWorkGroupId { id: value })
        } else {
            Ok(Self(value))
        }
    }

    /// The identifier's text, which has at least one character.
    pub fn as_str(&self) -> (res: &str)
        ensures
            res@ == self@,
            res@.len() > 0,
    {
        proof {
            use_type_invariant(self);
        }
        self.0.as_str()
    }
}

impl Clone for WorkGroupId {
    fn clone(&self) -> (res: Self)
        ensures
            res == *self,
    {
        proof {
            use_type_invariant(self);
        }
        WorkGroupId(self.0.clone())
    }
}

impl PartialEq for WorkGroupId {
    fn eq(&self, other: &Self) -> (res: bool) {
        self.0 == other.0
    }
}

impl PartialEqSpecImpl for WorkGroupId {
    open spec fn obeys_eq_spec() -> bool {
        true
    }

    open spec fn eq_spec(&self, other: &Self) -> bool {
        self@ == other@
    }
}

impl Eq for WorkGroupId {}

/// Names a skill that a worker has or a work item needs. Never empty.
#[derive(Debug, Hash)]
pub struct Skill(String);

impl View for Skill {
    type V = Seq<char>;

    closed spec fn view(&self) -> Seq<char> {
        self.0@
    }
}

impl Skill {
    #[verifier::type_invariant]
    spec fn non_empty(&self) -> bool {
        self.0@.len() > 0
    }

    /// Wraps `value`; the empty string is refused and handed back in the error.
    pub fn new(value: String) -> (res: Result<Self, Error>)
        ensures
            value@.len() == 0 ==> (res matches Err(Error::InstantiateSkill { id }) && id@ == value@),
            value@.len() > 0 ==> (res matches Ok(made) && made@ == value@),
    {
        if value.as_str().is_empty() {
            Err(Error::InstantiateSkill { id: value })
        } else {
            Ok(Self(value))
        }
    }

    /// The identifier's text, which has at least one character.
    pub fn as_str(&self) -> (res: &str)
        ensures
            res@ == self@,
            res@.len() > 0,
    {
        proof {
            use_type_invariant(self);
        }
        self.0.as_str()
    }
}

impl Clone for Skill {
    fn clone(&self) -> (res: Self)
        ensures
            res == *self,
    {
        proof {
            use_type_invariant(self);
        }
        Skill(self.0.clone())
    }
}

impl PartialEq for Skill {
    fn eq(&self, other: &Self) -> (res: bool) {
        self.0 == other.0
    }
}

impl PartialEqSpecImpl for Skill {
    open spec fn obeys_eq_spec() -> bool {
        true
    }

    open spec fn eq_spec(&self, other: &Self) -> bool {
        self@ == other@
    }
}

impl Eq for Skill {}

/// A day on which a worker is partly or wholly away.
///
/// The engine only carries these values: `percentage` is the IEEE-754
/// single-precision bit pattern of the fraction of the day that is taken.
#[derive(Debug, Clone, Copy, PartialEq, Eq)]
pub struct Pto {
    pub date: Timestamp,
    pub percentage: u32,
}

/// Represents an individual doing work in the system. Each individual has a set of skills. Those
/// skills map to the skills required to do a unit of work.
#[derive(Debug, PartialEq)]
pub struct Worker {
    pub id: WorkerId,
    pub skills: Vec<Skill>,
    pub pto: Vec<Pto>,
}

/// What one worker expects a work item to cost, as the 5th and 95th
/// percentile. Both are carried as IEEE-754 single-precision bit patterns.
#[derive(Debug, PartialEq)]
pub struct Estimate {
    pub id: WorkerId,
    pub p5: u32,
    pub p95: u32,
}

/// A dependency may point at a single work item or at a whole group, which
/// stands for every leaf item nested beneath that group.
#[derive(Debug, Hash)]
pub enum WorkItemOrGroupId {
    WorkItem(WorkItemId),
    WorkGroup(WorkGroupId),
}

/// What a dependency points at, by the text of the id.
pub enum Reference {
    Item(Seq<char>),
    Group(Seq<char>),
}

impl View for WorkItemOrGroupId {
    type V = Reference;

    open spec fn view(&self) -> Reference {
        match self {
            WorkItemOrGroupId::WorkItem(id) => Reference::Item(id@),
            WorkItemOrGroupId::WorkGroup(id) => Reference::Group(id@),
        }
    }
}

/// The references that a list of dependencies holds, in order.
pub open spec fn references(dependencies: Seq<WorkItemOrGroupId>) -> Seq<Reference> {
    dependencies.map_values(|d: WorkItemOrGroupId| d@)
}

/// The texts of a list of skills, in order.
pub open spec fn skill_texts(skills: Seq<Skill>) -> Seq<Seq<char>> {
    skills.map_values(|s: Skill| s@)
}

impl Clone for WorkItemOrGroupId {
    fn clone(&self) -> (res: Self)
        ensures
            res == *self,
    {
        match self {
            WorkItemOrGroupId::WorkItem(id) => WorkItemOrGroupId::WorkItem(id.clone()),
            WorkItemOrGroupId::WorkGroup(id) => WorkItemOrGroupId::WorkGroup(id.clone()),
        }
    }
}

impl PartialEq for WorkItemOrGroupId {
    fn eq(&self, other: &Self) -> (res: bool) {
        match (self, other) {
            (WorkItemOrGroupId::WorkItem(a), WorkItemOrGroupId::WorkItem(b)) => a == b,
            (WorkItemOrGroupId::WorkGroup(a), WorkItemOrGroupId::WorkGroup(b)) => a == b,
            _ => false,
        }
    }
}

impl PartialEqSpecImpl for WorkItemOrGroupId {
    open spec fn obeys_eq_spec() -> bool {
        true
    }

    open spec fn eq_spec(&self, other: &Self) -> bool {
        match (self, other) {
            (WorkItemOrGroupId::WorkItem(a), WorkItemOrGroupId::WorkItem(b)) => a@ == b@,
            (WorkItemOrGroupId::WorkGroup(a), WorkItemOrGroupId::WorkGroup(b)) => a@ == b@,
            _ => false,
        }
    }
}

impl Eq for WorkItemOrGroupId {}

/// A leaf unit of work; it cannot contain other work.
#[derive(Debug, PartialEq)]
pub struct WorkItem {
    pub id: WorkItemId,
    pub estimates: Vec<(WorkerId, Estimate)>,
    pub dependencies: Vec<WorkItemOrGroupId>,
    pub skills: Vec<Skill>,
}

/// An internal node: it gathers work items and nested groups, and its
/// dependencies apply to everything nested beneath it.
#[derive(Debug, PartialEq)]
pub struct WorkGroup {
    pub id: WorkGroupId,
    pub children: Vec<Work>,
    pub dependencies: Vec<WorkItemOrGroupId>,
}

/// A node of the work forest.
#[derive(Debug, PartialEq)]
pub enum Work {
    WorkGroup(WorkGroup),
    WorkItem(WorkItem),
}

/// The work model: the workers and the forest of work they are to do.
#[derive(Debug, PartialEq)]
pub struct Simulation {
    pub workers: Vec<Worker>,
    pub work: Vec<Work>,
}

/// When an item or a group is expected to be complete.
#[derive(Debug, PartialEq)]
pub struct Projection {
    pub item: WorkItemOrGroupId,
    pub projected_completion_date: Timestamp,
}

/// The shape of a node: ids, nesting, skills and dependencies, as texts.
pub enum WorkModel {
    Group { id: Seq<char>, children: Seq<WorkModel>, dependencies: Seq<Reference> },
    Item { id: Seq<char>, skills: Seq<Seq<char>>, dependencies: Seq<Reference> },
}

/// The shape of `work`.
pub open spec fn work_model(work: Work) -> WorkModel
    decreases work,
{
    match work {
        Work::WorkItem(item) => WorkModel::Item {
            id: item.id@,
            skills: skill_texts(item.skills@),
            dependencies: references(item.dependencies@),
        },
        Work::WorkGroup(group) => WorkModel::Group {
            id: group.id@,
            children: forest_model(group.children@),
            dependencies: references(group.dependencies@),
        },
    }
}

/// The shapes of a sequence of nodes, in order.
pub open spec fn forest_model(forest: Seq<Work>) -> Seq<WorkModel>
    decreases forest,
{
    if forest.len() == 0 {
        Seq::empty()
    } else {
        forest_model(forest.drop_last()).push(work_model(forest.last()))
    }
}

/// The leaf items beneath `work`, in the order in which a depth-first walk
/// meets them. An item is its own only leaf.
pub open spec fn work_leaves(work: Work) -> Seq<WorkItem>
    decreases work,
{
    match work {
        Work::WorkItem(item) => seq![item],
        Work::WorkGroup(group) => forest_leaves(group.children@),
    }
}

/// The leaf items of a sequence of nodes: those of each node, one node after
/// the other.
pub open spec fn forest_leaves(forest: Seq<Work>) -> Seq<WorkItem>
    decreases forest,
{
    if forest.len() == 0 {
        Seq::empty()
    } else {
        forest_leaves(forest.drop_last()) + work_leaves(forest.last())
    }
}

/// Every group at or beneath `work`, each paired with the leaf items nested
/// anywhere under it. A group comes before the groups nested in it.
pub open spec fn work_groups(work: Work) -> Seq<(WorkGroupId, Seq<WorkItem>)>
    decreases work,
{
    match work {
        Work::WorkItem(_) => Seq::empty(),
        Work::WorkGroup(group) => seq![(group.id, forest_leaves(group.children@))]
            + forest_groups(group.children@),
    }
}

/// The groups of a sequence of nodes: those of each node, one node after the
/// other.
pub open spec fn forest_groups(forest: Seq<Work>) -> Seq<(WorkGroupId, Seq<WorkItem>)>
    decreases forest,
{
    if forest.len() == 0 {
        Seq::empty()
    } else {
        forest_groups(forest.drop_last()) + work_groups(forest.last())
    }
}

/// Walking one node further adds that node's leaves at the end.
pub proof fn lemma_forest_leaves_step(forest: Seq<Work>, i: int)
    requires
        0 <= i < forest.len(),
    ensures
        forest_leaves(forest.take(i + 1)) == forest_leaves(forest.take(i)) + work_leaves(
            forest[i],
        ),
{
    assert(forest.take(i + 1).drop_last() =~= forest.take(i));
}

/// Walking one node further adds that node's groups at the end.
pub proof fn lemma_forest_groups_step(forest: Seq<Work>, i: int)
    requires
        0 <= i < forest.len(),
    ensures
        forest_groups(forest.take(i + 1)) == forest_groups(forest.take(i)) + work_groups(
            forest[i],
        ),
{
    assert(forest.take(i + 1).drop_last() =~= forest.take(i));
}

} // verus!
