// This file is part of Lectev.
//
//  Lectev is free software: you can redistribute it and/or modify
//  it under the terms of the GNU General Public License as published by
//  the Free Software Foundation, either version 3 of the License, or
//  (at your option) any later version.
//
//  Lectev is distributed in the hope that it will be useful,
//  but WITHOUT ANY WARRANTY; without even the implied warranty of
//  MERCHANTABILITY or FITNESS FOR A PARTICULAR PURPOSE.  See the
//  GNU General Public License for more details.
//
//  You should have received a copy of the GNU General Public License
//  along with Lectev.  If not, see <https://www.gnu.org/licenses/>.

//! Translates the tracker's records into the tracker-independent model of
//! items. It does no input or output. If more data is needed, or needed in a
//! different way, the records should change.
//!
//! This is simply a A -> B translation.
use crate::jira::config::Config;
use crate::jira::items::{
    Item, ItemId, ItemStatus, ItemTimeLineEntry, ItemType, NativeId, Resolution,
};
use crate::jira::native::{
    ChangeGroup, ChangeLogEntry, CustomFieldName, FieldValue, Issue, IssueDetail, IssueKey,
};
use crate::time::Timestamp;
use vstd::prelude::*;
use vstd::string::StringExecFns;

verus! {

/// [`url::ParseError`], the reason why a text is no address. It is carried
/// into the error that reports it, and nothing is known of what is in it.
#[verifier::external_type_specification]
#[verifier::external_body]
pub struct ExParseError(url::ParseError);

#[derive(Debug, PartialEq, Eq)]
pub enum Error {
    MissingResolutionMapping { unmapped_resolution_name: String },
    MissingStatusMapping { unmapped_status_name: String },
    InvalidResolutionField { resolution_field: String, issue_key: String },
    CouldNotCreateUrl { target: String, source: url::ParseError },
    CanNotCloseClosedStatus,
    CanNotCloseEstimate,
    UnableToParseDays { value: String },
}

/// An [`Error`] by the texts it carries.
pub enum Failure {
    MissingResolutionMapping { unmapped_resolution_name: Seq<char> },
    MissingStatusMapping { unmapped_status_name: Seq<char> },
    InvalidResolutionField { resolution_field: Seq<char>, issue_key: Seq<char> },
    CouldNotCreateUrl { target: Seq<char> },
    CanNotCloseClosedStatus,
    CanNotCloseEstimate,
    UnableToParseDays { value: Seq<char> },
}

impl View for Error {
    type V = Failure;

    open spec fn view(&self) -> Failure {
        match self {
            Error::MissingResolutionMapping {
                unmapped_resolution_name,
            } => Failure::MissingResolutionMapping {
                unmapped_resolution_name: unmapped_resolution_name@,
            },
            Error::MissingStatusMapping { unmapped_status_name } => Failure::MissingStatusMapping {
                unmapped_status_name: unmapped_status_name@,
            },
            Error::InvalidResolutionField {
                resolution_field,
                issue_key,
            } => Failure::InvalidResolutionField {
                resolution_field: resolution_field@,
                issue_key: issue_key@,
            },
            Error::CouldNotCreateUrl { target, .. } => Failure::CouldNotCreateUrl {
                target: target@,
            },
            Error::CanNotCloseClosedStatus => Failure::CanNotCloseClosedStatus,
            Error::CanNotCloseEstimate => Failure::CanNotCloseEstimate,
            Error::UnableToParseDays { value } => Failure::UnableToParseDays { value: value@ },
        }
    }
}

/// What `mapping` holds under `name`: the value of the first entry with that
/// name.
pub open spec fn first_under<T>(mapping: Seq<(String, T)>, name: Seq<char>) -> Option<T>
    decreases mapping.len(),
{
    if mapping.len() == 0 {
        None
    } else if mapping[0].0@ == name {
        Some(mapping[0].1)
    } else {
        first_under(mapping.drop_first(), name)
    }
}

/// Looks `name` up in `mapping`.
fn find<T: Copy>(mapping: &Vec<(String, T)>, name: &String) -> (found: Option<T>)
    ensures
        found == first_under(mapping@, name@),
{
    let mut i: usize = 0;
    assert(mapping@.skip(0) =~= mapping@);
    while i < mapping.len()
        invariant
            i <= mapping.len(),
            first_under(mapping@, name@) == first_under(mapping@.skip(i as int), name@),
        decreases mapping.len() - i,
    {
        assert(mapping@.skip(i as int)[0] == mapping@[i as int]);
        assert(mapping@.skip(i as int).drop_first() =~= mapping@.skip(i as int + 1));
        if mapping[i].0 == *name {
            return Some(mapping[i].1);
        }
        i += 1;
    }
    None
}

/// The status that the configuration maps the tracker's status name to.
pub fn get_status_mapping(conf: &Config, jira_status_name: &String) -> (result: Result<
    ItemStatus,
    Error,
>)
    ensures
        match first_under(conf.status_mapping@, jira_status_name@) {
            Some(status) => result == Ok::<ItemStatus, Error>(status),
            None => result matches Err(error) && error@ == (Failure::MissingStatusMapping {
                unmapped_status_name: jira_status_name@,
            }),
        },
{
    match find(&conf.status_mapping, jira_status_name) {
        Some(item_status) => Ok(item_status),
        None => Err(Error::MissingStatusMapping { unmapped_status_name: jira_status_name.clone() }),
    }
}

/// A status that ended and the entry that takes its place as the open one.
#[derive(Debug, Clone, Copy, PartialEq, Eq, Structural)]
pub struct EntryMarker {
    pub completed_entry: ItemTimeLineEntry,
    pub new_entry: ItemTimeLineEntry,
}

/// The entry `old_entry` closed at `end_date`. Only an open status can be
/// closed.
pub open spec fn closed(old_entry: ItemTimeLineEntry, end_date: Timestamp) -> Result<
    ItemTimeLineEntry,
    Failure,
> {
    match old_entry {
        ItemTimeLineEntry::OpenStatus { start, status } => Ok(
            ItemTimeLineEntry::ClosedStatus { status, start, end: end_date },
        ),
        ItemTimeLineEntry::ClosedStatus { .. } => Err(Failure::CanNotCloseClosedStatus),
        ItemTimeLineEntry::Estimate { .. } => Err(Failure::CanNotCloseEstimate),
    }
}

/// Whether `result` is `expected`, errors being compared by their texts.
pub open spec fn agrees<T>(result: Result<T, Error>, expected: Result<T, Failure>) -> bool {
    match result {
        Ok(value) => expected == Ok::<T, Failure>(value),
        Err(error) => expected == Err::<T, Failure>(error@),
    }
}

/// Closes the open status `old_entry` at `end_date`.
pub fn close_entry(old_entry: &ItemTimeLineEntry, end_date: &Timestamp) -> (result: Result<
    ItemTimeLineEntry,
    Error,
>)
    ensures
        agrees(result, closed(*old_entry, *end_date)),
{
    match old_entry {
        ItemTimeLineEntry::OpenStatus { start: start_date, status } => Ok(
            ItemTimeLineEntry::ClosedStatus { status: *status, start: *start_date, end: *end_date },
        ),
        ItemTimeLineEntry::ClosedStatus { .. } => Err(Error::CanNotCloseClosedStatus),
        ItemTimeLineEntry::Estimate { .. } => Err(Error::CanNotCloseEstimate),
    }
}

/// What one change does to the timeline while `open_entry` is open.
///
/// A change of the field `status` to a named status closes the open entry
/// and opens the status that the name is mapped to. A change of the field
/// `timeestimate` to some value records an estimate and leaves the open
/// entry open. Any other change does nothing.
pub open spec fn change_effect(
    mapping: Seq<(String, ItemStatus)>,
    open_entry: ItemTimeLineEntry,
    new_start_date: Timestamp,
    entry: ChangeLogEntry,
) -> Result<Option<EntryMarker>, Failure> {
    if entry.to_string is Some && entry.field@ == "status"@ {
        match first_under(mapping, entry.to_string.unwrap()@) {
            None => Err(
                Failure::MissingStatusMapping {
                    unmapped_status_name: entry.to_string.unwrap()@,
                },
            ),
            Some(status) => match closed(open_entry, new_start_date) {
                Err(failure) => Err(failure),
                Ok(completed_entry) => Ok(
                    Some(
                        EntryMarker {
                            completed_entry,
                            new_entry: ItemTimeLineEntry::OpenStatus {
                                start: new_start_date,
                                status,
                            },
                        },
                    ),
                ),
            },
        }
    } else if entry.field@ == "timeestimate"@ {
        match entry.to {
            None => Ok(None),
            Some(text) => match entry.to_seconds {
                None => Err(Failure::UnableToParseDays { value: text@ }),
                Some(seconds) => Ok(
                    Some(
                        EntryMarker {
                            completed_entry: ItemTimeLineEntry::Estimate {
                                start: new_start_date,
                                seconds,
                            },
                            new_entry: open_entry,
                        },
                    ),
                ),
            },
        }
    } else {
        Ok(None)
    }
}

/// Works out what one change does to the timeline.
pub fn handle_changelog_entry(
    conf: &Config,
    open_entry: &ItemTimeLineEntry,
    new_start_date: &Timestamp,
    entry: &ChangeLogEntry,
) -> (result: Result<Option<EntryMarker>, Error>)
    ensures
        agrees(result, change_effect(conf.status_mapping@, *open_entry, *new_start_date, *entry)),
{
    let status_field = "status".to_owned();
    let estimate_field = "timeestimate".to_owned();
    if entry.to_string.is_some() && entry.field == status_field {
        let name = match &entry.to_string {
            Some(name) => name,
            None => {
                return Ok(None);
            },
        };
        let new_status = match get_status_mapping(conf, name) {
            Ok(status) => status,
            Err(error) => {
                return Err(error);
            },
        };
        let started_entry = ItemTimeLineEntry::OpenStatus {
            start: *new_start_date,
            status: new_status,
        };
        match close_entry(open_entry, new_start_date) {
            Ok(completed_entry) => Ok(
                Some(EntryMarker { completed_entry, new_entry: started_entry }),
            ),
            Err(error) => Err(error),
        }
    } else if entry.field == estimate_field {
        match &entry.to {
            Some(estimate_string) => match entry.to_seconds {
                Some(seconds) => Ok(
                    Some(
                        EntryMarker {
                            completed_entry: ItemTimeLineEntry::Estimate {
                                start: *new_start_date,
                                seconds,
                            },
                            new_entry: *open_entry,
                        },
                    ),
                ),
                None => Err(Error::UnableToParseDays { value: estimate_string.clone() }),
            },
            None => Ok(None),
        }
    } else {
        Ok(None)
    }
}

/// Where the replay of a changelog stands: the entries that are complete, and
/// the entry that is open.
pub struct Replay {
    pub complete: Seq<ItemTimeLineEntry>,
    pub open_entry: ItemTimeLineEntry,
}

/// The replay after one more change, made at `created`.
pub open spec fn after_change(
    mapping: Seq<(String, ItemStatus)>,
    replay: Result<Replay, Failure>,
    created: Timestamp,
    entry: ChangeLogEntry,
) -> Result<Replay, Failure> {
    match replay {
        Err(failure) => Err(failure),
        Ok(state) => match change_effect(mapping, state.open_entry, created, entry) {
            Err(failure) => Err(failure),
            Ok(None) => Ok(state),
            Ok(Some(marker)) => Ok(
                Replay {
                    complete: state.complete.push(marker.completed_entry),
                    open_entry: marker.new_entry,
                },
            ),
        },
    }
}

/// The replay after the changes `entries`, all made at `created`, in order.
/// The first change that fails ends the replay.
pub open spec fn after_changes(
    mapping: Seq<(String, ItemStatus)>,
    replay: Result<Replay, Failure>,
    created: Timestamp,
    entries: Seq<ChangeLogEntry>,
) -> Result<Replay, Failure>
    decreases entries.len(),
{
    if entries.len() == 0 {
        replay
    } else {
        after_change(
            mapping,
            after_changes(mapping, replay, created, entries.drop_last()),
            created,
            entries.last(),
        )
    }
}

/// The replay after the groups of changes `groups`, in order.
pub open spec fn after_groups(
    mapping: Seq<(String, ItemStatus)>,
    replay: Result<Replay, Failure>,
    groups: Seq<ChangeGroup>,
) -> Result<Replay, Failure>
    decreases groups.len(),
{
    if groups.len() == 0 {
        replay
    } else {
        after_changes(
            mapping,
            after_groups(mapping, replay, groups.drop_last()),
            groups.last().created,
            groups.last().items@,
        )
    }
}

/// The timeline of an issue created at `created`: it starts in the open
/// status `ToDo`, every change of the changelog is replayed, and the entry
/// that is open in the end comes last.
pub open spec fn timeline(
    mapping: Seq<(String, ItemStatus)>,
    created: Timestamp,
    changelog: Seq<ChangeGroup>,
) -> Result<Seq<ItemTimeLineEntry>, Failure> {
    let start = Replay {
        complete: Seq::empty(),
        open_entry: ItemTimeLineEntry::OpenStatus { start: created, status: ItemStatus::ToDo },
    };
    match after_groups(mapping, Ok(start), changelog) {
        Err(failure) => Err(failure),
        Ok(end) => Ok(end.complete.push(end.open_entry)),
    }
}

/// Replays the changelog of `issue` into a timeline.
pub fn convert_changelog(conf: &Config, issue: &Issue, changelog: &Vec<ChangeGroup>) -> (result:
    Result<Vec<ItemTimeLineEntry>, Error>)
    ensures
        match result {
            Ok(entries) => timeline(conf.status_mapping@, issue.created, changelog@) == Ok::<
                Seq<ItemTimeLineEntry>,
                Failure,
            >(entries@),
            Err(error) => timeline(conf.status_mapping@, issue.created, changelog@) == Err::<
                Seq<ItemTimeLineEntry>,
                Failure,
            >(error@),
        },
{
    let mut last_status = ItemTimeLineEntry::OpenStatus {
        start: issue.created,
        status: ItemStatus::ToDo,
    };
    let ghost mapping = conf.status_mapping@;
    let ghost start = Ok::<Replay, Failure>(
        Replay { complete: Seq::empty(), open_entry: last_status },
    );

    let mut item_change_log: Vec<ItemTimeLineEntry> = Vec::new();
    let mut g: usize = 0;
    while g < changelog.len()
        invariant
            g <= changelog.len(),
            mapping == conf.status_mapping@,
            start == Ok::<Replay, Failure>(
                Replay {
                    complete: Seq::empty(),
                    open_entry: ItemTimeLineEntry::OpenStatus {
                        start: issue.created,
                        status: ItemStatus::ToDo,
                    },
                },
            ),
            after_groups(mapping, start, changelog@.take(g as int)) == Ok::<Replay, Failure>(
                Replay { complete: item_change_log@, open_entry: last_status },
            ),
        decreases changelog.len() - g,
    {
        let group = &changelog[g];
        let ghost before = after_groups(mapping, start, changelog@.take(g as int));
        assert(changelog@.take(g as int + 1).drop_last() =~= changelog@.take(g as int));
        assert(changelog@.take(g as int + 1).last() == changelog@[g as int]);
        let mut e: usize = 0;
        while e < group.items.len()
            invariant
                e <= group.items.len(),
                g < changelog.len(),
                mapping == conf.status_mapping@,
                start == Ok::<Replay, Failure>(
                    Replay {
                        complete: Seq::empty(),
                        open_entry: ItemTimeLineEntry::OpenStatus {
                            start: issue.created,
                            status: ItemStatus::ToDo,
                        },
                    },
                ),
                after_groups(mapping, start, changelog@.take(g as int + 1)) == after_changes(
                    mapping,
                    before,
                    group.created,
                    group.items@,
                ),
                after_changes(mapping, before, group.created, group.items@.take(e as int)) == Ok::<
                    Replay,
                    Failure,
                >(Replay { complete: item_change_log@, open_entry: last_status }),
            decreases group.items.len() - e,
        {
            assert(group.items@.take(e as int + 1).drop_last() =~= group.items@.take(e as int));
            assert(group.items@.take(e as int + 1).last() == group.items@[e as int]);
            match handle_changelog_entry(conf, &last_status, &group.created, &group.items[e]) {
                Ok(Some(marker)) => {
                    item_change_log.push(marker.completed_entry);
                    last_status = marker.new_entry;
                },
                Ok(None) => {},
                Err(error) => {
                    proof {
                        lemma_failure_stays_in_changes(
                            mapping,
                            error@,
                            group.created,
                            group.items@,
                            e as int + 1,
                        );
                        lemma_failure_stays_in_groups(
                            mapping,
                            start,
                            error@,
                            changelog@,
                            g as int + 1,
                        );
                    }
                    return Err(error);
                },
            }
            e += 1;
        }
        assert(group.items@.take(e as int) =~= group.items@);
        g += 1;
    }
    assert(changelog@.take(g as int) =~= changelog@);
    item_change_log.push(last_status);
    Ok(item_change_log)
}

/// Once the replay of a group's changes has failed, the rest of the group
/// does not change that.
proof fn lemma_failure_stays_in_changes(
    mapping: Seq<(String, ItemStatus)>,
    failure: Failure,
    created: Timestamp,
    entries: Seq<ChangeLogEntry>,
    n: int,
)
    requires
        0 <= n <= entries.len(),
    ensures
        forall|replay: Result<Replay, Failure>|
            after_changes(mapping, replay, created, entries.take(n)) == Err::<Replay, Failure>(
                failure,
            ) ==> #[trigger] after_changes(mapping, replay, created, entries) == Err::<
                Replay,
                Failure,
            >(failure),
    decreases entries.len() - n,
{
    if n < entries.len() {
        lemma_failure_stays_in_changes(mapping, failure, created, entries, n + 1);
        assert(entries.take(n + 1).drop_last() =~= entries.take(n));
    } else {
        assert(entries.take(n) =~= entries);
    }
}

/// A failed replay stays failed over any changes.
proof fn lemma_failed_replay_stays_failed(
    mapping: Seq<(String, ItemStatus)>,
    failure: Failure,
    created: Timestamp,
    entries: Seq<ChangeLogEntry>,
)
    ensures
        after_changes(mapping, Err(failure), created, entries) == Err::<Replay, Failure>(failure),
    decreases entries.len(),
{
    if entries.len() > 0 {
        lemma_failed_replay_stays_failed(mapping, failure, created, entries.drop_last());
    }
}

/// Once the replay of the changelog has failed, the later groups do not
/// change that.
proof fn lemma_failure_stays_in_groups(
    mapping: Seq<(String, ItemStatus)>,
    start: Result<Replay, Failure>,
    failure: Failure,
    groups: Seq<ChangeGroup>,
    n: int,
)
    requires
        0 <= n <= groups.len(),
        after_groups(mapping, start, groups.take(n)) == Err::<Replay, Failure>(failure),
    ensures
        after_groups(mapping, start, groups) == Err::<Replay, Failure>(failure),
    decreases groups.len() - n,
{
    if n < groups.len() {
        assert(groups.take(n + 1).drop_last() =~= groups.take(n));
        lemma_failed_replay_stays_failed(mapping, failure, groups[n].created, groups[n].items@);
        lemma_failure_stays_in_groups(mapping, start, failure, groups, n + 1);
    } else {
        assert(groups.take(n) =~= groups);
    }
}

/// The resolution that the configuration maps the tracker's resolution name
/// to.
pub open spec fn mapped_resolution(conf: Config, name: Seq<char>) -> Result<Resolution, Failure> {
    match first_under(conf.resolution_mapping@, name) {
        Some(resolution) => Ok(resolution),
        None => Err(Failure::MissingResolutionMapping { unmapped_resolution_name: name }),
    }
}

/// Looks the tracker's resolution name up in the configuration.
pub fn get_resolution_value_mapping(conf: &Config, jira_resolution_name: &String) -> (result:
    Result<Resolution, Error>)
    ensures
        agrees(result, mapped_resolution(*conf, jira_resolution_name@)),
{
    match find(&conf.resolution_mapping, jira_resolution_name) {
        Some(resolution) => Ok(resolution),
        None => Err(
            Error::MissingResolutionMapping {
                unmapped_resolution_name: jira_resolution_name.clone(),
            },
        ),
    }
}

/// The name of the custom field that holds the resolution, or the empty
/// text where the configuration names none.
pub open spec fn resolution_field_name(conf: Config) -> Seq<char> {
    match conf.resolution_field {
        Some(field) => field.0@,
        None => Seq::empty(),
    }
}

/// The failure that reports an unreadable resolution field of the issue
/// `issue_key`.
pub open spec fn unreadable_resolution(conf: Config, issue_key: IssueKey) -> Failure {
    Failure::InvalidResolutionField {
        resolution_field: resolution_field_name(conf),
        issue_key: issue_key.0@,
    }
}

fn invalid_resolution_field(conf: &Config, issue_key: &IssueKey) -> (error: Error)
    ensures
        error@ == unreadable_resolution(*conf, *issue_key),
{
    let resolution_field = match &conf.resolution_field {
        Some(field) => field.0.clone(),
        None => String::new(),
    };
    Error::InvalidResolutionField { resolution_field, issue_key: issue_key.0.clone() }
}

/// The resolution that the member `value` of a resolution field stands for.
pub open spec fn resolution_of_value(conf: Config, issue_key: IssueKey, value: Option<String>) -> Result<
    Resolution,
    Failure,
> {
    match value {
        Some(name) => mapped_resolution(conf, name@),
        None => Err(unreadable_resolution(conf, issue_key)),
    }
}

/// Reads the resolution out of the member `value` of a resolution field.
pub fn extract_value_from_field(conf: &Config, issue_key: &IssueKey, value: &Option<String>) -> (result:
    Result<Resolution, Error>)
    ensures
        agrees(result, resolution_of_value(*conf, *issue_key, *value)),
{
    match value {
        Some(name) => get_resolution_value_mapping(conf, name),
        None => Err(invalid_resolution_field(conf, issue_key)),
    }
}

/// The value of the custom field `name`: that of the first entry under that
/// name.
pub open spec fn custom_field(fields: Seq<(CustomFieldName, FieldValue)>, name: Seq<char>) -> Option<
    FieldValue,
>
    decreases fields.len(),
{
    if fields.len() == 0 {
        None
    } else if fields[0].0.0@ == name {
        Some(fields[0].1)
    } else {
        custom_field(fields.drop_first(), name)
    }
}

fn find_custom_field<'a>(fields: &'a Vec<(CustomFieldName, FieldValue)>, name: &CustomFieldName) -> (found:
    Option<&'a FieldValue>)
    ensures
        match found {
            Some(value) => custom_field(fields@, name.0@) == Some(*value),
            None => custom_field(fields@, name.0@) is None,
        },
{
    let mut i: usize = 0;
    assert(fields@.skip(0) =~= fields@);
    while i < fields.len()
        invariant
            i <= fields.len(),
            custom_field(fields@, name.0@) == custom_field(fields@.skip(i as int), name.0@),
        decreases fields.len() - i,
    {
        assert(fields@.skip(i as int)[0] == fields@[i as int]);
        assert(fields@.skip(i as int).drop_first() =~= fields@.skip(i as int + 1));
        if fields[i].0.0 == name.0 {
            return Some(&fields[i].1);
        }
        i += 1;
    }
    None
}

/// The resolution that the custom field `resolution_field` of the issue
/// gives: none where the field is absent or holds nothing.
pub open spec fn custom_resolution(conf: Config, resolution_field: CustomFieldName, issue: Issue) -> Result<
    Resolution,
    Failure,
> {
    match custom_field(issue.custom_fields@, resolution_field.0@) {
        Some(FieldValue::Object { value }) => resolution_of_value(conf, issue.key, value),
        Some(FieldValue::Null) | None => Ok(Resolution::UnResolved),
        Some(FieldValue::Other) => Err(unreadable_resolution(conf, issue.key)),
    }
}

/// Reads the resolution of the issue out of its custom field
/// `resolution_field`.
pub fn get_custom_resolution_with_mapping(
    conf: &Config,
    resolution_field: &CustomFieldName,
    issue: &Issue,
) -> (result: Result<Resolution, Error>)
    ensures
        agrees(result, custom_resolution(*conf, *resolution_field, *issue)),
{
    match find_custom_field(&issue.custom_fields, resolution_field) {
        Some(FieldValue::Object { value }) => extract_value_from_field(conf, &issue.key, value),
        Some(FieldValue::Null) | None => Ok(Resolution::UnResolved),
        Some(FieldValue::Other) => Err(invalid_resolution_field(conf, &issue.key)),
    }
}

/// The resolution that the issue's own resolution gives: none where it has
/// none.
pub open spec fn plain_resolution(conf: Config, issue: Issue) -> Result<Resolution, Failure> {
    match issue.resolution {
        Some(name) => mapped_resolution(conf, name@),
        None => Ok(Resolution::UnResolved),
    }
}

/// Reads the resolution of the issue out of its own resolution.
pub fn get_resolution_with_mapping(conf: &Config, issue: &Issue) -> (result: Result<
    Resolution,
    Error,
>)
    ensures
        agrees(result, plain_resolution(*conf, *issue)),
{
    match &issue.resolution {
        Some(resolution) => get_resolution_value_mapping(conf, resolution),
        None => Ok(Resolution::UnResolved),
    }
}

/// The resolution of the issue: read from the custom field that the
/// configuration names, or from the issue's own resolution where it names
/// none.
pub open spec fn resolution_of(conf: Config, issue: Issue) -> Result<Resolution, Failure> {
    match conf.resolution_field {
        Some(field) => custom_resolution(conf, field, issue),
        None => plain_resolution(conf, issue),
    }
}

/// Reads the resolution of the issue.
pub fn get_resolution(conf: &Config, issue: &Issue) -> (result: Result<Resolution, Error>)
    ensures
        agrees(result, resolution_of(*conf, *issue)),
{
    match &conf.resolution_field {
        Some(resolution_name) => get_custom_resolution_with_mapping(conf, resolution_name, issue),
        None => get_resolution_with_mapping(conf, issue),
    }
}

/// Whether `name` is one of `names`.
pub open spec fn is_among(names: Seq<String>, name: Seq<char>) -> bool {
    exists|i: int| 0 <= i < names.len() && (#[trigger] names[i])@ == name
}

fn any_is(names: &Vec<String>, name: &String) -> (found: bool)
    ensures
        found == is_among(names@, name@),
{
    let mut i: usize = 0;
    while i < names.len()
        invariant
            i <= names.len(),
            forall|k: int| 0 <= k < i ==> (#[trigger] names@[k])@ != name@,
        decreases names.len() - i,
    {
        if names[i] == *name {
            return true;
        }
        i += 1;
    }
    false
}

/// The kind of work that an issue type stands for: feature work where the
/// configuration lists it as such, else operational work where it lists it
/// as that, else none.
pub open spec fn item_type_of(conf: Config, issue_type: Seq<char>) -> Option<ItemType> {
    if is_among(conf.issue_types.features@, issue_type) {
        Some(ItemType::Feature)
    } else if is_among(conf.issue_types.operational@, issue_type) {
        Some(ItemType::Operational)
    } else {
        None
    }
}

/// Works out the kind of work that the issue type named `issue_type` stands for.
pub fn convert_issue_type(conf: &Config, issue_type: &String) -> (typ: Option<ItemType>)
    ensures
        typ == item_type_of(*conf, issue_type@),
{
    if any_is(&conf.issue_types.features, issue_type) {
        Some(ItemType::Feature)
    } else if any_is(&conf.issue_types.operational, issue_type) {
        Some(ItemType::Operational)
    } else {
        None
    }
}

/// An item by its texts, without its id.
pub struct ItemModel {
    pub native_id: Seq<char>,
    pub native_url: Seq<char>,
    pub name: Seq<char>,
    pub description: Seq<char>,
    pub typ: ItemType,
    pub status: ItemStatus,
    pub resolution: Resolution,
    pub timeline: Seq<ItemTimeLineEntry>,
}

impl View for Item {
    type V = ItemModel;

    open spec fn view(&self) -> ItemModel {
        ItemModel {
            native_id: self.native_id.0@,
            native_url: self.native_url@,
            name: self.name@,
            description: self.description@,
            typ: self.typ,
            status: self.status,
            resolution: self.resolution,
            timeline: self.timeline@,
        }
    }
}

/// The item that an issue is translated into, `native_url` being the
/// address at which the tracker shows it, or `None` where that address
/// could not be made.
///
/// The first of these to fail decides the failure: the address, the
/// timeline, the status, the resolution. An issue whose type the
/// configuration does not list gives no item.
pub open spec fn translated(conf: Config, detail: IssueDetail, native_url: Option<Seq<char>>) -> Result<
    Option<ItemModel>,
    Failure,
> {
    let issue = detail.issue;
    if native_url is None {
        Err(Failure::CouldNotCreateUrl { target: "issue"@ })
    } else {
        match timeline(conf.status_mapping@, issue.created, detail.changelog@) {
            Err(failure) => Err(failure),
            Ok(entries) => match first_under(conf.status_mapping@, issue.status@) {
                None => Err(Failure::MissingStatusMapping { unmapped_status_name: issue.status@ }),
                Some(status) => match resolution_of(conf, issue) {
                    Err(failure) => Err(failure),
                    Ok(resolution) => match item_type_of(conf, issue.issuetype@) {
                        None => Ok(None),
                        Some(typ) => Ok(
                            Some(
                                ItemModel {
                                    native_id: issue.key.0@,
                                    native_url: native_url.unwrap(),
                                    name: issue.key.0@,
                                    description: issue.summary@,
                                    typ,
                                    status,
                                    resolution,
                                    timeline: entries,
                                },
                            ),
                        ),
                    },
                },
            },
        }
    }
}

/// What a translation of one issue handed back, by its texts.
pub open spec fn item_view(result: Result<Option<Item>, Error>) -> Result<
    Option<ItemModel>,
    Failure,
> {
    match result {
        Ok(Some(item)) => Ok(Some(item@)),
        Ok(None) => Ok(None),
        Err(error) => Err(error@),
    }
}

/// Translates one issue, given the id that the item is to carry and the
/// address at which the tracker shows the issue, or the reason why that
/// address could not be made.
pub fn assemble_item(
    conf: &Config,
    issue_detail: &IssueDetail,
    id: ItemId,
    native_url: Result<String, url::ParseError>,
) -> (result: Result<Option<Item>, Error>)
    ensures
        item_view(result) == translated(
            *conf,
            *issue_detail,
            match native_url {
                Ok(address) => Some(address@),
                Err(_) => None,
            },
        ),
        result matches Ok(Some(item)) ==> item.id == id,
{
    let description = issue_detail.issue.summary.clone();
    let native_url = match native_url {
        Ok(address) => address,
        Err(source) => {
            return Err(Error::CouldNotCreateUrl { target: "issue".to_owned(), source });
        },
    };
    let native_id = NativeId(issue_detail.issue.key.0.clone());
    let timeline = match convert_changelog(conf, &issue_detail.issue, &issue_detail.changelog) {
        Ok(timeline) => timeline,
        Err(error) => {
            return Err(error);
        },
    };
    let current_status = match get_status_mapping(conf, &issue_detail.issue.status) {
        Ok(status) => status,
        Err(error) => {
            return Err(error);
        },
    };
    let resolution = match get_resolution(conf, &issue_detail.issue) {
        Ok(resolution) => resolution,
        Err(error) => {
            return Err(error);
        },
    };
    match convert_issue_type(conf, &issue_detail.issue.issuetype) {
        Some(issue_type) => Ok(
            Some(
                Item {
                    id,
                    name: issue_detail.issue.key.0.clone(),
                    native_id,
                    native_url,
                    typ: issue_type,
                    description,
                    timeline,
                    status: current_status,
                    resolution,
                },
            ),
        ),
        None => Ok(None),
    }
}

/// [`uuid::Uuid::new_v4`] draws a random version-4 UUID; its 128 bits are
/// handed back. Nothing is claimed of them. The call takes no argument; it
/// panics where the system has no random bytes to give.
#[verifier::external_body]
fn new_item_id() -> ItemId {
    ItemId(uuid::Uuid::new_v4().as_u128())
}

/// What [`url::Url::join`] makes of `path` on the base address `base`, as
/// text, or `None` where `base` is no address or the two do not join.
pub uninterp spec fn joined_url(base: Seq<char>, path: Seq<char>) -> Option<Seq<char>>;

/// [`url::Url::parse`] on `base`, then [`url::Url::join`] with `path`. The
/// result, or its absence, is what `joined_url` names.
#[verifier::external_body]
fn join_url(base: &String, path: &String) -> (result: Result<String, url::ParseError>)
    ensures
        match result {
            Ok(joined) => joined_url(base@, path@) == Some(joined@),
            Err(_) => joined_url(base@, path@) is None,
        },
{
    url::Url::parse(base).and_then(|address| address.join(path)).map(String::from)
}

/// The path under which the tracker shows the issue `key`.
pub open spec fn browse_path(key: Seq<char>) -> Seq<char> {
    "/browse/"@ + key
}

/// The item that an issue is translated into.
pub open spec fn translated_issue(conf: Config, detail: IssueDetail) -> Result<
    Option<ItemModel>,
    Failure,
> {
    translated(conf, detail, joined_url(detail.issue.sel@, browse_path(detail.issue.key.0@)))
}

/// Translates one issue into an item with a fresh random id. An issue whose
/// type the configuration does not list gives no item.
pub fn convert_issue(conf: &Config, issue_detail: &IssueDetail) -> (result: Result<
    Option<Item>,
    Error,
>)
    ensures
        item_view(result) == translated_issue(*conf, *issue_detail),
{
    let id = new_item_id();
    let mut path = "/browse/".to_owned();
    path.append(issue_detail.issue.key.0.as_str());
    let native_url = join_url(&issue_detail.issue.sel, &path);
    assemble_item(conf, issue_detail, id, native_url)
}

/// The items that a list of issues is translated into, in order. The first
/// issue that fails decides the failure.
pub open spec fn translated_all(conf: Config, issues: Seq<IssueDetail>) -> Result<
    Seq<ItemModel>,
    Failure,
>
    decreases issues.len(),
{
    if issues.len() == 0 {
        Ok(Seq::empty())
    } else {
        match translated_all(conf, issues.drop_last()) {
            Err(failure) => Err(failure),
            Ok(items) => match translated_issue(conf, issues.last()) {
                Err(failure) => Err(failure),
                Ok(None) => Ok(items),
                Ok(Some(item)) => Ok(items.push(item)),
            },
        }
    }
}

/// The items of a list, by their texts.
pub open spec fn item_models(items: Seq<Item>) -> Seq<ItemModel> {
    items.map_values(|item: Item| item@)
}

proof fn lemma_translation_stays_failed(
    conf: Config,
    issues: Seq<IssueDetail>,
    failure: Failure,
    n: int,
)
    requires
        0 <= n <= issues.len(),
        translated_all(conf, issues.take(n)) == Err::<Seq<ItemModel>, Failure>(failure),
    ensures
        translated_all(conf, issues) == Err::<Seq<ItemModel>, Failure>(failure),
    decreases issues.len() - n,
{
    if n < issues.len() {
        assert(issues.take(n + 1).drop_last() =~= issues.take(n));
        lemma_translation_stays_failed(conf, issues, failure, n + 1);
    } else {
        assert(issues.take(n) =~= issues);
    }
}

/// Translates the issues into items, in order, leaving out those whose type
/// the configuration does not list.
pub fn translate(conf: &Config, issues: &Vec<IssueDetail>) -> (result: Result<Vec<Item>, Error>)
    ensures
        match result {
            Ok(items) => translated_all(*conf, issues@) == Ok::<Seq<ItemModel>, Failure>(
                item_models(items@),
            ),
            Err(error) => translated_all(*conf, issues@) == Err::<Seq<ItemModel>, Failure>(error@),
        },
{
    let mut items: Vec<Item> = Vec::with_capacity(issues.len());
    let mut i: usize = 0;
    assert(item_models(items@) =~= Seq::<ItemModel>::empty());
    while i < issues.len()
        invariant
            i <= issues.len(),
            translated_all(*conf, issues@.take(i as int)) == Ok::<Seq<ItemModel>, Failure>(
                item_models(items@),
            ),
        decreases issues.len() - i,
    {
        assert(issues@.take(i as int + 1).drop_last() =~= issues@.take(i as int));
        assert(issues@.take(i as int + 1).last() == issues@[i as int]);
        match convert_issue(conf, &issues[i]) {
            Ok(Some(item)) => {
                let ghost before = items@;
                items.push(item);
                assert(item_models(items@) =~= item_models(before).push(item@));
            },
            Ok(None) => {},
            Err(error) => {
                proof {
                    lemma_translation_stays_failed(*conf, issues@, error@, i as int + 1);
                }
                return Err(error);
            },
        }
        i += 1;
    }
    assert(issues@.take(i as int) =~= issues@);
    Ok(items)
}

} // verus!
