// This file is part of Lectev.
//
//  Lectev is free software: you can redistribute it and/or modify
//  it under the terms of the GNU General Public License as published by
//  the Free Software Foundation, either version 3 of the License, or
//  (at your option) any later version.
//
//  Lectev is distributed in the hope that it will be useful,
//  but WITHOUT ANY WARRANTY; without even the implied warranty of
//  MERCHANTABILITY or FITNESS FOR A PARTICULAR PURPOSE.  See the
//  GNU General Public License for more details.
//
//  You should have received a copy of the GNU General Public License
//  along with Lectev.  If not, see <https://www.gnu.org/licenses/>.

use lectev::jira::config::{Config, IssueTypes};
use lectev::jira::items::{Item, ItemStatus, ItemTimeLineEntry, ItemType, NativeId, Resolution};
use lectev::jira::native::{
    ChangeGroup, ChangeLogEntry, CustomFieldName, FieldValue, Issue, IssueDetail, IssueKey,
};
use lectev::jira::nativetocore::{
    close_entry, convert_changelog, convert_issue, convert_issue_type,
    extract_value_from_field, get_custom_resolution_with_mapping, get_resolution,
    get_resolution_value_mapping, get_resolution_with_mapping, get_status_mapping,
    handle_changelog_entry, translate, EntryMarker, Error,
};
use lectev::jira::times_in_flight::get_latest_estimate;
use lectev::time::Timestamp;

fn at(seconds: i64) -> Timestamp {
    Timestamp { seconds, nanos: 0 }
}

fn config(resolution_field: Option<&str>) -> Config {
    Config {
        jira_instance: "https://example.atlassian.net/".to_string(),
        username: "someone".to_string(),
        token: "not-a-real-token".to_string(),
        resolution_field: resolution_field.map(|name| CustomFieldName(name.to_string())),
        issue_types: IssueTypes {
            features: vec!["Story".to_string(), "Epic".to_string()],
            operational: vec!["Bug".to_string(), "Story".to_string()],
        },
        status_mapping: vec![
            ("Backlog".to_string(), ItemStatus::ToDo),
            ("Selected".to_string(), ItemStatus::Ready),
            ("In Progress".to_string(), ItemStatus::InDev),
            ("In Review".to_string(), ItemStatus::InTest),
            ("Blocked".to_string(), ItemStatus::Waiting),
            ("Done".to_string(), ItemStatus::Completed),
            ("Done".to_string(), ItemStatus::ToDo),
        ],
        resolution_mapping: vec![
            ("Fixed".to_string(), Resolution::Delivered),
            ("Won't Do".to_string(), Resolution::Rejected),
        ],
    }
}

fn change(field: &str, to: Option<&str>, to_string: Option<&str>, to_seconds: Option<u64>) -> ChangeLogEntry {
    ChangeLogEntry {
        field: field.to_string(),
        fieldtype: "jira".to_string(),
        field_id: None,
        from: None,
        from_string: None,
        to: to.map(|t| t.to_string()),
        to_string: to_string.map(|t| t.to_string()),
        to_seconds,
    }
}

fn status_change(name: &str) -> ChangeLogEntry {
    change("status", Some("10001"), Some(name), None)
}

fn estimate_change(text: &str) -> ChangeLogEntry {
    let seconds: f64 = text.parse().unwrap();
    change("timeestimate", Some(text), Some(text), Some(seconds.to_bits()))
}

fn changes(seconds: i64, items: Vec<ChangeLogEntry>) -> ChangeGroup {
    ChangeGroup { id: format!("group-{}", seconds), created: at(seconds), items }
}

fn issue(key: &str, issuetype: &str, status: &str, resolution: Option<&str>) -> Issue {
    Issue {
        key: IssueKey(key.to_string()),
        sel: "https://example.atlassian.net/rest/api/3/issue/10042".to_string(),
        summary: format!("summary of {}", key),
        created: at(100),
        status: status.to_string(),
        issuetype: issuetype.to_string(),
        resolution: resolution.map(|r| r.to_string()),
        custom_fields: Vec::new(),
    }
}

fn open(status: ItemStatus, start: i64) -> ItemTimeLineEntry {
    ItemTimeLineEntry::OpenStatus { status, start: at(start) }
}

fn shut(status: ItemStatus, start: i64, end: i64) -> ItemTimeLineEntry {
    ItemTimeLineEntry::ClosedStatus { status, start: at(start), end: at(end) }
}

fn estimate(start: i64, seconds: f64) -> ItemTimeLineEntry {
    ItemTimeLineEntry::Estimate { start: at(start), seconds: seconds.to_bits() }
}

#[test]
fn a_status_name_is_mapped_by_its_first_entry() {
    let conf = config(None);
    assert_eq!(get_status_mapping(&conf, &"In Progress".to_string()), Ok(ItemStatus::InDev));
    assert_eq!(get_status_mapping(&conf, &"Done".to_string()), Ok(ItemStatus::Completed));
    assert_eq!(get_status_mapping(&conf, &"Backlog".to_string()), Ok(ItemStatus::ToDo));
}

#[test]
fn an_unmapped_status_name_is_reported() {
    let conf = config(None);
    assert_eq!(
        get_status_mapping(&conf, &"in progress".to_string()),
        Err(Error::MissingStatusMapping { unmapped_status_name: "in progress".to_string() })
    );
}

#[test]
fn an_open_status_can_be_closed() {
    assert_eq!(
        close_entry(&open(ItemStatus::InDev, 5), &at(9)),
        Ok(shut(ItemStatus::InDev, 5, 9))
    );
}

#[test]
fn a_closed_status_cannot_be_closed() {
    assert_eq!(
        close_entry(&shut(ItemStatus::InDev, 5, 9), &at(12)),
        Err(Error::CanNotCloseClosedStatus)
    );
}

#[test]
fn an_estimate_cannot_be_closed() {
    assert_eq!(close_entry(&estimate(5, 3600.0), &at(12)), Err(Error::CanNotCloseEstimate));
}

#[test]
fn a_status_change_closes_the_open_status_and_opens_the_next() {
    let conf = config(None);
    let result =
        handle_changelog_entry(&conf, &open(ItemStatus::ToDo, 100), &at(200), &status_change("Selected"));
    assert_eq!(
        result,
        Ok(Some(EntryMarker {
            completed_entry: shut(ItemStatus::ToDo, 100, 200),
            new_entry: open(ItemStatus::Ready, 200),
        }))
    );
}

#[test]
fn a_status_change_to_an_unmapped_status_is_reported() {
    let conf = config(None);
    let result =
        handle_changelog_entry(&conf, &open(ItemStatus::ToDo, 100), &at(200), &status_change("Limbo"));
    assert_eq!(
        result,
        Err(Error::MissingStatusMapping { unmapped_status_name: "Limbo".to_string() })
    );
}

#[test]
fn a_status_change_without_a_name_does_nothing() {
    let conf = config(None);
    let entry = change("status", Some("10001"), None, None);
    assert_eq!(handle_changelog_entry(&conf, &open(ItemStatus::ToDo, 100), &at(200), &entry), Ok(None));
}

#[test]
fn an_estimate_change_records_an_estimate_and_keeps_the_open_status() {
    let conf = config(None);
    let result =
        handle_changelog_entry(&conf, &open(ItemStatus::InDev, 100), &at(200), &estimate_change("7200"));
    assert_eq!(
        result,
        Ok(Some(EntryMarker {
            completed_entry: estimate(200, 7200.0),
            new_entry: open(ItemStatus::InDev, 100),
        }))
    );
}

#[test]
fn an_estimate_change_without_a_value_does_nothing() {
    let conf = config(None);
    let entry = change("timeestimate", None, Some("gone"), None);
    assert_eq!(handle_changelog_entry(&conf, &open(ItemStatus::ToDo, 100), &at(200), &entry), Ok(None));
}

#[test]
fn an_estimate_change_to_something_that_is_no_number_is_reported() {
    let conf = config(None);
    let entry = change("timeestimate", Some("soon"), Some("soon"), None);
    assert_eq!(
        handle_changelog_entry(&conf, &open(ItemStatus::ToDo, 100), &at(200), &entry),
        Err(Error::UnableToParseDays { value: "soon".to_string() })
    );
}

#[test]
fn a_change_of_another_field_does_nothing() {
    let conf = config(None);
    let entry = change("assignee", Some("someone"), Some("Some One"), None);
    assert_eq!(handle_changelog_entry(&conf, &open(ItemStatus::ToDo, 100), &at(200), &entry), Ok(None));
    let shouting = change("Status", Some("1"), Some("Done"), None);
    assert_eq!(
        handle_changelog_entry(&conf, &open(ItemStatus::ToDo, 100), &at(200), &shouting),
        Ok(None)
    );
}

#[test]
fn an_issue_without_changes_is_still_to_do() {
    let conf = config(None);
    let subject = issue("ABC-1", "Story", "Backlog", None);
    assert_eq!(convert_changelog(&conf, &subject, &vec![]), Ok(vec![open(ItemStatus::ToDo, 100)]));
    assert_eq!(
        convert_changelog(&conf, &subject, &vec![changes(150, vec![])]),
        Ok(vec![open(ItemStatus::ToDo, 100)])
    );
}

#[test]
fn the_changelog_is_replayed_in_order() {
    let conf = config(None);
    let subject = issue("ABC-1", "Story", "Done", None);
    let changelog = vec![
        changes(200, vec![status_change("Selected"), change("assignee", Some("x"), Some("X"), None)]),
        changes(300, vec![estimate_change("3600"), status_change("In Progress")]),
        changes(400, vec![]),
        changes(500, vec![status_change("Done")]),
    ];
    assert_eq!(
        convert_changelog(&conf, &subject, &changelog),
        Ok(vec![
            shut(ItemStatus::ToDo, 100, 200),
            estimate(300, 3600.0),
            shut(ItemStatus::Ready, 200, 300),
            shut(ItemStatus::InDev, 300, 500),
            open(ItemStatus::Completed, 500),
        ])
    );
}

#[test]
fn the_first_change_that_fails_ends_the_replay() {
    let conf = config(None);
    let subject = issue("ABC-1", "Story", "Done", None);
    let changelog = vec![
        changes(200, vec![status_change("Selected")]),
        changes(300, vec![status_change("Limbo"), change("timeestimate", Some("x"), None, None)]),
        changes(400, vec![status_change("Nowhere")]),
    ];
    assert_eq!(
        convert_changelog(&conf, &subject, &changelog),
        Err(Error::MissingStatusMapping { unmapped_status_name: "Limbo".to_string() })
    );
}

#[test]
fn a_resolution_name_is_mapped() {
    let conf = config(None);
    assert_eq!(get_resolution_value_mapping(&conf, &"Fixed".to_string()), Ok(Resolution::Delivered));
    assert_eq!(get_resolution_value_mapping(&conf, &"Won't Do".to_string()), Ok(Resolution::Rejected));
    assert_eq!(
        get_resolution_value_mapping(&conf, &"Duplicate".to_string()),
        Err(Error::MissingResolutionMapping { unmapped_resolution_name: "Duplicate".to_string() })
    );
}

#[test]
fn the_resolution_is_read_from_the_issue_where_no_field_is_named() {
    let conf = config(None);
    assert_eq!(
        get_resolution(&conf, &issue("ABC-1", "Story", "Done", Some("Fixed"))),
        Ok(Resolution::Delivered)
    );
    assert_eq!(
        get_resolution_with_mapping(&conf, &issue("ABC-1", "Story", "Done", None)),
        Ok(Resolution::UnResolved)
    );
    assert_eq!(
        get_resolution(&conf, &issue("ABC-1", "Story", "Done", Some("Odd"))),
        Err(Error::MissingResolutionMapping { unmapped_resolution_name: "Odd".to_string() })
    );
}

#[test]
fn the_resolution_is_read_from_the_named_custom_field() {
    let conf = config(Some("customfield_10"));
    let field = CustomFieldName("customfield_10".to_string());
    let mut subject = issue("ABC-7", "Story", "Done", Some("Won't Do"));
    assert_eq!(get_resolution(&conf, &subject), Ok(Resolution::UnResolved));

    subject.custom_fields = vec![
        (CustomFieldName("customfield_9".to_string()), FieldValue::Other),
        (field_copy(&field), FieldValue::Object { value: Some("Fixed".to_string()) }),
        (field_copy(&field), FieldValue::Other),
    ];
    assert_eq!(get_resolution(&conf, &subject), Ok(Resolution::Delivered));
    assert_eq!(
        get_custom_resolution_with_mapping(&conf, &field, &subject),
        Ok(Resolution::Delivered)
    );

    subject.custom_fields = vec![(field_copy(&field), FieldValue::Null)];
    assert_eq!(get_resolution(&conf, &subject), Ok(Resolution::UnResolved));

    subject.custom_fields = vec![(field_copy(&field), FieldValue::Other)];
    let unreadable = Error::InvalidResolutionField {
        resolution_field: "customfield_10".to_string(),
        issue_key: "ABC-7".to_string(),
    };
    assert_eq!(get_resolution(&conf, &subject), Err(field_error(&unreadable)));

    subject.custom_fields = vec![(field_copy(&field), FieldValue::Object { value: None })];
    assert_eq!(get_resolution(&conf, &subject), Err(field_error(&unreadable)));

    subject.custom_fields =
        vec![(field_copy(&field), FieldValue::Object { value: Some("Odd".to_string()) })];
    assert_eq!(
        get_resolution(&conf, &subject),
        Err(Error::MissingResolutionMapping { unmapped_resolution_name: "Odd".to_string() })
    );
}

fn field_copy(name: &CustomFieldName) -> CustomFieldName {
    CustomFieldName(name.0.clone())
}

fn field_error(error: &Error) -> Error {
    match error {
        Error::InvalidResolutionField { resolution_field, issue_key } => {
            Error::InvalidResolutionField {
                resolution_field: resolution_field.clone(),
                issue_key: issue_key.clone(),
            }
        }
        _ => unreachable!(),
    }
}

#[test]
fn an_unreadable_value_names_no_field_where_the_configuration_names_none() {
    let conf = config(None);
    assert_eq!(
        extract_value_from_field(&conf, &IssueKey("ABC-3".to_string()), &None),
        Err(Error::InvalidResolutionField {
            resolution_field: String::new(),
            issue_key: "ABC-3".to_string(),
        })
    );
    assert_eq!(
        extract_value_from_field(&conf, &IssueKey("ABC-3".to_string()), &Some("Fixed".to_string())),
        Ok(Resolution::Delivered)
    );
}

#[test]
fn issue_types_are_features_before_they_are_operational() {
    let conf = config(None);
    assert_eq!(convert_issue_type(&conf, &"Epic".to_string()), Some(ItemType::Feature));
    assert_eq!(convert_issue_type(&conf, &"Story".to_string()), Some(ItemType::Feature));
    assert_eq!(convert_issue_type(&conf, &"Bug".to_string()), Some(ItemType::Operational));
    assert_eq!(convert_issue_type(&conf, &"Task".to_string()), None);
    assert_eq!(convert_issue_type(&conf, &"bug".to_string()), None);
}

#[test]
fn an_issue_becomes_an_item() {
    let conf = config(None);
    let detail = IssueDetail {
        issue: issue("ABC-42", "Bug", "In Review", Some("Fixed")),
        changelog: vec![changes(250, vec![status_change("In Review")])],
    };
    let item = convert_issue(&conf, &detail).unwrap().unwrap();
    let expected = Item {
        id: item.id,
        native_id: NativeId("ABC-42".to_string()),
        native_url: "https://example.atlassian.net/browse/ABC-42".to_string(),
        name: "ABC-42".to_string(),
        description: "summary of ABC-42".to_string(),
        typ: ItemType::Operational,
        status: ItemStatus::InTest,
        resolution: Resolution::Delivered,
        timeline: vec![shut(ItemStatus::ToDo, 100, 250), open(ItemStatus::InTest, 250)],
    };
    assert_eq!(item, expected);
}

#[test]
fn two_items_get_different_ids() {
    let conf = config(None);
    let detail = IssueDetail { issue: issue("ABC-42", "Bug", "Done", None), changelog: vec![] };
    let first = convert_issue(&conf, &detail).unwrap().unwrap();
    let second = convert_issue(&conf, &detail).unwrap().unwrap();
    assert_ne!(first.id, second.id);
    assert_eq!(first.name, second.name);
    assert_eq!(first.timeline, second.timeline);
}

#[test]
fn an_issue_whose_address_is_no_address_is_reported() {
    let conf = config(None);
    let mut subject = issue("ABC-42", "Bug", "Limbo", None);
    subject.sel = "not an address".to_string();
    let detail = IssueDetail { issue: subject, changelog: vec![changes(1, vec![status_change("Limbo")])] };
    match convert_issue(&conf, &detail) {
        Err(Error::CouldNotCreateUrl { target, .. }) => assert_eq!(target, "issue"),
        other => panic!("unexpected: {:?}", other),
    }
}

#[test]
fn the_timeline_fails_before_the_status_and_the_resolution() {
    let conf = config(None);
    let detail = IssueDetail {
        issue: issue("ABC-42", "Task", "Limbo", Some("Odd")),
        changelog: vec![changes(1, vec![status_change("Nowhere")])],
    };
    assert_eq!(
        convert_issue(&conf, &detail),
        Err(Error::MissingStatusMapping { unmapped_status_name: "Nowhere".to_string() })
    );
    let calmer = IssueDetail { issue: issue("ABC-42", "Task", "Limbo", Some("Odd")), changelog: vec![] };
    assert_eq!(
        convert_issue(&conf, &calmer),
        Err(Error::MissingStatusMapping { unmapped_status_name: "Limbo".to_string() })
    );
    let calmest = IssueDetail { issue: issue("ABC-42", "Task", "Done", Some("Odd")), changelog: vec![] };
    assert_eq!(
        convert_issue(&conf, &calmest),
        Err(Error::MissingResolutionMapping { unmapped_resolution_name: "Odd".to_string() })
    );
}

#[test]
fn an_issue_of_an_unlisted_type_gives_no_item() {
    let conf = config(None);
    let detail = IssueDetail { issue: issue("ABC-42", "Task", "Done", None), changelog: vec![] };
    assert_eq!(convert_issue(&conf, &detail), Ok(None));
}

#[test]
fn translation_keeps_the_order_and_leaves_out_unlisted_types() {
    let conf = config(None);
    let issues = vec![
        IssueDetail { issue: issue("ABC-1", "Story", "Done", Some("Fixed")), changelog: vec![] },
        IssueDetail { issue: issue("ABC-2", "Task", "Done", None), changelog: vec![] },
        IssueDetail { issue: issue("ABC-3", "Bug", "Blocked", None), changelog: vec![] },
    ];
    let items = translate(&conf, &issues).unwrap();
    let names: Vec<&str> = items.iter().map(|item| item.name.as_str()).collect();
    assert_eq!(names, vec!["ABC-1", "ABC-3"]);
    assert_eq!(items[0].typ, ItemType::Feature);
    assert_eq!(items[0].resolution, Resolution::Delivered);
    assert_eq!(items[1].typ, ItemType::Operational);
    assert_eq!(items[1].status, ItemStatus::Waiting);
    assert_eq!(items[1].resolution, Resolution::UnResolved);
    assert_eq!(items[1].native_url, "https://example.atlassian.net/browse/ABC-3");
    assert_eq!(translate(&conf, &vec![]), Ok(vec![]));
}

#[test]
fn translation_stops_at_the_first_issue_that_fails() {
    let conf = config(None);
    let issues = vec![
        IssueDetail { issue: issue("ABC-1", "Story", "Done", None), changelog: vec![] },
        IssueDetail { issue: issue("ABC-2", "Story", "Limbo", None), changelog: vec![] },
        IssueDetail { issue: issue("ABC-3", "Story", "Nowhere", None), changelog: vec![] },
    ];
    assert_eq!(
        translate(&conf, &issues),
        Err(Error::MissingStatusMapping { unmapped_status_name: "Limbo".to_string() })
    );
}

#[test]
fn the_estimate_that_started_first_is_kept() {
    let early = estimate(10, 60.0);
    let late = estimate(20, 120.0);
    let same = estimate(10, 999.0);
    assert_eq!(get_latest_estimate(None, &late), Some(late));
    assert_eq!(get_latest_estimate(Some(late), &early), Some(early));
    assert_eq!(get_latest_estimate(Some(early), &late), Some(early));
    assert_eq!(get_latest_estimate(Some(early), &same), Some(early));
}

#[test]
fn what_is_no_estimate_does_not_replace_what_was_kept() {
    let kept = estimate(10, 60.0);
    let status = open(ItemStatus::InDev, 1);
    assert_eq!(get_latest_estimate(Some(kept), &status), Some(kept));
    assert_eq!(get_latest_estimate(Some(status), &kept), Some(status));
    assert_eq!(get_latest_estimate(None, &status), Some(status));
}
