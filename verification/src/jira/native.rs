// This file is part of Lectev.
//
//  Lectev is free software: you can redistribute it and/or modify
//  it under the terms of the GNU General Public License as published by
//  the Free Software Foundation, either version 3 of the License, or
//  (at your option) any later version.
//
//  Lectev is distributed in the hope that it will be useful,
//  but WITHOUT ANY WARRANTY; without even the implied warranty of
//  MERCHANTABILITY or FITNESS FOR A PARTICULAR PURPOSE.  See the
//  GNU General Public License for more details.
//
//  You should have received a copy of the GNU General Public License
//  along with Lectev.  If not, see <https://www.gnu.org/licenses/>.

//! What the translation reads of the records that the tracker's API hands
//! out, as plain values.
use crate::time::Timestamp;
use vstd::prelude::*;

verus! {

/// The name of custom fields in the system
#[derive(Debug, Hash, PartialEq, Eq)]
pub struct CustomFieldName(pub String);

/// The key of an issue, such as `ABC-123`.
#[derive(Debug, Hash, PartialEq, Eq)]
pub struct IssueKey(pub String);

/// One change to one field of an issue.
#[derive(Debug, PartialEq, Eq)]
pub struct ChangeLogEntry {
    pub field: String,
    pub fieldtype: String,
    pub field_id: Option<String>,
    pub from: Option<String>,
    pub from_string: Option<String>,
    pub to: Option<String>,
    pub to_string: Option<String>,
    /// What `to` says where it is read as a number of seconds: the IEEE-754
    /// double-precision bit pattern, or `None` where `to` is absent or is no
    /// number.
    pub to_seconds: Option<u64>,
}

/// The changes that were made to an issue at one time.
#[derive(Debug, PartialEq, Eq)]
pub struct ChangeGroup {
    pub id: String,
    pub created: Timestamp,
    pub items: Vec<ChangeLogEntry>,
}

/// What the translation reads of the value of a custom field.
#[derive(Debug, PartialEq, Eq)]
pub enum FieldValue {
    /// The field is there and holds nothing.
    Null,
    /// The field holds an object. `value` is the text of the object's member
    /// `value`, or `None` where it has no such member or that is no text.
    Object { value: Option<String> },
    /// The field holds anything else.
    Other,
}

/// An issue as the tracker hands it out.
#[derive(Debug, PartialEq, Eq)]
pub struct Issue {
    pub key: IssueKey,
    /// The address of the issue itself.
    pub sel: String,
    pub summary: String,
    pub created: Timestamp,
    /// The name of the status the issue is in.
    pub status: String,
    /// The name of the issue's type.
    pub issuetype: String,
    /// The name of the issue's resolution, where it has one.
    pub resolution: Option<String>,
    pub custom_fields: Vec<(CustomFieldName, FieldValue)>,
}

/// An issue together with the changes made to it, oldest first.
#[derive(Debug, PartialEq, Eq)]
pub struct IssueDetail {
    pub issue: Issue,
    pub changelog: Vec<ChangeGroup>,
}

} // verus!
