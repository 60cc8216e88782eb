// This file is part of Lectev.
//
//  Lectev is free software: you can redistribute it and/or modify
//  it under the terms of the GNU General Public License as published by
//  the Free Software Foundation, either version 3 of the License, or
//  (at your option) any later version.
//
//  Lectev is distributed in the hope that it will be useful,
//  but WITHOUT ANY WARRANTY; without even the implied warranty of
//  MERCHANTABILITY or FITNESS FOR A PARTICULAR PURPOSE.  See the
//  GNU General Public License for more details.
//
//  You should have received a copy of the GNU General Public License
//  along with Lectev.  If not, see <https://www.gnu.org/licenses/>.

//! How the translation is to read the tracker's records.
use crate::jira::items::{ItemStatus, Resolution};
use crate::jira::native::CustomFieldName;
use vstd::prelude::*;

verus! {

/// The names of the issue types that count as feature work and as
/// operational work.
#[derive(Debug, PartialEq, Eq)]
pub struct IssueTypes {
    pub features: Vec<String>,
    pub operational: Vec<String>,
}

/// The configuration of the tracker. In the two mappings the first entry
/// under a name counts.
#[derive(Debug, PartialEq, Eq)]
pub struct Config {
    pub jira_instance: String,
    pub username: String,
    pub token: String,
    pub resolution_field: Option<CustomFieldName>,
    pub issue_types: IssueTypes,
    pub status_mapping: Vec<(String, ItemStatus)>,
    pub resolution_mapping: Vec<(String, Resolution)>,
}

} // verus!
