// This file is part of Lectev.
//
//  Lectev is free software: you can redistribute it and/or modify
//  it under the terms of the GNU General Public License as published by
//  the Free Software Foundation, either version 3 of the License, or
//  (at your option) any later version.
//
//  Lectev is distributed in the hope that it will be useful,
//  but WITHOUT ANY WARRANTY; without even the implied warranty of
//  MERCHANTABILITY or FITNESS FOR A PARTICULAR PURPOSE.  See the
//  GNU General Public License for more details.
//
//  You should have received a copy of the GNU General Public License
//  along with Lectev.  If not, see <https://www.gnu.org/licenses/>.

//! The tracker-independent model of an item: what kind of work it is, where
//! it stands, how it was resolved, and how it got there.
use crate::time::Timestamp;
use vstd::prelude::*;

verus! {

/// Id of the item: the 128 bits of a UUID.
#[derive(Hash, Eq, PartialEq, Debug, Clone, Copy, Structural)]
pub struct ItemId(pub u128);

/// The key under which the tracker knows the item.
#[derive(Hash, Eq, PartialEq, Debug)]
pub struct NativeId(pub String);

/// Id of a timeline entry: the 128 bits of a UUID.
#[derive(Hash, Eq, PartialEq, Debug, Clone, Copy, Structural)]
pub struct ItemTimeLineEntryId(pub u128);

/// Provides the potential resolutions for an issue
#[derive(Debug, Clone, Copy, PartialEq, Eq, Structural)]
pub enum Resolution {
    UnResolved,
    Rejected,
    Delivered,
}

/// Provides the internal representation of status' for an item
#[derive(Debug, Clone, Copy, PartialEq, Eq, Structural)]
pub enum ItemStatus {
    ToDo,
    Ready,
    InDev,
    InTest,
    Waiting,
    Completed,
}

/// Timeline entry
#[derive(Debug, Clone, Copy, PartialEq, Eq, Structural)]
pub enum ItemTimeLineEntry {
    /// ClosedStatus is for a status that is complete. Ie, the item has transitioned to a new status
    /// and this status will no longer be updated
    ClosedStatus { status: ItemStatus, start: Timestamp, end: Timestamp },
    /// An open status is a status that is not complete. Essentially, the item is still in this
    /// status at the time the report was run
    OpenStatus { status: ItemStatus, start: Timestamp },
    /// The remaining time was estimated anew. `seconds` is the IEEE-754
    /// double-precision bit pattern of the estimate, in seconds.
    Estimate { start: Timestamp, seconds: u64 },
}

#[derive(Debug, Hash, Clone, Copy, PartialEq, Eq, Structural)]
pub enum ItemType {
    Operational,
    Reinvestment,
    Feature,
}

/// An issue of the tracker in tracker-independent form.
#[derive(Debug, PartialEq, Eq)]
pub struct Item {
    pub id: ItemId,
    pub native_id: NativeId,
    /// The address at which the tracker shows the item.
    pub native_url: String,
    pub name: String,
    pub description: String,
    pub typ: ItemType,
    pub status: ItemStatus,
    pub resolution: Resolution,
    pub timeline: Vec<ItemTimeLineEntry>,
}

} // verus!
