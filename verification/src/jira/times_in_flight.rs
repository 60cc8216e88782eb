// This file is part of Lectev.
//
//  Lectev is free software: you can redistribute it and/or modify
//  it under the terms of the GNU General Public License as published by
//  the Free Software Foundation, either version 3 of the License, or
//  (at your option) any later version.
//
//  Lectev is distributed in the hope that it will be useful,
//  but WITHOUT ANY WARRANTY; without even the implied warranty of
//  MERCHANTABILITY or FITNESS FOR A PARTICULAR PURPOSE.  See the
//  GNU General Public License for more details.
//
//  You should have received a copy of the GNU General Public License
//  along with Lectev.  If not, see <https://www.gnu.org/licenses/>.

//! # Times in flight
//!
//! For every item, the business days it has spent in each status, and the
//! estimate that was made first. Days are whole numbers; what is shown as a
//! fraction is made of them elsewhere.
use crate::jira::items::{Item, ItemStatus, ItemTimeLineEntry, Resolution};
use crate::time::Timestamp;
use vstd::prelude::*;
use vstd::string::StringExecFns;

verus! {

/// The days in each status that have been counted for an item so far, and the
/// estimate that was made first, in seconds, as an IEEE-754 double-precision
/// bit pattern.
#[derive(Debug)]
pub struct WorkingEntry<'a> {
    pub item: &'a Item,
    pub todo: i128,
    pub ready: i128,
    pub in_dev: i128,
    pub in_test: i128,
    pub waiting: i128,
    pub completed: i128,
    pub oldest_estimate: Option<u64>,
}

/// One line of the report.
#[derive(Debug)]
pub struct Entry<'a> {
    pub url: String,
    pub name: &'a String,
    pub description: &'a String,
    pub todo: i128,
    pub ready: i128,
    pub in_dev: i128,
    pub in_test: i128,
    pub waiting: i128,
    pub completed: i128,
    pub first_estimate: Option<u64>,
    pub status: &'a ItemStatus,
    pub resolution: &'a Resolution,
}

/// The first second of the span of time in which business days are counted:
/// a few days into the year 1.
pub const FIRST_SECOND: i64 = -62_135_000_000;

/// The last second of that span: a few days before the year 9999.
pub const LAST_SECOND: i64 = 253_370_000_000;

/// Whether `moment` lies in the span of time in which business days are
/// counted, and is a point in time that the calendar can hold.
pub open spec fn in_calendar(moment: Timestamp) -> bool {
    FIRST_SECOND <= moment.seconds <= LAST_SECOND && moment.nanos < 1_000_000_000
}

/// Whether `moment` lies in the span of time in which business days are
/// counted.
pub fn is_in_calendar(moment: &Timestamp) -> (inside: bool)
    ensures
        inside == in_calendar(*moment),
{
    FIRST_SECOND <= moment.seconds && moment.seconds <= LAST_SECOND && moment.nanos
        < 1_000_000_000
}

/// The number of business days between two points in time, as
/// `HolidayCalendar::bdays` of the `bdays` crate counts them with the
/// holidays of the United States: negative where the second is the earlier.
pub uninterp spec fn business_days(
    start_seconds: i64,
    start_nanos: u32,
    end_seconds: i64,
    end_nanos: u32,
) -> i32;

/// `HolidayCalendar::bdays` of the `bdays` crate, on the calendar
/// `USSettlement`, between the two points in time as chrono's
/// `DateTime::from_timestamp` makes them. The crate walks the calendar day by
/// day and panics where chrono runs out of years; `requires` keeps both ends
/// between the years 1 and 9999, where chrono can hold every day that is
/// walked, and the nanoseconds below a second, so that both ends are points
/// in time. The result is what `business_days` names.
#[verifier::external_body]
fn get_business_days(start: &Timestamp, end: &Timestamp) -> (days: i32)
    requires
        in_calendar(*start),
        in_calendar(*end),
    ensures
        days == business_days(start.seconds, start.nanos, end.seconds, end.nanos),
{
    let cal = bdays::calendars::us::USSettlement;
    let from = chrono::DateTime::from_timestamp(start.seconds, start.nanos).unwrap();
    let to = chrono::DateTime::from_timestamp(end.seconds, end.nanos).unwrap();
    bdays::HolidayCalendar::bdays(&cal, from, to)
}

/// The business days that a status lasted: up to its end, or up to `now`
/// while it is open. An estimate lasts no time.
pub open spec fn days_of(entry: ItemTimeLineEntry, now: Timestamp) -> int {
    match entry {
        ItemTimeLineEntry::OpenStatus { start, .. } => business_days(
            start.seconds,
            start.nanos,
            now.seconds,
            now.nanos,
        ) as int,
        ItemTimeLineEntry::ClosedStatus { start, end, .. } => business_days(
            start.seconds,
            start.nanos,
            end.seconds,
            end.nanos,
        ) as int,
        ItemTimeLineEntry::Estimate { .. } => 0,
    }
}

/// Whether `entry` is a status, open or closed, and that status is `status`.
pub open spec fn is_in(entry: ItemTimeLineEntry, status: ItemStatus) -> bool {
    match entry {
        ItemTimeLineEntry::OpenStatus { status: s, .. } => s == status,
        ItemTimeLineEntry::ClosedStatus { status: s, .. } => s == status,
        ItemTimeLineEntry::Estimate { .. } => false,
    }
}

/// The business days that the timeline spends in `status`, all told.
pub open spec fn days_in(status: ItemStatus, timeline: Seq<ItemTimeLineEntry>, now: Timestamp) -> int
    decreases timeline.len(),
{
    if timeline.len() == 0 {
        0
    } else if is_in(timeline.last(), status) {
        days_in(status, timeline.drop_last(), now) + days_of(timeline.last(), now)
    } else {
        days_in(status, timeline.drop_last(), now)
    }
}

/// The estimate to keep when `new` joins what was kept so far: of two
/// estimates the one that started first, and of equal starts the one kept
/// so far. Where nothing was kept, `new` is kept, whatever it is; where
/// either is no estimate, what was kept stays.
pub open spec fn estimate_to_keep(old: Option<ItemTimeLineEntry>, new: ItemTimeLineEntry) -> Option<
    ItemTimeLineEntry,
> {
    match (old, new) {
        (
            Some(ItemTimeLineEntry::Estimate { start: old_start, .. }),
            ItemTimeLineEntry::Estimate { start: new_start, .. },
        ) => if new_start.is_before(old_start) {
            Some(new)
        } else {
            old
        },
        (None, _) => Some(new),
        _ => old,
    }
}

/// Decides which estimate to keep when `new` joins what was kept so far.
pub fn get_latest_estimate(old: Option<ItemTimeLineEntry>, new: &ItemTimeLineEntry) -> (kept:
    Option<ItemTimeLineEntry>)
    ensures
        kept == estimate_to_keep(old, *new),
{
    match (&old, new) {
        (
            Some(ItemTimeLineEntry::Estimate { start: old_start, .. }),
            ItemTimeLineEntry::Estimate { start: new_start, .. },
        ) => {
            if new_start.before(old_start) {
                Some(*new)
            } else {
                old
            }
        },
        (None, _) => Some(*new),
        _ => old,
    }
}

/// The estimate of the timeline that is kept in the end: the earliest, and
/// of several that start together the first.
pub open spec fn kept_estimate(timeline: Seq<ItemTimeLineEntry>) -> Option<ItemTimeLineEntry>
    decreases timeline.len(),
{
    if timeline.len() == 0 {
        None
    } else if timeline.last() is Estimate {
        estimate_to_keep(kept_estimate(timeline.drop_last()), timeline.last())
    } else {
        kept_estimate(timeline.drop_last())
    }
}

/// The seconds of an estimate, if it is one.
pub open spec fn seconds_of(entry: Option<ItemTimeLineEntry>) -> Option<u64> {
    match entry {
        Some(ItemTimeLineEntry::Estimate { seconds, .. }) => Some(seconds),
        _ => None,
    }
}

/// Whether business days can be counted for every status of the timeline.
pub open spec fn timeline_in_calendar(timeline: Seq<ItemTimeLineEntry>) -> bool {
    forall|i: int|
        0 <= i < timeline.len() ==> match #[trigger] timeline[i] {
            ItemTimeLineEntry::OpenStatus { start, .. } => in_calendar(start),
            ItemTimeLineEntry::ClosedStatus { start, end, .. } => in_calendar(start)
                && in_calendar(end),
            ItemTimeLineEntry::Estimate { .. } => true,
        }
}

/// Whether business days can be counted for `item` as of `now`.
pub fn fits_calendar(item: &Item, now: &Timestamp) -> (fits: bool)
    ensures
        fits == (in_calendar(*now) && timeline_in_calendar(item.timeline@)),
{
    if !is_in_calendar(now) {
        return false;
    }
    let mut i: usize = 0;
    while i < item.timeline.len()
        invariant
            i <= item.timeline.len(),
            timeline_in_calendar(item.timeline@.take(i as int)),
        decreases item.timeline.len() - i,
    {
        let inside = match &item.timeline[i] {
            ItemTimeLineEntry::OpenStatus { start, .. } => is_in_calendar(start),
            ItemTimeLineEntry::ClosedStatus { start, end, .. } => is_in_calendar(start)
                && is_in_calendar(end),
            ItemTimeLineEntry::Estimate { .. } => true,
        };
        if !inside {
            return false;
        }
        assert forall|k: int| 0 <= k < i + 1 implies match #[trigger] item.timeline@.take(
            i as int + 1,
        )[k] {
            ItemTimeLineEntry::OpenStatus { start, .. } => in_calendar(start),
            ItemTimeLineEntry::ClosedStatus { start, end, .. } => in_calendar(start)
                && in_calendar(end),
            ItemTimeLineEntry::Estimate { .. } => true,
        } by {
            if k < i {
                assert(item.timeline@.take(i as int)[k] == item.timeline@[k]);
            }
        }
        i += 1;
    }
    assert(item.timeline@.take(i as int) =~= item.timeline@);
    true
}

/// The most that the counters may hold for another count to fit.
pub open spec fn room() -> int {
    0x1_0000_0000_0000_0000_0000_0000
}

/// Whether every counter of `entry` is at most `bound` away from nought.
pub open spec fn counters_within(entry: WorkingEntry, bound: int) -> bool {
    &&& -bound <= entry.todo <= bound
    &&& -bound <= entry.ready <= bound
    &&& -bound <= entry.in_dev <= bound
    &&& -bound <= entry.in_test <= bound
    &&& -bound <= entry.waiting <= bound
    &&& -bound <= entry.completed <= bound
}

/// The counter of `entry` for `status`.
pub open spec fn counter(entry: WorkingEntry, status: ItemStatus) -> int {
    match status {
        ItemStatus::ToDo => entry.todo as int,
        ItemStatus::Ready => entry.ready as int,
        ItemStatus::InDev => entry.in_dev as int,
        ItemStatus::InTest => entry.in_test as int,
        ItemStatus::Waiting => entry.waiting as int,
        ItemStatus::Completed => entry.completed as int,
    }
}

/// Adds `days` to the counter for `status`, and to no other. The counters
/// must have room for the sum: each may be up to 2<sup>96</sup> away from
/// nought.
pub fn set_days(entry: &mut WorkingEntry, status: &ItemStatus, days: i32)
    requires
        counters_within(*old(entry), room()),
    ensures
        final(entry).item == old(entry).item,
        final(entry).oldest_estimate == old(entry).oldest_estimate,
        forall|s: ItemStatus|
            counter(*final(entry), s) == counter(*old(entry), s) + if s == *status {
                days as int
            } else {
                0
            },
{
    match status {
        ItemStatus::ToDo => entry.todo = entry.todo + days as i128,
        ItemStatus::Ready => entry.ready = entry.ready + days as i128,
        ItemStatus::InDev => entry.in_dev = entry.in_dev + days as i128,
        ItemStatus::InTest => entry.in_test = entry.in_test + days as i128,
        ItemStatus::Waiting => entry.waiting = entry.waiting + days as i128,
        ItemStatus::Completed => entry.completed = entry.completed + days as i128,
    }
}

/// What the count for `item` as of `now` must be.
pub open spec fn counted(entry: WorkingEntry, item: &Item, now: Timestamp) -> bool {
    &&& entry.item == item
    &&& forall|s: ItemStatus| counter(entry, s) == days_in(s, item.timeline@, now)
    &&& entry.oldest_estimate == seconds_of(kept_estimate(item.timeline@))
}

/// Counts the business days that `item` has spent in each status, an open
/// status lasting until `now`, and finds the estimate that was made first.
pub fn calculate_time_in_flight<'a>(item: &'a Item, now: &Timestamp) -> (entry: WorkingEntry<'a>)
    requires
        in_calendar(*now),
        timeline_in_calendar(item.timeline@),
    ensures
        counted(entry, item, *now),
{
    let mut entry = WorkingEntry {
        item,
        todo: 0,
        ready: 0,
        in_dev: 0,
        in_test: 0,
        waiting: 0,
        completed: 0,
        oldest_estimate: None,
    };

    let mut oldest_estimate: Option<ItemTimeLineEntry> = None;
    let mut i: usize = 0;
    while i < item.timeline.len()
        invariant
            i <= item.timeline.len(),
            in_calendar(*now),
            timeline_in_calendar(item.timeline@),
            entry.item == item,
            counters_within(entry, i * 0x8000_0000),
            forall|s: ItemStatus|
                counter(entry, s) == days_in(s, item.timeline@.take(i as int), *now),
            oldest_estimate == kept_estimate(item.timeline@.take(i as int)),
        decreases item.timeline.len() - i,
    {
        let ghost upto = item.timeline@.take(i as int + 1);
        assert(upto.drop_last() =~= item.timeline@.take(i as int));
        assert(upto.last() == item.timeline@[i as int]);
        assert(i * 0x8000_0000 <= room()) by (nonlinear_arith)
            requires
                i <= usize::MAX,
                usize::MAX <= 0xffff_ffff_ffff_ffff,
        ;
        assert((i + 1) * 0x8000_0000 == i * 0x8000_0000 + 0x8000_0000) by (nonlinear_arith);
        match &item.timeline[i] {
            ItemTimeLineEntry::OpenStatus { status, start } => {
                let days = get_business_days(start, now);
                set_days(&mut entry, status, days);
            },
            ItemTimeLineEntry::ClosedStatus { status, start, end } => {
                let days = get_business_days(start, end);
                set_days(&mut entry, status, days);
            },
            ItemTimeLineEntry::Estimate { .. } => {
                oldest_estimate = get_latest_estimate(oldest_estimate, &item.timeline[i]);
            },
        }
        assert forall|s: ItemStatus| counter(entry, s) == days_in(s, upto, *now) by {
            assert(days_in(s, upto, *now) == days_in(s, upto.drop_last(), *now) + if is_in(
                upto.last(),
                s,
            ) {
                days_of(upto.last(), *now)
            } else {
                0
            });
        }
        assert(counters_within(entry, (i + 1) * 0x8000_0000)) by {
            assert(counter(entry, ItemStatus::ToDo) == entry.todo);
            assert(counter(entry, ItemStatus::Ready) == entry.ready);
            assert(counter(entry, ItemStatus::InDev) == entry.in_dev);
            assert(counter(entry, ItemStatus::InTest) == entry.in_test);
            assert(counter(entry, ItemStatus::Waiting) == entry.waiting);
            assert(counter(entry, ItemStatus::Completed) == entry.completed);
        }
        i += 1;
    }
    assert(item.timeline@.take(i as int) =~= item.timeline@);
    let ghost summed = entry;
    entry.oldest_estimate = match oldest_estimate {
        Some(ItemTimeLineEntry::Estimate { seconds, .. }) => Some(seconds),
        _ => None,
    };
    assert(forall|s: ItemStatus| counter(entry, s) == counter(summed, s));

    entry
}

/// The line of the report that shows `entry`, the tracker being at
/// `base_url`.
pub open spec fn displays(line: Entry, base_url: Seq<char>, entry: WorkingEntry) -> bool {
    &&& line.url@ == base_url + "browse/"@ + entry.item.name@
    &&& line.name == &entry.item.name
    &&& line.description == &entry.item.description
    &&& line.todo == entry.todo
    &&& line.ready == entry.ready
    &&& line.in_dev == entry.in_dev
    &&& line.in_test == entry.in_test
    &&& line.waiting == entry.waiting
    &&& line.completed == entry.completed
    &&& line.first_estimate == entry.oldest_estimate
    &&& line.status == &entry.item.status
    &&& line.resolution == &entry.item.resolution
}

/// Makes the line of the report for one item.
pub fn prepare_for_display<'a>(base_url: &String, entry: WorkingEntry<'a>) -> (line: Entry<'a>)
    ensures
        displays(line, base_url@, entry),
{
    let mut url = base_url.clone();
    url.append("browse/");
    url.append(entry.item.name.as_str());

    Entry {
        url,
        name: &entry.item.name,
        description: &entry.item.description,
        todo: entry.todo,
        ready: entry.ready,
        in_dev: entry.in_dev,
        in_test: entry.in_test,
        waiting: entry.waiting,
        completed: entry.completed,
        first_estimate: entry.oldest_estimate,
        status: &entry.item.status,
        resolution: &entry.item.resolution,
    }
}

/// Whether `line` is the line of the report for `item` as of `now`, the
/// tracker being at `base_url`.
pub open spec fn reports(line: Entry, base_url: Seq<char>, item: &Item, now: Timestamp) -> bool {
    &&& line.url@ == base_url + "browse/"@ + item.name@
    &&& line.name == &item.name
    &&& line.description == &item.description
    &&& line.todo == days_in(ItemStatus::ToDo, item.timeline@, now)
    &&& line.ready == days_in(ItemStatus::Ready, item.timeline@, now)
    &&& line.in_dev == days_in(ItemStatus::InDev, item.timeline@, now)
    &&& line.in_test == days_in(ItemStatus::InTest, item.timeline@, now)
    &&& line.waiting == days_in(ItemStatus::Waiting, item.timeline@, now)
    &&& line.completed == days_in(ItemStatus::Completed, item.timeline@, now)
    &&& line.first_estimate == seconds_of(kept_estimate(item.timeline@))
    &&& line.status == &item.status
    &&& line.resolution == &item.resolution
}

/// Whether business days can be counted for every one of `items` as of
/// `now`.
pub open spec fn all_in_calendar(items: Seq<Item>, now: Timestamp) -> bool {
    in_calendar(now) && forall|i: int|
        0 <= i < items.len() ==> timeline_in_calendar((#[trigger] items[i]).timeline@)
}

/// Whether business days can be counted for every one of `items` as of
/// `now`.
pub fn all_fit_calendar(items: &Vec<Item>, now: &Timestamp) -> (fit: bool)
    ensures
        fit == all_in_calendar(items@, *now),
{
    if !is_in_calendar(now) {
        return false;
    }
    let mut i: usize = 0;
    while i < items.len()
        invariant
            i <= items.len(),
            in_calendar(*now),
            forall|k: int| 0 <= k < i ==> timeline_in_calendar((#[trigger] items@[k]).timeline@),
        decreases items.len() - i,
    {
        if !fits_calendar(&items[i], now) {
            return false;
        }
        i += 1;
    }
    true
}

/// Makes the report: one line for each item, in order.
pub fn calculate<'a>(instance_url: &String, items: &'a Vec<Item>, now: &Timestamp) -> (lines: Vec<
    Entry<'a>,
>)
    requires
        all_in_calendar(items@, *now),
    ensures
        lines@.len() == items@.len(),
        forall|i: int|
            0 <= i < items@.len() ==> reports(#[trigger] lines@[i], instance_url@, &items@[i], *now),
{
    let mut lines: Vec<Entry<'a>> = Vec::with_capacity(items.len());
    let mut i: usize = 0;
    while i < items.len()
        invariant
            i <= items.len(),
            all_in_calendar(items@, *now),
            lines@.len() == i,
            forall|k: int|
                0 <= k < i ==> reports(#[trigger] lines@[k], instance_url@, &items@[k], *now),
        decreases items.len() - i,
    {
        let working_entry = calculate_time_in_flight(&items[i], now);
        let ghost counted_entry = working_entry;
        let line = prepare_for_display(instance_url, working_entry);
        proof {
            assert(counter(counted_entry, ItemStatus::ToDo) == counted_entry.todo);
            assert(counter(counted_entry, ItemStatus::Ready) == counted_entry.ready);
            assert(counter(counted_entry, ItemStatus::InDev) == counted_entry.in_dev);
            assert(counter(counted_entry, ItemStatus::InTest) == counted_entry.in_test);
            assert(counter(counted_entry, ItemStatus::Waiting) == counted_entry.waiting);
            assert(counter(counted_entry, ItemStatus::Completed) == counted_entry.completed);
            assert(reports(line, instance_url@, &items@[i as int], *now));
        }
        lines.push(line);
        i += 1;
    }
    lines
}

} // verus!
