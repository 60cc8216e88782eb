// This file is part of Lectev.
//
//  Lectev is free software: you can redistribute it and/or modify
//  it under the terms of the GNU General Public License as published by
//  the Free Software Foundation, either version 3 of the License, or
//  (at your option) any later version.
//
//  Lectev is distributed in the hope that it will be useful,
//  but WITHOUT ANY WARRANTY; without even the implied warranty of
//  MERCHANTABILITY or FITNESS FOR A PARTICULAR PURPOSE.  See the
//  GNU General Public License for more details.
//
//  You should have received a copy of the GNU General Public License
//  along with Lectev.  If not, see <https://www.gnu.org/licenses/>.

//! # Import
//!
//! What is built from the rows of the sheets once they have been read: the
//! days of time off that a row of a time-off sheet stands for, and the
//! worker that they belong to.
use crate::simulation::external as sim_external;
use crate::simulation::external::{Worker, WorkerId};
use crate::time::Timestamp;
use vstd::prelude::*;

verus! {

#[derive(Debug, PartialEq, Eq)]
pub enum Error {
    /// Error produced when a worker id can not be created from a string
    WorkerIdCantBeCreated { worker_id: String, source: sim_external::Error },
    /// Error produced when pto is found for a worker that does not exit.
    NonExistantWorker { id: WorkerId },
}

/// Represents the way in which a row of data in the pto sheet is constructed.
/// The two dates are counted in days since the first of January 1970;
/// `percentage` is carried as an IEEE-754 single-precision bit pattern.
#[derive(Debug, PartialEq, Eq)]
pub struct Pto {
    pub worker_id: String,
    pub start_date: i32,
    pub end_date: i32,
    pub percentage: u32,
}

/// The whole of a day, as the bit pattern of the single-precision number one.
pub const WHOLE_DAY: u32 = 0x3f80_0000;

/// The number of seconds in a day.
pub const SECONDS_IN_A_DAY: i64 = 86_400;

/// The start of the day `day`, counted in days since the first of January
/// 1970.
pub open spec fn start_of_day(day: int) -> Timestamp {
    Timestamp { seconds: (day * SECONDS_IN_A_DAY) as i64, nanos: 0 }
}

/// The days off from `start` up to, and without, `end`: one entry for each
/// day, each for the whole day.
pub open spec fn days_off(start: int, end: int) -> Seq<sim_external::Pto> {
    Seq::new(
        if start < end {
            (end - start) as nat
        } else {
            0
        },
        |k: int| sim_external::Pto { date: start_of_day(start + k), percentage: WHOLE_DAY },
    )
}

/// This function converts a pto object in the csv format into a pto object as needed in the
/// simulation: one for each day from the first day up to, and without, the last.
pub fn internal_pto_to_external_pto(pto: &Pto) -> (result: Vec<sim_external::Pto>)
    ensures
        result@ == days_off(pto.start_date as int, pto.end_date as int),
{
    let mut result: Vec<sim_external::Pto> = Vec::new();

    let mut start: i64 = pto.start_date as i64;
    let end: i64 = pto.end_date as i64;
    while start < end
        invariant
            pto.start_date <= start,
            start <= end || start == pto.start_date,
            end == pto.end_date,
            result@ == days_off(pto.start_date as int, start as int),
        decreases end - start,
    {
        result.push(
            sim_external::Pto {
                date: Timestamp { seconds: start * SECONDS_IN_A_DAY, nanos: 0 },
                percentage: WHOLE_DAY,
            },
        );
        assert(result@ =~= days_off(pto.start_date as int, start as int + 1));
        start = start + 1;
    }
    assert(result@ =~= days_off(pto.start_date as int, pto.end_date as int));
    result
}

/// The place of the first of `workers` whose id is `id`, if there is one.
pub open spec fn place_of_worker(workers: Seq<Worker>, id: Seq<char>) -> Option<int>
    decreases workers.len(),
{
    if workers.len() == 0 {
        None
    } else {
        match place_of_worker(workers.drop_last(), id) {
            Some(k) => Some(k),
            None => if workers.last().id@ == id {
                Some(workers.len() - 1)
            } else {
                None
            },
        }
    }
}

/// What adding the time off of one row to the workers must give.
///
/// A row without a worker id is refused, and so is a row for a worker that
/// is not among the workers; the workers then stay as they are. Otherwise the
/// days of the row are added, after those that are there, to the first
/// worker with that id, and to no other.
pub open spec fn pto_added(
    before: Seq<Worker>,
    pto: Pto,
    after: Seq<Worker>,
    result: Result<(), Error>,
) -> bool {
    if pto.worker_id@.len() == 0 {
        &&& after == before
        &&& result matches Err(Error::WorkerIdCantBeCreated { worker_id, source })
        &&& worker_id@ == pto.worker_id@
        &&& source matches sim_external::Error::InstantiateWorkerId { id }
        &&& id@ == pto.worker_id@
    } else {
        match place_of_worker(before, pto.worker_id@) {
            None => {
                &&& after == before
                &&& result matches Err(Error::NonExistantWorker { id })
                &&& id@ == pto.worker_id@
            },
            Some(k) => {
                &&& result is Ok
                &&& after.len() == before.len()
                &&& forall|i: int| 0 <= i < before.len() && i != k ==> after[i] == before[i]
                &&& after[k].id == before[k].id
                &&& after[k].skills == before[k].skills
                &&& after[k].pto@ == before[k].pto@ + days_off(
                    pto.start_date as int,
                    pto.end_date as int,
                )
            },
        }
    }
}

/// Adds pto to the worker specified in the Pto record, converting all of the pto into the
/// simulation format for Pto. Workers must exit in the `workers` vec or an error is produced.
pub fn add_pto_to_worker(workers: &mut Vec<Worker>, pto: Pto) -> (result: Result<(), Error>)
    ensures
        pto_added(old(workers)@, pto, final(workers)@, result),
{
    let mut all_pto = internal_pto_to_external_pto(&pto);

    let worker_id = match WorkerId::new(pto.worker_id.clone()) {
        Ok(id) => id,
        Err(source) => {
            return Err(Error::WorkerIdCantBeCreated { worker_id: pto.worker_id.clone(), source });
        },
    };

    let mut k: usize = 0;
    assert(workers@.take(0) =~= Seq::<Worker>::empty());
    while k < workers.len()
        invariant
            k <= workers.len(),
            *workers == *old(workers),
            worker_id@ == pto.worker_id@,
            pto.worker_id@.len() > 0,
            all_pto@ == days_off(pto.start_date as int, pto.end_date as int),
            place_of_worker(workers@.take(k as int), worker_id@) is None,
        decreases workers.len() - k,
    {
        assert(workers@.take(k as int + 1).drop_last() =~= workers@.take(k as int));
        assert(workers@.take(k as int + 1).last() == workers@[k as int]);
        if workers[k].id == worker_id {
            proof {
                assert(place_of_worker(workers@.take(k as int + 1), worker_id@) == Some(
                    k as int,
                ));
                lemma_place_stays(workers@, worker_id@, k as int + 1);
            }
            workers[k].pto.append(&mut all_pto);
            return Ok(());
        }
        k += 1;
    }
    assert(workers@.take(k as int) =~= workers@);
    Err(Error::NonExistantWorker { id: worker_id })
}

/// A worker found among the first `n` is the one found among all.
proof fn lemma_place_stays(workers: Seq<Worker>, id: Seq<char>, n: int)
    requires
        0 <= n <= workers.len(),
        place_of_worker(workers.take(n), id) is Some,
    ensures
        place_of_worker(workers, id) == place_of_worker(workers.take(n), id),
    decreases workers.len() - n,
{
    if n < workers.len() {
        assert(workers.take(n + 1).drop_last() =~= workers.take(n));
        lemma_place_stays(workers, id, n + 1);
    } else {
        assert(workers.take(n) =~= workers);
    }
}

} // verus!
