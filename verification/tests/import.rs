// This file is part of Lectev.
//
//  Lectev is free software: you can redistribute it and/or modify
//  it under the terms of the GNU General Public License as published by
//  the Free Software Foundation, either version 3 of the License, or
//  (at your option) any later version.
//
//  Lectev is distributed in the hope that it will be useful,
//  but WITHOUT ANY WARRANTY; without even the implied warranty of
//  MERCHANTABILITY or FITNESS FOR A PARTICULAR PURPOSE.  See the
//  GNU General Public License for more details.
//
//  You should have received a copy of the GNU General Public License
//  along with Lectev.  If not, see <https://www.gnu.org/licenses/>.

use lectev::simulation::external as sim_external;
use lectev::simulation::external::{Skill, Worker, WorkerId};
use lectev::simulation::import_csv::{
    add_pto_to_worker, internal_pto_to_external_pto, Error, Pto, SECONDS_IN_A_DAY, WHOLE_DAY,
};
use lectev::time::Timestamp;

fn time_off(worker: &str, start_date: i32, end_date: i32) -> Pto {
    Pto { worker_id: worker.to_string(), start_date, end_date, percentage: 0.5_f32.to_bits() }
}

fn whole_day(day: i64) -> sim_external::Pto {
    sim_external::Pto {
        date: Timestamp { seconds: day * 86_400, nanos: 0 },
        percentage: 1.0_f32.to_bits(),
    }
}

fn worker(id: &str, pto: Vec<sim_external::Pto>) -> Worker {
    Worker {
        id: WorkerId::new(id.to_string()).unwrap(),
        skills: vec![Skill::new("rust".to_string()).unwrap()],
        pto,
    }
}

#[test]
fn a_whole_day_is_the_number_one() {
    assert_eq!(f32::from_bits(WHOLE_DAY), 1.0);
    assert_eq!(SECONDS_IN_A_DAY, 24 * 60 * 60);
}

#[test]
fn time_off_is_one_entry_for_each_day_without_the_last() {
    assert_eq!(
        internal_pto_to_external_pto(&time_off("ada", 19_000, 19_003)),
        vec![whole_day(19_000), whole_day(19_001), whole_day(19_002)]
    );
}

#[test]
fn time_off_before_the_epoch_counts_backwards() {
    assert_eq!(
        internal_pto_to_external_pto(&time_off("ada", -2, 1)),
        vec![whole_day(-2), whole_day(-1), whole_day(0)]
    );
}

#[test]
fn time_off_that_ends_when_it_starts_is_nothing() {
    assert!(internal_pto_to_external_pto(&time_off("ada", 5, 5)).is_empty());
    assert!(internal_pto_to_external_pto(&time_off("ada", 5, 4)).is_empty());
    assert!(internal_pto_to_external_pto(&time_off("ada", i32::MAX, i32::MIN)).is_empty());
}

#[test]
fn time_off_at_the_end_of_the_range_does_not_overflow() {
    let days = internal_pto_to_external_pto(&time_off("ada", i32::MAX - 1, i32::MAX));
    assert_eq!(days, vec![whole_day(i64::from(i32::MAX) - 1)]);
}

#[test]
fn time_off_goes_to_the_worker_it_names() {
    let mut workers = vec![worker("ada", vec![]), worker("bob", vec![whole_day(1)]), worker("bob", vec![])];
    assert_eq!(add_pto_to_worker(&mut workers, time_off("bob", 10, 12)), Ok(()));
    assert_eq!(
        workers,
        vec![
            worker("ada", vec![]),
            worker("bob", vec![whole_day(1), whole_day(10), whole_day(11)]),
            worker("bob", vec![]),
        ]
    );
}

#[test]
fn time_off_for_an_unknown_worker_is_refused() {
    let mut workers = vec![worker("ada", vec![])];
    assert_eq!(
        add_pto_to_worker(&mut workers, time_off("eve", 10, 12)),
        Err(Error::NonExistantWorker { id: WorkerId::new("eve".to_string()).unwrap() })
    );
    assert_eq!(workers, vec![worker("ada", vec![])]);
}

#[test]
fn time_off_without_a_worker_is_refused() {
    let mut workers = vec![worker("ada", vec![])];
    assert_eq!(
        add_pto_to_worker(&mut workers, time_off("", 10, 12)),
        Err(Error::WorkerIdCantBeCreated {
            worker_id: String::new(),
            source: sim_external::Error::InstantiateWorkerId { id: String::new() },
        })
    );
    assert_eq!(workers, vec![worker("ada", vec![])]);
}
