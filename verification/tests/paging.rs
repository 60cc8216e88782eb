// This file is part of Lectev.
//
//  Lectev is free software: you can redistribute it and/or modify
//  it under the terms of the GNU General Public License as published by
//  the Free Software Foundation, either version 3 of the License, or
//  (at your option) any later version.
//
//  Lectev is distributed in the hope that it will be useful,
//  but WITHOUT ANY WARRANTY; without even the implied warranty of
//  MERCHANTABILITY or FITNESS FOR A PARTICULAR PURPOSE.  See the
//  GNU General Public License for more details.
//
//  You should have received a copy of the GNU General Public License
//  along with Lectev.  If not, see <https://www.gnu.org/licenses/>.

use lectev::jira::api::{after_changelog_page, after_search_page, Error, Paging, MAX_RESULTS};

#[test]
fn a_full_changelog_page_is_followed_by_the_next() {
    assert_eq!(after_changelog_page(0, MAX_RESULTS, 100, None), Ok(Paging::Next { start_at: 100 }));
    assert_eq!(
        after_changelog_page(200, 100, 100, Some(false)),
        Ok(Paging::Next { start_at: 300 })
    );
    assert_eq!(after_changelog_page(7, 100, 150, None), Ok(Paging::Next { start_at: 157 }));
}

#[test]
fn a_changelog_page_that_is_not_full_is_the_last() {
    assert_eq!(after_changelog_page(0, 100, 99, None), Ok(Paging::Done));
    assert_eq!(after_changelog_page(300, 100, 0, Some(false)), Ok(Paging::Done));
}

#[test]
fn the_trackers_word_ends_the_changelog() {
    assert_eq!(after_changelog_page(0, 100, 100, Some(true)), Ok(Paging::Done));
}

#[test]
fn a_changelog_start_beyond_sixty_four_bits_is_an_error() {
    assert_eq!(after_changelog_page(u64::MAX, 100, 1, Some(true)), Err(Error::AddStartAt));
    assert_eq!(after_changelog_page(u64::MAX, 100, 0, None), Ok(Paging::Done));
    assert_eq!(after_changelog_page(u64::MAX - 100, 100, 100, None), Ok(Paging::Next { start_at: u64::MAX }));
}

#[test]
fn search_pages_go_on_until_the_total_is_reached() {
    assert_eq!(after_search_page(0, 100, 250), Ok(Paging::Next { start_at: 100 }));
    assert_eq!(after_search_page(100, 100, 250), Ok(Paging::Next { start_at: 200 }));
    assert_eq!(after_search_page(200, 100, 250), Ok(Paging::Done));
    assert_eq!(after_search_page(0, 100, 100), Ok(Paging::Done));
    assert_eq!(after_search_page(0, 100, 0), Ok(Paging::Done));
    assert_eq!(after_search_page(0, 50, 51), Ok(Paging::Next { start_at: 50 }));
}

#[test]
fn a_search_start_beyond_sixty_four_bits_is_an_error() {
    assert_eq!(after_search_page(u64::MAX, 1, 5), Err(Error::AddStartAt));
    assert_eq!(after_search_page(u64::MAX - 1, 1, u64::MAX), Ok(Paging::Done));
}
