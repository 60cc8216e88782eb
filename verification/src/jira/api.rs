// This file is part of Lectev.
//
//  Lectev is free software: you can redistribute it and/or modify
//  it under the terms of the GNU General Public License as published by
//  the Free Software Foundation, either version 3 of the License, or
//  (at your option) any later version.
//
//  Lectev is distributed in the hope that it will be useful,
//  but WITHOUT ANY WARRANTY; without even the implied warranty of
//  MERCHANTABILITY or FITNESS FOR A PARTICULAR PURPOSE.  See the
//  GNU General Public License for more details.
//
//  You should have received a copy of the GNU General Public License
//  along with Lectev.  If not, see <https://www.gnu.org/licenses/>.

//! The decisions of fetching from the tracker page by page: where the next
//! page starts, and when to stop. The fetching itself is not done here.
use vstd::prelude::*;

verus! {

/// Why no further page can be asked for.
#[derive(Debug, Clone, Copy, PartialEq, Eq, Structural)]
pub enum Error {
    /// The place at which the next page would start does not fit in 64 bits.
    AddStartAt,
}

/// What to do after a page has come in.
#[derive(Debug, Clone, Copy, PartialEq, Eq, Structural)]
pub enum Paging {
    /// Everything has been fetched.
    Done,
    /// Ask for the page that starts at `start_at`.
    Next { start_at: u64 },
}

/// The number of results asked for in one page.
pub const MAX_RESULTS: u64 = 100;

/// What to do after a page of a changelog: the next page starts after the
/// `received` entries of this one. The tracker's word that this was the last
/// page ends the fetching; without it, a page that is not full does.
pub open spec fn changelog_paging(
    start_at: u64,
    max_results: u64,
    received: usize,
    is_last: Option<bool>,
) -> Result<Paging, Error> {
    if received + start_at > u64::MAX {
        Err(Error::AddStartAt)
    } else if is_last == Some(true) || received < max_results {
        Ok(Paging::Done)
    } else {
        Ok(Paging::Next { start_at: (received + start_at) as u64 })
    }
}

/// Decides what to do after a page of a changelog has come in.
pub fn after_changelog_page(
    start_at: u64,
    max_results: u64,
    received: usize,
    is_last: Option<bool>,
) -> (result: Result<Paging, Error>)
    ensures
        result == changelog_paging(start_at, max_results, received, is_last),
{
    let len: u64 = received as u64;
    let next = match len.checked_add(start_at) {
        Some(next) => next,
        None => {
            return Err(Error::AddStartAt);
        },
    };
    let done = match is_last {
        Some(true) => true,
        Some(false) | None => len < max_results,
    };
    if done {
        Ok(Paging::Done)
    } else {
        Ok(Paging::Next { start_at: next })
    }
}

/// What to do after a page of search results: the next page starts
/// `page_size` places on, the size that the tracker reports for the page, and
/// the fetching ends once that reaches the `total`.
pub open spec fn search_paging(start_at: u64, page_size: u64, total: u64) -> Result<
    Paging,
    Error,
> {
    if page_size + start_at > u64::MAX {
        Err(Error::AddStartAt)
    } else if page_size + start_at >= total {
        Ok(Paging::Done)
    } else {
        Ok(Paging::Next { start_at: (page_size + start_at) as u64 })
    }
}

/// Decides what to do after a page of search results has come in.
pub fn after_search_page(start_at: u64, page_size: u64, total: u64) -> (result: Result<
    Paging,
    Error,
>)
    ensures
        result == search_paging(start_at, page_size, total),
{
    match page_size.checked_add(start_at) {
        Some(next) => {
            if next >= total {
                Ok(Paging::Done)
            } else {
                Ok(Paging::Next { start_at: next })
            }
        },
        None => Err(Error::AddStartAt),
    }
}

} // verus!
