//! One page of a longer list of results.

use vstd::prelude::*;

verus! {

/// A page of results, with the number of all results and the places, counted
/// from one, of the first and the last result on the page.
#[derive(Debug)]
pub struct PaginatedResult<T> {
    pub results: Vec<T>,
    pub total: usize,
    pub start: usize,
    pub end: usize,
}

/// The place where a page that is asked for at `offset` begins in a list of
/// `total` items.
pub open spec fn page_begin(total: int, offset: int) -> int {
    if offset < total {
        offset
    } else {
        total
    }
}

/// The place where a page of at most `limit` items ends.
pub open spec fn page_end(total: int, offset: int, limit: int) -> int {
    if page_begin(total, offset) + limit < total {
        page_begin(total, offset) + limit
    } else {
        total
    }
}

/// The page of `items` that begins behind the first `offset` items and
/// holds at most `limit` of them.
pub open spec fn page_of<T>(items: Seq<T>, offset: int, limit: int) -> Seq<T> {
    items.subrange(page_begin(items.len() as int, offset), page_end(items.len() as int, offset, limit))
}

/// Cuts the page `[offset, offset + limit)` out of `items`, clipped to the
/// list. A page that begins at or behind the end of the list is empty; the
/// number of all items is reported all the same.
pub fn paginate<T>(items: Vec<T>, offset: usize, limit: usize) -> (page: PaginatedResult<T>)
    requires
        offset < usize::MAX,
    ensures
        page.results@ == page_of(items@, offset as int, limit as int),
        page.total == items@.len(),
        page.results@.len() == page_end(items@.len() as int, offset as int, limit as int) - page_begin(
            items@.len() as int,
            offset as int,
        ),
        page.start == offset + 1,
        page.end == offset + page.results@.len(),
{
    let ghost all = items@;
    let mut items = items;
    let total = items.len();
    let begin = if offset < total {
        offset
    } else {
        total
    };
    let end = if limit < total - begin {
        begin + limit
    } else {
        total
    };
    items.truncate(end);
    let results = items.split_off(begin);
    assert(results@ =~= page_of(all, offset as int, limit as int));
    PaginatedResult { total, start: offset + 1, end: offset + results.len(), results }
}

} // verus!
