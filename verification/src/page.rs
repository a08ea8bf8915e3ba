//! Pages of the index, and the cursor to continue from.
//!
//! The rules live here rather than in each caller because each is a way to truncate a walk
//! without saying so.

use vstd::prelude::*;
use vstd::string::*;

use crate::error::Error;
use crate::position::{cursor_position, cursor_round_trips, cursor_text,
    only_cursors_name_positions, Position};
use crate::types::{views, IndexedTx, Tx};

verus! {

/// Page size when the caller names none.
pub const DEFAULT_LIMIT: usize = 10;

/// The ceiling on a page's size. It is also what stops one request asking a node to serialize
/// the world.
pub const MAX_LIMIT: usize = 100;

/// A page of the index; `next_cursor` is `None` on the last one.
#[derive(Clone, Debug, PartialEq, Eq)]
pub struct Page {
    pub rows: Vec<IndexedTx>,
    pub next_cursor: Option<String>,
}

/// The size of a page. It clamps at both ends: a zero-row page has no last row to cut a cursor
/// from, so the caller hears the walk is over while rows remain.
pub open spec fn page_size(limit: Option<usize>) -> usize {
    match limit {
        None => DEFAULT_LIMIT,
        Some(n) => if n < 1 {
            1
        } else if n > MAX_LIMIT {
            MAX_LIMIT
        } else {
            n
        },
    }
}

/// A page always has room for a row, and never for more than the ceiling.
pub proof fn page_sizes_are_clamped(limit: Option<usize>)
    ensures
        1 <= page_size(limit) <= MAX_LIMIT,
{
}

/// Where a page starts and how many rows it has.
///
/// A cursor that was not issued is an error, not an empty page, or a caller replaying a stale
/// one reads silence as the end.
pub fn open_page(cursor: Option<&str>, limit: Option<usize>) -> (r: Result<
    (Option<Position>, usize),
    Error,
>)
    ensures
        match cursor {
            None => r == Ok::<(Option<Position>, usize), Error>((None, page_size(limit))),
            Some(text) => match cursor_position(text@) {
                Some(pos) => r == Ok::<(Option<Position>, usize), Error>(
                    (Some(pos), page_size(limit)),
                ),
                None => r is Err && r->Err_0 is Cursor && r->Err_0->Cursor_0@ == text@,
            },
        },
{
    let after: Option<Position> = match cursor {
        None => None,
        Some(text) => match Position::decode(text) {
            Some(pos) => Some(pos),
            None => return Err(Error::Cursor(text.to_string())),
        },
    };
    let size: usize = match limit {
        None => DEFAULT_LIMIT,
        Some(n) => if n < 1 {
            1
        } else if n > MAX_LIMIT {
            MAX_LIMIT
        } else {
            n
        },
    };
    Ok((after, size))
}

/// How many rows to ask for: one row *past* the limit decides whether another page exists.
/// Counting instead promises a next page that turns out empty whenever the total is an exact
/// multiple of the limit.
pub fn peek(size: usize) -> (r: usize)
    ensures
        r == (if size < usize::MAX {
            size + 1
        } else {
            usize::MAX as int
        }),
{
    if size < usize::MAX {
        size + 1
    } else {
        size
    }
}

/// The rows of a page, out of rows that may run past it.
pub open spec fn page_rows(out: Seq<Tx>, size: int) -> Seq<Tx> {
    if out.len() > size {
        out.take(size)
    } else {
        out
    }
}

/// Where the next page starts: after the last row of the page, where there is more.
pub open spec fn page_cursor(out: Seq<Tx>, size: int) -> Option<Position> {
    if 0 < size < out.len() {
        Some(out[size - 1].position)
    } else {
        None
    }
}

impl Page {
    /// A page of at most `size` rows, out of rows that may run past it.
    ///
    /// The cursor names the last row **returned**, never the one peeked at, or the next page
    /// skips it.
    pub fn cut(rows: Vec<IndexedTx>, size: usize) -> (r: Page)
        ensures
            views(r.rows@) == page_rows(views(rows@), size as int),
            match page_cursor(views(rows@), size as int) {
                Some(pos) => {
                    &&& r.next_cursor is Some
                    &&& r.next_cursor->0@ == cursor_text(pos)
                    &&& cursor_position(r.next_cursor->0@) == Some(pos)
                },
                None => r.next_cursor is None,
            },
    {
        let ghost all = views(rows@);
        let mut rows: Vec<IndexedTx> = rows;
        let has_more: bool = rows.len() > size;
        if has_more {
            rows.truncate(size);
        }
        let next_cursor: Option<String> = if has_more && size > 0 {
            proof {
                cursor_round_trips(all[size - 1].position);
            }
            Some(rows[size - 1].position.encode())
        } else {
            None
        };
        assert(views(rows@) =~= page_rows(all, size as int));
        Page { rows, next_cursor }
    }
}

// ---- what a page is

/// A page has the size that its caller names, as long as it is from one to a hundred; a limit of
/// none is taken for one, a greater one for a hundred, and where none is named it is ten.
pub proof fn a_page_has_the_size_that_is_named(limit: Option<usize>)
    ensures
        limit is None ==> page_size(limit) == 10,
        limit is Some && 1 <= limit->0 <= 100 ==> page_size(limit) == limit->0,
        limit == Some(0usize) ==> page_size(limit) == 1,
        limit is Some && limit->0 > 100 ==> page_size(limit) == 100,
        DEFAULT_LIMIT == 10,
        MAX_LIMIT == 100,
{
}

/// A page opens past the position that its cursor names, with the size that its caller names; a
/// text that is no position's cursor opens none, and is handed back.
pub proof fn a_page_opens_past_its_cursor(
    cursor: Option<&str>,
    limit: Option<usize>,
    r: Result<(Option<Position>, usize), Error>,
    pos: &Position,
    made: String,
)
    requires
        call_ensures(open_page, (cursor, limit), r),
        call_ensures(Position::encode, (pos,), made),
    ensures
        cursor is None ==> r is Ok && r->Ok_0.0 is None,
        cursor is Some && cursor->0@ == made@ ==> r is Ok && r->Ok_0.0 == Some(*pos),
        cursor is Some && r is Ok ==> r->Ok_0.0 is Some && (r->Ok_0.0 == Some(*pos)
            ==> cursor->0@ == made@),
        r is Err ==> cursor is Some && r->Err_0 is Cursor && r->Err_0->Cursor_0@ == cursor->0@,
        r is Ok && limit is None ==> r->Ok_0.1 == 10,
        r is Ok && limit is Some && 1 <= limit->0 <= 100 ==> r->Ok_0.1 == limit->0,
        r is Ok && limit == Some(0usize) ==> r->Ok_0.1 == 1,
        r is Ok && limit is Some && limit->0 > 100 ==> r->Ok_0.1 == 100,
{
    a_page_has_the_size_that_is_named(limit);
    cursor_round_trips(*pos);
    if cursor is Some {
        only_cursors_name_positions(cursor->0@, *pos);
    }
}

/// One row more than the page has room for is asked for, as long as there is such a number.
pub proof fn one_row_past_the_page_is_asked_for(size: usize, r: usize)
    requires
        call_ensures(peek, (size,), r),
    ensures
        size < usize::MAX ==> r == size + 1,
        size == usize::MAX ==> r == size,
{
}

/// A page is as many of the rows as it has room for, from the first on and as they are. It has a
/// cursor exactly where it leaves some out and has a row to name, and the cursor is that of the
/// last row it has.
pub proof fn a_page_is_the_first_rows(
    rows: Vec<IndexedTx>,
    size: usize,
    page: Page,
    i: int,
    pos: &Position,
    made: String,
)
    requires
        call_ensures(Page::cut, (rows, size), page),
        call_ensures(Position::encode, (pos,), made),
    ensures
        rows@.len() <= size ==> page.rows@.len() == rows@.len(),
        rows@.len() > size ==> page.rows@.len() == size,
        0 <= i < page.rows@.len() ==> page.rows@[i]@ == rows@[i]@,
        page.next_cursor is Some <==> rows@.len() > size && size > 0,
        page.next_cursor is Some ==> (page.next_cursor->0@ == made@ <==> *pos
            == page.rows@.last().position),
{
    let all = views(rows@);
    let cut = views(page.rows@);
    assert(cut.len() == page.rows@.len());
    assert(all.len() == rows@.len());
    assert forall|k: int| 0 <= k < cut.len() implies (#[trigger] page.rows@[k])@ == rows@[k]@ by {
        assert(cut[k] == page.rows@[k]@);
        assert(all[k] == rows@[k]@);
        assert(cut[k] == all[k]);
    }
    if page.next_cursor is Some {
        let last = size - 1;
        assert(page.rows@[last]@ == rows@[last]@);
        assert(all[last].position == page.rows@[last]@.position);
        only_cursors_name_positions(page.next_cursor->0@, *pos);
        cursor_round_trips(*pos);
    }
}

} // verus!
