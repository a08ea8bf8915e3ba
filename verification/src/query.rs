//! A query: a listing or a search, and the rows that a search's positions stand for.

use vstd::prelude::*;

use crate::apply::{first_fault, lemma_next_fault, row_fault, the_first_fault_is_reported};
use crate::codec::{decode_row, is_row, row_at};
use crate::entries::key_views;
use crate::error::Error;
use crate::layout::{pos_key, position_key};
use crate::listing::Listing;
use crate::position::{Order, Position};
use crate::scan::Window;
use crate::search::{search_of, term_count, Search};
use crate::store::{value_view, value_views};
use crate::types::{views, Filter, IndexedTx, Tx};

verus! {

/// A query under way.
pub enum Query {
    /// No filters: the primary keyspace is walked directly.
    Listing(Listing),
    /// Filtered: the secondary walks are merged, and the rows looked up.
    Search(Search),
}

/// What every walk of a query shares.
pub open spec fn window_of(filter: Filter, after: Option<Position>, order: Order) -> Window {
    Window { after, blocks: filter.blocks, order }
}

impl Query {
    /// Page through the index. `after` is exclusive and read in `order`'s direction,
    /// so paging forward never repeats or skips a row. Yields at most `limit` rows.
    pub fn new(filter: &Filter, after: Option<Position>, order: Order, limit: usize) -> (r: Query)
        ensures
            term_count(*filter) == 0 ==> r is Listing && r->Listing_0@.fresh(
                window_of(*filter, after, order),
                limit,
            ),
            term_count(*filter) > 0 ==> r is Search && r->Search_0@.proper() && search_of(
                *filter,
                window_of(*filter, after, order),
                limit,
                r->Search_0@,
            ),
    {
        let window: Window = Window { after, blocks: filter.blocks, order };
        match Search::new(filter, window, limit) {
            Some(search) => Query::Search(search),
            None => Query::Listing(Listing::new(window, limit)),
        }
    }
}

/// The keys of the rows at some positions.
pub fn row_keys(positions: &Vec<Position>) -> (r: Vec<Vec<u8>>)
    ensures
        key_views(r@) == positions@.map_values(|p: Position| position_key(p)),
{
    let mut out: Vec<Vec<u8>> = Vec::with_capacity(positions.len());
    let mut i: usize = 0;
    while i < positions.len()
        invariant
            i <= positions@.len(),
            out@.len() == i,
            forall|j: int| 0 <= j < i ==> (#[trigger] out@[j])@ == position_key(positions@[j]),
        decreases positions@.len() - i,
    {
        out.push(pos_key(positions[i]));
        i = i + 1;
    }
    assert(key_views(out@) =~= positions@.map_values(|p: Position| position_key(p)));
    out
}

/// What is wrong with a row that a secondary entry points at.
pub open spec fn hit_fault(val: Option<Seq<u8>>) -> Option<Error> {
    match val {
        Some(v) => row_fault(v),
        None => Some(Error::MissingRow),
    }
}

/// What is wrong with the rows that secondary entries point at.
pub open spec fn hit_faults(values: Seq<Option<Seq<u8>>>) -> Seq<Option<Error>> {
    values.map_values(|v: Option<Seq<u8>>| hit_fault(v))
}

/// The rows at some positions.
pub open spec fn hit_rows(positions: Seq<Position>, values: Seq<Option<Seq<u8>>>) -> Seq<Tx> {
    Seq::new(positions.len(), |i: int| row_at(positions[i], values[i]->0))
}

/// The rows that a search's positions stand for, given what the store holds at each.
pub fn resolve(positions: &Vec<Position>, values: &Vec<Option<Vec<u8>>>) -> (r: Result<
    Vec<IndexedTx>,
    Error,
>)
    requires
        values@.len() == positions@.len(),
    ensures
        match first_fault(hit_faults(value_views(values@))) {
            Some(e) => r == Err::<Vec<IndexedTx>, Error>(e),
            None => r is Ok && views(r->Ok_0@) == hit_rows(positions@, value_views(values@)),
        },
{
    let ghost held = value_views(values@);
    let ghost faults = hit_faults(held);
    let ghost want = hit_rows(positions@, held);
    let mut out: Vec<IndexedTx> = Vec::with_capacity(positions.len());
    let mut i: usize = 0;
    assert(views(out@) =~= want.take(0));
    while i < positions.len()
        invariant
            i <= positions@.len(),
            values@.len() == positions@.len(),
            held == value_views(values@),
            faults == hit_faults(held),
            want == hit_rows(positions@, held),
            first_fault(faults.take(i as int)) is None,
            views(out@) == want.take(i as int),
        decreases positions@.len() - i,
    {
        proof {
            lemma_next_fault(faults, i as int);
            assert(faults[i as int] == hit_fault(held[i as int]));
        }
        let val: &Vec<u8> = match &values[i] {
            Some(val) => val,
            None => return Err(Error::MissingRow),
        };
        let row: IndexedTx = match decode_row(positions[i], val.as_slice()) {
            Ok(row) => row,
            Err(e) => return Err(e),
        };
        let ghost was = out@;
        out.push(row);
        assert(views(out@) =~= views(was).push(want[i as int]));
        assert(views(out@) =~= want.take(i + 1));
        i = i + 1;
    }
    assert(faults.take(i as int) =~= faults);
    assert(want.take(i as int) =~= want);
    Ok(out)
}

// ---- what a query starts from, and what it resolves to

/// A query without a term lists the rows, and one with a term searches; either starts from the
/// cursor, the heights, the order and the limit that it was given.
pub proof fn a_query_starts_from_what_it_was_given(
    filter: &Filter,
    after: Option<Position>,
    order: Order,
    limit: usize,
    r: Query,
)
    requires
        call_ensures(Query::new, (filter, after, order, limit), r),
    ensures
        r is Listing <==> {
            &&& filter.from is None
            &&& filter.to is None
            &&& filter.address is None
            &&& filter.tx_type is None
            &&& filter.fee_token is None
            &&& filter.fee_payer is None
        },
        match r {
            Query::Listing(listing) => {
                &&& listing@.window.after == after
                &&& listing@.window.blocks == filter.blocks
                &&& listing@.window.order == order
                &&& listing@.limit == limit
                &&& listing@.rows.len() == 0
                &&& listing@.seek
                &&& !listing@.spent
            },
            Query::Search(search) => {
                &&& search@.window.after == after
                &&& search@.window.blocks == filter.blocks
                &&& search@.window.order == order
                &&& search@.limit == limit
                &&& search@.out.len() == 0
                &&& !search@.done
            },
        },
{
}

/// The rows of some positions are looked up at their keys, one for one.
pub proof fn rows_are_looked_up_at_their_keys(
    positions: &Vec<Position>,
    keys: Vec<Vec<u8>>,
    i: int,
    key: Vec<u8>,
)
    requires
        call_ensures(row_keys, (positions,), keys),
        0 <= i < positions@.len(),
        call_ensures(pos_key, (positions@[i],), key),
    ensures
        keys@.len() == positions@.len(),
        keys@[i]@ == key@,
{
    let want = positions@.map_values(|p: Position| position_key(p));
    assert(key_views(keys@).len() == keys@.len());
    assert(key_views(keys@)[i] == keys@[i]@);
    assert(want[i] == position_key(positions@[i]));
}

/// Positions resolve to the rows that are stored there, one for one and in order, exactly where
/// every one of them is stored and sound; else the first that is missing, or is no row, is
/// reported.
pub proof fn positions_resolve_to_what_is_stored(
    positions: &Vec<Position>,
    values: &Vec<Option<Vec<u8>>>,
    r: Result<Vec<IndexedTx>, Error>,
    i: int,
    val: &[u8],
    row: Result<IndexedTx, Error>,
)
    requires
        call_ensures(resolve, (positions, values), r),
        values@.len() == positions@.len(),
        0 <= i < positions@.len(),
        values@[i] is Some ==> val@ == (values@[i]->0)@,
        call_ensures(decode_row, (positions@[i], val), row),
    ensures
        r is Ok <==> forall|j: int|
            0 <= j < values@.len() ==> (#[trigger] values@[j]) is Some && is_row((values@[j]->0)@),
        r is Ok ==> r->Ok_0@.len() == positions@.len() && row is Ok && r->Ok_0@[i]@ == row->Ok_0@,
        (forall|j: int|
            0 <= j < i ==> (#[trigger] values@[j]) is Some && is_row((values@[j]->0)@))
            && values@[i] is None ==> r == Err::<Vec<IndexedTx>, Error>(Error::MissingRow),
        (forall|j: int|
            0 <= j < i ==> (#[trigger] values@[j]) is Some && is_row((values@[j]->0)@))
            && values@[i] is Some && row is Err ==> r is Err && r->Err_0 == row->Err_0,
{
    let held = value_views(values@);
    let faults = hit_faults(held);
    assert forall|j: int| 0 <= j < values@.len() implies (#[trigger] faults[j] is None <==> (
    values@[j] is Some && is_row((values@[j]->0)@))) && faults[j] == hit_fault(
        value_view(values@[j]),
    ) by {
        assert(held[j] == value_view(values@[j]));
    }
    the_first_fault_is_reported(faults, i);
    if forall|j: int|
        0 <= j < values@.len() ==> (#[trigger] values@[j]) is Some && is_row((values@[j]->0)@) {
        assert forall|j: int| 0 <= j < faults.len() implies (#[trigger] faults[j]) is None by {
            assert(values@[j] is Some);
        }
    }
    if forall|j: int| 0 <= j < faults.len() ==> (#[trigger] faults[j]) is None {
        assert forall|j: int| 0 <= j < values@.len() implies (#[trigger] values@[j]) is Some
            && is_row((values@[j]->0)@) by {
            assert(faults[j] is None);
        }
    }
    if forall|j: int|
        0 <= j < i ==> (#[trigger] values@[j]) is Some && is_row((values@[j]->0)@) {
        assert forall|j: int| 0 <= j < i implies (#[trigger] faults[j]) is None by {
            assert(values@[j] is Some);
        }
    }
    if r is Ok {
        assert(faults[i] is None);
        assert(views(r->Ok_0@).len() == r->Ok_0@.len());
        assert(views(r->Ok_0@)[i] == r->Ok_0@[i]@);
        assert(held[i] == value_view(values@[i]));
    }
}

} // verus!
