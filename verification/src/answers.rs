//! What queries, pages and counts answer when the store is the index of some rows.

use vstd::prelude::*;

use crate::apply::{first_fault, lemma_no_fault};
use crate::bytes::lemma_be_u64;
use crate::codec::{count_value, lemma_row_at, lemma_row_is_row, row_bytes, tip_bytes, tip_key_bytes,
    tips_round_trip};
use crate::count::{a_count_is_what_the_filter_selects, filter_counter, lemma_column_selects,
    selected};
use crate::entries::{column_matches, counter_key, filter_columns, key_views, lemma_owns, optional};
use crate::error::Error;
use crate::layout::{entry_key, is_secondary, kind_name, lemma_entry_key, lemma_position_key,
    position_key, position_of, Keyspace, Kind};
use crate::listing::{a_listing_lists_the_rows, is_listing, primary_walk, Listed, Listing};
use crate::matching::{a_run_goes_on_answer_by_answer, a_search_finds_what_matches, is_run,
    lemma_run_stays};
use crate::page::{page_cursor, page_rows};
use crate::plan::{below, lemma_insert_all_at, Plan};
use crate::position::{before, earlier, BlockRange, Order, Position};
use crate::primitives::Address;
use crate::query::{hit_faults, hit_rows, resolve, row_keys, window_of, Query};
use crate::scan::{reading, yields, Walk, Window};
use crate::search::{filter_walks, search_of, term_count, Progress, Search};
use crate::store::{entry_position, entry_prefix, has_entry, index_of, lemma_index_lookup, lookup,
    lookups, proper, value_views};
use crate::types::{views, Filter, IndexedTx, Tip, Tx};

verus! {

// ---- what a query is to answer

/// Whether a query is after the row at a position: the filter selects it, and it lies past the
/// cursor.
pub open spec fn wanted(
    rows: Map<Position, Tx>,
    filter: Filter,
    after: Option<Position>,
    order: Order,
    p: Position,
) -> bool {
    &&& rows.contains_key(p)
    &&& filter.selects(rows[p])
    &&& after is Some ==> before(order, after->0, p)
}

/// Rows in the order of a query, each once.
pub open spec fn in_order(order: Order, out: Seq<Tx>) -> bool {
    forall|i: int, j: int|
        0 <= i < j < out.len() ==> before(
            order,
            (#[trigger] out[i]).position,
            (#[trigger] out[j]).position,
        )
}

/// Whether a list has a row at a position.
pub open spec fn has_row(out: Seq<Tx>, p: Position) -> bool {
    exists|i: int| 0 <= i < out.len() && (#[trigger] out[i]).position == p
}

/// Only rows that a query is after, as the index has them.
pub open spec fn only_wanted(
    rows: Map<Position, Tx>,
    filter: Filter,
    after: Option<Position>,
    order: Order,
    out: Seq<Tx>,
) -> bool {
    forall|i: int|
        0 <= i < out.len() ==> {
            let tx = #[trigger] out[i];
            wanted(rows, filter, after, order, tx.position) && rows[tx.position] == tx
        }
}

/// `out` answers a query with a limit: the rows it is after, in order, each once, and all of
/// them or the first as many as the limit allows.
pub open spec fn answers(
    rows: Map<Position, Tx>,
    filter: Filter,
    after: Option<Position>,
    order: Order,
    limit: int,
    out: Seq<Tx>,
) -> bool {
    &&& out.len() <= limit
    &&& in_order(order, out)
    &&& only_wanted(rows, filter, after, order, out)
    &&& forall|p: Position| #[trigger]
        wanted(rows, filter, after, order, p) ==> has_row(out, p) || (out.len() == limit && (
        out.len() > 0 ==> before(order, out.last().position, p)))
}

/// `out` is all that a query is after: in order, each once.
pub open spec fn answers_whole(
    rows: Map<Position, Tx>,
    filter: Filter,
    after: Option<Position>,
    order: Order,
    out: Seq<Tx>,
) -> bool {
    &&& in_order(order, out)
    &&& only_wanted(rows, filter, after, order, out)
    &&& forall|p: Position| #[trigger] wanted(rows, filter, after, order, p) ==> has_row(out, p)
}

// ---- walks over an index

/// A walk over the index of some rows yields the rows that own its entry, within the window.
proof fn lemma_yields(
    rows: Map<Position, Tx>,
    tip: Option<Tip>,
    walk: Walk,
    window: Window,
    p: Position,
)
    requires
        is_secondary(walk.keyspace),
    ensures
        yields(index_of(rows, tip), walk, window, p) <==> window.holds(p) && rows.contains_key(p)
            && column_matches(rows[p], walk.keyspace, walk.prefix),
{
    let key = entry_key(walk.prefix, p);
    lemma_index_lookup(rows, tip, walk.keyspace, key);
    lemma_entry_key(walk.prefix, p);
    lemma_position_key(p);
    assert(entry_prefix(key) =~= walk.prefix);
    assert(entry_position(key) == p);
    lemma_owns(rows[p], walk.keyspace, walk.prefix);
}

/// A walk over the rows of an index yields them, within the window.
proof fn lemma_yields_rows(
    rows: Map<Position, Tx>,
    tip: Option<Tip>,
    window: Window,
    p: Position,
)
    ensures
        yields(index_of(rows, tip), primary_walk(), window, p) <==> window.holds(p)
            && rows.contains_key(p),
        rows.contains_key(p) ==> index_of(rows, tip)[(
            Keyspace::Primary,
            entry_key(Seq::empty(), p),
        )] == row_bytes(rows[p]),
{
    let key = entry_key(Seq::empty(), p);
    lemma_index_lookup(rows, tip, Keyspace::Primary, key);
    lemma_position_key(p);
    assert(key =~= position_key(p));
}

/// Whether a row has every one of some columns.
spec fn all_match(tx: Tx, columns: Seq<(Keyspace, Seq<u8>)>) -> bool {
    forall|i: int|
        0 <= i < columns.len() ==> column_matches(
            tx,
            (#[trigger] columns[i]).0,
            columns[i].1,
        )
}

proof fn lemma_all_match_concat(
    tx: Tx,
    a: Seq<(Keyspace, Seq<u8>)>,
    b: Seq<(Keyspace, Seq<u8>)>,
)
    ensures
        all_match(tx, a + b) <==> all_match(tx, a) && all_match(tx, b),
{
    let c = a + b;
    if all_match(tx, c) {
        assert forall|i: int| 0 <= i < a.len() implies column_matches(
            tx,
            (#[trigger] a[i]).0,
            a[i].1,
        ) by {
            assert(c[i] == a[i]);
        }
        assert forall|i: int| 0 <= i < b.len() implies column_matches(
            tx,
            (#[trigger] b[i]).0,
            b[i].1,
        ) by {
            assert(c[a.len() + i] == b[i]);
        }
    }
    if all_match(tx, a) && all_match(tx, b) {
        assert forall|i: int| 0 <= i < c.len() implies column_matches(
            tx,
            (#[trigger] c[i]).0,
            c[i].1,
        ) by {
            if i < a.len() {
                assert(c[i] == a[i]);
            } else {
                assert(c[i] == b[i - a.len()]);
            }
        }
    }
}

proof fn lemma_optional_matches(tx: Tx, keyspace: Keyspace, value: Option<Address>)
    ensures
        all_match(tx, optional(keyspace, value)) <==> (value is Some ==> column_matches(
            tx,
            keyspace,
            value->0@,
        )),
{
    if value is Some {
        assert(optional(keyspace, value)[0] == (keyspace, value->0@));
    }
}

/// A filter selects a row exactly where the row has every column that the filter's terms walk,
/// takes part where the filter names an address, and lies in its range.
proof fn lemma_filter_matches(filter: Filter, tx: Tx)
    ensures
        filter.selects(tx) <==> {
            &&& all_match(tx, filter_columns(filter))
            &&& filter.address is Some ==> column_matches(
                tx,
                Keyspace::From,
                filter.address->0@,
            ) || column_matches(tx, Keyspace::To, filter.address->0@)
            &&& filter.blocks.holds(tx.position.block_num)
        },
{
    let a = optional(Keyspace::From, filter.from);
    let b = optional(Keyspace::To, filter.to);
    let c: Seq<(Keyspace, Seq<u8>)> = match filter.tx_type {
        Some(t) => seq![(Keyspace::Type, seq![t])],
        None => Seq::empty(),
    };
    let d = optional(Keyspace::FeeToken, filter.fee_token);
    let e = optional(Keyspace::FeePayer, filter.fee_payer);
    lemma_all_match_concat(tx, a + b + c + d, e);
    lemma_all_match_concat(tx, a + b + c, d);
    lemma_all_match_concat(tx, a + b, c);
    lemma_all_match_concat(tx, a, b);
    lemma_optional_matches(tx, Keyspace::From, filter.from);
    lemma_optional_matches(tx, Keyspace::To, filter.to);
    lemma_optional_matches(tx, Keyspace::FeeToken, filter.fee_token);
    lemma_optional_matches(tx, Keyspace::FeePayer, filter.fee_payer);
    if filter.tx_type is Some {
        let t = filter.tx_type->0;
        assert(c[0] == (Keyspace::Type, seq![t]));
        assert(seq![tx.tx_type][0] == tx.tx_type);
        assert(seq![t][0] == t);
    }
    if filter.from is Some {
        lemma_column_selects(tx, filter.from->0);
    }
    if filter.to is Some {
        lemma_column_selects(tx, filter.to->0);
    }
    if filter.fee_token is Some {
        lemma_column_selects(tx, filter.fee_token->0);
    }
    if filter.fee_payer is Some {
        lemma_column_selects(tx, filter.fee_payer->0);
    }
    if filter.address is Some {
        lemma_column_selects(tx, filter.address->0);
    }
}

/// Every column that a filter walks is in a secondary keyspace.
proof fn lemma_filter_walks(filter: Filter, i: int)
    requires
        0 <= i < filter_walks(filter).len(),
    ensures
        is_secondary(filter_walks(filter)[i].keyspace),
{
}

/// The terms of a search have in common exactly the rows that its filter selects.
proof fn lemma_matches(
    rows: Map<Position, Tx>,
    tip: Option<Tip>,
    filter: Filter,
    after: Option<Position>,
    order: Order,
    limit: usize,
    s: Progress,
    p: Position,
)
    requires
        proper(rows),
        s.proper(),
        search_of(filter, window_of(filter, after, order), limit, s),
    ensures
        s.matches(index_of(rows, tip), p) <==> wanted(rows, filter, after, order, p),
{
    let m = index_of(rows, tip);
    let window = window_of(filter, after, order);
    let columns = filter_columns(filter);
    let n = columns.len() as int;
    let walks = filter_walks(filter);
    let tx = rows[p];
    lemma_filter_matches(filter, tx);
    assert forall|i: int| 0 <= i < walks.len() implies (yields(m, #[trigger] walks[i], window, p)
        <==> window.holds(p) && rows.contains_key(p) && column_matches(
        tx,
        walks[i].keyspace,
        walks[i].prefix,
    )) by {
        lemma_filter_walks(filter, i);
        lemma_yields(rows, tip, walks[i], window, p);
    }
    if s.matches(m, p) {
        assert(s.in_term(m, 0, p));
        assert forall|i: int| 0 <= i < columns.len() implies column_matches(
            tx,
            (#[trigger] columns[i]).0,
            columns[i].1,
        ) by {
            assert(s.in_term(m, i, p));
            let k = choose|k: int|
                0 <= k < s.walks.len() && #[trigger] s.terms[k] == i && yields(
                    m,
                    s.walks[k],
                    s.window,
                    p,
                );
            assert(k == i);
            assert(walks[k].keyspace == columns[i].0);
        }
        if filter.address is Some {
            assert(s.in_term(m, n, p));
            let k = choose|k: int|
                0 <= k < s.walks.len() && #[trigger] s.terms[k] == n && yields(
                    m,
                    s.walks[k],
                    s.window,
                    p,
                );
            assert(k == n || k == n + 1);
        }
    }
    if wanted(rows, filter, after, order, p) {
        assert(window.holds(p));
        assert forall|t: int| 0 <= t < s.count implies #[trigger] s.in_term(m, t, p) by {
            if t < n {
                assert(column_matches(tx, columns[t].0, columns[t].1));
                assert(yields(m, walks[t], window, p));
                assert(s.terms[t] == t);
            } else {
                if column_matches(tx, Keyspace::From, filter.address->0@) {
                    assert(yields(m, walks[n], window, p));
                    assert(s.terms[n] == n);
                } else {
                    assert(yields(m, walks[n + 1], window, p));
                    assert(s.terms[n + 1] == n);
                }
            }
        }
    }
}

/// No walk of a filter meets a malformed key in an index.
pub proof fn the_index_is_well_formed(
    rows: Map<Position, Tx>,
    tip: Option<Tip>,
    filter: Filter,
    window: Window,
    i: int,
    key: Seq<u8>,
)
    requires
        proper(rows),
        0 <= i < filter_walks(filter).len(),
        index_of(rows, tip).contains_key((filter_walks(filter)[i].keyspace, key)),
    ensures
        reading(filter_walks(filter)[i], window, Some(key)) is Ok,
{
    let walk = filter_walks(filter)[i];
    lemma_filter_walks(filter, i);
    lemma_index_lookup(rows, tip, walk.keyspace, key);
    assert(has_entry(rows, walk.keyspace, key));
    let tx = rows[entry_position(key)];
    let prefix = entry_prefix(key);
    lemma_owns(tx, walk.keyspace, prefix);
    lemma_column_width(tx, walk.keyspace, prefix);
    lemma_walk_width(filter, i);
}

/// How wide the values of a keyspace are.
spec fn width_of(keyspace: Keyspace) -> int {
    if keyspace is Type {
        1
    } else {
        20
    }
}

proof fn lemma_column_width(tx: Tx, keyspace: Keyspace, prefix: Seq<u8>)
    requires
        column_matches(tx, keyspace, prefix),
    ensures
        prefix.len() == width_of(keyspace),
{
}

proof fn lemma_walk_width(filter: Filter, i: int)
    requires
        0 <= i < filter_walks(filter).len(),
    ensures
        filter_walks(filter)[i].prefix.len() == width_of(filter_walks(filter)[i].keyspace),
{
}

/// Nor does a listing.
pub proof fn the_rows_are_well_formed(
    rows: Map<Position, Tx>,
    tip: Option<Tip>,
    s: Listed,
    key: Seq<u8>,
)
    requires
        proper(rows),
        index_of(rows, tip).contains_key((Keyspace::Primary, key)),
    ensures
        s.answered(Some((key, index_of(rows, tip)[(Keyspace::Primary, key)]))) is Ok,
{
    lemma_index_lookup(rows, tip, Keyspace::Primary, key);
    assert(key.skip(0) =~= key);
    lemma_row_is_row(rows[position_of(key)]);
}

// ---- queries

/// A filtered query over the index of some rows answers with exactly the rows that the filter
/// selects past the cursor: in order, each once, and all of them or the first as many as the
/// limit allows. None of the rows it looks up is missing or malformed.
pub proof fn a_search_answers_the_query(
    rows: Map<Position, Tx>,
    tip: Option<Tip>,
    filter: Filter,
    after: Option<Position>,
    order: Order,
    limit: usize,
    states: Seq<Progress>,
    told: Seq<Option<Seq<u8>>>,
    values: Seq<Option<Seq<u8>>>,
)
    requires
        proper(rows),
        is_run(index_of(rows, tip), states, told),
        states[0].proper(),
        search_of(filter, window_of(filter, after, order), limit, states[0]),
        states.last().done,
        lookups(
            index_of(rows, tip),
            Keyspace::Primary,
            states.last().out.map_values(|p: Position| position_key(p)),
            values,
        ),
    ensures
        first_fault(hit_faults(values)) is None,
        answers(
            rows,
            filter,
            after,
            order,
            limit as int,
            hit_rows(states.last().out, values),
        ),
{
    let m = index_of(rows, tip);
    let s = states[0];
    let found = states.last().out;
    let keys = found.map_values(|p: Position| position_key(p));
    a_search_finds_what_matches(m, filter, window_of(filter, after, order), limit, states, told);
    let out = hit_rows(found, values);
    assert forall|i: int| 0 <= i < found.len() implies {
        &&& wanted(rows, filter, after, order, #[trigger] found[i])
        &&& values[i] == Some(row_bytes(rows[found[i]]))
        &&& out[i] == rows[found[i]]
        &&& out[i].position == found[i]
    } by {
        assert(s.matches(m, found[i]));
        lemma_matches(rows, tip, filter, after, order, limit, s, found[i]);
        assert(values[i] == lookup(m, Keyspace::Primary, keys[i]));
        lemma_index_lookup(rows, tip, Keyspace::Primary, keys[i]);
        lemma_position_key(found[i]);
        lemma_row_at(rows[found[i]]);
    }
    let faults = hit_faults(values);
    assert forall|i: int| 0 <= i < faults.len() implies (#[trigger] faults[i]) is None by {
        assert(wanted(rows, filter, after, order, found[i]));
        lemma_row_is_row(rows[found[i]]);
    }
    lemma_no_fault(faults);
    assert forall|i: int, j: int| 0 <= i < j < out.len() implies before(
        order,
        (#[trigger] out[i]).position,
        (#[trigger] out[j]).position,
    ) by {
        assert(before(order, found[i], found[j]));
    }
    assert forall|i: int| 0 <= i < out.len() implies {
        let tx = #[trigger] out[i];
        wanted(rows, filter, after, order, tx.position) && rows[tx.position] == tx
    } by {
        assert(wanted(rows, filter, after, order, found[i]));
    }
    assert forall|p: Position| #[trigger] wanted(rows, filter, after, order, p) implies has_row(
        out,
        p,
    ) || (out.len() == limit && (out.len() > 0 ==> before(order, out.last().position, p))) by {
        lemma_matches(rows, tip, filter, after, order, limit, s, p);
        assert(s.matches(m, p));
        if found.contains(p) {
            let i = choose|i: int| 0 <= i < found.len() && found[i] == p;
            assert(wanted(rows, filter, after, order, found[i]));
            assert(out[i].position == p);
        } else if found.len() > 0 {
            let last = found[found.len() - 1];
            assert(wanted(rows, filter, after, order, last));
            assert(out[found.len() - 1].position == last);
        }
    }
}

/// A query without filters answers with exactly the rows within the window, likewise.
pub proof fn a_listing_answers_the_query(
    rows: Map<Position, Tx>,
    tip: Option<Tip>,
    filter: Filter,
    after: Option<Position>,
    order: Order,
    limit: usize,
    states: Seq<Listed>,
    told: Seq<Option<(Seq<u8>, Seq<u8>)>>,
)
    requires
        proper(rows),
        term_count(filter) == 0,
        is_listing(index_of(rows, tip), states, told),
        states[0].fresh(window_of(filter, after, order), limit),
        states.last().done(),
    ensures
        answers(rows, filter, after, order, limit as int, states.last().rows),
{
    let m = index_of(rows, tip);
    let window = window_of(filter, after, order);
    let out = states.last().rows;
    a_listing_lists_the_rows(m, window, limit, states, told);
    assert forall|p: Position| #[trigger] wanted(rows, filter, after, order, p) <==> yields(
        m,
        primary_walk(),
        window,
        p,
    ) by {
        lemma_yields_rows(rows, tip, window, p);
    }
    assert forall|i: int| 0 <= i < out.len() implies {
        let tx = #[trigger] out[i];
        wanted(rows, filter, after, order, tx.position) && rows[tx.position] == tx
    } by {
        let p = out[i].position;
        lemma_yields_rows(rows, tip, window, p);
        lemma_row_at(rows[p]);
    }
    assert forall|p: Position| #[trigger] wanted(rows, filter, after, order, p) implies has_row(
        out,
        p,
    ) || (out.len() == limit && (out.len() > 0 ==> before(order, out.last().position, p))) by {
        assert(yields(m, primary_walk(), window, p));
    }
}

// ---- what follows of the answers

/// An answer short of its limit is whole.
pub proof fn an_answer_short_of_the_limit_is_whole(
    rows: Map<Position, Tx>,
    filter: Filter,
    after: Option<Position>,
    order: Order,
    limit: int,
    out: Seq<Tx>,
)
    requires
        answers(rows, filter, after, order, limit, out),
        out.len() < limit,
    ensures
        answers_whole(rows, filter, after, order, out),
{
}

/// A query has one answer.
pub proof fn a_query_has_one_answer(
    rows: Map<Position, Tx>,
    filter: Filter,
    after: Option<Position>,
    order: Order,
    limit: int,
    a: Seq<Tx>,
    b: Seq<Tx>,
)
    requires
        answers(rows, filter, after, order, limit, a),
        answers(rows, filter, after, order, limit, b),
    ensures
        a == b,
{
    if a.len() <= b.len() {
        lemma_agree(rows, filter, after, order, limit, a, b, a.len() as int);
        lemma_no_longer(rows, filter, after, order, limit, a, b);
    } else {
        lemma_agree(rows, filter, after, order, limit, b, a, b.len() as int);
        lemma_no_longer(rows, filter, after, order, limit, b, a);
    }
    assert(a =~= b);
}

/// Two answers to a query agree as far as they both go.
proof fn lemma_agree(
    rows: Map<Position, Tx>,
    filter: Filter,
    after: Option<Position>,
    order: Order,
    limit: int,
    a: Seq<Tx>,
    b: Seq<Tx>,
    n: int,
)
    requires
        answers(rows, filter, after, order, limit, a),
        answers(rows, filter, after, order, limit, b),
        0 <= n <= a.len(),
        n <= b.len(),
    ensures
        forall|i: int| 0 <= i < n ==> a[i] == #[trigger] b[i],
    decreases n,
{
    if n > 0 {
        let k = n - 1;
        lemma_agree(rows, filter, after, order, limit, a, b, k);
        let p = a[k].position;
        let q = b[k].position;
        assert(wanted(rows, filter, after, order, p));
        assert(wanted(rows, filter, after, order, q));
        if before(order, p, q) {
            lemma_none_before(rows, filter, after, order, limit, a, b, k);
        } else if before(order, q, p) {
            assert forall|i: int| 0 <= i < k implies b[i] == #[trigger] a[i] by {
                assert(a[i] == b[i]);
            }
            lemma_none_before(rows, filter, after, order, limit, b, a, k);
        }
        assert(rows[p] == a[k] && rows[p] == b[k]);
    }
}

/// Where two answers agree up to a row, neither has the other's next row still to come.
proof fn lemma_none_before(
    rows: Map<Position, Tx>,
    filter: Filter,
    after: Option<Position>,
    order: Order,
    limit: int,
    a: Seq<Tx>,
    b: Seq<Tx>,
    k: int,
)
    requires
        answers(rows, filter, after, order, limit, a),
        answers(rows, filter, after, order, limit, b),
        0 <= k < a.len(),
        k < b.len(),
        forall|i: int| 0 <= i < k ==> a[i] == #[trigger] b[i],
    ensures
        !before(order, a[k].position, b[k].position),
{
    let p = a[k].position;
    assert(wanted(rows, filter, after, order, p));
    if has_row(b, p) {
        let j = choose|j: int| 0 <= j < b.len() && (#[trigger] b[j]).position == p;
        if j < k {
            assert(a[j] == b[j]);
            assert(before(order, a[j].position, a[k].position));
        } else if j > k {
            assert(before(order, b[k].position, b[j].position));
        }
    } else {
        let last = b[b.len() - 1];
        if k < b.len() - 1 {
            assert(before(order, b[k].position, last.position));
        }
    }
}

/// An answer that goes as far as another goes no further.
proof fn lemma_no_longer(
    rows: Map<Position, Tx>,
    filter: Filter,
    after: Option<Position>,
    order: Order,
    limit: int,
    a: Seq<Tx>,
    b: Seq<Tx>,
)
    requires
        answers(rows, filter, after, order, limit, a),
        answers(rows, filter, after, order, limit, b),
        a.len() <= b.len(),
        forall|i: int| 0 <= i < a.len() ==> a[i] == #[trigger] b[i],
    ensures
        a.len() == b.len(),
{
    let n = a.len() as int;
    if n < b.len() {
        let q = b[n].position;
        assert(wanted(rows, filter, after, order, q));
        let i = choose|i: int| 0 <= i < a.len() && (#[trigger] a[i]).position == q;
        assert(a[i] == b[i]);
        assert(before(order, b[i].position, b[n].position));
    }
}

/// How much of a whole a limit allows.
pub open spec fn allowed(whole: Seq<Tx>, limit: int) -> int {
    if limit < whole.len() {
        limit
    } else {
        whole.len() as int
    }
}

/// The first as many as the limit allows of the whole are an answer.
proof fn lemma_beginning_answers(
    rows: Map<Position, Tx>,
    filter: Filter,
    after: Option<Position>,
    order: Order,
    limit: int,
    whole: Seq<Tx>,
)
    requires
        limit >= 0,
        answers_whole(rows, filter, after, order, whole),
    ensures
        answers(rows, filter, after, order, limit, whole.take(allowed(whole, limit))),
{
    let n = allowed(whole, limit);
    let out = whole.take(n);
    assert forall|i: int, j: int| 0 <= i < j < out.len() implies before(
        order,
        (#[trigger] out[i]).position,
        (#[trigger] out[j]).position,
    ) by {
        assert(before(order, whole[i].position, whole[j].position));
    }
    assert forall|i: int| 0 <= i < out.len() implies {
        let tx = #[trigger] out[i];
        wanted(rows, filter, after, order, tx.position) && rows[tx.position] == tx
    } by {
        assert(wanted(rows, filter, after, order, whole[i].position));
    }
    assert forall|p: Position| #[trigger] wanted(rows, filter, after, order, p) implies has_row(
        out,
        p,
    ) || (out.len() == limit && (out.len() > 0 ==> before(order, out.last().position, p))) by {
        let i = choose|i: int| 0 <= i < whole.len() && (#[trigger] whole[i]).position == p;
        if i < n {
            assert(out[i].position == p);
        } else if n > 0 {
            assert(before(order, whole[n - 1].position, whole[i].position));
        }
    }
}

/// An answer is the first as many as the limit allows of the whole.
pub proof fn an_answer_begins_the_whole(
    rows: Map<Position, Tx>,
    filter: Filter,
    after: Option<Position>,
    order: Order,
    limit: int,
    out: Seq<Tx>,
    whole: Seq<Tx>,
)
    requires
        answers(rows, filter, after, order, limit, out),
        answers_whole(rows, filter, after, order, whole),
    ensures
        out == whole.take(allowed(whole, limit)),
{
    lemma_beginning_answers(rows, filter, after, order, limit, whole);
    a_query_has_one_answer(
        rows,
        filter,
        after,
        order,
        limit,
        out,
        whole.take(allowed(whole, limit)),
    );
}

/// Every query has an answer, in whole and within any limit.
pub proof fn every_query_has_an_answer(
    rows: Map<Position, Tx>,
    filter: Filter,
    after: Option<Position>,
    order: Order,
    limit: int,
)
    requires
        proper(rows),
        limit >= 0,
    ensures
        exists|whole: Seq<Tx>| #[trigger] answers_whole(rows, filter, after, order, whole),
        exists|out: Seq<Tx>| #[trigger] answers(rows, filter, after, order, limit, out),
{
    let whole = lemma_whole(rows, filter, after, order);
    lemma_beginning_answers(rows, filter, after, order, limit, whole);
}

/// The positions that a query is after.
spec fn all_wanted(
    rows: Map<Position, Tx>,
    filter: Filter,
    after: Option<Position>,
    order: Order,
) -> Set<Position> {
    rows.dom().filter(|p: Position| wanted(rows, filter, after, order, p))
}

/// Of finitely many positions, one comes last.
proof fn lemma_last(order: Order, set: Set<Position>) -> (last: Position)
    requires
        set.finite(),
        set.len() > 0,
    ensures
        set.contains(last),
        forall|p: Position| #[trigger] set.contains(p) ==> !before(order, last, p),
    decreases set.len(),
{
    let some = set.choose();
    let rest = set.remove(some);
    if rest.len() == 0 {
        assert forall|p: Position| #[trigger] set.contains(p) implies !before(order, some, p) by {
            if p != some {
                assert(rest.contains(p));
            }
        }
        some
    } else {
        let last = lemma_last(order, rest);
        let later = if before(order, last, some) {
            some
        } else {
            last
        };
        assert forall|p: Position| #[trigger] set.contains(p) implies !before(order, later, p) by {
            if p != some {
                assert(rest.contains(p));
            }
        }
        later
    }
}

/// What a query is after, in order.
proof fn lemma_whole(
    rows: Map<Position, Tx>,
    filter: Filter,
    after: Option<Position>,
    order: Order,
) -> (whole: Seq<Tx>)
    requires
        proper(rows),
    ensures
        answers_whole(rows, filter, after, order, whole),
    decreases all_wanted(rows, filter, after, order).len(),
{
    let set = all_wanted(rows, filter, after, order);
    vstd::set_lib::lemma_len_subset(set, rows.dom());
    if set.len() == 0 {
        let whole = Seq::<Tx>::empty();
        assert forall|p: Position| #[trigger] wanted(rows, filter, after, order, p) implies has_row(
            whole,
            p,
        ) by {
            assert(set.contains(p));
        }
        whole
    } else {
        let last = lemma_last(order, set);
        let fewer = rows.remove(last);
        assert(all_wanted(fewer, filter, after, order) =~= set.remove(last));
        let head = lemma_whole(fewer, filter, after, order);
        let whole = head.push(rows[last]);
        assert(wanted(rows, filter, after, order, last));
        assert forall|i: int, j: int| 0 <= i < j < whole.len() implies before(
            order,
            (#[trigger] whole[i]).position,
            (#[trigger] whole[j]).position,
        ) by {
            if j < head.len() {
                assert(before(order, head[i].position, head[j].position));
            } else {
                let p = head[i].position;
                assert(wanted(fewer, filter, after, order, p));
                assert(set.contains(p));
            }
        }
        assert forall|i: int| 0 <= i < whole.len() implies {
            let tx = #[trigger] whole[i];
            wanted(rows, filter, after, order, tx.position) && rows[tx.position] == tx
        } by {
            if i < head.len() {
                assert(wanted(fewer, filter, after, order, head[i].position));
            }
        }
        assert forall|p: Position| #[trigger] wanted(rows, filter, after, order, p) implies has_row(
            whole,
            p,
        ) by {
            if p == last {
                assert(whole[head.len() as int].position == p);
            } else {
                assert(wanted(fewer, filter, after, order, p));
                let i = choose|i: int| 0 <= i < head.len() && (#[trigger] head[i]).position == p;
                assert(whole[i].position == p);
            }
        }
        whole
    }
}

/// Descending is the reverse of ascending.
pub proof fn descending_is_the_reverse_of_ascending(
    rows: Map<Position, Tx>,
    filter: Filter,
    up: Seq<Tx>,
    down: Seq<Tx>,
)
    requires
        answers_whole(rows, filter, None, Order::Ascending, up),
        answers_whole(rows, filter, None, Order::Descending, down),
    ensures
        down == up.reverse(),
{
    let turned = up.reverse();
    let order = Order::Descending;
    assert forall|i: int, j: int| 0 <= i < j < turned.len() implies before(
        order,
        (#[trigger] turned[i]).position,
        (#[trigger] turned[j]).position,
    ) by {
        assert(before(
            Order::Ascending,
            up[up.len() - 1 - j].position,
            up[up.len() - 1 - i].position,
        ));
    }
    assert forall|i: int| 0 <= i < turned.len() implies {
        let tx = #[trigger] turned[i];
        wanted(rows, filter, None, order, tx.position) && rows[tx.position] == tx
    } by {
        let tx = up[up.len() - 1 - i];
        assert(wanted(rows, filter, None, Order::Ascending, tx.position));
    }
    assert forall|p: Position| #[trigger] wanted(rows, filter, None, order, p) implies has_row(
        turned,
        p,
    ) by {
        assert(wanted(rows, filter, None, Order::Ascending, p));
        let i = choose|i: int| 0 <= i < up.len() && (#[trigger] up[i]).position == p;
        assert(turned[up.len() - 1 - i] == up[i]);
    }
    let limit = down.len() + turned.len() + 1;
    a_query_has_one_answer(rows, filter, None, order, limit as int, down, turned);
}

/// What a query answers from a cursor on rests on the rows past the cursor alone.
pub proof fn an_answer_rests_on_what_lies_past_the_cursor(
    rows: Map<Position, Tx>,
    others: Map<Position, Tx>,
    filter: Filter,
    after: Position,
    order: Order,
    limit: int,
    out: Seq<Tx>,
)
    requires
        forall|p: Position| #[trigger]
            before(order, after, p) ==> rows.contains_key(p) == others.contains_key(p) && (
            rows.contains_key(p) ==> rows[p] == others[p]),
        answers(rows, filter, Some(after), order, limit, out),
    ensures
        answers(others, filter, Some(after), order, limit, out),
{
    assert forall|p: Position| #[trigger] wanted(others, filter, Some(after), order, p) implies wanted(
        rows,
        filter,
        Some(after),
        order,
        p,
    ) by {
        assert(before(order, after, p));
    }
    assert forall|i: int| 0 <= i < out.len() implies {
        let tx = #[trigger] out[i];
        wanted(others, filter, Some(after), order, tx.position) && others[tx.position] == tx
    } by {
        let p = out[i].position;
        assert(wanted(rows, filter, Some(after), order, p));
        assert(before(order, after, p));
    }
}

/// A cursor is stable: what a query answers from it on is what it answers once a plan has been
/// applied that leaves alone what lies past the cursor. Its rows are all on the side of the cursor
/// that the query has been through; and it reverts nothing or, read newest first, only blocks above
/// the cursor's. So it is while blocks arrive, and those above the cursor are reorganised.
pub proof fn a_cursor_does_not_drift(
    rows: Map<Position, Tx>,
    plan: Plan,
    filter: Filter,
    after: Position,
    order: Order,
    limit: int,
    out: Seq<Tx>,
)
    requires
        plan.revert_from is None || (order is Descending && plan.revert_from->0 > after.block_num),
        forall|i: int|
            0 <= i < plan.txs().len() ==> !before(
                order,
                after,
                (#[trigger] plan.txs()[i]).position,
            ),
    ensures
        answers(plan.outcome(rows), filter, Some(after), order, limit, out) <==> answers(
            rows,
            filter,
            Some(after),
            order,
            limit,
            out,
        ),
{
    let others = plan.outcome(rows);
    let base = below(rows, plan.revert_from);
    assert forall|p: Position| #[trigger] before(order, after, p) implies rows.contains_key(p)
        == others.contains_key(p) && (rows.contains_key(p) ==> rows[p] == others[p]) by {
        lemma_insert_all_at(base, plan.txs(), p);
        assert(base.contains_key(p) == rows.contains_key(p));
    }
    if answers(rows, filter, Some(after), order, limit, out) {
        an_answer_rests_on_what_lies_past_the_cursor(
            rows,
            others,
            filter,
            after,
            order,
            limit,
            out,
        );
    }
    if answers(others, filter, Some(after), order, limit, out) {
        an_answer_rests_on_what_lies_past_the_cursor(
            others,
            rows,
            filter,
            after,
            order,
            limit,
            out,
        );
    }
}

// ---- pages

/// `pages` is what paging from a cursor to the end returns, page by page: each page asks for one
/// row more than it returns, and starts from the cursor of the one before it.
pub open spec fn is_paging(
    rows: Map<Position, Tx>,
    filter: Filter,
    after: Option<Position>,
    order: Order,
    size: int,
    pages: Seq<Seq<Tx>>,
) -> bool
    decreases pages.len(),
{
    pages.len() > 0 && exists|out: Seq<Tx>|
        {
            &&& #[trigger] answers(rows, filter, after, order, size + 1, out)
            &&& pages[0] == page_rows(out, size)
            &&& match page_cursor(out, size) {
                None => pages.len() == 1,
                Some(p) => is_paging(rows, filter, Some(p), order, size, pages.drop_first()),
            }
        }
}

/// Whether a query has rows past a position.
pub open spec fn rows_remain(
    rows: Map<Position, Tx>,
    filter: Filter,
    order: Order,
    p: Position,
) -> bool {
    exists|q: Position| #[trigger] wanted(rows, filter, Some(p), order, q)
}

/// A page has a cursor exactly where rows remain past it, and the cursor is its last row.
pub proof fn a_page_has_a_cursor_where_rows_remain(
    rows: Map<Position, Tx>,
    filter: Filter,
    after: Option<Position>,
    order: Order,
    size: int,
    out: Seq<Tx>,
)
    requires
        size >= 1,
        answers(rows, filter, after, order, size + 1, out),
    ensures
        page_cursor(out, size) is Some <==> page_rows(out, size).len() > 0 && rows_remain(
            rows,
            filter,
            order,
            page_rows(out, size).last().position,
        ),
        page_cursor(out, size) is Some ==> page_cursor(out, size) == Some(
            page_rows(out, size).last().position,
        ),
        page_rows(out, size).len() == 0 ==> forall|p: Position|
            !#[trigger] wanted(rows, filter, after, order, p),
{
    let page = page_rows(out, size);
    if page_cursor(out, size) is Some {
        let p = page.last().position;
        assert(p == out[size - 1].position);
        assert(wanted(rows, filter, after, order, out[size].position));
        assert(before(order, out[size - 1].position, out[size].position));
        assert(wanted(rows, filter, Some(p), order, out[size].position));
    } else if page.len() > 0 {
        let p = page.last().position;
        assert(wanted(rows, filter, after, order, out[out.len() - 1].position));
        assert forall|q: Position| !#[trigger] wanted(rows, filter, Some(p), order, q) by {
            if wanted(rows, filter, Some(p), order, q) {
                assert(wanted(rows, filter, after, order, q));
                let i = choose|i: int| 0 <= i < out.len() && (#[trigger] out[i]).position == q;
                if i < out.len() - 1 {
                    assert(before(order, out[i].position, out[out.len() - 1].position));
                }
            }
        }
    } else {
        assert forall|p: Position| !#[trigger] wanted(rows, filter, after, order, p) by {
            if wanted(rows, filter, after, order, p) {
                assert(has_row(out, p));
            }
        }
    }
}

/// Paging by cursor covers every row that the filter selects exactly once, in order, whatever
/// the size of a page. A page is followed by another exactly where rows remain past it, and all
/// but the last are full; only the single page of an empty result is empty; and there are as many
/// pages as the rows fill.
pub proof fn paging_covers_every_row_once(
    rows: Map<Position, Tx>,
    filter: Filter,
    after: Option<Position>,
    order: Order,
    size: int,
    pages: Seq<Seq<Tx>>,
)
    requires
        size >= 1,
        is_paging(rows, filter, after, order, size, pages),
    ensures
        answers_whole(rows, filter, after, order, pages.flatten()),
        forall|k: int|
            0 <= k < pages.len() ==> (#[trigger] pages[k]).len() <= size && (k < pages.len() - 1
                ==> pages[k].len() == size),
        forall|k: int|
            0 <= k < pages.len() && (#[trigger] pages[k]).len() > 0 ==> (k < pages.len() - 1
                <==> rows_remain(rows, filter, order, pages[k].last().position)),
        forall|k: int|
            0 <= k < pages.len() && (#[trigger] pages[k]).len() == 0 ==> pages.len() == 1
                && pages.flatten().len() == 0,
        pages.flatten().len() == 0 ==> pages.len() == 1,
        pages.flatten().len() > 0 ==> (pages.len() - 1) * size < pages.flatten().len()
            <= pages.len() * size,
    decreases pages.len(),
{
    let out = choose|out: Seq<Tx>|
        {
            &&& #[trigger] answers(rows, filter, after, order, size + 1, out)
            &&& pages[0] == page_rows(out, size)
            &&& match page_cursor(out, size) {
                None => pages.len() == 1,
                Some(p) => is_paging(rows, filter, Some(p), order, size, pages.drop_first()),
            }
        };
    let rest = pages.drop_first();
    assert(pages.flatten() == pages[0] + rest.flatten()) by {
        assert(pages.first() == pages[0]);
    }
    a_page_has_a_cursor_where_rows_remain(rows, filter, after, order, size, out);
    match page_cursor(out, size) {
        None => {
            assert(rest =~= Seq::empty());
            assert(rest.flatten() =~= Seq::empty());
            assert(pages[0] + rest.flatten() =~= out);
            assert((pages.len() - 1) * size == 0 && pages.len() * size == size)
                by (nonlinear_arith)
                requires
                    pages.len() == 1,
            ;
        },
        Some(p) => {
            paging_covers_every_row_once(rows, filter, Some(p), order, size, rest);
            lemma_page_then_rest(rows, filter, after, order, size, out, rest.flatten());
            // The row past the page is one of the rest.
            let q = choose|q: Position| #[trigger] wanted(rows, filter, Some(p), order, q);
            assert(has_row(rest.flatten(), q));
            assert forall|k: int| 0 <= k < pages.len() implies k == 0 || #[trigger] pages[k]
                == rest[k - 1] by {}
            let r = rest.len() as int;
            assert(r * size == (r - 1) * size + size && (r + 1) * size == r * size + size)
                by (nonlinear_arith);
        },
    }
}

/// Paging from a cursor comes to an end.
pub proof fn paging_comes_to_an_end(
    rows: Map<Position, Tx>,
    filter: Filter,
    after: Option<Position>,
    order: Order,
    size: int,
)
    requires
        proper(rows),
        size >= 1,
    ensures
        exists|pages: Seq<Seq<Tx>>| #[trigger]
            is_paging(rows, filter, after, order, size, pages),
{
    let whole = lemma_whole(rows, filter, after, order);
    let pages = lemma_paging(rows, filter, after, order, size, whole);
}

/// The pages that what a query is after falls into.
proof fn lemma_paging(
    rows: Map<Position, Tx>,
    filter: Filter,
    after: Option<Position>,
    order: Order,
    size: int,
    whole: Seq<Tx>,
) -> (pages: Seq<Seq<Tx>>)
    requires
        size >= 1,
        answers_whole(rows, filter, after, order, whole),
    ensures
        is_paging(rows, filter, after, order, size, pages),
    decreases whole.len(),
{
    let out = whole.take(allowed(whole, size + 1));
    lemma_beginning_answers(rows, filter, after, order, size + 1, whole);
    if whole.len() <= size {
        let pages = seq![page_rows(out, size)];
        assert(answers(rows, filter, after, order, size + 1, out));
        pages
    } else {
        let p = out[size - 1].position;
        let rest = whole.skip(size);
        assert(wanted(rows, filter, after, order, whole[size - 1].position));
        assert forall|i: int, j: int| 0 <= i < j < rest.len() implies before(
            order,
            (#[trigger] rest[i]).position,
            (#[trigger] rest[j]).position,
        ) by {
            assert(before(order, whole[size + i].position, whole[size + j].position));
        }
        assert forall|i: int| 0 <= i < rest.len() implies {
            let tx = #[trigger] rest[i];
            wanted(rows, filter, Some(p), order, tx.position) && rows[tx.position] == tx
        } by {
            assert(wanted(rows, filter, after, order, whole[size + i].position));
            assert(before(order, whole[size - 1].position, whole[size + i].position));
        }
        assert forall|q: Position| #[trigger] wanted(rows, filter, Some(p), order, q) implies has_row(
            rest,
            q,
        ) by {
            assert(wanted(rows, filter, after, order, q));
            let i = choose|i: int| 0 <= i < whole.len() && (#[trigger] whole[i]).position == q;
            if i < size - 1 {
                assert(before(order, whole[i].position, whole[size - 1].position));
            }
            assert(rest[i - size].position == q);
        }
        let more = lemma_paging(rows, filter, Some(p), order, size, rest);
        let pages = seq![page_rows(out, size)] + more;
        assert(pages.drop_first() =~= more);
        assert(answers(rows, filter, after, order, size + 1, out));
        assert(page_cursor(out, size) == Some(p));
        pages
    }
}

proof fn lemma_page_then_rest(
    rows: Map<Position, Tx>,
    filter: Filter,
    after: Option<Position>,
    order: Order,
    size: int,
    out: Seq<Tx>,
    rest: Seq<Tx>,
)
    requires
        1 <= size < out.len(),
        answers(rows, filter, after, order, size + 1, out),
        answers_whole(rows, filter, Some(out[size - 1].position), order, rest),
    ensures
        answers_whole(rows, filter, after, order, out.take(size) + rest),
{
    let page = out.take(size);
    let all = page + rest;
    let p = out[size - 1].position;
    assert(wanted(rows, filter, after, order, p));
    assert forall|i: int, j: int| 0 <= i < j < all.len() implies before(
        order,
        (#[trigger] all[i]).position,
        (#[trigger] all[j]).position,
    ) by {
        if j < size {
            assert(before(order, out[i].position, out[j].position));
        } else if i >= size {
            assert(before(order, rest[i - size].position, rest[j - size].position));
        } else {
            assert(wanted(rows, filter, Some(p), order, rest[j - size].position));
            if i < size - 1 {
                assert(before(order, out[i].position, out[size - 1].position));
            }
        }
    }
    assert forall|i: int| 0 <= i < all.len() implies {
        let tx = #[trigger] all[i];
        wanted(rows, filter, after, order, tx.position) && rows[tx.position] == tx
    } by {
        if i < size {
            assert(wanted(rows, filter, after, order, out[i].position));
        } else {
            assert(wanted(rows, filter, Some(p), order, rest[i - size].position));
        }
    }
    assert forall|q: Position| #[trigger] wanted(rows, filter, after, order, q) implies has_row(
        all,
        q,
    ) by {
        let last = out[out.len() - 1];
        if size - 1 < out.len() - 1 {
            assert(before(order, out[size - 1].position, last.position));
        }
        if has_row(out, q) {
            let i = choose|i: int| 0 <= i < out.len() && (#[trigger] out[i]).position == q;
            if i < size {
                assert(all[i].position == q);
            } else {
                assert(before(order, out[size - 1].position, out[i].position));
                assert(wanted(rows, filter, Some(p), order, q));
                let k = choose|k: int| 0 <= k < rest.len() && (#[trigger] rest[k]).position == q;
                assert(all[size + k].position == q);
            }
        } else {
            assert(wanted(rows, filter, Some(p), order, q));
            let k = choose|k: int| 0 <= k < rest.len() && (#[trigger] rest[k]).position == q;
            assert(all[size + k].position == q);
        }
    }
}

// ---- counts and the tip

/// The grand total is the number of rows.
pub proof fn the_total_counts_every_row(rows: Map<Position, Tx>, tip: Option<Tip>)
    requires
        proper(rows),
        rows.dom().len() <= u64::MAX,
    ensures
        ({
            let key = counter_key(kind_name(Kind::Total), Seq::empty());
            let val = lookup(index_of(rows, tip), Keyspace::Count, key);
            &&& val is Some ==> (val->0).len() == 8
            &&& count_value(val) == rows.dom().len()
        }),
{
    let all = Filter {
        from: None,
        to: None,
        address: None,
        tx_type: None,
        fee_token: None,
        fee_payer: None,
        blocks: BlockRange { min: None, max: None },
    };
    a_count_is_what_the_filter_selects(rows, tip, all);
    assert(selected(rows, all) =~= rows.dom());
}

/// The tip that the index stands at is the one that reads back, with its hash.
pub proof fn the_tip_reads_back(rows: Map<Position, Tx>, tip: Option<Tip>, read: Tip)
    ensures
        ({
            let val = lookup(index_of(rows, tip), Keyspace::Meta, tip_key_bytes());
            &&& val is Some <==> tip is Some
            &&& val is Some ==> ((val->0).len() == 40 && (tip_bytes(read) == val->0 <==> tip == Some(
                read,
            )))
        }),
{
    lemma_index_lookup(rows, tip, Keyspace::Meta, tip_key_bytes());
    if tip is Some {
        lemma_be_u64(0, (tip->0).block_num);
        if tip_bytes(read) == tip_bytes(tip->0) {
            tips_round_trip(read, tip->0);
        }
    }
}

/// A count is what walking to the end would yield.
pub proof fn a_count_is_what_the_walk_would_yield(
    rows: Map<Position, Tx>,
    tip: Option<Tip>,
    filter: Filter,
    order: Order,
    whole: Seq<Tx>,
)
    requires
        proper(rows),
        rows.dom().len() <= u64::MAX,
        filter_counter(filter) is Some,
        answers_whole(rows, filter, None, order, whole),
    ensures
        count_value(lookup(index_of(rows, tip), Keyspace::Count, filter_counter(filter)->0))
            == whole.len(),
{
    a_count_is_what_the_filter_selects(rows, tip, filter);
    let positions = whole.map_values(|tx: Tx| tx.position);
    let some = selected(rows, filter);
    assert(positions.no_duplicates()) by {
        assert forall|i: int, j: int|
            0 <= i < positions.len() && 0 <= j < positions.len() && i != j implies positions[i]
            != positions[j] by {
            if i < j {
                assert(before(order, whole[i].position, whole[j].position));
            } else {
                assert(before(order, whole[j].position, whole[i].position));
            }
        }
    }
    positions.unique_seq_to_set();
    assert(positions.to_set() =~= some) by {
        assert forall|p: Position| positions.to_set().contains(p) <==> #[trigger] some.contains(p) by {
            if some.contains(p) {
                assert(wanted(rows, filter, None, order, p));
                let i = choose|i: int| 0 <= i < whole.len() && (#[trigger] whole[i]).position == p;
                assert(positions[i] == p);
            }
            if positions.to_set().contains(p) {
                let i = choose|i: int| 0 <= i < positions.len() && positions[i] == p;
                assert(wanted(rows, filter, None, order, whole[i].position));
            }
        }
    }
}

// ---- a query, as its caller drives it

/// What an answer is. It is no longer than the limit; its rows are rows of the index as they
/// stand, which the filter selects and which lie past the cursor, in order and each once; and a row
/// that the filter selects past the cursor is in it, unless it is full and the row comes after all
/// of it.
pub proof fn an_answer_is_the_first_rows_selected(
    rows: Map<Position, Tx>,
    filter: Filter,
    after: Option<Position>,
    order: Order,
    limit: int,
    out: Seq<Tx>,
    i: int,
    j: int,
    p: Position,
)
    requires
        answers(rows, filter, after, order, limit, out),
    ensures
        out.len() <= limit,
        0 <= i < out.len() ==> {
            let q = out[i].position;
            &&& rows.contains_key(q)
            &&& rows[q] == out[i]
            &&& filter.selects(out[i])
            &&& after is Some && order is Ascending ==> earlier(after->0, q)
            &&& after is Some && order is Descending ==> earlier(q, after->0)
        },
        0 <= i < j < out.len() && order is Ascending ==> earlier(
            out[i].position,
            out[j].position,
        ),
        0 <= i < j < out.len() && order is Descending ==> earlier(
            out[j].position,
            out[i].position,
        ),
        rows.contains_key(p) && filter.selects(rows[p]) && (after is Some ==> match order {
            Order::Ascending => earlier(after->0, p),
            Order::Descending => earlier(p, after->0),
        }) ==> (exists|k: int| 0 <= k < out.len() && (#[trigger] out[k]).position == p) || {
            &&& out.len() == limit
            &&& 0 <= i < out.len() && order is Ascending ==> earlier(out[i].position, p)
            &&& 0 <= i < out.len() && order is Descending ==> earlier(p, out[i].position)
        },
{
    if rows.contains_key(p) && filter.selects(rows[p]) && (after is Some ==> match order {
        Order::Ascending => earlier(after->0, p),
        Order::Descending => earlier(p, after->0),
    }) {
        assert(wanted(rows, filter, after, order, p));
        if 0 <= i < out.len() - 1 {
            assert(before(order, out[i].position, out[out.len() - 1].position));
        }
    }
    if 0 <= i < out.len() {
        assert(wanted(rows, filter, after, order, out[i].position));
        if i < j < out.len() {
            assert(before(order, out[i].position, out[j].position));
        }
    }
}

/// The whole answer leaves nothing out.
pub proof fn the_whole_answer_leaves_nothing_out(
    rows: Map<Position, Tx>,
    filter: Filter,
    after: Option<Position>,
    order: Order,
    whole: Seq<Tx>,
)
    ensures
        answers_whole(rows, filter, after, order, whole) <==> answers(
            rows,
            filter,
            after,
            order,
            whole.len() + 1int,
            whole,
        ),
{
}

/// A search that was driven to its end over an index answers the query it was made for: it resolves
/// to rows, and they are the answer.
pub proof fn a_driven_search_answers_its_query(
    rows: Map<Position, Tx>,
    tip: Option<Tip>,
    filter: &Filter,
    after: Option<Position>,
    order: Order,
    limit: usize,
    query: Query,
    states: Seq<Progress>,
    told: Seq<Option<Seq<u8>>>,
    end: &Search,
    found: &Vec<Position>,
    keys: Vec<Vec<u8>>,
    values: &Vec<Option<Vec<u8>>>,
    r: Result<Vec<IndexedTx>, Error>,
)
    requires
        proper(rows),
        call_ensures(Query::new, (filter, after, order, limit), query),
        query is Search,
        is_run(index_of(rows, tip), states, told),
        states[0] == query->Search_0@,
        states.last() == end@,
        call_ensures(Search::request, (end,), None),
        call_ensures(Search::positions, (end,), found),
        call_ensures(row_keys, (found,), keys),
        lookups(index_of(rows, tip), Keyspace::Primary, key_views(keys@), value_views(values@)),
        call_ensures(resolve, (found, values), r),
    ensures
        r is Ok,
        answers(rows, *filter, after, order, limit as int, views(r->Ok_0@)),
{
    assert(key_views(keys@) =~= end@.out.map_values(|p: Position| position_key(p)));
    a_search_answers_the_query(
        rows,
        tip,
        *filter,
        after,
        order,
        limit,
        states,
        told,
        value_views(values@),
    );
}

/// A listing that was driven to its end over an index answers the query it was made for.
pub proof fn a_driven_listing_answers_its_query(
    rows: Map<Position, Tx>,
    tip: Option<Tip>,
    filter: &Filter,
    after: Option<Position>,
    order: Order,
    limit: usize,
    query: Query,
    states: Seq<Listed>,
    told: Seq<Option<(Seq<u8>, Seq<u8>)>>,
    end: Listing,
    r: Vec<IndexedTx>,
)
    requires
        proper(rows),
        call_ensures(Query::new, (filter, after, order, limit), query),
        query is Listing,
        is_listing(index_of(rows, tip), states, told),
        states[0] == query->Listing_0@,
        states.last() == end@,
        call_ensures(Listing::request, (&end,), None),
        call_ensures(Listing::into_rows, (end,), r),
    ensures
        answers(rows, *filter, after, order, limit as int, views(r@)),
{
    a_listing_answers_the_query(rows, tip, *filter, after, order, limit, states, told);
}

/// A search of an index never meets what it cannot read: every key it is truthfully told is taken.
pub proof fn a_search_of_an_index_takes_every_key(
    rows: Map<Position, Tx>,
    tip: Option<Tip>,
    filter: &Filter,
    after: Option<Position>,
    order: Order,
    limit: usize,
    query: Query,
    states: Seq<Progress>,
    told: Seq<Option<Seq<u8>>>,
    search: &mut Search,
    key: Option<&[u8]>,
    r: Result<(), Error>,
)
    requires
        proper(rows),
        call_ensures(Query::new, (filter, after, order, limit), query),
        query is Search,
        is_run(index_of(rows, tip), states, told),
        states[0] == query->Search_0@,
        states.last() == search@,
        !search@.done,
        search@.is_told(
            index_of(rows, tip),
            match key {
                Some(k) => Some(k@),
                None => None,
            },
        ),
        call_ensures(Search::answer, (search, key), r),
    ensures
        r is Ok,
        is_run(
            index_of(rows, tip),
            states.push(final(search)@),
            told.push(
                match key {
                    Some(k) => Some(k@),
                    None => None,
                },
            ),
        ),
{
    let m = index_of(rows, tip);
    let s = search@;
    let got = match key {
        Some(k) => Some(k@),
        None => None,
    };
    lemma_run_stays(m, *filter, window_of(*filter, after, order), limit, states, told);
    if got is Some {
        the_index_is_well_formed(rows, tip, *filter, s.window, s.current, got->0);
    }
    a_run_goes_on_answer_by_answer(m, states, told, final(search)@, got);
}

/// A listing of an index never meets what it cannot read: every entry it is truthfully told is
/// taken.
pub proof fn a_listing_of_an_index_takes_every_entry(
    rows: Map<Position, Tx>,
    tip: Option<Tip>,
    listing: &mut Listing,
    entry: Option<(&[u8], &[u8])>,
    r: Result<(), Error>,
)
    requires
        proper(rows),
        listing@.is_told(
            index_of(rows, tip),
            match entry {
                Some(e) => Some((e.0@, e.1@)),
                None => None,
            },
        ),
        call_ensures(Listing::answer, (listing, entry), r),
    ensures
        r is Ok,
{
    if entry is Some {
        the_rows_are_well_formed(rows, tip, listing@, (entry->0).0@);
    }
}

/// Rows are in order that stand at their own positions, finitely many.
pub proof fn proper_rows_stand_at_their_positions(rows: Map<Position, Tx>)
    ensures
        proper(rows) <==> rows.dom().finite() && forall|p: Position| #[trigger]
            rows.contains_key(p) ==> rows[p].position == p,
{
}

/// Paging goes on page by page: each page is the first rows of what the query answers, one row more
/// than its size being asked for; and the next starts from its cursor, where it has one.
pub proof fn paging_goes_on_page_by_page(
    rows: Map<Position, Tx>,
    filter: Filter,
    after: Option<Position>,
    order: Order,
    size: int,
    out: Seq<Tx>,
    rest: Seq<Seq<Tx>>,
)
    requires
        size >= 1,
        answers(rows, filter, after, order, size + 1, out),
    ensures
        out.len() <= size ==> is_paging(rows, filter, after, order, size, seq![out]),
        out.len() > size && is_paging(
            rows,
            filter,
            Some(out[size - 1].position),
            order,
            size,
            rest,
        ) ==> is_paging(rows, filter, after, order, size, seq![out.take(size)] + rest),
{
    if out.len() <= size {
        assert(seq![out][0] == out);
    } else {
        let pages = seq![out.take(size)] + rest;
        assert(pages.drop_first() =~= rest);
        assert(pages[0] == page_rows(out, size));
        assert(page_cursor(out, size) == Some(out[size - 1].position));
    }
}

} // verus!
