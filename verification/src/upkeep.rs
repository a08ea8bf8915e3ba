//! Applying plans keeps the store an index: of exactly the rows that the plans leave.

use vstd::prelude::*;

use crate::apply::{all_changes, change_all, count_fault, count_faults, count_write, count_writes,
    cut_of, drop_all, dropped_rows, entry_fault, first_fault, forget_all, forget_writes,
    lemma_no_fault, next_count, put_all, put_writes, read_faults, replaced_rows, replacing,
    row_changes, row_writes, stored_fault, tip_writes, Draft};
use crate::bytes::{be_value, lemma_be_of_8, lemma_be_u64};
use crate::codec::{count_value, encode_row, encode_tip, lemma_row_at, lemma_row_is_row, row_at,
    row_bytes, tip_key};
use crate::deltas::{lemma_net_concat, lemma_net_unnamed, names, net, sums_up};
use crate::entries::{key_views, lemma_row_columns, lemma_row_counters_distinct, owns, row_columns,
    row_counters};
use crate::error::Error;
use crate::layout::{entry_key, is_secondary, keys_sort_as_positions, lemma_entry_key,
    lemma_position_key, lemma_position_of, pos_key, position_key, position_of, Keyspace};
use crate::lex::{lemma_lex_asymmetric, lex_le, lex_lt};
use crate::plan::{a_plan_leaves_its_last_row_at_a_position, below, distinct_positions, insert_all, later, lemma_distinct_prefix,
    lemma_insert_all_at, lemma_insert_all_distinct, lemma_standing, merge_matches_replay,
    outcome_is_idempotent, standing, Plan};
use crate::position::{earlier, Position};
use crate::store::{after, an_index_holds_its_rows_and_no_more, delete, entry_position, entry_views,
    entry_prefix, has_entry, held, index_of,
    lemma_after_concat, lemma_agreeing, lemma_index_lookup, lemma_same_contents, lemma_tally_insert,
    lemma_tally_remove, lookup, lookups, proper, scanned, tally, touches,
    value_views, writes, Contents, Op, Write};
use crate::types::{Tip, Tx};

verus! {

/// What is read from a store while a plan is applied to it.
pub struct Reads {
    /// The entries of the primary keyspace that a revert drops.
    pub entries: Seq<(Seq<u8>, Seq<u8>)>,
    /// What stands where rows of the plan may replace it.
    pub stored: Seq<Option<Seq<u8>>>,
    /// What the plan comes to for each counter it touches.
    pub sums: Seq<(Seq<u8>, int)>,
    /// What those counters stand at.
    pub counts: Seq<Option<Seq<u8>>>,
}

/// `entries` and `stored` are the rows that the store holds where the plan asks for them.
pub open spec fn faithful_rows(
    m: Contents,
    plan: Plan,
    entries: Seq<(Seq<u8>, Seq<u8>)>,
    stored: Seq<Option<Seq<u8>>>,
) -> bool {
    &&& match plan.revert_from {
        Some(from) => scanned(
            m,
            Keyspace::Primary,
            position_key(Position { block_num: from, tx_index: 0 }),
            entries,
        ),
        None => entries.len() == 0,
    }
    &&& lookups(
        m,
        Keyspace::Primary,
        replacing(plan).map_values(|tx: Tx| position_key(tx.position)),
        stored,
    )
}

/// `reads` is what the store holds where the plan asks for it.
pub open spec fn faithful(m: Contents, plan: Plan, reads: Reads) -> bool {
    &&& faithful_rows(m, plan, reads.entries, reads.stored)
    &&& sums_up(all_changes(plan, reads.entries, reads.stored), reads.sums)
    &&& lookups(
        m,
        Keyspace::Count,
        reads.sums.map_values(|s: (Seq<u8>, int)| s.0),
        reads.counts,
    )
}

/// The batch that a plan makes of what was read: what a [`Draft`](crate::Draft) that was prepared
/// from the entries and the stored rows hands back for the counts.
pub open spec fn batch_of(plan: Plan, reads: Reads) -> Seq<Write> {
    row_writes(plan, reads.entries, reads.stored) + count_writes(reads.sums, reads.counts)
        + tip_writes(plan.tip)
}

/// There are no more rows than a counter can count, before a plan and after it.
pub open spec fn countable(rows: Map<Position, Tx>, plan: Plan) -> bool {
    &&& rows.dom().len() <= u64::MAX
    &&& plan.outcome(rows).dom().len() <= u64::MAX
}

/// A store holds what the index of some rows holds, whatever its counters stand at.
pub open spec fn holds_rows(m: Contents, rows: Map<Position, Tx>, tip: Option<Tip>) -> bool {
    forall|keyspace: Keyspace, key: Seq<u8>|
        !(keyspace is Count) ==> #[trigger] lookup(m, keyspace, key) == held(
            rows,
            tip,
            (keyspace, key),
        )
}

/// Every counter of a store is one: eight bytes, and not zero.
pub open spec fn sound_counters(m: Contents) -> bool {
    forall|key: Seq<u8>|
        (#[trigger] lookup(m, Keyspace::Count, key)) is Some ==> lookup(
            m,
            Keyspace::Count,
            key,
        )->0.len() == 8 && be_value(lookup(m, Keyspace::Count, key)->0) > 0
}

// ---- which places a batch touches

proof fn lemma_touches_concat(a: Seq<Write>, b: Seq<Write>, place: (Keyspace, Seq<u8>))
    ensures
        touches(a + b, place) <==> touches(a, place) || touches(b, place),
{
    let c = a + b;
    if touches(a, place) {
        let i = choose|i: int| 0 <= i < a.len() && (#[trigger] a[i]).place() == place;
        assert(c[i].place() == place);
    }
    if touches(b, place) {
        let i = choose|i: int| 0 <= i < b.len() && (#[trigger] b[i]).place() == place;
        assert(c[a.len() + i].place() == place);
    }
    if touches(c, place) {
        let i = choose|i: int| 0 <= i < c.len() && (#[trigger] c[i]).place() == place;
        if i < a.len() {
            assert(a[i].place() == place);
        } else {
            assert(b[i - a.len()].place() == place);
        }
    }
}

/// An entry's key comes apart into its prefix and its position.
proof fn lemma_entry_parts(prefix: Seq<u8>, pos: Position)
    ensures
        entry_key(prefix, pos).len() >= 12,
        entry_prefix(entry_key(prefix, pos)) == prefix,
        entry_position(entry_key(prefix, pos)) == pos,
{
    lemma_entry_key(prefix, pos);
    lemma_position_key(pos);
}

/// A key of twelve bytes or more is the entry of its prefix at its position.
proof fn lemma_entry_whole(key: Seq<u8>)
    requires
        key.len() >= 12,
    ensures
        entry_key(entry_prefix(key), entry_position(key)) == key,
{
    lemma_position_of(key.skip(key.len() - 12));
    assert(entry_key(entry_prefix(key), entry_position(key)) =~= key);
}

/// Whether a place is that of an entry which a row owns.
spec fn owns_place(tx: Tx, place: (Keyspace, Seq<u8>)) -> bool {
    &&& is_secondary(place.0)
    &&& place.1.len() >= 12
    &&& entry_position(place.1) == tx.position
    &&& owns(tx, place.0, entry_prefix(place.1))
}

proof fn lemma_owned_column(tx: Tx, place: (Keyspace, Seq<u8>))
    ensures
        owns_place(tx, place) <==> exists|i: int|
            0 <= i < row_columns(tx).len() && place == (
                (#[trigger] row_columns(tx)[i]).0,
                entry_key(row_columns(tx)[i].1, tx.position),
            ),
{
    let columns = row_columns(tx);
    lemma_row_columns(tx);
    if owns_place(tx, place) {
        lemma_entry_whole(place.1);
        let c = (place.0, entry_prefix(place.1));
        let i = choose|i: int| 0 <= i < columns.len() && columns[i] == c;
        assert(place == (columns[i].0, entry_key(columns[i].1, tx.position)));
    }
    if exists|i: int|
        0 <= i < columns.len() && place == (
            (#[trigger] columns[i]).0,
            entry_key(columns[i].1, tx.position),
        ) {
        let i = choose|i: int|
            0 <= i < columns.len() && place == (
                (#[trigger] columns[i]).0,
                entry_key(columns[i].1, tx.position),
            );
        lemma_entry_parts(columns[i].1, tx.position);
        assert(is_secondary(columns[i].0));
        assert(columns.contains((place.0, entry_prefix(place.1))));
    }
}

proof fn lemma_forget_touches(tx: Tx, place: (Keyspace, Seq<u8>))
    ensures
        touches(forget_writes(tx), place) <==> owns_place(tx, place),
        forall|i: int| 0 <= i < forget_writes(tx).len() ==> (#[trigger] forget_writes(tx)[i]).value is None,
{
    let batch = forget_writes(tx);
    let columns = row_columns(tx);
    lemma_owned_column(tx, place);
    if touches(batch, place) {
        let i = choose|i: int| 0 <= i < batch.len() && (#[trigger] batch[i]).place() == place;
        assert(place == (columns[i].0, entry_key(columns[i].1, tx.position)));
    }
    if owns_place(tx, place) {
        let i = choose|i: int|
            0 <= i < columns.len() && place == (
                (#[trigger] columns[i]).0,
                entry_key(columns[i].1, tx.position),
            );
        assert(batch[i].place() == place);
    }
}

proof fn lemma_put_touches(tx: Tx, place: (Keyspace, Seq<u8>))
    ensures
        touches(put_writes(tx), place) <==> owns_place(tx, place) || place == (
            Keyspace::Primary,
            position_key(tx.position),
        ),
{
    let batch = put_writes(tx);
    let columns = row_columns(tx);
    lemma_owned_column(tx, place);
    if touches(batch, place) {
        let i = choose|i: int| 0 <= i < batch.len() && (#[trigger] batch[i]).place() == place;
        if i > 0 {
            assert(place == (columns[i - 1].0, entry_key(columns[i - 1].1, tx.position)));
        }
    }
    if owns_place(tx, place) {
        let i = choose|i: int|
            0 <= i < columns.len() && place == (
                (#[trigger] columns[i]).0,
                entry_key(columns[i].1, tx.position),
            );
        assert(batch[i + 1].place() == place);
    }
    if place == (Keyspace::Primary, position_key(tx.position)) {
        assert(batch[0].place() == place);
    }
}

/// Whether a row of a list owns the entry at a place.
spec fn any_owns(list: Seq<Tx>, place: (Keyspace, Seq<u8>)) -> bool {
    exists|i: int| 0 <= i < list.len() && owns_place(#[trigger] list[i], place)
}

proof fn lemma_any_owns_last(list: Seq<Tx>, place: (Keyspace, Seq<u8>))
    requires
        list.len() > 0,
    ensures
        any_owns(list, place) <==> any_owns(list.drop_last(), place) || owns_place(
            list.last(),
            place,
        ),
{
    let head = list.drop_last();
    if any_owns(list, place) {
        let i = choose|i: int| 0 <= i < list.len() && owns_place(#[trigger] list[i], place);
        if i < head.len() {
            assert(owns_place(head[i], place));
        }
    }
    if any_owns(head, place) {
        let i = choose|i: int| 0 <= i < head.len() && owns_place(#[trigger] head[i], place);
        assert(owns_place(list[i], place));
    }
    if owns_place(list.last(), place) {
        assert(owns_place(list[list.len() - 1], place));
    }
}

proof fn lemma_forget_all_touches(list: Seq<Tx>, place: (Keyspace, Seq<u8>))
    ensures
        touches(forget_all(list), place) <==> any_owns(list, place),
        forall|i: int| 0 <= i < forget_all(list).len() ==> (#[trigger] forget_all(list)[i]).value is None,
    decreases list.len(),
{
    if list.len() > 0 {
        lemma_forget_all_touches(list.drop_last(), place);
        lemma_forget_touches(list.last(), place);
        lemma_touches_concat(forget_all(list.drop_last()), forget_writes(list.last()), place);
        lemma_any_owns_last(list, place);
    }
}

proof fn lemma_drop_all_touches(entries: Seq<(Seq<u8>, Seq<u8>)>, place: (Keyspace, Seq<u8>))
    ensures
        touches(drop_all(entries), place) <==> any_owns(dropped_rows(entries), place) || (place.0
            is Primary && exists|i: int|
            0 <= i < entries.len() && (#[trigger] entries[i]).0 == place.1),
        forall|i: int| 0 <= i < drop_all(entries).len() ==> (#[trigger] drop_all(entries)[i]).value is None,
    decreases entries.len(),
{
    if entries.len() > 0 {
        let head = entries.drop_last();
        let e = entries.last();
        let tx = row_at(position_of(e.0), e.1);
        let one = seq![delete(Keyspace::Primary, e.0)];
        lemma_drop_all_touches(head, place);
        lemma_forget_touches(tx, place);
        lemma_touches_concat(drop_all(head) + one, forget_writes(tx), place);
        lemma_touches_concat(drop_all(head), one, place);
        assert(dropped_rows(entries).drop_last() =~= dropped_rows(head));
        assert(dropped_rows(entries).last() == tx);
        lemma_any_owns_last(dropped_rows(entries), place);
        if touches(one, place) {
            assert(one[0].place() == place);
            assert(entries[entries.len() - 1].0 == place.1);
        }
        if place == (Keyspace::Primary, e.0) {
            assert(one[0].place() == place);
        }
        if place.0 is Primary {
            if exists|i: int| 0 <= i < entries.len() && (#[trigger] entries[i]).0 == place.1 {
                let i = choose|i: int| 0 <= i < entries.len() && (#[trigger] entries[i]).0 == place.1;
                if i < head.len() {
                    assert(head[i].0 == place.1);
                }
            }
            if exists|i: int| 0 <= i < head.len() && (#[trigger] head[i]).0 == place.1 {
                let i = choose|i: int| 0 <= i < head.len() && (#[trigger] head[i]).0 == place.1;
                assert(entries[i].0 == place.1);
            }
        }
    }
}

proof fn lemma_put_all_touches(list: Seq<Tx>, place: (Keyspace, Seq<u8>))
    ensures
        touches(put_all(list), place) <==> any_owns(list, place) || (place.0 is Primary && exists|i: int|
            0 <= i < list.len() && position_key((#[trigger] list[i]).position) == place.1),
    decreases list.len(),
{
    if list.len() > 0 {
        let head = list.drop_last();
        lemma_put_all_touches(head, place);
        lemma_put_touches(list.last(), place);
        lemma_touches_concat(put_all(head), put_writes(list.last()), place);
        lemma_any_owns_last(list, place);
        if exists|i: int|
            0 <= i < list.len() && position_key((#[trigger] list[i]).position) == place.1 {
            let i = choose|i: int|
                0 <= i < list.len() && position_key((#[trigger] list[i]).position) == place.1;
            if i < head.len() {
                assert(position_key(head[i].position) == place.1);
            }
        }
        if exists|i: int|
            0 <= i < head.len() && position_key((#[trigger] head[i]).position) == place.1 {
            let i = choose|i: int|
                0 <= i < head.len() && position_key((#[trigger] head[i]).position) == place.1;
            assert(position_key(list[i].position) == place.1);
        }
        if position_key(list.last().position) == place.1 {
            assert(position_key(list[list.len() - 1].position) == place.1);
        }
    }
}

/// Each put of a plan's rows is what the index of the outcome holds.
proof fn lemma_puts_agree(list: Seq<Tx>, rows: Map<Position, Tx>, tip: Option<Tip>, i: int)
    requires
        forall|j: int|
            0 <= j < list.len() ==> rows.contains_key((#[trigger] list[j]).position)
                && rows[list[j].position] == list[j],
        0 <= i < put_all(list).len(),
    ensures
        put_all(list)[i].value == lookup(
            index_of(rows, tip),
            put_all(list)[i].keyspace,
            put_all(list)[i].key,
        ),
    decreases list.len(),
{
    let head = list.drop_last();
    let tx = list.last();
    if i < put_all(head).len() {
        assert forall|j: int| 0 <= j < head.len() implies rows.contains_key(
            (#[trigger] head[j]).position,
        ) && rows[head[j].position] == head[j] by {
            assert(head[j] == list[j]);
        }
        lemma_puts_agree(head, rows, tip, i);
        assert(put_all(list)[i] == put_all(head)[i]);
    } else {
        let k = i - put_all(head).len();
        let w = put_writes(tx)[k];
        assert(put_all(list)[i] == w);
        assert(tx == list[list.len() - 1]);
        lemma_position_key(tx.position);
        lemma_index_lookup(rows, tip, w.keyspace, w.key);
        if k > 0 {
            let columns = row_columns(tx);
            lemma_row_columns(tx);
            lemma_entry_parts(columns[k - 1].1, tx.position);
            assert(is_secondary(columns[k - 1].0));
            assert(columns.contains(columns[k - 1]));
        }
    }
}

// ---- what was read

/// What a revert's scan finds in an index: the rows at and above the cut, each once.
proof fn lemma_scan_finds(
    rows: Map<Position, Tx>,
    tip: Option<Tip>,
    from: u64,
    entries: Seq<(Seq<u8>, Seq<u8>)>,
)
    requires
        proper(rows),
        scanned(
            index_of(rows, tip),
            Keyspace::Primary,
            position_key(Position { block_num: from, tx_index: 0 }),
            entries,
        ),
    ensures
        forall|i: int|
            0 <= i < entries.len() ==> {
                let p = position_of((#[trigger] entries[i]).0);
                &&& entries[i].0.len() == 12
                &&& entries[i].0 == position_key(p)
                &&& rows.contains_key(p)
                &&& p.block_num >= from
                &&& entries[i].1 == row_bytes(rows[p])
                &&& row_at(p, entries[i].1) == rows[p]
            },
        distinct_positions(dropped_rows(entries)),
        forall|p: Position| #[trigger]
            rows.contains_key(p) && p.block_num >= from ==> exists|i: int|
                0 <= i < entries.len() && (#[trigger] entries[i]).0 == position_key(p),
{
    let m = index_of(rows, tip);
    let first = Position { block_num: from, tx_index: 0 };
    let start = position_key(first);
    assert(entry_key(Seq::empty(), first) =~= start);
    assert forall|i: int| 0 <= i < entries.len() implies {
        let p = position_of((#[trigger] entries[i]).0);
        &&& entries[i].0.len() == 12
        &&& entries[i].0 == position_key(p)
        &&& rows.contains_key(p)
        &&& p.block_num >= from
        &&& entries[i].1 == row_bytes(rows[p])
        &&& row_at(p, entries[i].1) == rows[p]
    } by {
        let e = entries[i];
        let p = position_of(e.0);
        lemma_index_lookup(rows, tip, Keyspace::Primary, e.0);
        lemma_position_of(e.0);
        lemma_row_at(rows[p]);
        keys_sort_as_positions(Seq::empty(), p, first);
        assert(entry_key(Seq::empty(), p) =~= e.0);
        if p.block_num < from {
            assert(earlier(p, first));
            if start == e.0 {
                lemma_lex_asymmetric(start, start);
            } else {
                lemma_lex_asymmetric(e.0, start);
            }
        }
    }
    let dropped = dropped_rows(entries);
    assert forall|i: int, j: int| 0 <= i < j < dropped.len() implies #[trigger] dropped[i].position
        != #[trigger] dropped[j].position by {
        let a = entries[i].0;
        let b = entries[j].0;
        assert(lex_lt(a, b));
        lemma_lex_asymmetric(a, b);
        assert(rows.contains_key(position_of(a)) && rows.contains_key(position_of(b)));
    }
    assert forall|p: Position| #[trigger] rows.contains_key(p) && p.block_num >= from implies exists|i: int|
        0 <= i < entries.len() && (#[trigger] entries[i]).0 == position_key(p) by {
        let key = position_key(p);
        lemma_position_key(p);
        lemma_index_lookup(rows, tip, Keyspace::Primary, key);
        assert(m.contains_key((Keyspace::Primary, key)));
        keys_sort_as_positions(Seq::empty(), first, p);
        assert(entry_key(Seq::empty(), p) =~= key);
        assert(earlier(first, p) || first == p);
        assert(lex_le(start, key));
    }
}

/// What stands where rows of a list may replace it, in an index.
spec fn answered(
    rows: Map<Position, Tx>,
    targets: Seq<Tx>,
    stored: Seq<Option<Seq<u8>>>,
) -> bool {
    &&& targets.len() <= stored.len()
    &&& forall|j: int|
        0 <= j < targets.len() ==> #[trigger] stored[j] == (if rows.contains_key(
            targets[j].position,
        ) {
            Some(row_bytes(rows[targets[j].position]))
        } else {
            None
        })
}

proof fn lemma_lookups_answered(
    rows: Map<Position, Tx>,
    tip: Option<Tip>,
    targets: Seq<Tx>,
    stored: Seq<Option<Seq<u8>>>,
)
    requires
        lookups(
            index_of(rows, tip),
            Keyspace::Primary,
            targets.map_values(|tx: Tx| position_key(tx.position)),
            stored,
        ),
    ensures
        answered(rows, targets, stored),
{
    let keys = targets.map_values(|tx: Tx| position_key(tx.position));
    assert forall|j: int| 0 <= j < targets.len() implies #[trigger] stored[j] == (
    if rows.contains_key(targets[j].position) {
        Some(row_bytes(rows[targets[j].position]))
    } else {
        None
    }) by {
        assert(stored[j] == lookup(index_of(rows, tip), Keyspace::Primary, keys[j]));
        lemma_index_lookup(rows, tip, Keyspace::Primary, keys[j]);
        lemma_position_key(targets[j].position);
    }
}

/// The rows that were found where others are to be put are those of the index.
proof fn lemma_replaced_rows(
    rows: Map<Position, Tx>,
    targets: Seq<Tx>,
    stored: Seq<Option<Seq<u8>>>,
)
    requires
        proper(rows),
        answered(rows, targets, stored),
    ensures
        forall|i: int|
            0 <= i < replaced_rows(targets, stored).len() ==> {
                let tx = #[trigger] replaced_rows(targets, stored)[i];
                &&& rows.contains_key(tx.position)
                &&& rows[tx.position] == tx
                &&& exists|j: int|
                    0 <= j < targets.len() && (#[trigger] targets[j]).position == tx.position
            },
        forall|j: int|
            0 <= j < targets.len() && rows.contains_key((#[trigger] targets[j]).position)
                ==> replaced_rows(targets, stored).contains(rows[targets[j].position]),
    decreases targets.len(),
{
    if targets.len() > 0 {
        let head = targets.drop_last();
        let last = targets.last();
        assert(answered(rows, head, stored)) by {
            assert forall|j: int| 0 <= j < head.len() implies #[trigger] stored[j] == (
            if rows.contains_key(head[j].position) {
                Some(row_bytes(rows[head[j].position]))
            } else {
                None
            }) by {
                assert(head[j] == targets[j]);
            }
        }
        lemma_replaced_rows(rows, head, stored);
        let a = replaced_rows(head, stored);
        let b = replaced_rows(targets, stored);
        assert(stored[targets.len() - 1] == (if rows.contains_key(last.position) {
            Some(row_bytes(rows[last.position]))
        } else {
            None
        }));
        if rows.contains_key(last.position) {
            lemma_row_at(rows[last.position]);
            assert(b == a.push(rows[last.position]));
        } else {
            assert(b == a);
        }
        assert forall|i: int| 0 <= i < b.len() implies {
            let tx = #[trigger] b[i];
            &&& rows.contains_key(tx.position)
            &&& rows[tx.position] == tx
            &&& exists|j: int|
                0 <= j < targets.len() && (#[trigger] targets[j]).position == tx.position
        } by {
            if i < a.len() {
                assert(b[i] == a[i]);
                let j = choose|j: int|
                    0 <= j < head.len() && (#[trigger] head[j]).position == a[i].position;
                assert(targets[j].position == b[i].position);
            } else {
                assert(targets[targets.len() - 1].position == b[i].position);
            }
        }
        assert forall|j: int|
            0 <= j < targets.len() && rows.contains_key(
                (#[trigger] targets[j]).position,
            ) implies b.contains(rows[targets[j].position]) by {
            if j < head.len() {
                assert(head[j] == targets[j]);
                assert(a.contains(rows[head[j].position]));
                let k = choose|k: int| 0 <= k < a.len() && a[k] == rows[targets[j].position];
                assert(b[k] == rows[targets[j].position]);
            } else {
                assert(b[a.len() as int] == rows[targets[j].position]);
            }
        }
    }
}

// ---- counting

/// How many rows of a list contribute to a counter.
spec fn occurrences(list: Seq<Tx>, key: Seq<u8>) -> int
    decreases list.len(),
{
    if list.len() == 0 {
        0
    } else {
        occurrences(list.drop_last(), key) + (if row_counters(list.last()).contains(key) {
            1int
        } else {
            0
        })
    }
}

proof fn lemma_net_of_keys(keys: Seq<Seq<u8>>, by: int, key: Seq<u8>)
    requires
        keys.no_duplicates(),
    ensures
        net(keys.map_values(|k: Seq<u8>| (k, by)), key) == (if keys.contains(key) {
            by
        } else {
            0
        }),
    decreases keys.len(),
{
    let f = |k: Seq<u8>| (k, by);
    let list = keys.map_values(f);
    if keys.len() > 0 {
        let head = keys.drop_last();
        assert(list.drop_last() =~= head.map_values(f));
        assert(list.last() == (keys.last(), by));
        assert(head.no_duplicates());
        lemma_net_of_keys(head, by, key);
        if keys.contains(key) {
            let i = choose|i: int| 0 <= i < keys.len() && keys[i] == key;
            if i < head.len() {
                assert(head[i] == key);
                assert(keys[keys.len() - 1] != key);
            }
        }
        if head.contains(key) {
            let i = choose|i: int| 0 <= i < head.len() && head[i] == key;
            assert(keys[i] == key);
        }
        if keys.last() == key {
            assert(keys[keys.len() - 1] == key);
            if head.contains(key) {
                let i = choose|i: int| 0 <= i < head.len() && head[i] == key;
                assert(keys[i] == keys[keys.len() - 1]);
            }
        }
    }
}

proof fn lemma_net_of_rows(list: Seq<Tx>, by: int, key: Seq<u8>)
    ensures
        net(change_all(list, by), key) == by * occurrences(list, key),
    decreases list.len(),
{
    if list.len() > 0 {
        let head = list.drop_last();
        let tx = list.last();
        lemma_net_of_rows(head, by, key);
        lemma_row_counters_distinct(tx);
        lemma_net_of_keys(row_counters(tx), by, key);
        lemma_net_concat(change_all(head, by), row_changes(tx, by), key);
        let a = occurrences(head, key);
        assert(by * (a + 1) == by * a + by) by (nonlinear_arith);
    }
}

/// The rows without those at some positions.
spec fn without(rows: Map<Position, Tx>, list: Seq<Tx>) -> Map<Position, Tx>
    decreases list.len(),
{
    if list.len() == 0 {
        rows
    } else {
        without(rows, list.drop_last()).remove(list.last().position)
    }
}

proof fn lemma_without_at(rows: Map<Position, Tx>, list: Seq<Tx>, p: Position)
    ensures
        without(rows, list).contains_key(p) <==> rows.contains_key(p) && forall|i: int|
            0 <= i < list.len() ==> (#[trigger] list[i]).position != p,
        without(rows, list).contains_key(p) ==> without(rows, list)[p] == rows[p],
    decreases list.len(),
{
    if list.len() > 0 {
        let head = list.drop_last();
        lemma_without_at(rows, head, p);
        assert(forall|i: int| 0 <= i < head.len() ==> head[i] == list[i]);
        if without(rows, head).contains_key(p) && list.last().position != p {
            assert forall|i: int| 0 <= i < list.len() implies (#[trigger] list[i]).position != p by {
                if i < head.len() {
                    assert(head[i].position != p);
                }
            }
        }
        if forall|i: int| 0 <= i < list.len() ==> (#[trigger] list[i]).position != p {
            assert(list[list.len() - 1].position != p);
            assert forall|i: int| 0 <= i < head.len() implies (#[trigger] head[i]).position != p by {
                assert(list[i].position != p);
            }
        }
    }
}

proof fn lemma_without_tally(rows: Map<Position, Tx>, list: Seq<Tx>, key: Seq<u8>)
    requires
        proper(rows),
        distinct_positions(list),
        forall|i: int|
            0 <= i < list.len() ==> rows.contains_key((#[trigger] list[i]).position)
                && rows[list[i].position] == list[i],
    ensures
        proper(without(rows, list)),
        tally(without(rows, list), key) == tally(rows, key) - occurrences(list, key),
    decreases list.len(),
{
    if list.len() > 0 {
        let head = list.drop_last();
        let tx = list.last();
        assert(tx == list[list.len() - 1]);
        lemma_distinct_prefix(list);
        assert forall|i: int| 0 <= i < head.len() implies rows.contains_key(
            (#[trigger] head[i]).position,
        ) && rows[head[i].position] == head[i] by {
            assert(head[i] == list[i]);
        }
        lemma_without_tally(rows, head, key);
        lemma_without_at(rows, head, tx.position);
        assert forall|i: int| 0 <= i < head.len() implies (#[trigger] head[i]).position
            != tx.position by {
            assert(list[i].position != list[list.len() - 1].position);
        }
        lemma_tally_remove(without(rows, head), tx.position, key);
    }
}

/// The rows that inserts of a list put others over.
spec fn covered(base: Map<Position, Tx>, list: Seq<Tx>, key: Seq<u8>) -> int
    decreases list.len(),
{
    if list.len() == 0 {
        0
    } else {
        let p = list.last().position;
        covered(base, list.drop_last(), key) + (if base.contains_key(p) && row_counters(
            base[p],
        ).contains(key) {
            1int
        } else {
            0
        })
    }
}

proof fn lemma_insert_tally(base: Map<Position, Tx>, list: Seq<Tx>, key: Seq<u8>)
    requires
        proper(base),
        distinct_positions(list),
    ensures
        proper(insert_all(base, list)),
        tally(insert_all(base, list), key) == tally(base, key) + occurrences(list, key) - covered(
            base,
            list,
            key,
        ),
    decreases list.len(),
{
    if list.len() > 0 {
        let head = list.drop_last();
        let tx = list.last();
        lemma_distinct_prefix(list);
        lemma_insert_tally(base, head, key);
        lemma_insert_all_at(base, head, tx.position);
        lemma_tally_insert(insert_all(base, head), tx, key);
    }
}

/// What was found where rows of a plan are put is what they are put over.
proof fn lemma_covered(
    rows: Map<Position, Tx>,
    base: Map<Position, Tx>,
    list: Seq<Tx>,
    cut: int,
    stored: Seq<Option<Seq<u8>>>,
    key: Seq<u8>,
)
    requires
        proper(rows),
        answered(rows, list.filter(|tx: Tx| tx.position.block_num < cut), stored),
        forall|i: int|
            0 <= i < list.len() ==> {
                let p = (#[trigger] list[i]).position;
                if p.block_num < cut {
                    base.contains_key(p) == rows.contains_key(p) && (rows.contains_key(p) ==> base[p]
                        == rows[p])
                } else {
                    !base.contains_key(p)
                }
            },
    ensures
        occurrences(
            replaced_rows(list.filter(|tx: Tx| tx.position.block_num < cut), stored),
            key,
        ) == covered(base, list, key),
    decreases list.len(),
{
    reveal(Seq::filter);
    let keep = |tx: Tx| tx.position.block_num < cut;
    if list.len() > 0 {
        let head = list.drop_last();
        let tx = list.last();
        assert(tx == list[list.len() - 1]);
        let a = head.filter(keep);
        let b = list.filter(keep);
        assert forall|i: int| 0 <= i < head.len() implies {
            let p = (#[trigger] head[i]).position;
            if p.block_num < cut {
                base.contains_key(p) == rows.contains_key(p) && (rows.contains_key(p) ==> base[p]
                        == rows[p])
            } else {
                !base.contains_key(p)
            }
        } by {
            assert(head[i] == list[i]);
        }
        if keep(tx) {
            assert(b == a.push(tx));
            assert(b.drop_last() =~= a);
            assert(answered(rows, a, stored)) by {
                assert forall|j: int| 0 <= j < a.len() implies #[trigger] stored[j] == (
                if rows.contains_key(a[j].position) {
                    Some(row_bytes(rows[a[j].position]))
                } else {
                    None
                }) by {
                    assert(a[j] == b[j]);
                }
            }
            lemma_covered(rows, base, head, cut, stored, key);
            let p = tx.position;
            assert(stored[b.len() - 1] == (if rows.contains_key(b[b.len() - 1].position) {
                Some(row_bytes(rows[b[b.len() - 1].position]))
            } else {
                None
            }));
            if rows.contains_key(p) {
                lemma_row_at(rows[p]);
                let more = replaced_rows(b, stored);
                assert(more == replaced_rows(a, stored).push(rows[p]));
                assert(more.drop_last() =~= replaced_rows(a, stored));
            }
        } else {
            assert(b == a);
            lemma_covered(rows, base, head, cut, stored, key);
        }
    } else {
        assert(list.filter(keep) =~= Seq::empty());
    }
}

/// The rows of an index below a plan's cut, and what each position of the plan covers there.
proof fn lemma_base(rows: Map<Position, Tx>, plan: Plan, i: int)
    requires
        0 <= i < standing(plan.txs()).len(),
    ensures
        ({
            let p = standing(plan.txs())[i].position;
            let base = below(rows, plan.revert_from);
            if p.block_num < cut_of(plan) {
                base.contains_key(p) == rows.contains_key(p) && (rows.contains_key(p) ==> base[p]
                        == rows[p])
            } else {
                !base.contains_key(p)
            }
        }),
{
    let p = standing(plan.txs())[i].position;
    let base = below(rows, plan.revert_from);
    if plan.revert_from is Some {
        let from = plan.revert_from->0;
        let keep = rows.dom().filter(|p: Position| p.block_num < from);
        assert(keep.contains(p) <==> rows.contains_key(p) && p.block_num < from);
        assert(base.contains_key(p) <==> keep.contains(p));
    }
}

/// What a plan does to a counter of an index: the rows it leaves there, less those before, is
/// what its changes come to.
proof fn lemma_tally(
    rows: Map<Position, Tx>,
    tip: Option<Tip>,
    plan: Plan,
    reads: Reads,
    key: Seq<u8>,
)
    requires
        proper(rows),
        faithful_rows(index_of(rows, tip), plan, reads.entries, reads.stored),
    ensures
        proper(plan.outcome(rows)),
        tally(plan.outcome(rows), key) == tally(rows, key) + net(
            all_changes(plan, reads.entries, reads.stored),
            key,
        ),
{
    let dropped = dropped_rows(reads.entries);
    let base = below(rows, plan.revert_from);
    let targets = replacing(plan);
    let replaced = replaced_rows(targets, reads.stored);
    let txs = standing(plan.txs());
    lemma_standing(below(rows, plan.revert_from), plan.txs());
    if plan.revert_from is Some {
        let from = plan.revert_from->0;
        lemma_scan_finds(rows, tip, from, reads.entries);
        assert forall|i: int| 0 <= i < dropped.len() implies rows.contains_key(
            (#[trigger] dropped[i]).position,
        ) && rows[dropped[i].position] == dropped[i] by {
            assert(rows.contains_key(position_of(reads.entries[i].0)));
        }
        lemma_without_tally(rows, dropped, key);
        assert(without(rows, dropped) =~= base) by {
            assert forall|p: Position|
                #![trigger without(rows, dropped).dom().contains(p)]
                #![trigger base.dom().contains(p)]
                without(rows, dropped).dom().contains(p) == base.dom().contains(p) && (
                base.dom().contains(p) ==> without(rows, dropped)[p] == base[p]) by {
                lemma_without_at(rows, dropped, p);
                if rows.contains_key(p) && p.block_num >= from {
                    let i = choose|i: int|
                        0 <= i < reads.entries.len() && (#[trigger] reads.entries[i]).0
                            == position_key(p);
                    lemma_position_key(p);
                    assert(dropped[i].position == p);
                }
                if rows.contains_key(p) && p.block_num < from {
                    assert forall|i: int| 0 <= i < dropped.len() implies (
                    #[trigger] dropped[i]).position != p by {
                        assert(position_of(reads.entries[i].0).block_num >= from);
                    }
                }
            }
        }
    } else {
        assert(dropped =~= Seq::empty());
    }
    assert(proper(base));
    lemma_insert_tally(base, txs, key);
    lemma_lookups_answered(rows, tip, targets, reads.stored);
    assert forall|i: int| 0 <= i < txs.len() implies {
        let p = (#[trigger] txs[i]).position;
        if p.block_num < cut_of(plan) {
            base.contains_key(p) == rows.contains_key(p) && (rows.contains_key(p) ==> base[p]
                == rows[p])
        } else {
            !base.contains_key(p)
        }
    } by {
        lemma_base(rows, plan, i);
    }
    let cut = cut_of(plan);
    assert(targets == txs.filter(|tx: Tx| tx.position.block_num < cut)) by {
        assert((|tx: Tx| tx.position.block_num < cut) =~= (|tx: Tx|
            tx.position.block_num < cut_of(plan)));
    }
    lemma_covered(rows, base, txs, cut, reads.stored, key);
    lemma_net_of_rows(dropped, -1, key);
    lemma_net_of_rows(replaced, -1, key);
    lemma_net_of_rows(txs, 1, key);
    lemma_net_concat(change_all(dropped, -1), change_all(replaced, -1), key);
    lemma_net_concat(
        change_all(dropped, -1) + change_all(replaced, -1),
        change_all(txs, 1),
        key,
    );
}

/// A counter counts no more rows than there are.
proof fn lemma_tally_bound(rows: Map<Position, Tx>, key: Seq<u8>)
    requires
        proper(rows),
    ensures
        tally(rows, key) <= rows.dom().len(),
{
    let all = rows.dom();
    let some = crate::store::counted_rows(rows, key);
    assert(some.subset_of(all));
    vstd::set_lib::lemma_len_subset(some, all);
}

/// Each write of a counter is what the index of the outcome holds.
proof fn lemma_counts_agree(
    rows: Map<Position, Tx>,
    tip: Option<Tip>,
    plan: Plan,
    reads: Reads,
    i: int,
)
    requires
        proper(rows),
        countable(rows, plan),
        faithful(index_of(rows, tip), plan, reads),
        0 <= i < reads.sums.len(),
    ensures
        count_fault(reads.counts[i]) is None,
        count_write(reads.sums[i], reads.counts[i]).value == held(
            plan.outcome(rows),
            later(plan.tip, tip),
            (Keyspace::Count, reads.sums[i].0),
        ),
{
    let key = reads.sums[i].0;
    let keys = reads.sums.map_values(|s: (Seq<u8>, int)| s.0);
    assert(reads.counts[i] == lookup(index_of(rows, tip), Keyspace::Count, keys[i]));
    lemma_index_lookup(rows, tip, Keyspace::Count, key);
    lemma_tally(rows, tip, plan, reads, key);
    lemma_tally_bound(rows, key);
    lemma_tally_bound(plan.outcome(rows), key);
    let n = tally(rows, key) as u64;
    lemma_be_u64(n, n);
    assert(reads.sums[i].1 == net(all_changes(plan, reads.entries, reads.stored), key));
    assert(count_value(reads.counts[i]) == tally(rows, key));
}

/// Where a batch's deletes touch, and where they do not, with what the index of the outcome
/// holds at a place that no later write touches.
proof fn lemma_untouched(
    rows: Map<Position, Tx>,
    tip: Option<Tip>,
    plan: Plan,
    reads: Reads,
    place: (Keyspace, Seq<u8>),
)
    requires
        proper(rows),
        faithful_rows(index_of(rows, tip), plan, reads.entries, reads.stored),
        !touches(put_all(standing(plan.txs())), place),
        !(place.0 is Count),
        !touches(tip_writes(plan.tip), place),
    ensures
        held(plan.outcome(rows), later(plan.tip, tip), place) == (if touches(
            drop_all(reads.entries) + forget_all(replaced_rows(replacing(plan), reads.stored)),
            place,
        ) {
            None
        } else {
            held(rows, tip, place)
        }),
{
    let targets = replacing(plan);
    let replaced = replaced_rows(targets, reads.stored);
    let dropped = dropped_rows(reads.entries);
    let base = below(rows, plan.revert_from);
    let out = plan.outcome(rows);
    let txs = standing(plan.txs());
    lemma_standing(below(rows, plan.revert_from), plan.txs());
    let (keyspace, key) = place;
    lemma_touches_concat(drop_all(reads.entries), forget_all(replaced), place);
    lemma_drop_all_touches(reads.entries, place);
    lemma_forget_all_touches(replaced, place);
    lemma_put_all_touches(txs, place);
    lemma_lookups_answered(rows, tip, targets, reads.stored);
    lemma_replaced_rows(rows, targets, reads.stored);
    if plan.revert_from is Some {
        lemma_scan_finds(rows, tip, plan.revert_from->0, reads.entries);
    }
    if keyspace is Meta {
        if plan.tip is Some && key == crate::codec::tip_key_bytes() {
            assert(tip_writes(plan.tip)[0].place() == place);
        }
    } else if keyspace is Primary {
        lemma_untouched_primary(rows, tip, plan, reads, key);
    } else {
        lemma_untouched_secondary(rows, tip, plan, reads, keyspace, key);
    }
}

proof fn lemma_untouched_primary(
    rows: Map<Position, Tx>,
    tip: Option<Tip>,
    plan: Plan,
    reads: Reads,
    key: Seq<u8>,
)
    requires
        proper(rows),
        faithful_rows(index_of(rows, tip), plan, reads.entries, reads.stored),
        !touches(put_all(standing(plan.txs())), (Keyspace::Primary, key)),
    ensures
        held(plan.outcome(rows), later(plan.tip, tip), (Keyspace::Primary, key)) == (if touches(
            drop_all(reads.entries) + forget_all(replaced_rows(replacing(plan), reads.stored)),
            (Keyspace::Primary, key),
        ) {
            None
        } else {
            held(rows, tip, (Keyspace::Primary, key))
        }),
{
    let place = (Keyspace::Primary, key);
    let txs = standing(plan.txs());
    lemma_standing(below(rows, plan.revert_from), plan.txs());
    let replaced = replaced_rows(replacing(plan), reads.stored);
    let base = below(rows, plan.revert_from);
    lemma_touches_concat(drop_all(reads.entries), forget_all(replaced), place);
    lemma_drop_all_touches(reads.entries, place);
    lemma_forget_all_touches(replaced, place);
    lemma_put_all_touches(txs, place);
    if plan.revert_from is Some {
        lemma_scan_finds(rows, tip, plan.revert_from->0, reads.entries);
    }
    if key.len() == 12 {
        let p = position_of(key);
        lemma_position_of(key);
        lemma_insert_all_at(base, txs, p);
        assert forall|i: int| 0 <= i < txs.len() implies (#[trigger] txs[i]).position != p by {
            assert(position_key(txs[i].position) != key);
        }
        if touches(drop_all(reads.entries), place) {
            let i = choose|i: int| 0 <= i < reads.entries.len() && (#[trigger] reads.entries[i]).0 == key;
            assert(plan.revert_from is Some);
            assert(p.block_num >= plan.revert_from->0);
            assert(!base.contains_key(p));
        } else if rows.contains_key(p) && plan.revert_from is Some && p.block_num
            >= plan.revert_from->0 {
            let i = choose|i: int|
                0 <= i < reads.entries.len() && (#[trigger] reads.entries[i]).0 == position_key(p);
            assert(reads.entries[i].0 == key);
        }
    }
}

proof fn lemma_untouched_secondary(
    rows: Map<Position, Tx>,
    tip: Option<Tip>,
    plan: Plan,
    reads: Reads,
    keyspace: Keyspace,
    key: Seq<u8>,
)
    requires
        proper(rows),
        faithful_rows(index_of(rows, tip), plan, reads.entries, reads.stored),
        is_secondary(keyspace),
        !touches(put_all(standing(plan.txs())), (keyspace, key)),
    ensures
        has_entry(plan.outcome(rows), keyspace, key) == (!touches(
            drop_all(reads.entries) + forget_all(replaced_rows(replacing(plan), reads.stored)),
            (keyspace, key),
        ) && has_entry(rows, keyspace, key)),
{
    let place = (keyspace, key);
    let txs = standing(plan.txs());
    lemma_standing(below(rows, plan.revert_from), plan.txs());
    let targets = replacing(plan);
    let replaced = replaced_rows(targets, reads.stored);
    let dropped = dropped_rows(reads.entries);
    let base = below(rows, plan.revert_from);
    lemma_touches_concat(drop_all(reads.entries), forget_all(replaced), place);
    lemma_drop_all_touches(reads.entries, place);
    lemma_forget_all_touches(replaced, place);
    lemma_put_all_touches(txs, place);
    lemma_lookups_answered(rows, tip, targets, reads.stored);
    lemma_replaced_rows(rows, targets, reads.stored);
    if plan.revert_from is Some {
        lemma_scan_finds(rows, tip, plan.revert_from->0, reads.entries);
    }
    if key.len() >= 12 {
        let p = entry_position(key);
        lemma_insert_all_at(base, txs, p);
        let put_here = exists|i: int| 0 <= i < txs.len() && (#[trigger] txs[i]).position == p;
        if put_here {
            let i = choose|i: int| 0 <= i < txs.len() && (#[trigger] txs[i]).position == p;
            lemma_insert_all_distinct(base, txs, i);
            assert(!owns_place(txs[i], place));
            assert(!has_entry(plan.outcome(rows), keyspace, key));
            if has_entry(rows, keyspace, key) {
                assert(owns_place(rows[p], place));
                lemma_base(rows, plan, i);
                if p.block_num < cut_of(plan) {
                    let keep = |tx: Tx| tx.position.block_num < cut_of(plan);
                    crate::entries::lemma_filtered(txs, keep, txs[i]);
                    assert(txs.contains(txs[i]));
                    let j = choose|j: int| 0 <= j < targets.len() && targets[j] == txs[i];
                    assert(targets[j].position == p);
                    assert(replaced.contains(rows[p]));
                    let k = choose|k: int| 0 <= k < replaced.len() && replaced[k] == rows[p];
                    assert(owns_place(replaced[k], place));
                } else {
                    assert(plan.revert_from is Some);
                    let k = choose|k: int|
                        0 <= k < reads.entries.len() && (#[trigger] reads.entries[k]).0
                            == position_key(p);
                    lemma_position_key(p);
                    assert(dropped[k] == rows[p]);
                    assert(owns_place(dropped[k], place));
                }
            }
        } else {
            // Nothing is put at the position, so a row there is one of the index, unless the
            // revert dropped it; and only the revert forgets entries there.
            if any_owns(replaced, place) {
                let k = choose|k: int| 0 <= k < replaced.len() && owns_place(#[trigger] replaced[k], place);
                let j = choose|j: int|
                    0 <= j < targets.len() && (#[trigger] targets[j]).position
                        == replaced[k].position;
                let keep = |tx: Tx| tx.position.block_num < cut_of(plan);
                crate::entries::lemma_filtered(txs, keep, targets[j]);
                assert(targets.contains(targets[j]));
                let i = choose|i: int| 0 <= i < txs.len() && txs[i] == targets[j];
                assert(txs[i].position == p);
            }
            if any_owns(dropped, place) {
                let k = choose|k: int| 0 <= k < dropped.len() && owns_place(#[trigger] dropped[k], place);
                assert(position_of(reads.entries[k].0) == p);
                assert(plan.revert_from is Some);
                assert(!base.contains_key(p));
            } else if rows.contains_key(p) && plan.revert_from is Some && p.block_num
                >= plan.revert_from->0 {
                let k = choose|k: int|
                    0 <= k < reads.entries.len() && (#[trigger] reads.entries[k]).0
                        == position_key(p);
                lemma_position_key(p);
                assert(dropped[k] == rows[p]);
                assert(!owns_place(dropped[k], place));
                assert(!has_entry(rows, keyspace, key));
            }
        }
    }
}

/// What a batch leaves at a place of a store that holds the index of some rows.
spec fn left_at(
    rows: Map<Position, Tx>,
    tip: Option<Tip>,
    plan: Plan,
    reads: Reads,
    place: (Keyspace, Seq<u8>),
) -> Option<Seq<u8>> {
    if place.0 is Count {
        let i = choose|i: int| 0 <= i < reads.sums.len() && (#[trigger] reads.sums[i]).0 == place.1;
        count_write(reads.sums[i], reads.counts[i]).value
    } else {
        held(plan.outcome(rows), later(plan.tip, tip), place)
    }
}

/// What is read from a store that holds the index of some rows is what is read from that index.
proof fn lemma_reads_of_rows(
    m: Contents,
    rows: Map<Position, Tx>,
    tip: Option<Tip>,
    plan: Plan,
    entries: Seq<(Seq<u8>, Seq<u8>)>,
    stored: Seq<Option<Seq<u8>>>,
)
    requires
        holds_rows(m, rows, tip),
        faithful_rows(m, plan, entries, stored),
    ensures
        faithful_rows(index_of(rows, tip), plan, entries, stored),
{
    let n = index_of(rows, tip);
    assert forall|key: Seq<u8>| #[trigger]
        lookup(n, Keyspace::Primary, key) == lookup(m, Keyspace::Primary, key) by {
        lemma_index_lookup(rows, tip, Keyspace::Primary, key);
    }
    if plan.revert_from is Some {
        let start = position_key(Position { block_num: plan.revert_from->0, tx_index: 0 });
        assert forall|i: int| 0 <= i < entries.len() implies {
            let e = #[trigger] entries[i];
            n.contains_key((Keyspace::Primary, e.0)) && n[(Keyspace::Primary, e.0)] == e.1
                && lex_le(start, e.0)
        } by {
            let key = entries[i].0;
            assert(lookup(n, Keyspace::Primary, key) == lookup(m, Keyspace::Primary, key));
        }
        assert forall|key: Seq<u8>| #[trigger]
            n.contains_key((Keyspace::Primary, key)) && lex_le(start, key) implies exists|i: int|
            0 <= i < entries.len() && (#[trigger] entries[i]).0 == key by {
            assert(lookup(n, Keyspace::Primary, key) == lookup(m, Keyspace::Primary, key));
            assert(m.contains_key((Keyspace::Primary, key)));
        }
    }
    let keys = replacing(plan).map_values(|tx: Tx| position_key(tx.position));
    assert forall|i: int| 0 <= i < keys.len() implies #[trigger] stored[i] == lookup(
        n,
        Keyspace::Primary,
        keys[i],
    ) by {
        assert(stored[i] == lookup(m, Keyspace::Primary, keys[i]));
    }
}

/// What a batch leaves of a store that holds the index of some rows: the index of the rows that
/// the plan leaves, but for the counters; and of those, each that the plan touches as it is
/// written, and every other as it was.
proof fn lemma_batch(
    m: Contents,
    rows: Map<Position, Tx>,
    tip: Option<Tip>,
    plan: Plan,
    reads: Reads,
)
    requires
        proper(rows),
        holds_rows(m, rows, tip),
        faithful(m, plan, reads),
    ensures
        proper(plan.outcome(rows)),
        holds_rows(
            after(m, batch_of(plan, reads)),
            plan.outcome(rows),
            later(plan.tip, tip),
        ),
        forall|i: int|
            0 <= i < reads.sums.len() ==> lookup(
                after(m, batch_of(plan, reads)),
                Keyspace::Count,
                (#[trigger] reads.sums[i]).0,
            ) == count_write(reads.sums[i], reads.counts[i]).value,
        forall|key: Seq<u8>|
            !names(all_changes(plan, reads.entries, reads.stored), key) ==> #[trigger] lookup(
                after(m, batch_of(plan, reads)),
                Keyspace::Count,
                key,
            ) == lookup(m, Keyspace::Count, key),
{
    let out = plan.outcome(rows);
    let new_tip = later(plan.tip, tip);
    let target: Contents = Map::new(
        |place: (Keyspace, Seq<u8>)| left_at(rows, tip, plan, reads, place) is Some,
        |place: (Keyspace, Seq<u8>)| left_at(rows, tip, plan, reads, place)->0,
    );
    let deletes = drop_all(reads.entries) + forget_all(
        replaced_rows(replacing(plan), reads.stored),
    );
    let txs = standing(plan.txs());
    let puts = put_all(txs);
    let counts = count_writes(reads.sums, reads.counts);
    let tips = tip_writes(plan.tip);
    let rest = puts + counts + tips;
    lemma_reads_of_rows(m, rows, tip, plan, reads.entries, reads.stored);
    lemma_standing(below(rows, plan.revert_from), plan.txs());
    lemma_tally(rows, tip, plan, reads, Seq::empty());
    assert(batch_of(plan, reads) =~= deletes + rest);
    lemma_after_concat(m, deletes, rest);
    let mid = after(m, deletes);
    assert forall|i: int| 0 <= i < reads.sums.len() implies lookup(
        target,
        Keyspace::Count,
        (#[trigger] reads.sums[i]).0,
    ) == count_write(reads.sums[i], reads.counts[i]).value by {
        let key = reads.sums[i].0;
        let j = choose|j: int| 0 <= j < reads.sums.len() && (#[trigger] reads.sums[j]).0 == key;
        if j < i {
            lemma_lex_asymmetric(reads.sums[j].0, reads.sums[i].0);
        } else if i < j {
            lemma_lex_asymmetric(reads.sums[i].0, reads.sums[j].0);
        }
    }
    assert forall|i: int| 0 <= i < rest.len() implies (#[trigger] rest[i]).value == lookup(
        target,
        rest[i].keyspace,
        rest[i].key,
    ) by {
        lemma_index_lookup(out, new_tip, rest[i].keyspace, rest[i].key);
        if i < puts.len() {
            assert(rest[i] == puts[i]);
            assert forall|j: int| 0 <= j < txs.len() implies out.contains_key(
                (#[trigger] txs[j]).position,
            ) && out[txs[j].position] == txs[j] by {
                lemma_insert_all_distinct(below(rows, plan.revert_from), txs, j);
            }
            lemma_puts_agree(txs, out, new_tip, i);
            lemma_puts_are_rows(txs, i);
        } else if i < puts.len() + counts.len() {
            let j = i - puts.len();
            assert(rest[i] == counts[j]);
            assert(reads.sums[j].0 == rest[i].key);
        } else {
            assert(rest[i] == tips[i - puts.len() - counts.len()]);
        }
    }
    let nothing: Contents = Map::empty();
    assert forall|i: int| 0 <= i < deletes.len() implies (#[trigger] deletes[i]).value == lookup(
        nothing,
        deletes[i].keyspace,
        deletes[i].key,
    ) by {
        let place = deletes[i].place();
        lemma_drop_all_touches(reads.entries, place);
        lemma_forget_all_touches(replaced_rows(replacing(plan), reads.stored), place);
    }
    let done = after(mid, rest);
    assert forall|keyspace: Keyspace, key: Seq<u8>| !(keyspace is Count) implies #[trigger] lookup(
        done,
        keyspace,
        key,
    ) == held(out, new_tip, (keyspace, key)) by {
        let place = (keyspace, key);
        lemma_agreeing(mid, rest, target, place);
        if !touches(rest, place) {
            lemma_agreeing(m, deletes, nothing, place);
            lemma_touches_concat(puts + counts, tips, place);
            lemma_touches_concat(puts, counts, place);
            lemma_untouched(rows, tip, plan, reads, place);
        }
    }
    assert forall|i: int| 0 <= i < reads.sums.len() implies lookup(
        done,
        Keyspace::Count,
        (#[trigger] reads.sums[i]).0,
    ) == count_write(reads.sums[i], reads.counts[i]).value by {
        let place = (Keyspace::Count, reads.sums[i].0);
        assert(rest[puts.len() + i] == counts[i]);
        assert(rest[puts.len() + i].place() == place);
        lemma_agreeing(mid, rest, target, place);
    }
    assert forall|key: Seq<u8>| !names(
        all_changes(plan, reads.entries, reads.stored),
        key,
    ) implies #[trigger] lookup(done, Keyspace::Count, key) == lookup(
        m,
        Keyspace::Count,
        key,
    ) by {
        let place = (Keyspace::Count, key);
        lemma_touches_concat(puts + counts, tips, place);
        lemma_touches_concat(puts, counts, place);
        lemma_put_all_touches(txs, place);
        if touches(counts, place) {
            let j = choose|j: int| 0 <= j < counts.len() && (#[trigger] counts[j]).place() == place;
            assert(reads.sums[j].0 == key);
        }
        lemma_touches_concat(
            drop_all(reads.entries),
            forget_all(replaced_rows(replacing(plan), reads.stored)),
            place,
        );
        lemma_drop_all_touches(reads.entries, place);
        lemma_forget_all_touches(replaced_rows(replacing(plan), reads.stored), place);
        lemma_agreeing(mid, rest, target, place);
        lemma_agreeing(m, deletes, nothing, place);
    }
}

/// No put of a row or an entry is one of a counter.
proof fn lemma_puts_are_rows(list: Seq<Tx>, i: int)
    requires
        0 <= i < put_all(list).len(),
    ensures
        !(put_all(list)[i].keyspace is Count),
{
    let w = put_all(list)[i];
    assert(touches(put_all(list), w.place()));
    lemma_put_all_touches(list, w.place());
}

/// What is read of the rows of an index is in order: preparing a plan finds no fault with it.
pub proof fn preparing_finds_no_fault(
    rows: Map<Position, Tx>,
    tip: Option<Tip>,
    plan: Plan,
    entries: Seq<(Seq<u8>, Seq<u8>)>,
    stored: Seq<Option<Seq<u8>>>,
)
    requires
        proper(rows),
        faithful_rows(index_of(rows, tip), plan, entries, stored),
    ensures
        first_fault(read_faults(entries, stored)) is None,
{
    let faults = read_faults(entries, stored);
    let targets = replacing(plan);
    if plan.revert_from is Some {
        lemma_scan_finds(rows, tip, plan.revert_from->0, entries);
    }
    lemma_lookups_answered(rows, tip, targets, stored);
    assert forall|i: int| 0 <= i < faults.len() implies (#[trigger] faults[i]) is None by {
        if i < entries.len() {
            let e = entries[i];
            assert(faults[i] == entry_fault(e));
            lemma_row_is_row(rows[position_of(e.0)]);
        } else {
            let j = i - entries.len();
            assert(faults[i] == stored_fault(stored[j]));
            assert(stored[j] == (if rows.contains_key(targets[j].position) {
                Some(row_bytes(rows[targets[j].position]))
            } else {
                None
            }));
            lemma_row_is_row(rows[targets[j].position]);
        }
    }
    lemma_no_fault(faults);
}

/// Applying a plan to a store that holds the index of some rows, whatever its counters stand at,
/// finds nothing wrong with what it reads, and leaves one that holds the index of the rows that
/// the plan leaves, at the later tip, however many there are.
pub proof fn apply_keeps_the_rows(
    m: Contents,
    rows: Map<Position, Tx>,
    tip: Option<Tip>,
    plan: Plan,
    reads: Reads,
)
    requires
        proper(rows),
        holds_rows(m, rows, tip),
        sound_counters(m),
        faithful(m, plan, reads),
    ensures
        first_fault(read_faults(reads.entries, reads.stored)) is None,
        first_fault(count_faults(reads.counts)) is None,
        proper(plan.outcome(rows)),
        holds_rows(
            after(m, batch_of(plan, reads)),
            plan.outcome(rows),
            later(plan.tip, tip),
        ),
        sound_counters(after(m, batch_of(plan, reads))),
{
    let done = after(m, batch_of(plan, reads));
    let changes = all_changes(plan, reads.entries, reads.stored);
    let keys = reads.sums.map_values(|s: (Seq<u8>, int)| s.0);
    lemma_batch(m, rows, tip, plan, reads);
    lemma_reads_of_rows(m, rows, tip, plan, reads.entries, reads.stored);
    preparing_finds_no_fault(rows, tip, plan, reads.entries, reads.stored);
    let faults = count_faults(reads.counts);
    assert forall|i: int| 0 <= i < faults.len() implies (#[trigger] faults[i]) is None by {
        assert(reads.counts[i] == lookup(m, Keyspace::Count, keys[i]));
    }
    lemma_no_fault(faults);
    assert forall|key: Seq<u8>|
        (#[trigger] lookup(done, Keyspace::Count, key)) is Some implies lookup(
        done,
        Keyspace::Count,
        key,
    )->0.len() == 8 && be_value(lookup(done, Keyspace::Count, key)->0) > 0 by {
        if names(changes, key) {
            let i = choose|i: int| 0 <= i < reads.sums.len() && (#[trigger] reads.sums[i]).0 == key;
            let next = next_count(count_value(reads.counts[i]), reads.sums[i].1) as u64;
            lemma_be_u64(next, next);
        } else {
            assert(lookup(done, Keyspace::Count, key) == lookup(m, Keyspace::Count, key));
        }
    }
}

/// Applying a plan to the index of some rows finds nothing wrong with what it reads, and leaves
/// the index of the rows that the plan leaves, at the later tip. A revert scrubs every keyspace,
/// a row put over another takes its entries with it, and the counts stay those of the rows.
pub proof fn apply_keeps_the_index(
    rows: Map<Position, Tx>,
    tip: Option<Tip>,
    plan: Plan,
    reads: Reads,
)
    requires
        proper(rows),
        countable(rows, plan),
        faithful(index_of(rows, tip), plan, reads),
    ensures
        first_fault(read_faults(reads.entries, reads.stored)) is None,
        first_fault(count_faults(reads.counts)) is None,
        proper(plan.outcome(rows)),
        after(index_of(rows, tip), batch_of(plan, reads)) == index_of(
            plan.outcome(rows),
            later(plan.tip, tip),
        ),
{
    let m = index_of(rows, tip);
    let out = plan.outcome(rows);
    let new_tip = later(plan.tip, tip);
    let target = index_of(out, new_tip);
    let done = after(m, batch_of(plan, reads));
    let changes = all_changes(plan, reads.entries, reads.stored);
    an_index_holds_its_rows(rows, tip);
    lemma_batch(m, rows, tip, plan, reads);
    preparing_finds_no_fault(rows, tip, plan, reads.entries, reads.stored);
    let faults = count_faults(reads.counts);
    assert forall|i: int| 0 <= i < faults.len() implies (#[trigger] faults[i]) is None by {
        lemma_counts_agree(rows, tip, plan, reads, i);
    }
    lemma_no_fault(faults);
    assert forall|keyspace: Keyspace, key: Seq<u8>| #[trigger]
        lookup(done, keyspace, key) == lookup(target, keyspace, key) by {
        lemma_index_lookup(out, new_tip, keyspace, key);
        if keyspace is Count {
            if names(changes, key) {
                let i = choose|i: int|
                    0 <= i < reads.sums.len() && (#[trigger] reads.sums[i]).0 == key;
                lemma_counts_agree(rows, tip, plan, reads, i);
            } else {
                lemma_net_unnamed(changes, key);
                lemma_tally(rows, tip, plan, reads, key);
                lemma_index_lookup(rows, tip, keyspace, key);
            }
        }
    }
    lemma_same_contents(done, target);
}

/// The index of some rows holds them, and where a counter can count them its counters are sound.
pub proof fn an_index_holds_its_rows(rows: Map<Position, Tx>, tip: Option<Tip>)
    ensures
        holds_rows(index_of(rows, tip), rows, tip),
        proper(rows) && rows.dom().len() <= u64::MAX ==> sound_counters(index_of(rows, tip)),
{
    let m = index_of(rows, tip);
    assert forall|keyspace: Keyspace, key: Seq<u8>|
        !(keyspace is Count) implies #[trigger] lookup(m, keyspace, key) == held(
        rows,
        tip,
        (keyspace, key),
    ) by {
        lemma_index_lookup(rows, tip, keyspace, key);
    }
    if proper(rows) && rows.dom().len() <= u64::MAX {
        assert forall|key: Seq<u8>|
            (#[trigger] lookup(m, Keyspace::Count, key)) is Some implies lookup(
            m,
            Keyspace::Count,
            key,
        )->0.len() == 8 && be_value(lookup(m, Keyspace::Count, key)->0) > 0 by {
            lemma_index_lookup(rows, tip, Keyspace::Count, key);
            lemma_tally_bound(rows, key);
            let n = tally(rows, key) as u64;
            lemma_be_u64(n, n);
        }
    }
}

/// Folding one plan into another and applying the result leaves the index exactly as applying
/// the two in order does.
pub proof fn merge_matches_sequential_apply(
    rows: Map<Position, Tx>,
    tip: Option<Tip>,
    first: Plan,
    next: Plan,
    merged: Plan,
    reads_first: Reads,
    reads_next: Reads,
    reads_merged: Reads,
)
    requires
        proper(rows),
        first.merged_into(next, merged),
        countable(rows, first),
        countable(first.outcome(rows), next),
        faithful(index_of(rows, tip), first, reads_first),
        faithful(after(index_of(rows, tip), batch_of(first, reads_first)), next, reads_next),
        faithful(index_of(rows, tip), merged, reads_merged),
    ensures
        after(index_of(rows, tip), batch_of(merged, reads_merged)) == after(
            after(index_of(rows, tip), batch_of(first, reads_first)),
            batch_of(next, reads_next),
        ),
{
    apply_keeps_the_index(rows, tip, first, reads_first);
    apply_keeps_the_index(first.outcome(rows), later(first.tip, tip), next, reads_next);
    merge_matches_replay(rows, tip, first, next, merged);
    apply_keeps_the_index(rows, tip, merged, reads_merged);
}

/// However many rows there are, and whatever the counters stand at, folding one plan into another
/// and applying the result leaves every keyspace but that of the counters as applying the two in
/// order does.
pub proof fn merge_leaves_the_rows_of_sequential_apply(
    m: Contents,
    rows: Map<Position, Tx>,
    tip: Option<Tip>,
    first: Plan,
    next: Plan,
    merged: Plan,
    reads_first: Reads,
    reads_next: Reads,
    reads_merged: Reads,
)
    requires
        proper(rows),
        first.merged_into(next, merged),
        holds_rows(m, rows, tip),
        faithful(m, first, reads_first),
        faithful(after(m, batch_of(first, reads_first)), next, reads_next),
        faithful(m, merged, reads_merged),
    ensures
        forall|keyspace: Keyspace, key: Seq<u8>|
            !(keyspace is Count) ==> #[trigger] lookup(
                after(m, batch_of(merged, reads_merged)),
                keyspace,
                key,
            ) == lookup(
                after(after(m, batch_of(first, reads_first)), batch_of(next, reads_next)),
                keyspace,
                key,
            ),
{
    let mid = after(m, batch_of(first, reads_first));
    lemma_batch(m, rows, tip, first, reads_first);
    lemma_batch(mid, first.outcome(rows), later(first.tip, tip), next, reads_next);
    merge_matches_replay(rows, tip, first, next, merged);
    lemma_batch(m, rows, tip, merged, reads_merged);
}

/// Applying a plan a second time finds nothing wrong with what it reads, and leaves the store as
/// it is: no row is duplicated, and no count inflated. So it is of every store that holds the index
/// of some rows, whatever its counters stand at and however many rows there are.
pub proof fn reapplying_changes_nothing(
    m: Contents,
    rows: Map<Position, Tx>,
    tip: Option<Tip>,
    plan: Plan,
    reads: Reads,
    again: Reads,
)
    requires
        proper(rows),
        holds_rows(m, rows, tip),
        sound_counters(m),
        faithful(m, plan, reads),
        faithful(after(m, batch_of(plan, reads)), plan, again),
    ensures
        first_fault(read_faults(again.entries, again.stored)) is None,
        first_fault(count_faults(again.counts)) is None,
        after(after(m, batch_of(plan, reads)), batch_of(plan, again)) == after(
            m,
            batch_of(plan, reads),
        ),
{
    let once = after(m, batch_of(plan, reads));
    let twice = after(once, batch_of(plan, again));
    let out = plan.outcome(rows);
    let new_tip = later(plan.tip, tip);
    let changes = all_changes(plan, again.entries, again.stored);
    let keys = again.sums.map_values(|s: (Seq<u8>, int)| s.0);
    apply_keeps_the_rows(m, rows, tip, plan, reads);
    apply_keeps_the_rows(once, out, new_tip, plan, again);
    lemma_batch(once, out, new_tip, plan, again);
    lemma_reads_of_rows(once, out, new_tip, plan, again.entries, again.stored);
    outcome_is_idempotent(rows, plan);
    assert forall|keyspace: Keyspace, key: Seq<u8>| #[trigger]
        lookup(twice, keyspace, key) == lookup(once, keyspace, key) by {
        if keyspace is Count {
            if names(changes, key) {
                let i = choose|i: int|
                    0 <= i < again.sums.len() && (#[trigger] again.sums[i]).0 == key;
                assert(again.counts[i] == lookup(once, Keyspace::Count, keys[i]));
                // The rows are the same before and after, so the changes come to nothing.
                lemma_tally(out, new_tip, plan, again, key);
                if again.counts[i] is Some {
                    lemma_be_of_8(again.counts[i]->0);
                }
            }
        } else {
            assert(lookup(once, keyspace, key) == held(out, new_tip, (keyspace, key)));
        }
    }
    lemma_same_contents(twice, once);
}

/// A store that was never written is the index of no rows.
pub proof fn an_empty_store_is_an_index()
    ensures
        proper(Map::<Position, Tx>::empty()),
        index_of(Map::empty(), None) == Map::<(Keyspace, Seq<u8>), Seq<u8>>::empty(),
{
    let none = Map::<Position, Tx>::empty();
    assert forall|keyspace: Keyspace, key: Seq<u8>| #[trigger]
        lookup(index_of(none, None), keyspace, key) == lookup(
            Map::empty(),
            keyspace,
            key,
        ) by {
        lemma_index_lookup(none, None, keyspace, key);
        assert(crate::store::counted_rows(none, key) =~= Set::empty());
    }
    lemma_same_contents(index_of(none, None), Map::empty());
}

// ---- a plan, as its caller applies it

/// A plan that is applied to an index, with what the index holds where the plan asks for it, finds
/// nothing wrong, and leaves the index of the rows that the plan leaves, at the later tip.
pub proof fn a_plan_as_it_is_applied_keeps_the_index(
    rows: Map<Position, Tx>,
    tip: Option<Tip>,
    plan: &Plan,
    start: Option<Vec<u8>>,
    entries: &Vec<(Vec<u8>, Vec<u8>)>,
    keys: Vec<Vec<u8>>,
    stored: &Vec<Option<Vec<u8>>>,
    drafted: Result<Draft, Error>,
    counters: &Vec<Vec<u8>>,
    counts: &Vec<Option<Vec<u8>>>,
    done: Result<Vec<Op>, Error>,
)
    requires
        proper(rows),
        rows.dom().len() <= u64::MAX,
        plan.outcome(rows).dom().len() <= u64::MAX,
        call_ensures(Plan::revert_start, (plan,), start),
        start is None ==> entries@.len() == 0,
        start is Some ==> scanned(
            index_of(rows, tip),
            Keyspace::Primary,
            start->0@,
            entry_views(entries@),
        ),
        call_ensures(Plan::replacing_keys, (plan,), keys),
        lookups(index_of(rows, tip), Keyspace::Primary, key_views(keys@), value_views(stored@)),
        call_ensures(Draft::prepare, (plan, entries, stored), drafted),
        drafted is Ok ==> {
            &&& call_ensures(Draft::counters, (&drafted->Ok_0,), counters)
            &&& lookups(
                index_of(rows, tip),
                Keyspace::Count,
                key_views(counters@),
                value_views(counts@),
            )
            &&& call_ensures(Draft::finish, (drafted->Ok_0, counts), done)
        },
    ensures
        drafted is Ok,
        done is Ok,
        proper(plan.outcome(rows)),
        after(index_of(rows, tip), writes(done->Ok_0@)) == index_of(
            plan.outcome(rows),
            if plan.tip is Some {
                plan.tip
            } else {
                tip
            },
        ),
{
    let found = entry_views(entries@);
    let held = value_views(stored@);
    assert(found.len() == entries@.len());
    assert(faithful_rows(index_of(rows, tip), *plan, found, held));
    preparing_finds_no_fault(rows, tip, *plan, found, held);
    let reads = Reads {
        entries: found,
        stored: held,
        sums: drafted->Ok_0.sums(),
        counts: value_views(counts@),
    };
    apply_keeps_the_index(rows, tip, *plan, reads);
}

/// What a plan that is applied leaves in the store, place by place: the last of its rows at a
/// position, as it is stored; nothing of a row that it drops; and its tip.
pub proof fn what_a_plan_leaves_in_the_store(
    rows: Map<Position, Tx>,
    tip: Option<Tip>,
    plan: &Plan,
    i: int,
    p: Position,
    key: Vec<u8>,
    value: Vec<u8>,
    name: Vec<u8>,
    recorded: Vec<u8>,
)
    requires
        proper(rows),
        proper(plan.outcome(rows)),
        call_ensures(pos_key, (p,), key),
        0 <= i < plan.rows@.len() ==> call_ensures(encode_row, (&plan.rows@[i],), value),
        call_ensures(tip_key, (), name),
        plan.tip is Some ==> call_ensures(encode_tip, (plan.tip->0,), recorded),
    ensures
        ({
            let left = index_of(plan.outcome(rows), later(plan.tip, tip));
            &&& 0 <= i < plan.rows@.len() && plan.rows@[i].position == p && (forall|j: int|
                i < j < plan.rows@.len() ==> (#[trigger] plan.rows@[j]).position != p) ==> lookup(
                left,
                Keyspace::Primary,
                key@,
            ) == Some(value@)
            &&& (forall|j: int|
                0 <= j < plan.rows@.len() ==> (#[trigger] plan.rows@[j]).position != p)
                && plan.revert_from is Some && p.block_num >= plan.revert_from->0 ==> lookup(
                left,
                Keyspace::Primary,
                key@,
            ) is None
            &&& (forall|j: int|
                0 <= j < plan.rows@.len() ==> (#[trigger] plan.rows@[j]).position != p) && (
            plan.revert_from is Some ==> p.block_num < plan.revert_from->0) ==> lookup(
                left,
                Keyspace::Primary,
                key@,
            ) == lookup(index_of(rows, tip), Keyspace::Primary, key@)
            &&& plan.tip is Some ==> lookup(left, Keyspace::Meta, name@) == Some(recorded@)
            &&& plan.tip is None ==> lookup(left, Keyspace::Meta, name@) == lookup(
                index_of(rows, tip),
                Keyspace::Meta,
                name@,
            )
        }),
{
    let out = plan.outcome(rows);
    let new_tip = later(plan.tip, tip);
    a_plan_leaves_its_last_row_at_a_position(rows, *plan, p, i);
    an_index_holds_its_rows_and_no_more(out, new_tip, p, Keyspace::From, Seq::empty(), name@);
    an_index_holds_its_rows_and_no_more(rows, tip, p, Keyspace::From, Seq::empty(), name@);
}

/// What is true of a store when it holds rows, whatever its counters stand at: everywhere but there
/// it holds what the index of the rows does. And its counters are sound where each is eight bytes
/// and not zero.
pub proof fn holding_rows_is_holding_their_index(
    m: Contents,
    rows: Map<Position, Tx>,
    tip: Option<Tip>,
)
    ensures
        holds_rows(m, rows, tip) <==> forall|keyspace: Keyspace, key: Seq<u8>|
            keyspace != Keyspace::Count ==> #[trigger] lookup(m, keyspace, key) == lookup(
                index_of(rows, tip),
                keyspace,
                key,
            ),
        sound_counters(m) <==> forall|key: Seq<u8>|
            (#[trigger] lookup(m, Keyspace::Count, key)) is Some ==> (lookup(
                m,
                Keyspace::Count,
                key,
            )->0).len() == 8 && be_value(lookup(m, Keyspace::Count, key)->0) != 0,
{
    assert forall|keyspace: Keyspace, key: Seq<u8>| #[trigger]
        lookup(index_of(rows, tip), keyspace, key) == held(rows, tip, (keyspace, key)) by {
        lemma_index_lookup(rows, tip, keyspace, key);
    }
    if holds_rows(m, rows, tip) {
        assert forall|keyspace: Keyspace, key: Seq<u8>|
            keyspace != Keyspace::Count implies #[trigger] lookup(m, keyspace, key) == lookup(
            index_of(rows, tip),
            keyspace,
            key,
        ) by {
            lemma_index_lookup(rows, tip, keyspace, key);
        }
    }
    if forall|keyspace: Keyspace, key: Seq<u8>|
        keyspace != Keyspace::Count ==> #[trigger] lookup(m, keyspace, key) == lookup(
            index_of(rows, tip),
            keyspace,
            key,
        ) {
        assert forall|keyspace: Keyspace, key: Seq<u8>|
            !(keyspace is Count) implies #[trigger] lookup(m, keyspace, key) == held(
            rows,
            tip,
            (keyspace, key),
        ) by {
            lemma_index_lookup(rows, tip, keyspace, key);
        }
    }
    assert forall|key: Seq<u8>| (#[trigger] lookup(m, Keyspace::Count, key)) is Some && (lookup(
        m,
        Keyspace::Count,
        key,
    )->0).len() == 8 implies be_value(lookup(m, Keyspace::Count, key)->0) >= 0 by {
        lemma_be_of_8(lookup(m, Keyspace::Count, key)->0);
    }
}

} // verus!
