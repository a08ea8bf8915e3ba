//! The store underneath, as a mathematical value: what it holds, what writes do to it, and
//! what it holds when it is the index of a set of rows.

use vstd::prelude::*;

use crate::bytes::be;
use crate::codec::{row_bytes, tip_bytes, tip_key_bytes};
use crate::entries::{lemma_joined, owns, row_columns, row_counters};
use crate::layout::{entry_key, is_secondary, lemma_position_key, lemma_position_of, position_key,
    position_of, Keyspace};
use crate::lex::{lex_le, lex_lt};
use crate::position::Position;
use crate::types::{Tip, Tx};

verus! {

/// What a store holds: a value for each key of each keyspace.
pub type Contents = Map<(Keyspace, Seq<u8>), Seq<u8>>;

/// One write, as part of a batch.
#[derive(Debug, PartialEq, Eq)]
pub enum Op {
    Put { keyspace: Keyspace, key: Vec<u8>, value: Vec<u8> },
    Delete { keyspace: Keyspace, key: Vec<u8> },
}

/// A write as a mathematical value: the place, and the value put there, or nothing where
/// the place is cleared.
#[verifier::ext_equal]
pub struct Write {
    pub keyspace: Keyspace,
    pub key: Seq<u8>,
    pub value: Option<Seq<u8>>,
}

impl View for Op {
    type V = Write;

    open spec fn view(&self) -> Write {
        match *self {
            Op::Put { keyspace, key, value } => Write { keyspace, key: key@, value: Some(value@) },
            Op::Delete { keyspace, key } => Write { keyspace, key: key@, value: None },
        }
    }
}

impl Write {
    /// The place that is written.
    pub open spec fn place(self) -> (Keyspace, Seq<u8>) {
        (self.keyspace, self.key)
    }
}

/// A put of a value.
pub open spec fn put(keyspace: Keyspace, key: Seq<u8>, value: Seq<u8>) -> Write {
    Write { keyspace, key, value: Some(value) }
}

/// A delete.
pub open spec fn delete(keyspace: Keyspace, key: Seq<u8>) -> Write {
    Write { keyspace, key, value: None }
}

/// A batch as mathematical values.
pub open spec fn writes(ops: Seq<Op>) -> Seq<Write> {
    ops.map_values(|op: Op| op@)
}

/// What a store holds after a batch: the writes take effect in order.
pub open spec fn after(m: Contents, batch: Seq<Write>) -> Contents
    decreases batch.len(),
{
    if batch.len() == 0 {
        m
    } else {
        let w = batch.last();
        let prior = after(m, batch.drop_last());
        match w.value {
            Some(value) => prior.insert(w.place(), value),
            None => prior.remove(w.place()),
        }
    }
}

/// The value at a key.
pub open spec fn lookup(m: Contents, keyspace: Keyspace, key: Seq<u8>) -> Option<Seq<u8>> {
    if m.contains_key((keyspace, key)) {
        Some(m[(keyspace, key)])
    } else {
        None
    }
}

/// An optional value, as a mathematical value.
pub open spec fn value_view(value: Option<Vec<u8>>) -> Option<Seq<u8>> {
    match value {
        Some(v) => Some(v@),
        None => None,
    }
}

/// A list of optional values, as mathematical values.
pub open spec fn value_views(values: Seq<Option<Vec<u8>>>) -> Seq<Option<Seq<u8>>> {
    values.map_values(|v: Option<Vec<u8>>| value_view(v))
}

/// `values` is what the store holds at `keys`, one for one.
pub open spec fn lookups(
    m: Contents,
    keyspace: Keyspace,
    keys: Seq<Seq<u8>>,
    values: Seq<Option<Seq<u8>>>,
) -> bool {
    &&& values.len() == keys.len()
    &&& forall|i: int|
        0 <= i < keys.len() ==> #[trigger] values[i] == lookup(m, keyspace, keys[i])
}

/// A list of entries, as mathematical values.
pub open spec fn entry_views(entries: Seq<(Vec<u8>, Vec<u8>)>) -> Seq<(Seq<u8>, Seq<u8>)> {
    entries.map_values(|e: (Vec<u8>, Vec<u8>)| (e.0@, e.1@))
}

/// `entries` is every entry of a keyspace from the key `start` on, in the order of the keys.
pub open spec fn scanned(
    m: Contents,
    keyspace: Keyspace,
    start: Seq<u8>,
    entries: Seq<(Seq<u8>, Seq<u8>)>,
) -> bool {
    &&& forall|i: int|
        0 <= i < entries.len() ==> {
            let e = #[trigger] entries[i];
            m.contains_key((keyspace, e.0)) && m[(keyspace, e.0)] == e.1 && lex_le(start, e.0)
        }
    &&& forall|i: int, j: int|
        0 <= i < j < entries.len() ==> lex_lt((#[trigger] entries[i]).0, (#[trigger] entries[j]).0)
    &&& forall|key: Seq<u8>| #[trigger]
        m.contains_key((keyspace, key)) && lex_le(start, key) ==> exists|i: int|
            0 <= i < entries.len() && (#[trigger] entries[i]).0 == key
}

// ---- the index

/// Every row stands at its own position, and there are finitely many.
pub open spec fn proper(rows: Map<Position, Tx>) -> bool {
    &&& rows.dom().finite()
    &&& forall|p: Position| #[trigger] rows.contains_key(p) ==> rows[p].position == p
}

/// The rows that contribute to a counter.
pub open spec fn counted_rows(rows: Map<Position, Tx>, key: Seq<u8>) -> Set<Position> {
    rows.dom().filter(|p: Position| row_counters(rows[p]).contains(key))
}

/// How many rows contribute to a counter.
pub open spec fn tally(rows: Map<Position, Tx>, key: Seq<u8>) -> nat {
    counted_rows(rows, key).len()
}

/// The position at the end of an entry's key.
pub open spec fn entry_position(key: Seq<u8>) -> Position {
    position_of(key.skip(key.len() - 12))
}

/// The prefix at the start of an entry's key.
pub open spec fn entry_prefix(key: Seq<u8>) -> Seq<u8> {
    key.take(key.len() - 12)
}

/// Whether a row's entry stands at a key of a secondary keyspace.
pub open spec fn has_entry(rows: Map<Position, Tx>, keyspace: Keyspace, key: Seq<u8>) -> bool {
    &&& key.len() >= 12
    &&& rows.contains_key(entry_position(key))
    &&& owns(rows[entry_position(key)], keyspace, entry_prefix(key))
}

/// What the index of some rows holds at a place.
pub open spec fn held(
    rows: Map<Position, Tx>,
    tip: Option<Tip>,
    place: (Keyspace, Seq<u8>),
) -> Option<Seq<u8>> {
    let (keyspace, key) = place;
    if keyspace is Primary {
        if key.len() == 12 && rows.contains_key(position_of(key)) {
            Some(row_bytes(rows[position_of(key)]))
        } else {
            None
        }
    } else if is_secondary(keyspace) {
        if has_entry(rows, keyspace, key) {
            Some(Seq::empty())
        } else {
            None
        }
    } else if keyspace is Count {
        if tally(rows, key) > 0 {
            Some(be(tally(rows, key), 8))
        } else {
            None
        }
    } else {
        if key == tip_key_bytes() && tip is Some {
            Some(tip_bytes(tip->0))
        } else {
            None
        }
    }
}

/// What a store holds when it is the index of some rows, and stands at a tip: each row at its
/// position, an entry for each of its columns, a count for each value that some row has, and
/// the tip. Nothing else.
pub open spec fn index_of(rows: Map<Position, Tx>, tip: Option<Tip>) -> Contents {
    Map::new(
        |place: (Keyspace, Seq<u8>)| held(rows, tip, place) is Some,
        |place: (Keyspace, Seq<u8>)| held(rows, tip, place)->0,
    )
}

/// The places where the index of some rows may hold something because of one of them.
spec fn places_of(tx: Tx) -> Seq<(Keyspace, Seq<u8>)> {
    seq![(Keyspace::Primary, position_key(tx.position))] + row_columns(tx).map_values(
        |c: (Keyspace, Seq<u8>)| (c.0, entry_key(c.1, tx.position)),
    ) + row_counters(tx).map_values(|key: Seq<u8>| (Keyspace::Count, key))
}

/// What one row more adds to an index is at the row's own places.
proof fn lemma_index_grows(
    rows: Map<Position, Tx>,
    tip: Option<Tip>,
    tx: Tx,
    place: (Keyspace, Seq<u8>),
)
    requires
        proper(rows),
        !rows.contains_key(tx.position),
        index_of(rows.insert(tx.position, tx), tip).contains_key(place),
    ensures
        index_of(rows, tip).contains_key(place) || places_of(tx).contains(place),
{
    let more = rows.insert(tx.position, tx);
    let (keyspace, key) = place;
    let own = seq![(Keyspace::Primary, position_key(tx.position))];
    let f = |c: (Keyspace, Seq<u8>)| (c.0, entry_key(c.1, tx.position));
    let g = |key: Seq<u8>| (Keyspace::Count, key);
    let columns = row_columns(tx);
    let keys = row_counters(tx);
    lemma_joined(own + columns.map_values(f), keys.map_values(g), place);
    lemma_joined(own, columns.map_values(f), place);
    if keyspace is Primary {
        if position_of(key) == tx.position {
            lemma_position_of(key);
            assert(own[0] == place);
        }
    } else if is_secondary(keyspace) {
        if entry_position(key) == tx.position {
            let c = (keyspace, entry_prefix(key));
            let i = choose|i: int| 0 <= i < columns.len() && columns[i] == c;
            lemma_position_of(key.skip(key.len() - 12));
            assert(entry_key(entry_prefix(key), entry_position(key)) =~= key);
            assert(columns.map_values(f)[i] == place);
        }
    } else if keyspace is Count {
        lemma_tally_insert(rows, tx, key);
        if keys.contains(key) {
            let i = choose|i: int| 0 <= i < keys.len() && keys[i] == key;
            assert(keys.map_values(g)[i] == place);
        }
    }
}

/// An index of finitely many rows holds finitely many entries.
pub proof fn an_index_is_finite(rows: Map<Position, Tx>, tip: Option<Tip>)
    requires
        proper(rows),
    ensures
        index_of(rows, tip).dom().finite(),
    decreases rows.dom().len(),
{
    let all = index_of(rows, tip).dom();
    if rows.dom().len() == 0 {
        let meta = set![(Keyspace::Meta, tip_key_bytes())];
        assert forall|place: (Keyspace, Seq<u8>)| all.contains(place) implies #[trigger] meta.contains(
            place,
        ) by {
            assert(rows.dom() =~= Set::empty());
            assert(counted_rows(rows, place.1) =~= Set::empty());
        }
        vstd::set_lib::lemma_len_subset(all, meta);
    } else {
        let p = rows.dom().choose();
        let less = rows.remove(p);
        let tx = rows[p];
        assert(less.dom() =~= rows.dom().remove(p));
        assert(less.insert(p, tx) =~= rows);
        an_index_is_finite(less, tip);
        let own = places_of(tx).to_set();
        vstd::seq_lib::seq_to_set_is_finite(places_of(tx));
        let both = index_of(less, tip).dom().union(own);
        assert forall|place: (Keyspace, Seq<u8>)| all.contains(place) implies #[trigger] both.contains(
            place,
        ) by {
            lemma_index_grows(less, tip, tx, place);
        }
        vstd::set_lib::lemma_len_subset(all, both);
    }
}

// ---- batches

/// A batch in two parts takes effect one part after the other.
pub proof fn lemma_after_concat(m: Contents, a: Seq<Write>, b: Seq<Write>)
    ensures
        after(m, a + b) == after(after(m, a), b),
    decreases b.len(),
{
    if b.len() == 0 {
        assert(a + b =~= a);
    } else {
        assert((a + b).drop_last() =~= a + b.drop_last());
        assert((a + b).last() == b.last());
        lemma_after_concat(m, a, b.drop_last());
    }
}

/// Whether a batch writes a place.
pub open spec fn touches(batch: Seq<Write>, place: (Keyspace, Seq<u8>)) -> bool {
    exists|i: int| 0 <= i < batch.len() && (#[trigger] batch[i]).place() == place
}

/// What a batch leaves at a place where each of its writes agrees with `target`: what
/// `target` says where it writes, else what was there.
pub proof fn lemma_agreeing(
    m: Contents,
    batch: Seq<Write>,
    target: Contents,
    place: (Keyspace, Seq<u8>),
)
    requires
        forall|i: int|
            0 <= i < batch.len() ==> (#[trigger] batch[i]).value == lookup(
                target,
                batch[i].keyspace,
                batch[i].key,
            ),
    ensures
        touches(batch, place) ==> lookup(after(m, batch), place.0, place.1) == lookup(
            target,
            place.0,
            place.1,
        ),
        !touches(batch, place) ==> lookup(after(m, batch), place.0, place.1) == lookup(
            m,
            place.0,
            place.1,
        ),
    decreases batch.len(),
{
    if batch.len() > 0 {
        let head = batch.drop_last();
        let w = batch.last();
        assert(w == batch[batch.len() - 1]);
        assert forall|i: int| 0 <= i < head.len() implies (#[trigger] head[i]).value == lookup(
            target,
            head[i].keyspace,
            head[i].key,
        ) by {
            assert(head[i] == batch[i]);
        }
        lemma_agreeing(m, head, target, place);
        if w.place() == place {
            assert(touches(batch, place));
        } else {
            if touches(batch, place) {
                let i = choose|i: int| 0 <= i < batch.len() && (#[trigger] batch[i]).place() == place;
                assert(head[i].place() == place);
            }
            if touches(head, place) {
                let i = choose|i: int| 0 <= i < head.len() && (#[trigger] head[i]).place() == place;
                assert(batch[i].place() == place);
            }
        }
    }
}

/// Two stores that hold the same at every place are the same.
pub proof fn lemma_same_contents(a: Contents, b: Contents)
    requires
        forall|keyspace: Keyspace, key: Seq<u8>| #[trigger]
            lookup(a, keyspace, key) == lookup(b, keyspace, key),
    ensures
        a == b,
{
    assert forall|place: (Keyspace, Seq<u8>)|
        #![trigger a.dom().contains(place)]
        #![trigger b.dom().contains(place)]
        a.dom().contains(place) == b.dom().contains(place) && (a.dom().contains(place) ==> a[place]
            == b[place]) by {
        assert(lookup(a, place.0, place.1) == lookup(b, place.0, place.1));
        assert(place == (place.0, place.1));
    }
    assert(a =~= b);
}

/// What the index of some rows holds at a place, looked up.
pub proof fn lemma_index_lookup(
    rows: Map<Position, Tx>,
    tip: Option<Tip>,
    keyspace: Keyspace,
    key: Seq<u8>,
)
    ensures
        lookup(index_of(rows, tip), keyspace, key) == held(rows, tip, (keyspace, key)),
{
}

// ---- counting rows

/// One row more: what an insert does to a counter.
pub proof fn lemma_tally_insert(rows: Map<Position, Tx>, tx: Tx, key: Seq<u8>)
    requires
        proper(rows),
    ensures
        proper(rows.insert(tx.position, tx)),
        tally(rows.insert(tx.position, tx), key) == tally(rows, key) - (if rows.contains_key(
            tx.position,
        ) && row_counters(rows[tx.position]).contains(key) {
            1int
        } else {
            0
        }) + (if row_counters(tx).contains(key) {
            1int
        } else {
            0
        }),
{
    let p = tx.position;
    let more = rows.insert(p, tx);
    assert(more.dom() =~= rows.dom().insert(p));
    let a = counted_rows(rows, key);
    let b = counted_rows(more, key);
    if row_counters(tx).contains(key) {
        assert(b =~= a.insert(p));
    } else {
        assert(b =~= a.remove(p));
    }
}

/// One row less: what a removal does to a counter.
pub proof fn lemma_tally_remove(rows: Map<Position, Tx>, p: Position, key: Seq<u8>)
    requires
        proper(rows),
        rows.contains_key(p),
    ensures
        proper(rows.remove(p)),
        tally(rows.remove(p), key) == tally(rows, key) - (if row_counters(rows[p]).contains(key) {
            1int
        } else {
            0
        }),
{
    let less = rows.remove(p);
    assert(less.dom() =~= rows.dom().remove(p));
    assert(counted_rows(less, key) =~= counted_rows(rows, key).remove(p));
}

// ---- what a batch does

/// A batch takes effect write by write: a write decides what stands at its place, and nothing of
/// what stands elsewhere.
pub proof fn a_batch_takes_effect_write_by_write(
    m: Contents,
    batch: Seq<Write>,
    w: Write,
    keyspace: Keyspace,
    key: Seq<u8>,
)
    ensures
        after(m, Seq::empty()) == m,
        w.keyspace == keyspace && w.key == key ==> lookup(after(m, batch.push(w)), keyspace, key)
            == w.value,
        w.keyspace != keyspace || w.key != key ==> lookup(after(m, batch.push(w)), keyspace, key)
            == lookup(after(m, batch), keyspace, key),
        lookup(m, keyspace, key) is Some <==> m.dom().contains((keyspace, key)),
        lookup(m, keyspace, key) is Some ==> lookup(m, keyspace, key)->0 == m[(keyspace, key)],
{
    assert(batch.push(w).drop_last() =~= batch);
}

/// A put leaves its value at its key, and a delete leaves nothing there; a list of them is a batch
/// in the same order.
pub proof fn operations_are_writes(op: Op, ops: Seq<Op>, i: int)
    ensures
        match op {
            Op::Put { keyspace, key, value } => op@.keyspace == keyspace && op@.key == key@
                && op@.value == Some(value@),
            Op::Delete { keyspace, key } => op@.keyspace == keyspace && op@.key == key@
                && op@.value is None,
        },
        writes(ops).len() == ops.len(),
        0 <= i < ops.len() ==> writes(ops)[i] == ops[i]@,
{
}

/// A scan from a key is every entry of the keyspace at that key or past it, as it stands there, in
/// the order of the keys; and values that are looked up are those that stand at the keys, one for
/// one.
pub proof fn a_scan_is_everything_from_its_start(
    m: Contents,
    keyspace: Keyspace,
    start: Seq<u8>,
    entries: Seq<(Seq<u8>, Seq<u8>)>,
    keys: Seq<Seq<u8>>,
    values: Seq<Option<Seq<u8>>>,
)
    ensures
        scanned(m, keyspace, start, entries) <==> {
            &&& forall|i: int|
                0 <= i < entries.len() ==> lookup(m, keyspace, (#[trigger] entries[i]).0) == Some(
                    entries[i].1,
                )
            &&& forall|i: int, j: int|
                0 <= i < j < entries.len() ==> lex_lt(
                    (#[trigger] entries[i]).0,
                    (#[trigger] entries[j]).0,
                )
            &&& forall|key: Seq<u8>|
                (exists|i: int| 0 <= i < entries.len() && (#[trigger] entries[i]).0 == key) <==> (
                #[trigger] m.contains_key((keyspace, key))) && (key == start || lex_lt(start, key))
        },
        lookups(m, keyspace, keys, values) <==> {
            &&& values.len() == keys.len()
            &&& forall|i: int|
                0 <= i < keys.len() ==> #[trigger] values[i] == lookup(m, keyspace, keys[i])
        },
{
    let all = forall|key: Seq<u8>|
        (exists|i: int| 0 <= i < entries.len() && (#[trigger] entries[i]).0 == key) <==> (
        #[trigger] m.contains_key((keyspace, key))) && (key == start || lex_lt(start, key));
    if scanned(m, keyspace, start, entries) {
        assert forall|key: Seq<u8>|
            (exists|i: int| 0 <= i < entries.len() && (#[trigger] entries[i]).0 == key) implies (
        #[trigger] m.contains_key((keyspace, key))) && (key == start || lex_lt(start, key)) by {
            let i = choose|i: int| 0 <= i < entries.len() && (#[trigger] entries[i]).0 == key;
            assert(m.contains_key((keyspace, entries[i].0)));
        }
    }
    if all {
        assert forall|i: int| 0 <= i < entries.len() implies m.contains_key(
            (keyspace, (#[trigger] entries[i]).0),
        ) && lex_le(start, entries[i].0) by {
            let key = entries[i].0;
            assert((exists|k: int| 0 <= k < entries.len() && (#[trigger] entries[k]).0 == key)
                <==> m.contains_key((keyspace, key)) && (key == start || lex_lt(start, key)));
        }
    }
}

// ---- what an index holds

/// The index of some rows holds each row at its position's key; an empty value for each column of
/// each row at the column's prefix and that key; a count for whatever some row counts for, in
/// eight bytes; and the tip: and nothing else.
pub proof fn an_index_holds_its_rows_and_no_more(
    rows: Map<Position, Tx>,
    tip: Option<Tip>,
    p: Position,
    keyspace: Keyspace,
    prefix: Seq<u8>,
    key: Seq<u8>,
)
    requires
        proper(rows),
    ensures
        rows.contains_key(p) ==> lookup(index_of(rows, tip), Keyspace::Primary, position_key(p))
            == Some(row_bytes(rows[p])),
        !rows.contains_key(p) ==> lookup(
            index_of(rows, tip),
            Keyspace::Primary,
            position_key(p),
        ) is None,
        key.len() != 12 ==> lookup(index_of(rows, tip), Keyspace::Primary, key) is None,
        is_secondary(keyspace) && rows.contains_key(p) && owns(rows[p], keyspace, prefix)
            ==> lookup(index_of(rows, tip), keyspace, prefix + position_key(p)) == Some(
            Seq::<u8>::empty(),
        ),
        is_secondary(keyspace) && !(rows.contains_key(p) && owns(rows[p], keyspace, prefix))
            ==> lookup(index_of(rows, tip), keyspace, prefix + position_key(p)) is None,
        is_secondary(keyspace) && key.len() < 12 ==> lookup(
            index_of(rows, tip),
            keyspace,
            key,
        ) is None,
        rows.contains_key(p) && row_counters(rows[p]).contains(key) ==> lookup(
            index_of(rows, tip),
            Keyspace::Count,
            key,
        ) is Some,
        (forall|q: Position| #[trigger]
            rows.contains_key(q) ==> !row_counters(rows[q]).contains(key)) ==> lookup(
            index_of(rows, tip),
            Keyspace::Count,
            key,
        ) is None,
        lookup(index_of(rows, tip), Keyspace::Count, key) is Some ==> lookup(
            index_of(rows, tip),
            Keyspace::Count,
            key,
        ) == Some(be(counted_rows(rows, key).len(), 8)),
        tip is Some ==> lookup(index_of(rows, tip), Keyspace::Meta, tip_key_bytes()) == Some(
            tip_bytes(tip->0),
        ),
        tip is None || key != tip_key_bytes() ==> lookup(
            index_of(rows, tip),
            Keyspace::Meta,
            key,
        ) is None,
        counted_rows(rows, key).contains(p) <==> rows.contains_key(p) && row_counters(
            rows[p],
        ).contains(key),
{
    let m = index_of(rows, tip);
    lemma_position_key(p);
    lemma_index_lookup(rows, tip, Keyspace::Primary, position_key(p));
    lemma_index_lookup(rows, tip, Keyspace::Primary, key);
    lemma_index_lookup(rows, tip, keyspace, key);
    let entry = prefix + position_key(p);
    lemma_index_lookup(rows, tip, keyspace, entry);
    assert(entry.take(entry.len() - 12) =~= prefix);
    assert(entry.skip(entry.len() - 12) =~= position_key(p));
    lemma_index_lookup(rows, tip, Keyspace::Count, key);
    let set = counted_rows(rows, key);
    vstd::set_lib::lemma_len_subset(set, rows.dom());
    if rows.contains_key(p) && row_counters(rows[p]).contains(key) {
        assert(set.contains(p));
        if set.len() == 0 {
            assert(set =~= Set::empty());
        }
    }
    if forall|q: Position| #[trigger]
        rows.contains_key(q) ==> !row_counters(rows[q]).contains(key) {
        assert(set =~= Set::empty());
    }
    lemma_index_lookup(rows, tip, Keyspace::Meta, tip_key_bytes());
    lemma_index_lookup(rows, tip, Keyspace::Meta, key);
}

} // verus!
