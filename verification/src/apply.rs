//! Applying a plan: which entries to read, and which writes they make of it.
//!
//! A plan is applied in one batch. A reorg is a revert *and* a commit, and a crash between
//! them would leave orphaned entries under a tip claiming they are current, a corruption no
//! later notification repairs.

use vstd::prelude::*;

use crate::bytes::{be, be_value, copied, lemma_be_u64};
use crate::codec::{count_value, decode_count, decode_row, encode_count, encode_row, encode_tip,
    is_row, row_at, row_bytes, tip_bytes, tip_key, tip_key_bytes};
use crate::deltas::{change_views, sum_up, sum_views, sums_up, Change};
use crate::entries::{column_views, counters, key_views, lemma_filtered, row_columns, row_counters,
    secondaries};
use crate::error::Error;
use crate::layout::{entry_key, keys_sort_as_positions, lemma_position_key, pos_from_key, pos_key,
    position_key, position_of, sec_key, Keyspace};
use crate::lex::lex_lt;
use crate::plan::{distinct_positions, elsewhere, lemma_distinct_prefix, lemma_elsewhere,
    lemma_last_at, lemma_standing, only_the_last_row_at_a_position_stands, standing, Plan};
use crate::position::{earlier, Order, Position};
use crate::store::{delete, entry_views, put, value_view, value_views, writes, Op, Write};
use crate::types::{IndexedTx, Tip, Tx};

verus! {

// ---- what a plan makes of what was read

/// The first of some faults.
pub open spec fn first_fault(faults: Seq<Option<Error>>) -> Option<Error>
    decreases faults.len(),
{
    if faults.len() == 0 {
        None
    } else {
        let f = first_fault(faults.drop_last());
        if f is Some {
            f
        } else {
            faults.last()
        }
    }
}

/// What is wrong with a value that should be a row.
pub open spec fn row_fault(val: Seq<u8>) -> Option<Error> {
    if is_row(val) {
        None
    } else {
        Some(Error::Row(val.len() as usize))
    }
}

/// What is wrong with an entry of the primary keyspace.
pub open spec fn entry_fault(entry: (Seq<u8>, Seq<u8>)) -> Option<Error> {
    if entry.0.len() != 12 {
        Some(Error::PositionKey(entry.0.len() as usize))
    } else {
        row_fault(entry.1)
    }
}

/// What is wrong with a row that was looked up. One that is absent is no fault.
pub open spec fn stored_fault(val: Option<Seq<u8>>) -> Option<Error> {
    match val {
        Some(v) => row_fault(v),
        None => None,
    }
}

/// What is wrong with a counter that was looked up. One that is absent is no fault.
pub open spec fn count_fault(val: Option<Seq<u8>>) -> Option<Error> {
    match val {
        Some(v) if v.len() != 8 => Some(Error::Count(v.len() as usize)),
        _ => None,
    }
}

/// The faults of what was read for a plan, in the order of the reads.
pub open spec fn read_faults(
    entries: Seq<(Seq<u8>, Seq<u8>)>,
    stored: Seq<Option<Seq<u8>>>,
) -> Seq<Option<Error>> {
    entries.map_values(|e: (Seq<u8>, Seq<u8>)| entry_fault(e)) + stored.map_values(
        |v: Option<Seq<u8>>| stored_fault(v),
    )
}

/// The faults of the counters that were looked up.
pub open spec fn count_faults(counts: Seq<Option<Seq<u8>>>) -> Seq<Option<Error>> {
    counts.map_values(|v: Option<Seq<u8>>| count_fault(v))
}

/// The block from which rows need no replacing, because a revert drops what is there; past every
/// block where the plan reverts nothing.
pub open spec fn cut_of(plan: Plan) -> int {
    match plan.revert_from {
        Some(from) => from as int,
        None => u64::MAX + 1,
    }
}

/// The rows of a plan that may replace a stored one.
pub open spec fn replacing(plan: Plan) -> Seq<Tx> {
    standing(plan.txs()).filter(|tx: Tx| tx.position.block_num < cut_of(plan))
}

/// The rows that a scan of the primary keyspace found.
pub open spec fn dropped_rows(entries: Seq<(Seq<u8>, Seq<u8>)>) -> Seq<Tx> {
    entries.map_values(|e: (Seq<u8>, Seq<u8>)| row_at(position_of(e.0), e.1))
}

/// The rows that were found where others are to be put.
pub open spec fn replaced_rows(targets: Seq<Tx>, stored: Seq<Option<Seq<u8>>>) -> Seq<Tx>
    decreases targets.len(),
{
    if targets.len() == 0 {
        Seq::empty()
    } else {
        let head = replaced_rows(targets.drop_last(), stored);
        match stored[targets.len() - 1] {
            Some(val) => head.push(row_at(targets.last().position, val)),
            None => head,
        }
    }
}

/// Dropping the entries that a row owns in the secondary keyspaces.
pub open spec fn forget_writes(tx: Tx) -> Seq<Write> {
    row_columns(tx).map_values(
        |c: (Keyspace, Seq<u8>)| delete(c.0, entry_key(c.1, tx.position)),
    )
}

/// Putting a row, and the entries it owns.
pub open spec fn put_writes(tx: Tx) -> Seq<Write> {
    seq![put(Keyspace::Primary, position_key(tx.position), row_bytes(tx))] + row_columns(
        tx,
    ).map_values(|c: (Keyspace, Seq<u8>)| put(c.0, entry_key(c.1, tx.position), Seq::empty()))
}

/// Dropping what a scan of the primary keyspace found: each row, and the entries it owns.
pub open spec fn drop_all(entries: Seq<(Seq<u8>, Seq<u8>)>) -> Seq<Write>
    decreases entries.len(),
{
    if entries.len() == 0 {
        Seq::empty()
    } else {
        let e = entries.last();
        drop_all(entries.drop_last()) + seq![delete(Keyspace::Primary, e.0)] + forget_writes(
            row_at(position_of(e.0), e.1),
        )
    }
}

/// Dropping the entries that some rows own.
pub open spec fn forget_all(rows: Seq<Tx>) -> Seq<Write>
    decreases rows.len(),
{
    if rows.len() == 0 {
        Seq::empty()
    } else {
        forget_all(rows.drop_last()) + forget_writes(rows.last())
    }
}

/// Putting some rows, and the entries they own.
pub open spec fn put_all(rows: Seq<Tx>) -> Seq<Write>
    decreases rows.len(),
{
    if rows.len() == 0 {
        Seq::empty()
    } else {
        put_all(rows.drop_last()) + put_writes(rows.last())
    }
}

/// What a row changes in each counter it contributes to.
pub open spec fn row_changes(tx: Tx, by: int) -> Seq<(Seq<u8>, int)> {
    row_counters(tx).map_values(|key: Seq<u8>| (key, by))
}

/// What some rows change in the counters they contribute to.
pub open spec fn change_all(rows: Seq<Tx>, by: int) -> Seq<(Seq<u8>, int)>
    decreases rows.len(),
{
    if rows.len() == 0 {
        Seq::empty()
    } else {
        change_all(rows.drop_last(), by) + row_changes(rows.last(), by)
    }
}

/// The writes to rows and their entries that a plan makes of what was read. A reorg's
/// replacement rows are put after the deletes, so the puts win. Of a plan's rows at one position
/// only the last is put, as it would be left standing if they were applied one by one.
pub open spec fn row_writes(
    plan: Plan,
    entries: Seq<(Seq<u8>, Seq<u8>)>,
    stored: Seq<Option<Seq<u8>>>,
) -> Seq<Write> {
    drop_all(entries) + forget_all(replaced_rows(replacing(plan), stored)) + put_all(
        standing(plan.txs()),
    )
}

/// What a plan changes in the counters.
pub open spec fn all_changes(
    plan: Plan,
    entries: Seq<(Seq<u8>, Seq<u8>)>,
    stored: Seq<Option<Seq<u8>>>,
) -> Seq<(Seq<u8>, int)> {
    change_all(dropped_rows(entries), -1) + change_all(
        replaced_rows(replacing(plan), stored),
        -1,
    ) + change_all(standing(plan.txs()), 1)
}

/// A counter's next value. Saturating rather than failing: a count is derived data, and
/// stopping the indexer over one would cost more than the wrong number does.
pub open spec fn next_count(now: int, delta: int) -> int {
    if now + delta < 0 {
        0
    } else if now + delta > u64::MAX {
        u64::MAX as int
    } else {
        now + delta
    }
}

/// The write of a counter: what it comes to, or nothing where that is zero.
pub open spec fn count_write(sum: (Seq<u8>, int), val: Option<Seq<u8>>) -> Write {
    let next = next_count(count_value(val), sum.1);
    if next == 0 {
        delete(Keyspace::Count, sum.0)
    } else {
        put(Keyspace::Count, sum.0, be(next as nat, 8))
    }
}

/// The writes of the counters.
pub open spec fn count_writes(
    sums: Seq<(Seq<u8>, int)>,
    counts: Seq<Option<Seq<u8>>>,
) -> Seq<Write> {
    Seq::new(sums.len(), |i: int| count_write(sums[i], counts[i]))
}

/// The write of a tip, where there is one.
pub open spec fn tip_writes(tip: Option<Tip>) -> Seq<Write> {
    match tip {
        Some(t) => seq![put(Keyspace::Meta, tip_key_bytes(), tip_bytes(t))],
        None => Seq::empty(),
    }
}

// ---- what to read

impl Plan {
    /// The key of the primary keyspace from which a revert drops everything; `None` where the
    /// plan reverts nothing.
    pub fn revert_start(&self) -> (r: Option<Vec<u8>>)
        ensures
            match self.revert_from {
                Some(from) => r is Some && r->0@ == position_key(
                    Position { block_num: from, tx_index: 0 },
                ),
                None => r is None,
            },
    {
        match self.revert_from {
            Some(from) => Some(pos_key(Position::new(from, 0))),
            None => None,
        }
    }

    /// The keys of the primary keyspace at which rows of the plan may replace stored ones.
    ///
    /// A row put over an occupied position replaces the one stored there, and that one's
    /// entries have to go with it: they are keyed by its values rather than its position, so
    /// nothing else will ever reach them again.
    ///
    /// Where the plan reverts, only below the cut: at or above it the revert forgets these rows,
    /// and doing it twice would undo the puts that follow. Where it does not, every row may.
    pub fn replacing_keys(&self) -> (r: Vec<Vec<u8>>)
        ensures
            key_views(r@) == replacing(*self).map_values(|tx: Tx| position_key(tx.position)),
    {
        let positions: Vec<Position> = self.replacing_positions();
        let mut out: Vec<Vec<u8>> = Vec::with_capacity(positions.len());
        let mut i: usize = 0;
        while i < positions.len()
            invariant
                i <= positions@.len(),
                out@.len() == i,
                forall|j: int| 0 <= j < i ==> (#[trigger] out@[j])@ == position_key(positions@[j]),
            decreases positions@.len() - i,
        {
            out.push(pos_key(positions[i]));
            i = i + 1;
        }
        proof {
            let want = replacing(*self).map_values(|tx: Tx| position_key(tx.position));
            assert forall|j: int| 0 <= j < out@.len() implies #[trigger] key_views(out@)[j]
                == want[j] by {
                assert(out@[j]@ == position_key(positions@[j]));
            }
            assert(key_views(out@) =~= want);
        }
        out
    }

    /// The places in the plan of the rows that are left standing: of those at one position, the
    /// last.
    fn standing_rows(&self) -> (r: Vec<usize>)
        ensures
            forall|j: int| 0 <= j < r@.len() ==> #[trigger] r@[j] < self.rows@.len(),
            picked(self.txs(), r@) == standing(self.txs()),
    {
        let ghost txs = self.txs();
        let mut kept: Vec<usize> = Vec::with_capacity(self.rows.len());
        // Rows come in chain order but where plans were folded that share a position; as long
        // as they do, nothing kept so far can be at the next one.
        let mut in_order: bool = true;
        let mut i: usize = 0;
        assert(picked(txs, kept@) =~= standing(txs.take(0)));
        while i < self.rows.len()
            invariant
                i <= self.rows@.len(),
                txs == self.txs(),
                forall|j: int| 0 <= j < kept@.len() ==> #[trigger] kept@[j] < i,
                picked(txs, kept@) == standing(txs.take(i as int)),
                in_order ==> forall|j: int, k: int|
                    0 <= j < k < kept@.len() ==> earlier(
                        txs[(#[trigger] kept@[j]) as int].position,
                        txs[(#[trigger] kept@[k]) as int].position,
                    ),
            decreases self.rows@.len() - i,
        {
            let pos: Position = self.rows[i].position;
            let ghost was = picked(txs, kept@);
            proof {
                assert(txs.take(i + 1).drop_last() =~= txs.take(i as int));
                assert(txs.take(i + 1).last() == txs[i as int]);
                assert(pos == txs[i as int].position);
            }
            if in_order && kept.len() > 0 {
                let last: usize = kept[kept.len() - 1];
                in_order = self.rows[last].position.is_before(pos, Order::Ascending);
                assert(self.rows@[last as int].position == txs[last as int].position);
            }
            if in_order {
                proof {
                    assert forall|j: int| 0 <= j < was.len() implies (#[trigger] was[j]).position
                        != pos by {
                        let end = kept@[kept@.len() - 1];
                        assert(was[j] == txs[kept@[j] as int]);
                    }
                    lemma_elsewhere(was, pos);
                }
            } else {
                kept = self.all_but(&kept, pos);
            }
            let ghost rest = kept@;
            kept.push(i);
            proof {
                assert(picked(txs, rest) == elsewhere(was, pos));
                assert(picked(txs, kept@) =~= picked(txs, rest).push(txs[i as int]));
            }
            i = i + 1;
        }
        assert(txs.take(i as int) =~= txs);
        kept
    }

    /// The rows among some that are not at a position.
    fn all_but(&self, kept: &Vec<usize>, pos: Position) -> (r: Vec<usize>)
        requires
            forall|j: int| 0 <= j < kept@.len() ==> #[trigger] kept@[j] < self.rows@.len(),
        ensures
            picked(self.txs(), r@) == elsewhere(picked(self.txs(), kept@), pos),
            forall|j: int| 0 <= j < r@.len() ==> kept@.contains(#[trigger] r@[j]),
    {
        let ghost all = picked(self.txs(), kept@);
        let mut out: Vec<usize> = Vec::with_capacity(kept.len());
        let mut i: usize = 0;
        assert(picked(self.txs(), out@) =~= elsewhere(all.take(0), pos)) by {
            reveal(Seq::filter);
        }
        while i < kept.len()
            invariant
                i <= kept@.len(),
                all == picked(self.txs(), kept@),
                forall|j: int| 0 <= j < kept@.len() ==> #[trigger] kept@[j] < self.rows@.len(),
                forall|j: int| 0 <= j < out@.len() ==> kept@.contains(#[trigger] out@[j]),
                picked(self.txs(), out@) == elsewhere(all.take(i as int), pos),
            decreases kept@.len() - i,
        {
            let at: usize = kept[i];
            let ghost was = out@;
            proof {
                reveal(Seq::filter);
                assert(all.take(i + 1).drop_last() =~= all.take(i as int));
                assert(all.take(i + 1).last() == self.rows@[at as int]@);
            }
            if self.rows[at].position != pos {
                out.push(at);
                assert(picked(self.txs(), out@) =~= picked(self.txs(), was).push(
                    self.rows@[at as int]@,
                ));
            }
            i = i + 1;
        }
        assert(all.take(i as int) =~= all);
        out
    }

    /// The positions at which rows of the plan may replace stored ones.
    fn replacing_positions(&self) -> (r: Vec<Position>)
        ensures
            r@.len() == replacing(*self).len(),
            forall|i: int|
                0 <= i < r@.len() ==> #[trigger] r@[i] == replacing(*self)[i].position,
    {
        let kept: Vec<usize> = self.standing_rows();
        let ghost txs = standing(self.txs());
        let ghost keep = |tx: Tx| tx.position.block_num < cut_of(*self);
        let mut out: Vec<Position> = Vec::new();
        let mut i: usize = 0;
        assert(txs.take(0).filter(keep) =~= Seq::empty()) by {
            reveal(Seq::filter);
        }
        while i < kept.len()
            invariant
                i <= kept@.len(),
                forall|j: int| 0 <= j < kept@.len() ==> #[trigger] kept@[j] < self.rows@.len(),
                txs == picked(self.txs(), kept@),
                keep == (|tx: Tx| tx.position.block_num < cut_of(*self)),
                out@.len() == txs.take(i as int).filter(keep).len(),
                forall|j: int|
                    0 <= j < out@.len() ==> #[trigger] out@[j] == txs.take(i as int).filter(
                        keep,
                    )[j].position,
            decreases kept@.len() - i,
        {
            let pos: Position = self.rows[kept[i]].position;
            proof {
                reveal(Seq::filter);
                assert(txs.take(i + 1).drop_last() =~= txs.take(i as int));
                assert(txs.take(i + 1).last() == self.rows@[kept@[i as int] as int]@);
            }
            let replaces: bool = match self.revert_from {
                Some(from) => pos.block_num < from,
                None => true,
            };
            if replaces {
                out.push(pos);
            }
            i = i + 1;
        }
        assert(txs.take(i as int) =~= txs);
        out
    }
}

/// The rows at some places of a list.
spec fn picked(txs: Seq<Tx>, places: Seq<usize>) -> Seq<Tx> {
    Seq::new(places.len(), |j: int| txs[places[j] as int])
}

// ---- the writes

/// A plan under way: its writes to rows and entries, and what it comes to for each counter.
pub struct Draft {
    ops: Vec<Op>,
    keys: Vec<Vec<u8>>,
    deltas: Vec<i128>,
    tip: Option<Tip>,
}

impl Draft {
    #[verifier::type_invariant]
    spec fn bounded(self) -> bool {
        &&& self.keys@.len() == self.deltas@.len()
        &&& forall|i: int|
            0 <= i < self.deltas@.len() ==> -(usize::MAX as int) <= #[trigger] self.deltas@[i]
                <= usize::MAX
    }

    /// The writes to rows and entries.
    pub closed spec fn rows(self) -> Seq<Write> {
        writes(self.ops@)
    }

    /// What the plan comes to for each counter it touches.
    pub closed spec fn sums(self) -> Seq<(Seq<u8>, int)> {
        sum_views(self.keys@, self.deltas@)
    }

    /// The tip to record.
    pub closed spec fn tip(self) -> Option<Tip> {
        self.tip
    }
}

/// Take a stored row back out of the index: drop the secondary entries it owns and
/// discount it. The primary row itself is the caller's to drop or overwrite.
///
/// The one place a row stops counting, so a revert and a replacement cannot come to
/// disagree about what a row was holding.
fn forget(ops: &mut Vec<Op>, changes: &mut Vec<Change>, row: &IndexedTx)
    ensures
        writes(final(ops)@) == writes(old(ops)@) + forget_writes(row@),
        change_views(final(changes)@) == change_views(old(changes)@) + row_changes(row@, -1),
{
    let owned: Vec<(Keyspace, Vec<u8>)> = secondaries(row);
    let ghost want = forget_writes(row@);
    let ghost base = writes(ops@);
    let mut i: usize = 0;
    assert(base + want.take(0) =~= base);
    while i < owned.len()
        invariant
            i <= owned@.len(),
            want == forget_writes(row@),
            column_views(owned@) == row_columns(row@),
            writes(ops@) == base + want.take(i as int),
        decreases owned@.len() - i,
    {
        let ghost was = ops@;
        let op: Op = Op::Delete {
            keyspace: owned[i].0,
            key: sec_key(owned[i].1.as_slice(), row.position),
        };
        assert(column_views(owned@)[i as int] == row_columns(row@)[i as int]);
        assert(op@ == want[i as int]);
        ops.push(op);
        assert(writes(ops@) =~= writes(was).push(want[i as int]));
        assert(writes(ops@) =~= base + want.take(i + 1));
        i = i + 1;
    }
    assert(want.take(i as int) =~= want);
    recount(changes, row, false);
}

/// Put a row, and the secondary entries it owns, and count it.
fn record(ops: &mut Vec<Op>, changes: &mut Vec<Change>, row: &IndexedTx)
    ensures
        writes(final(ops)@) == writes(old(ops)@) + put_writes(row@),
        change_views(final(changes)@) == change_views(old(changes)@) + row_changes(row@, 1),
{
    let ghost want = put_writes(row@);
    let ghost base = writes(ops@);
    let first: Op = Op::Put {
        keyspace: Keyspace::Primary,
        key: pos_key(row.position),
        value: encode_row(row),
    };
    assert(first@ == want[0]);
    ops.push(first);
    assert(writes(ops@) =~= base + want.take(1));
    let owned: Vec<(Keyspace, Vec<u8>)> = secondaries(row);
    let mut i: usize = 0;
    while i < owned.len()
        invariant
            i <= owned@.len(),
            want == put_writes(row@),
            column_views(owned@) == row_columns(row@),
            writes(ops@) == base + want.take(i + 1),
        decreases owned@.len() - i,
    {
        let ghost was = ops@;
        let empty: Vec<u8> = Vec::new();
        assert(empty@ =~= Seq::<u8>::empty());
        let op: Op = Op::Put {
            keyspace: owned[i].0,
            key: sec_key(owned[i].1.as_slice(), row.position),
            value: empty,
        };
        assert(column_views(owned@)[i as int] == row_columns(row@)[i as int]);
        assert(op@ == want[i + 1]);
        ops.push(op);
        assert(writes(ops@) =~= writes(was).push(want[i + 1]));
        assert(writes(ops@) =~= base + want.take(i + 2));
        i = i + 1;
    }
    assert(want.take(i + 1) =~= want);
    recount(changes, row, true);
}

/// Count a row in or out of each counter it contributes to.
fn recount(changes: &mut Vec<Change>, row: &IndexedTx, gain: bool)
    ensures
        change_views(final(changes)@) == change_views(old(changes)@) + row_changes(
            row@,
            if gain {
                1
            } else {
                -1
            },
        ),
{
    let keys: Vec<Vec<u8>> = counters(row);
    let ghost by: int = if gain {
        1
    } else {
        -1
    };
    let ghost want = row_changes(row@, by);
    let ghost base = change_views(changes@);
    let ghost all = keys@;
    assert(base + want.take(0) =~= base);
    for key in it: keys
        invariant
            it.seq() == all,
            want == row_changes(row@, by),
            by == (if gain {
                1int
            } else {
                -1
            }),
            key_views(all) == row_counters(row@),
            change_views(changes@) == base + want.take(it.index() as int),
    {
        let ghost was = changes@;
        let ghost i = it.index() as int;
        assert(key_views(all)[i] == row_counters(row@)[i]);
        changes.push(Change { key, gain });
        assert(change_views(changes@) =~= change_views(was).push(want[i]));
        assert(change_views(changes@) =~= base + want.take(i + 1));
    }
    assert(want.take(all.len() as int) =~= want);
}

impl Draft {
    /// What a plan makes of what was read: the entries of the primary keyspace from
    /// [`Plan::revert_start`] on, and what stands at each of [`Plan::replacing_keys`].
    ///
    /// A revert must scrub every keyspace by hand: a block's secondary entries are
    /// not contiguous (their prefix is an address or a type), so each is rebuilt from
    /// the primary row being dropped. Miss one and that keyspace serves ghosts.
    pub fn prepare(
        plan: &Plan,
        entries: &Vec<(Vec<u8>, Vec<u8>)>,
        stored: &Vec<Option<Vec<u8>>>,
    ) -> (r: Result<Draft, Error>)
        requires
            stored@.len() == replacing(*plan).len(),
        ensures
            match first_fault(read_faults(entry_views(entries@), value_views(stored@))) {
                Some(e) => r == Err::<Draft, Error>(e),
                None => {
                    &&& r is Ok
                    &&& r->Ok_0.rows() == row_writes(
                        *plan,
                        entry_views(entries@),
                        value_views(stored@),
                    )
                    &&& sums_up(
                        all_changes(*plan, entry_views(entries@), value_views(stored@)),
                        r->Ok_0.sums(),
                    )
                    &&& r->Ok_0.tip() == plan.tip
                },
            },
    {
        let mut ops: Vec<Op> = Vec::new();
        let mut changes: Vec<Change> = Vec::new();
        let ghost found = entry_views(entries@);
        let ghost held = value_views(stored@);
        let ghost faults = read_faults(found, held);
        proof {
            assert(writes(ops@) =~= drop_all(found.take(0)));
            assert(change_views(changes@) =~= change_all(dropped_rows(found.take(0)), -1));
        }
        let mut i: usize = 0;
        while i < entries.len()
            invariant
                i <= entries@.len(),
                found == entry_views(entries@),
                held == value_views(stored@),
                faults == read_faults(found, held),
                first_fault(faults.take(i as int)) is None,
                writes(ops@) == drop_all(found.take(i as int)),
                change_views(changes@) == change_all(dropped_rows(found.take(i as int)), -1),
            decreases entries@.len() - i,
        {
            let ghost e = found[i as int];
            proof {
                lemma_next_fault(faults, i as int);
                assert(faults[i as int] == entry_fault(e));
                assert(found.take(i + 1).drop_last() =~= found.take(i as int));
                assert(found.take(i + 1).last() == e);
                assert(dropped_rows(found.take(i + 1)).drop_last() =~= dropped_rows(
                    found.take(i as int),
                ));
            }
            let (key, val) = (&entries[i].0, &entries[i].1);
            let pos: Position = match pos_from_key(key.as_slice()) {
                Ok(pos) => pos,
                Err(e) => return Err(e),
            };
            let row: IndexedTx = match decode_row(pos, val.as_slice()) {
                Ok(row) => row,
                Err(e) => return Err(e),
            };
            let ghost was = ops@;
            ops.push(Op::Delete { keyspace: Keyspace::Primary, key: copied(key.as_slice()) });
            assert(writes(ops@) =~= writes(was) + seq![delete(Keyspace::Primary, e.0)]);
            forget(&mut ops, &mut changes, &row);
            i = i + 1;
        }
        assert(found.take(i as int) =~= found);
        let ghost drops = drop_all(found);
        let ghost losses = change_all(dropped_rows(found), -1);
        let positions: Vec<Position> = plan.replacing_positions();
        let ghost targets = replacing(*plan);
        proof {
            assert(writes(ops@) =~= drops + forget_all(replaced_rows(targets.take(0), held)));
            assert(change_views(changes@) =~= losses + change_all(
                replaced_rows(targets.take(0), held),
                -1,
            ));
        }
        let mut j: usize = 0;
        while j < positions.len()
            invariant
                j <= positions@.len(),
                stored@.len() == positions@.len(),
                positions@.len() == targets.len(),
                forall|k: int|
                    0 <= k < positions@.len() ==> #[trigger] positions@[k] == targets[k].position,
                held == value_views(stored@),
                found == entry_views(entries@),
                faults == read_faults(found, held),
                first_fault(faults.take(found.len() + j)) is None,
                writes(ops@) == drops + forget_all(replaced_rows(targets.take(j as int), held)),
                change_views(changes@) == losses + change_all(
                    replaced_rows(targets.take(j as int), held),
                    -1,
                ),
            decreases positions@.len() - j,
        {
            proof {
                lemma_next_fault(faults, found.len() + j);
                assert(faults[found.len() + j] == stored_fault(held[j as int]));
                assert(targets.take(j + 1).drop_last() =~= targets.take(j as int));
                assert(targets.take(j + 1).last() == targets[j as int]);
            }
            if let Some(val) = &stored[j] {
                let row: IndexedTx = match decode_row(positions[j], val.as_slice()) {
                    Ok(row) => row,
                    Err(e) => return Err(e),
                };
                let ghost head = replaced_rows(targets.take(j as int), held);
                let ghost more = replaced_rows(targets.take(j + 1), held);
                forget(&mut ops, &mut changes, &row);
                proof {
                    assert(held[j as int] == Some(val@));
                    assert(more == head.push(row@));
                    assert(more.drop_last() =~= head);
                    assert(writes(ops@) =~= drops + forget_all(more));
                    assert(change_views(changes@) =~= losses + change_all(more, -1));
                }
            } else {
                assert(held[j as int] is None);
            }
            j = j + 1;
        }
        assert(targets.take(j as int) =~= targets);
        assert(faults.take(found.len() + j) =~= faults);
        let ghost removed = drops + forget_all(replaced_rows(targets, held));
        let ghost lost = losses + change_all(replaced_rows(targets, held), -1);
        let kept: Vec<usize> = plan.standing_rows();
        let ghost txs = standing(plan.txs());
        proof {
            assert(writes(ops@) =~= removed + put_all(txs.take(0)));
            assert(change_views(changes@) =~= lost + change_all(txs.take(0), 1));
        }
        let mut k: usize = 0;
        while k < kept.len()
            invariant
                k <= kept@.len(),
                forall|j: int| 0 <= j < kept@.len() ==> #[trigger] kept@[j] < plan.rows@.len(),
                txs == picked(plan.txs(), kept@),
                writes(ops@) == removed + put_all(txs.take(k as int)),
                change_views(changes@) == lost + change_all(txs.take(k as int), 1),
            decreases kept@.len() - k,
        {
            proof {
                assert(txs.take(k + 1).drop_last() =~= txs.take(k as int));
                assert(txs.take(k + 1).last() == plan.rows@[kept@[k as int] as int]@);
            }
            record(&mut ops, &mut changes, &plan.rows[kept[k]]);
            proof {
                assert(writes(ops@) =~= removed + put_all(txs.take(k + 1)));
                assert(change_views(changes@) =~= lost + change_all(txs.take(k + 1), 1));
            }
            k = k + 1;
        }
        assert(txs.take(k as int) =~= txs);
        let (keys, deltas) = sum_up(&changes);
        Ok(Draft { ops, keys, deltas, tip: plan.tip })
    }

    /// The keys of the counters to look up.
    pub fn counters(&self) -> (r: &Vec<Vec<u8>>)
        ensures
            key_views(r@) == self.sums().map_values(|s: (Seq<u8>, int)| s.0),
    {
        proof {
            use_type_invariant(self);
            assert(key_views(self.keys@) =~= self.sums().map_values(|s: (Seq<u8>, int)| s.0));
        }
        &self.keys
    }

    /// The whole batch, given what each of [`Draft::counters`] stands at.
    ///
    /// The counts land in the same batch as the rows they describe, so a crash cannot leave
    /// one without the other.
    pub fn finish(self, counts: &Vec<Option<Vec<u8>>>) -> (r: Result<Vec<Op>, Error>)
        requires
            counts@.len() == self.sums().len(),
        ensures
            match first_fault(count_faults(value_views(counts@))) {
                Some(e) => r == Err::<Vec<Op>, Error>(e),
                None => {
                    &&& r is Ok
                    &&& writes(r->Ok_0@) == self.rows() + count_writes(
                        self.sums(),
                        value_views(counts@),
                    ) + tip_writes(self.tip())
                },
            },
    {
        proof {
            use_type_invariant(&self);
        }
        let ghost sums = self.sums();
        let ghost held = value_views(counts@);
        let ghost want = count_writes(sums, held);
        let ghost faults = count_faults(held);
        let ghost base = self.rows();
        let mut ops: Vec<Op> = self.ops;
        let mut i: usize = 0;
        assert(base + want.take(0) =~= base);
        while i < counts.len()
            invariant
                i <= counts@.len(),
                counts@.len() == sums.len(),
                sums == sum_views(self.keys@, self.deltas@),
                self.bounded(),
                held == value_views(counts@),
                want == count_writes(sums, held),
                faults == count_faults(held),
                first_fault(faults.take(i as int)) is None,
                writes(ops@) == base + want.take(i as int),
            decreases counts@.len() - i,
        {
            proof {
                lemma_next_fault(faults, i as int);
                assert(faults[i as int] == count_fault(held[i as int]));
            }
            let now: u64 = match &counts[i] {
                None => 0,
                Some(val) => match decode_count(val.as_slice()) {
                    Ok(now) => now,
                    Err(e) => return Err(e),
                },
            };
            assert(now == count_value(held[i as int]));
            let delta: i128 = self.deltas[i];
            let sum: i128 = now as i128 + delta;
            let next: u64 = if sum < 0 {
                0
            } else if sum > u64::MAX as i128 {
                u64::MAX
            } else {
                sum as u64
            };
            assert(next == next_count(now as int, delta as int));
            let key: Vec<u8> = copied(self.keys[i].as_slice());
            let op: Op = if next == 0 {
                Op::Delete { keyspace: Keyspace::Count, key }
            } else {
                Op::Put { keyspace: Keyspace::Count, key, value: encode_count(next) }
            };
            let ghost was = ops@;
            assert(op@ == want[i as int]);
            ops.push(op);
            assert(writes(ops@) =~= writes(was).push(want[i as int]));
            assert(writes(ops@) =~= base + want.take(i + 1));
            i = i + 1;
        }
        assert(want.take(i as int) =~= want);
        assert(faults.take(i as int) =~= faults);
        let ghost was = ops@;
        if let Some(tip) = self.tip {
            ops.push(Op::Put { keyspace: Keyspace::Meta, key: tip_key(), value: encode_tip(tip) });
        }
        assert(writes(ops@) =~= writes(was) + tip_writes(self.tip));
        Ok(ops)
    }
}

/// Where nothing is wrong, there is no first fault.
pub proof fn lemma_no_fault(faults: Seq<Option<Error>>)
    requires
        forall|i: int| 0 <= i < faults.len() ==> (#[trigger] faults[i]) is None,
    ensures
        first_fault(faults) is None,
    decreases faults.len(),
{
    if faults.len() > 0 {
        let head = faults.drop_last();
        assert forall|i: int| 0 <= i < head.len() implies (#[trigger] head[i]) is None by {
            assert(faults[i] is None);
        }
        lemma_no_fault(head);
        assert(faults[faults.len() - 1] is None);
    }
}

/// One fault further along: the first one so far, where there is none before it.
pub proof fn lemma_next_fault(faults: Seq<Option<Error>>, i: int)
    requires
        0 <= i < faults.len(),
        first_fault(faults.take(i)) is None,
    ensures
        first_fault(faults.take(i + 1)) == faults[i],
        faults[i] is Some ==> first_fault(faults) == faults[i],
{
    assert(faults.take(i + 1).drop_last() =~= faults.take(i));
    if faults[i] is Some {
        lemma_fault_stays(faults, i + 1);
    }
}

proof fn lemma_fault_stays(faults: Seq<Option<Error>>, i: int)
    requires
        0 <= i <= faults.len(),
        first_fault(faults.take(i)) is Some,
    ensures
        first_fault(faults) == first_fault(faults.take(i)),
    decreases faults.len() - i,
{
    if i < faults.len() {
        assert(faults.take(i + 1).drop_last() =~= faults.take(i));
        lemma_fault_stays(faults, i + 1);
    } else {
        assert(faults.take(i) =~= faults);
    }
}

// ---- what is read for a plan

/// A revert reads from the first position of its block on: what it reads is what lies in that
/// block or above, and nothing below. A plan that reverts nothing reads nothing so.
pub proof fn a_revert_reads_its_block_and_everything_above(
    plan: &Plan,
    start: Option<Vec<u8>>,
    pos: Position,
    key: Vec<u8>,
)
    requires
        call_ensures(Plan::revert_start, (plan,), start),
        call_ensures(pos_key, (pos,), key),
    ensures
        start is Some <==> plan.revert_from is Some,
        start is Some ==> (start->0@ == key@ <==> pos.block_num == plan.revert_from->0
            && pos.tx_index == 0),
        start is Some ==> (start->0@ == key@ || lex_lt(start->0@, key@) <==> pos.block_num
            >= plan.revert_from->0),
{
    if plan.revert_from is Some {
        let first = Position { block_num: plan.revert_from->0, tx_index: 0 };
        keys_sort_as_positions(Seq::empty(), first, pos);
        assert(entry_key(Seq::empty(), first) =~= position_key(first));
        assert(entry_key(Seq::empty(), pos) =~= position_key(pos));
    }
}

/// What rows of a plan may replace is looked up at the key of every position that the plan puts a
/// row at, below its cut where it has one: at each once, and at no other.
pub proof fn every_replaced_position_is_looked_up_once(
    plan: &Plan,
    keys: Vec<Vec<u8>>,
    pos: Position,
    key: Vec<u8>,
)
    requires
        call_ensures(Plan::replacing_keys, (plan,), keys),
        call_ensures(pos_key, (pos,), key),
    ensures
        (exists|i: int| 0 <= i < keys@.len() && (#[trigger] keys@[i])@ == key@) <==> (exists|j: int|
            0 <= j < plan.rows@.len() && (#[trigger] plan.rows@[j]).position == pos) && (
        plan.revert_from is Some ==> pos.block_num < plan.revert_from->0),
        forall|i: int, j: int|
            0 <= i < j < keys@.len() ==> (#[trigger] keys@[i])@ != (#[trigger] keys@[j])@,
{
    let txs = plan.txs();
    let stand = standing(txs);
    let keep = |tx: Tx| tx.position.block_num < cut_of(*plan);
    let list = replacing(*plan);
    let want = list.map_values(|tx: Tx| position_key(tx.position));
    lemma_standing(Map::empty(), txs);
    assert(key_views(keys@).len() == keys@.len());
    assert forall|i: int| 0 <= i < keys@.len() implies (#[trigger] keys@[i])@ == position_key(
        list[i].position,
    ) by {
        assert(key_views(keys@)[i] == keys@[i]@);
        assert(want[i] == position_key(list[i].position));
    }
    lemma_kept_distinct(stand, keep);
    assert forall|i: int, j: int| 0 <= i < j < keys@.len() implies (#[trigger] keys@[i])@ != (
    #[trigger] keys@[j])@ by {
        lemma_position_key(list[i].position);
        lemma_position_key(list[j].position);
        assert(list[i].position != list[j].position);
    }
    lemma_position_key(pos);
    if exists|i: int| 0 <= i < keys@.len() && (#[trigger] keys@[i])@ == key@ {
        let i = choose|i: int| 0 <= i < keys@.len() && (#[trigger] keys@[i])@ == key@;
        let tx = list[i];
        lemma_position_key(tx.position);
        assert(list.contains(tx));
        lemma_filtered(stand, keep, tx);
        only_the_last_row_at_a_position_stands(txs, tx);
        let j = choose|j: int|
            {
                &&& 0 <= j < txs.len()
                &&& #[trigger] txs[j] == tx
                &&& forall|k: int| j < k < txs.len() ==> (#[trigger] txs[k]).position != tx.position
            };
        assert(plan.rows@[j]@ == txs[j]);
        assert(plan.rows@[j].position == pos);
    }
    if (exists|j: int| 0 <= j < plan.rows@.len() && (#[trigger] plan.rows@[j]).position == pos) && (
    plan.revert_from is Some ==> pos.block_num < plan.revert_from->0) {
        let j = choose|j: int| 0 <= j < plan.rows@.len() && (#[trigger] plan.rows@[j]).position == pos;
        assert(txs[j] == plan.rows@[j]@);
        let last = lemma_last_at(txs, pos, j);
        let tx = txs[last];
        only_the_last_row_at_a_position_stands(txs, tx);
        lemma_filtered(stand, keep, tx);
        let i = choose|i: int| 0 <= i < list.len() && list[i] == tx;
        assert(keys@[i]@ == key@);
    }
}

proof fn lemma_kept_distinct(txs: Seq<Tx>, keep: spec_fn(Tx) -> bool)
    requires
        distinct_positions(txs),
    ensures
        distinct_positions(txs.filter(keep)),
    decreases txs.len(),
{
    reveal(Seq::filter);
    if txs.len() > 0 {
        let head = txs.drop_last();
        let kept = head.filter(keep);
        lemma_distinct_prefix(txs);
        lemma_kept_distinct(head, keep);
        assert forall|i: int| 0 <= i < kept.len() implies (#[trigger] kept[i]).position
            != txs.last().position by {
            assert(kept.contains(kept[i]));
            lemma_filtered(head, keep, kept[i]);
            let j = choose|j: int| 0 <= j < head.len() && head[j] == kept[i];
            assert(head[j].position != txs.last().position);
        }
    }
}

// ---- what is reported

/// Of some faults the first is reported, and none only where there is none.
pub proof fn the_first_fault_is_reported(faults: Seq<Option<Error>>, i: int)
    ensures
        first_fault(faults) is None <==> forall|j: int|
            0 <= j < faults.len() ==> (#[trigger] faults[j]) is None,
        0 <= i < faults.len() && faults[i] is Some && (forall|j: int|
            0 <= j < i ==> (#[trigger] faults[j]) is None) ==> first_fault(faults) == faults[i],
{
    if forall|j: int| 0 <= j < faults.len() ==> (#[trigger] faults[j]) is None {
        lemma_no_fault(faults);
    } else {
        let k = choose|k: int| 0 <= k < faults.len() && (#[trigger] faults[k]) is Some;
        if first_fault(faults.take(k)) is None {
            lemma_next_fault(faults, k);
        } else {
            lemma_fault_stays(faults, k);
        }
    }
    if 0 <= i < faults.len() && faults[i] is Some && (forall|j: int|
        0 <= j < i ==> (#[trigger] faults[j]) is None) {
        let head = faults.take(i);
        assert forall|j: int| 0 <= j < head.len() implies (#[trigger] head[j]) is None by {
            assert(faults[j] is None);
        }
        lemma_no_fault(head);
        lemma_next_fault(faults, i);
    }
}

/// Whether an entry of the primary keyspace is the key of a position and a row.
pub open spec fn sound_entry(entry: (Vec<u8>, Vec<u8>)) -> bool {
    entry.0@.len() == 12 && is_row(entry.1@)
}

/// Whether a value that was looked up is a row, or absent.
pub open spec fn sound_value(value: Option<Vec<u8>>) -> bool {
    value is Some ==> is_row((value->0)@)
}

/// A plan is prepared exactly where all that was read for it is sound; else the first thing that is
/// not is reported, by its length: entries before values, and an entry's key before its row.
pub proof fn what_was_read_is_sound_or_reported(
    plan: &Plan,
    entries: &Vec<(Vec<u8>, Vec<u8>)>,
    stored: &Vec<Option<Vec<u8>>>,
    r: Result<Draft, Error>,
    i: int,
)
    requires
        call_ensures(Draft::prepare, (plan, entries, stored), r),
    ensures
        r is Ok <==> (forall|j: int|
            0 <= j < entries@.len() ==> sound_entry(#[trigger] entries@[j])) && (forall|j: int|
            0 <= j < stored@.len() ==> sound_value(#[trigger] stored@[j])),
        0 <= i < entries@.len() && (forall|j: int|
            0 <= j < i ==> sound_entry(#[trigger] entries@[j])) && entries@[i].0@.len() != 12
            ==> r == Err::<Draft, Error>(Error::PositionKey(entries@[i].0@.len() as usize)),
        0 <= i < entries@.len() && (forall|j: int|
            0 <= j < i ==> sound_entry(#[trigger] entries@[j])) && entries@[i].0@.len() == 12
            && !is_row(entries@[i].1@) ==> r == Err::<Draft, Error>(
            Error::Row(entries@[i].1@.len() as usize),
        ),
        0 <= i < stored@.len() && (forall|j: int|
            0 <= j < entries@.len() ==> sound_entry(#[trigger] entries@[j])) && (forall|j: int|
            0 <= j < i ==> sound_value(#[trigger] stored@[j])) && !sound_value(stored@[i]) ==> r
            == Err::<Draft, Error>(Error::Row((stored@[i]->0)@.len() as usize)),
{
    let found = entry_views(entries@);
    let held = value_views(stored@);
    let faults = read_faults(found, held);
    let n = found.len() as int;
    assert(faults.len() == n + held.len());
    assert forall|j: int| 0 <= j < entries@.len() implies (#[trigger] faults[j] is None
        <==> sound_entry(entries@[j])) && faults[j] == entry_fault(
        (entries@[j].0@, entries@[j].1@),
    ) by {
        assert(found[j] == (entries@[j].0@, entries@[j].1@));
    }
    assert forall|j: int| 0 <= j < stored@.len() implies (faults[n + j] is None <==> sound_value(
        #[trigger] stored@[j],
    )) && faults[n + j] == stored_fault(value_view(stored@[j])) by {
        assert(held[j] == value_view(stored@[j]));
    }
    the_first_fault_is_reported(faults, i);
    the_first_fault_is_reported(faults, n + i);
    if (forall|j: int| 0 <= j < entries@.len() ==> sound_entry(#[trigger] entries@[j])) && (forall|
        j: int,
    |
        0 <= j < stored@.len() ==> sound_value(#[trigger] stored@[j])) {
        assert forall|j: int| 0 <= j < faults.len() implies (#[trigger] faults[j]) is None by {
            if j < n {
                assert(sound_entry(entries@[j]));
            } else {
                assert(sound_value(stored@[j - n]));
            }
        }
    }
    if forall|j: int| 0 <= j < faults.len() ==> (#[trigger] faults[j]) is None {
        assert forall|j: int| 0 <= j < entries@.len() implies sound_entry(
            #[trigger] entries@[j],
        ) by {
            assert(faults[j] is None);
        }
        assert forall|j: int| 0 <= j < stored@.len() implies sound_value(#[trigger] stored@[j]) by {
            assert(faults[n + j] is None);
        }
    }
    if 0 <= i < entries@.len() && (forall|j: int|
        0 <= j < i ==> sound_entry(#[trigger] entries@[j])) {
        assert forall|j: int| 0 <= j < i implies (#[trigger] faults[j]) is None by {
            assert(sound_entry(entries@[j]));
        }
    }
    if 0 <= i < stored@.len() && (forall|j: int|
        0 <= j < entries@.len() ==> sound_entry(#[trigger] entries@[j])) && (forall|j: int|
        0 <= j < i ==> sound_value(#[trigger] stored@[j])) {
        assert forall|j: int| 0 <= j < n + i implies (#[trigger] faults[j]) is None by {
            if j < n {
                assert(sound_entry(entries@[j]));
            } else {
                assert(sound_value(stored@[j - n]));
            }
        }
    }
}

// ---- what is written

/// A counter goes to the sum of what it stood at and what is added, as far as it can count: never
/// below nothing, nor above the greatest it can hold.
pub proof fn a_counter_saturates(now: int, delta: int)
    ensures
        0 <= now + delta <= u64::MAX ==> next_count(now, delta) == now + delta,
        now + delta < 0 ==> next_count(now, delta) == 0,
        now + delta > u64::MAX ==> next_count(now, delta) == u64::MAX,
{
}

/// Whether a counter that was looked up is eight bytes, or absent.
pub open spec fn sound_count(value: Option<Vec<u8>>) -> bool {
    value is Some ==> (value->0)@.len() == 8
}

/// The batch is the writes to rows and entries, then one write for each counter, then the tip. A
/// counter that comes to nothing is deleted, and any other put in eight bytes. It is made exactly
/// where every counter that was looked up is sound; else the first that is not is reported by its
/// length.
pub proof fn counters_are_written_for_what_they_come_to(
    draft: Draft,
    counts: &Vec<Option<Vec<u8>>>,
    r: Result<Vec<Op>, Error>,
    i: int,
)
    requires
        call_ensures(Draft::finish, (draft, counts), r),
        counts@.len() == draft.sums().len(),
    ensures
        r is Ok <==> forall|j: int| 0 <= j < counts@.len() ==> sound_count(#[trigger] counts@[j]),
        0 <= i < counts@.len() && (forall|j: int|
            0 <= j < i ==> sound_count(#[trigger] counts@[j])) && !sound_count(counts@[i]) ==> r
            == Err::<Vec<Op>, Error>(Error::Count((counts@[i]->0)@.len() as usize)),
        r is Ok ==> {
            let ops = r->Ok_0@;
            let n = draft.rows().len() as int;
            let m = counts@.len() as int;
            &&& ops.len() == n + m + (if draft.tip() is Some {
                1int
            } else {
                0
            })
            &&& 0 <= i < n ==> ops[i]@ == draft.rows()[i]
            &&& 0 <= i < m ==> {
                let w = ops[n + i]@;
                let now = if counts@[i] is Some {
                    be_value((counts@[i]->0)@)
                } else {
                    0
                };
                let sum = now + draft.sums()[i].1;
                &&& w.keyspace is Count
                &&& w.key == draft.sums()[i].0
                &&& w.value is None <==> sum <= 0
                &&& sum > 0 ==> (w.value->0).len() == 8
                &&& 0 < sum <= u64::MAX ==> be_value(w.value->0) == sum
                &&& sum > u64::MAX ==> be_value(w.value->0) == u64::MAX
            }
            &&& draft.tip() is Some ==> {
                let w = ops[n + m]@;
                &&& w.keyspace is Meta
                &&& w.key == tip_key_bytes()
                &&& w.value == Some(tip_bytes(draft.tip()->0))
            }
        },
{
    let held = value_views(counts@);
    let faults = count_faults(held);
    assert forall|j: int| 0 <= j < counts@.len() implies (#[trigger] faults[j] is None
        <==> sound_count(counts@[j])) && faults[j] == count_fault(value_view(counts@[j])) by {
        assert(held[j] == value_view(counts@[j]));
    }
    the_first_fault_is_reported(faults, i);
    if forall|j: int| 0 <= j < counts@.len() ==> sound_count(#[trigger] counts@[j]) {
        assert forall|j: int| 0 <= j < faults.len() implies (#[trigger] faults[j]) is None by {
            assert(sound_count(counts@[j]));
        }
    }
    if forall|j: int| 0 <= j < faults.len() ==> (#[trigger] faults[j]) is None {
        assert forall|j: int| 0 <= j < counts@.len() implies sound_count(#[trigger] counts@[j]) by {
            assert(faults[j] is None);
        }
    }
    if 0 <= i < counts@.len() && (forall|j: int|
        0 <= j < i ==> sound_count(#[trigger] counts@[j])) {
        assert forall|j: int| 0 <= j < i implies (#[trigger] faults[j]) is None by {
            assert(sound_count(counts@[j]));
        }
    }
    if r is Ok {
        let ops = r->Ok_0@;
        let all = writes(ops);
        let n = draft.rows().len() as int;
        assert(all.len() == ops.len());
        assert(forall|k: int| 0 <= k < ops.len() ==> all[k] == (#[trigger] ops[k])@);
        if 0 <= i < counts@.len() {
            let w = count_write(draft.sums()[i], held[i]);
            assert(all[n + i] == w);
            assert(ops[n + i]@ == w);
            assert(held[i] == value_view(counts@[i]));
            let next = next_count(count_value(held[i]), draft.sums()[i].1) as u64;
            lemma_be_u64(0, next);
        }
        if 0 <= i < n {
            assert(ops[i]@ == all[i]);
        }
        if draft.tip() is Some {
            assert(ops[n + counts@.len()]@ == all[n + counts@.len()]);
        }
    }
}

} // verus!
