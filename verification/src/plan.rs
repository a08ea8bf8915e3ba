//! What a change to the chain means for the index.

use vstd::prelude::*;

use crate::entries::{lemma_filtered, lemma_pushed};
use crate::position::Position;
use crate::types::{views, IndexedTx, Tip, Tx};

verus! {

/// Everything one change to the chain means for the index: what to drop, what to
/// insert, where the index stands afterwards.
///
/// Built by whoever watches the chain and applied whole, so the parts cannot be applied
/// separately and drift.
#[derive(Debug, PartialEq, Eq)]
pub struct Plan {
    /// Drop this block and everything above it.
    pub revert_from: Option<u64>,
    /// Rows to insert, in chain order.
    pub rows: Vec<IndexedTx>,
    /// Where the index stands afterwards: the resume point after a restart.
    pub tip: Option<Tip>,
    /// The committed tip, for acknowledging progress upstream. `None` for a pure
    /// revert: acknowledging one as progress lets the node prune history the index
    /// still needs replayed.
    pub committed: Option<Tip>,
}

/// The rows that a plan's inserts leave, inserted one after another.
pub open spec fn insert_all(rows: Map<Position, Tx>, more: Seq<Tx>) -> Map<Position, Tx>
    decreases more.len(),
{
    if more.len() == 0 {
        rows
    } else {
        insert_all(rows, more.drop_last()).insert(more.last().position, more.last())
    }
}

/// The rows of a list that are left standing: of those at one position, the last.
pub open spec fn standing(txs: Seq<Tx>) -> Seq<Tx>
    decreases txs.len(),
{
    if txs.len() == 0 {
        Seq::empty()
    } else {
        elsewhere(standing(txs.drop_last()), txs.last().position).push(txs.last())
    }
}

/// The rows of a list that are not at a position.
pub open spec fn elsewhere(txs: Seq<Tx>, p: Position) -> Seq<Tx> {
    txs.filter(|tx: Tx| tx.position != p)
}

/// The rows below a cut; all of them where there is none.
pub open spec fn below(rows: Map<Position, Tx>, cut: Option<u64>) -> Map<Position, Tx> {
    match cut {
        None => rows,
        Some(from) => rows.restrict(
            rows.dom().filter(|p: Position| p.block_num < from),
        ),
    }
}

/// The later of two pieces of knowledge, where there is one.
pub open spec fn later(new: Option<Tip>, old: Option<Tip>) -> Option<Tip> {
    if new is Some {
        new
    } else {
        old
    }
}

impl Plan {
    /// The rows of the plan, as mathematical values.
    pub open spec fn txs(self) -> Seq<Tx> {
        views(self.rows@)
    }

    /// The rows of an index after the plan: without what was reverted, with what was
    /// inserted.
    pub open spec fn outcome(self, rows: Map<Position, Tx>) -> Map<Position, Tx> {
        insert_all(below(rows, self.revert_from), self.txs())
    }

    /// The rows of `self` that a plan to follow it leaves standing.
    pub open spec fn surviving(self, next: Plan) -> Seq<IndexedTx> {
        match next.revert_from {
            None => self.rows@,
            Some(from) => self.rows@.filter(|row: IndexedTx| row.position.block_num < from),
        }
    }

    /// The lower of the two cuts, where either plan has one.
    pub open spec fn lowest_cut(self, next: Plan) -> Option<u64> {
        match (self.revert_from, next.revert_from) {
            (Some(a), Some(b)) => Some(
                if a <= b {
                    a
                } else {
                    b
                },
            ),
            (Some(a), None) => Some(a),
            (None, b) => b,
        }
    }

    /// The commit of `self` that a plan to follow it leaves standing.
    pub open spec fn surviving_commit(self, next: Plan) -> Option<Tip> {
        match (self.committed, next.revert_from) {
            (Some(tip), Some(from)) if tip.block_num >= from => None,
            (committed, _) => committed,
        }
    }

    /// `merged` is `self` with `next` folded into it.
    pub open spec fn merged_into(self, next: Plan, merged: Plan) -> bool {
        &&& merged.revert_from == self.lowest_cut(next)
        &&& merged.rows@ == self.surviving(next) + next.rows@
        &&& merged.tip == later(next.tip, self.tip)
        &&& merged.committed == later(next.committed, self.surviving_commit(next))
    }

    /// Fold `next` into `self`, so that applying the result leaves the index exactly as
    /// applying the two in order would.
    ///
    /// This is what lets an indexer that fell behind catch up in batches: at
    /// sub-second block times, notifications queue faster than one write apiece
    /// can drain them, so the watcher folds everything already queued into a
    /// single atomic write instead of replaying it block by block.
    pub fn merge(&mut self, next: Plan)
        ensures
            old(self).merged_into(next, *final(self)),
            next.committed is Some ==> final(self).committed == next.committed,
            next.committed is None && final(self).committed is Some ==> final(self).committed
                == old(self).committed,
            next.tip is Some ==> final(self).tip == next.tip,
            next.tip is None ==> final(self).tip == old(self).tip,
    {
        let mut next: Plan = next;
        let mut mine: Vec<IndexedTx> = Vec::new();
        std::mem::swap(&mut mine, &mut self.rows);
        if let Some(from) = next.revert_from {
            // Rows this plan would have inserted at or above the cut are orphaned
            // before ever reaching the store; the store's own rows are covered by
            // keeping the lowest cut.
            mine = retain_below(mine, from);
            self.revert_from = match self.revert_from {
                Some(f) => Some(
                    if f <= from {
                        f
                    } else {
                        from
                    },
                ),
                None => Some(from),
            };
            // A commit that only ever existed inside this merge was orphaned with
            // its rows, and must not be acknowledged as progress.
            if let Some(tip) = self.committed {
                if tip.block_num >= from {
                    self.committed = None;
                }
            }
        }
        mine.append(&mut next.rows);
        self.rows = mine;
        // Later knowledge wins; ours stays when `next` learned nothing new
        // (a pure revert carries a tip but no commit).
        if next.tip.is_some() {
            self.tip = next.tip;
        }
        if next.committed.is_some() {
            self.committed = next.committed;
        }
    }
}

/// The rows below block `from`, in order.
fn retain_below(rows: Vec<IndexedTx>, from: u64) -> (r: Vec<IndexedTx>)
    ensures
        r@ == rows@.filter(|row: IndexedTx| row.position.block_num < from),
{
    let ghost all = rows@;
    let ghost keep = |row: IndexedTx| row.position.block_num < from;
    let mut kept: Vec<IndexedTx> = Vec::new();
    assert(all.take(0).filter(keep) =~= Seq::empty()) by {
        reveal(Seq::filter);
    }
    for row in it: rows
        invariant
            it.seq() == all,
            keep == (|row: IndexedTx| row.position.block_num < from),
            kept@ == all.take(it.index() as int).filter(keep),
    {
        let ghost i = it.index() as int;
        proof {
            reveal(Seq::filter);
            assert(all.take(i + 1).drop_last() =~= all.take(i));
            assert(all.take(i + 1).last() == row);
        }
        if row.position.block_num < from {
            kept.push(row);
        }
    }
    assert(all.take(all.len() as int) =~= all);
    kept
}

impl Default for Plan {
    /// A plan that changes nothing.
    fn default() -> (r: Self)
        ensures
            r.revert_from is None,
            r.rows@ == Seq::<IndexedTx>::empty(),
            r.tip is None,
            r.committed is None,
    {
        Self { revert_from: None, rows: Vec::new(), tip: None, committed: None }
    }
}

/// Inserting two lists is inserting the one, then the other.
pub proof fn lemma_insert_all_concat(rows: Map<Position, Tx>, a: Seq<Tx>, b: Seq<Tx>)
    ensures
        insert_all(rows, a + b) == insert_all(insert_all(rows, a), b),
    decreases b.len(),
{
    if b.len() == 0 {
        assert(a + b =~= a);
    } else {
        assert((a + b).drop_last() =~= a + b.drop_last());
        assert((a + b).last() == b.last());
        lemma_insert_all_concat(rows, a, b.drop_last());
    }
}

/// Cutting after inserting is inserting what lies below the cut.
proof fn lemma_below_insert_all(rows: Map<Position, Tx>, more: Seq<IndexedTx>, from: u64)
    ensures
        below(insert_all(rows, views(more)), Some(from)) == insert_all(
            below(rows, Some(from)),
            views(more.filter(|row: IndexedTx| row.position.block_num < from)),
        ),
    decreases more.len(),
{
    reveal(Seq::filter);
    let keep = |row: IndexedTx| row.position.block_num < from;
    if more.len() == 0 {
        assert(views(more) =~= Seq::empty());
        assert(views(more.filter(keep)) =~= Seq::empty());
    } else {
        let head = more.drop_last();
        let last = more.last();
        lemma_below_insert_all(rows, head, from);
        assert(views(more).drop_last() =~= views(head));
        assert(views(more).last() == last@);
        let inner = insert_all(rows, views(head));
        if last.position.block_num < from {
            assert(more.filter(keep) == head.filter(keep).push(last));
            let kept = views(more.filter(keep));
            assert(kept.drop_last() =~= views(head.filter(keep)));
            assert(kept.last() == last@);
            assert(below(inner.insert(last.position, last@), Some(from)) =~= below(
                inner,
                Some(from),
            ).insert(last.position, last@));
        } else {
            assert(below(inner.insert(last.position, last@), Some(from)) =~= below(
                inner,
                Some(from),
            ));
        }
    }
}

/// Folding one plan into another leaves the rows, and the tip, that applying the two in
/// order leaves: for every index, whatever the plans hold.
pub proof fn merge_matches_replay(
    rows: Map<Position, Tx>,
    tip: Option<Tip>,
    first: Plan,
    next: Plan,
    merged: Plan,
)
    requires
        first.merged_into(next, merged),
    ensures
        merged.outcome(rows) == next.outcome(first.outcome(rows)),
        later(merged.tip, tip) == later(next.tip, later(first.tip, tip)),
{
    let kept = first.surviving(next);
    assert(merged.txs() =~= views(kept) + next.txs());
    lemma_insert_all_concat(below(rows, merged.revert_from), views(kept), next.txs());
    if next.revert_from is Some {
        let from = next.revert_from->0;
        lemma_below_insert_all(below(rows, first.revert_from), first.rows@, from);
        assert(below(below(rows, first.revert_from), Some(from)) =~= below(
            rows,
            merged.revert_from,
        ));
    }
}

/// A commit that only ever existed inside a fold is not acknowledged as progress: the commit that
/// a folded plan keeps is the later plan's, or lies below its cut.
pub proof fn an_orphaned_commit_is_not_acknowledged(first: Plan, next: Plan, merged: Plan)
    requires
        first.merged_into(next, merged),
        merged.committed is Some,
    ensures
        merged.committed == next.committed || (merged.committed == first.committed && (
        next.revert_from is Some ==> (merged.committed->0).block_num < next.revert_from->0)),
{
}

/// Applying a plan a second time changes nothing more.
pub proof fn outcome_is_idempotent(rows: Map<Position, Tx>, plan: Plan)
    ensures
        plan.outcome(plan.outcome(rows)) == plan.outcome(rows),
{
    let once = plan.outcome(rows);
    let twice = plan.outcome(once);
    let base = below(rows, plan.revert_from);
    let again = below(once, plan.revert_from);
    assert forall|p: Position|
        #![trigger twice.dom().contains(p)]
        #![trigger once.dom().contains(p)]
        twice.dom().contains(p) == once.dom().contains(p) && (once.dom().contains(p) ==> twice[p]
            == once[p]) by {
        lemma_insert_all_at(base, plan.txs(), p);
        lemma_insert_all_at(again, plan.txs(), p);
        lemma_insert_all_same(base, again, plan.txs(), p);
    }
    assert(twice =~= once);
}

/// A revert drops the block and everything above it: what a plan leaves there is what it inserts,
/// and below the cut every other row stands as it was.
pub proof fn a_revert_drops_the_block_and_everything_above(
    rows: Map<Position, Tx>,
    plan: Plan,
    p: Position,
)
    requires
        plan.revert_from is Some,
        forall|i: int| 0 <= i < plan.txs().len() ==> (#[trigger] plan.txs()[i]).position != p,
    ensures
        p.block_num >= plan.revert_from->0 ==> !plan.outcome(rows).contains_key(p),
        p.block_num < plan.revert_from->0 ==> plan.outcome(rows).contains_key(p)
            == rows.contains_key(p) && (rows.contains_key(p) ==> plan.outcome(rows)[p] == rows[p]),
{
    lemma_insert_all_at(below(rows, plan.revert_from), plan.txs(), p);
}

/// What an insert leaves at a position: the last row for it, else what was there.
pub proof fn lemma_insert_all_at(rows: Map<Position, Tx>, more: Seq<Tx>, p: Position)
    ensures
        (forall|i: int| 0 <= i < more.len() ==> (#[trigger] more[i]).position != p) ==> (insert_all(
            rows,
            more,
        ).contains_key(p) == rows.contains_key(p) && insert_all(rows, more)[p] == rows[p]),
        (exists|i: int| 0 <= i < more.len() && (#[trigger] more[i]).position == p) ==> insert_all(
            rows,
            more,
        ).contains_key(p),
    decreases more.len(),
{
    if more.len() > 0 {
        let head = more.drop_last();
        lemma_insert_all_at(rows, head, p);
        assert(forall|i: int| 0 <= i < head.len() ==> head[i] == more[i]);
        if forall|i: int| 0 <= i < more.len() ==> (#[trigger] more[i]).position != p {
            assert(more[more.len() - 1].position != p);
            assert forall|i: int| 0 <= i < head.len() implies (#[trigger] head[i]).position != p by {
                assert(more[i].position != p);
            }
        }
        if exists|i: int| 0 <= i < more.len() && (#[trigger] more[i]).position == p {
            let i = choose|i: int| 0 <= i < more.len() && (#[trigger] more[i]).position == p;
            if i < head.len() {
                assert(head[i].position == p);
            }
        }
    }
}

/// What was there before does not matter where a row is inserted.
proof fn lemma_insert_all_same(
    a: Map<Position, Tx>,
    b: Map<Position, Tx>,
    more: Seq<Tx>,
    p: Position,
)
    ensures
        (exists|i: int| 0 <= i < more.len() && (#[trigger] more[i]).position == p) ==> insert_all(
            a,
            more,
        )[p] == insert_all(b, more)[p],
    decreases more.len(),
{
    if more.len() > 0 {
        let head = more.drop_last();
        lemma_insert_all_same(a, b, head, p);
        if exists|i: int| 0 <= i < more.len() && (#[trigger] more[i]).position == p {
            let i = choose|i: int| 0 <= i < more.len() && (#[trigger] more[i]).position == p;
            if more.last().position != p {
                assert(head[i].position == p);
            }
        }
    }
}

/// Rows in a list where no two share a position end up in the index as they are.
pub proof fn lemma_insert_all_distinct(rows: Map<Position, Tx>, more: Seq<Tx>, i: int)
    requires
        distinct_positions(more),
        0 <= i < more.len(),
    ensures
        insert_all(rows, more).contains_key(more[i].position),
        insert_all(rows, more)[more[i].position] == more[i],
    decreases more.len(),
{
    if i < more.len() - 1 {
        let head = more.drop_last();
        assert(head[i] == more[i]);
        lemma_distinct_prefix(more);
        lemma_insert_all_distinct(rows, head, i);
    }
}

/// No two rows of a list share a position.
pub open spec fn distinct_positions(rows: Seq<Tx>) -> bool {
    forall|i: int, j: int|
        0 <= i < j < rows.len() ==> #[trigger] rows[i].position != #[trigger] rows[j].position
}

/// What comes before the last row of a list has no two rows at one position either, and none at
/// the last one's.
pub proof fn lemma_distinct_prefix(rows: Seq<Tx>)
    requires
        distinct_positions(rows),
        rows.len() > 0,
    ensures
        distinct_positions(rows.drop_last()),
        forall|i: int|
            0 <= i < rows.len() - 1 ==> (#[trigger] rows.drop_last()[i]).position
                != rows.last().position,
{
    let head = rows.drop_last();
    assert forall|i: int, j: int| 0 <= i < j < head.len() implies #[trigger] head[i].position
        != #[trigger] head[j].position by {
        assert(rows[i].position != rows[j].position);
    }
    assert forall|i: int| 0 <= i < rows.len() - 1 implies (#[trigger] head[i]).position
        != rows.last().position by {
        assert(rows[i].position != rows[rows.len() - 1].position);
    }
}

/// The rows that are not at a position: none is there, none shares a position that did not before,
/// and where nothing was there they are all of them.
pub proof fn lemma_elsewhere(txs: Seq<Tx>, p: Position)
    ensures
        forall|i: int|
            0 <= i < elsewhere(txs, p).len() ==> (#[trigger] elsewhere(txs, p)[i]).position != p
                && txs.contains(elsewhere(txs, p)[i]),
        distinct_positions(txs) ==> distinct_positions(elsewhere(txs, p)),
        (forall|i: int| 0 <= i < txs.len() ==> (#[trigger] txs[i]).position != p) ==> elsewhere(
            txs,
            p,
        ) == txs,
    decreases txs.len(),
{
    reveal(Seq::filter);
    if txs.len() > 0 {
        let head = txs.drop_last();
        let last = txs.last();
        let a = elsewhere(head, p);
        let b = elsewhere(txs, p);
        lemma_elsewhere(head, p);
        assert(forall|i: int| 0 <= i < head.len() ==> head[i] == txs[i]);
        assert(last == txs[txs.len() - 1]);
        assert forall|i: int| 0 <= i < b.len() implies (#[trigger] b[i]).position != p
            && txs.contains(b[i]) by {
            if i < a.len() {
                assert(b[i] == a[i]);
                let j = choose|j: int| 0 <= j < head.len() && head[j] == a[i];
                assert(txs[j] == b[i]);
            }
        }
        if distinct_positions(txs) {
            lemma_distinct_prefix(txs);
            assert forall|i: int, j: int| 0 <= i < j < b.len() implies #[trigger] b[i].position
                != #[trigger] b[j].position by {
                assert(b[i] == a[i]);
                if j < a.len() {
                    assert(a[i].position != a[j].position);
                } else {
                    let k = choose|k: int| 0 <= k < head.len() && head[k] == a[i];
                    assert(txs[k].position != txs[txs.len() - 1].position);
                }
            }
        }
        if forall|i: int| 0 <= i < txs.len() ==> (#[trigger] txs[i]).position != p {
            assert(txs[txs.len() - 1].position != p);
            assert forall|i: int| 0 <= i < head.len() implies (#[trigger] head[i]).position != p by {
                assert(txs[i].position != p);
            }
            assert(b =~= txs);
        }
    } else {
        assert(elsewhere(txs, p) =~= txs);
    }
}

/// A row that is put over does not matter to what is left.
proof fn lemma_put_over(rows: Map<Position, Tx>, txs: Seq<Tx>, last: Tx)
    ensures
        insert_all(rows, elsewhere(txs, last.position)).insert(last.position, last) == insert_all(
            rows,
            txs,
        ).insert(last.position, last),
    decreases txs.len(),
{
    reveal(Seq::filter);
    let p = last.position;
    if txs.len() > 0 {
        let head = txs.drop_last();
        let tx = txs.last();
        lemma_put_over(rows, head, last);
        let a = insert_all(rows, elsewhere(head, p));
        let b = insert_all(rows, head);
        if tx.position != p {
            let more = elsewhere(txs, p);
            assert(more == elsewhere(head, p).push(tx));
            assert(more.drop_last() =~= elsewhere(head, p));
            assert(a.insert(tx.position, tx).insert(p, last) =~= a.insert(p, last).insert(
                tx.position,
                tx,
            ));
            assert(b.insert(tx.position, tx).insert(p, last) =~= b.insert(p, last).insert(
                tx.position,
                tx,
            ));
        } else {
            assert(b.insert(p, tx).insert(p, last) =~= b.insert(p, last));
        }
    } else {
        assert(elsewhere(txs, p) =~= txs);
    }
}

/// The rows left standing are at different positions, and inserting them is inserting all of the
/// list; where no two rows of it share a position, they are all of it.
pub proof fn lemma_standing(rows: Map<Position, Tx>, txs: Seq<Tx>)
    ensures
        distinct_positions(standing(txs)),
        insert_all(rows, standing(txs)) == insert_all(rows, txs),
        distinct_positions(txs) ==> standing(txs) == txs,
    decreases txs.len(),
{
    if txs.len() > 0 {
        let head = txs.drop_last();
        let last = txs.last();
        let p = last.position;
        let s = standing(head);
        let kept = elsewhere(s, p);
        let all = standing(txs);
        lemma_standing(rows, head);
        lemma_elsewhere(s, p);
        lemma_put_over(rows, s, last);
        assert(all.drop_last() =~= kept);
        assert forall|i: int, j: int| 0 <= i < j < all.len() implies #[trigger] all[i].position
            != #[trigger] all[j].position by {
            assert(all[i] == kept[i]);
            if j < kept.len() {
                assert(kept[i].position != kept[j].position);
            }
        }
        if distinct_positions(txs) {
            lemma_distinct_prefix(txs);
            assert forall|i: int| 0 <= i < s.len() implies (#[trigger] s[i]).position != p by {
                assert(txs[i].position != txs[txs.len() - 1].position);
            }
            assert(all =~= txs);
        }
    }
}

// ---- what a fold keeps

/// Later knowledge wins: a fold's commit is the later plan's where it has one. Where it has none,
/// the earlier plan's stays, but for one at or above the later plan's cut, which is dropped; and
/// where neither has any there is none. The tip is the later plan's where it has one, else the
/// earlier's.
pub proof fn later_knowledge_wins(first: &mut Plan, next: Plan)
    requires
        call_ensures(Plan::merge, (first, next), ()),
    ensures
        next.committed is Some ==> final(first).committed == next.committed,
        next.committed is None && old(first).committed is None ==> final(first).committed is None,
        next.committed is None && next.revert_from is None ==> final(first).committed == old(first).committed,
        next.committed is None && next.revert_from is Some && old(first).committed is Some ==> (
        if (old(first).committed->0).block_num < next.revert_from->0 {
            final(first).committed == old(first).committed
        } else {
            final(first).committed is None
        }),
        next.tip is Some ==> final(first).tip == next.tip,
        next.tip is None ==> final(first).tip == old(first).tip,
{
}

/// A fold inserts what the earlier plan inserts below the later plan's cut, or all of it where
/// there is no cut, in order; and after that all that the later plan inserts.
pub proof fn a_fold_inserts_what_is_left_of_both(first: &mut Plan, next: Plan)
    requires
        call_ensures(Plan::merge, (first, next), ()),
    ensures
        next.revert_from is None ==> final(first).rows@ == old(first).rows@ + next.rows@,
        next.revert_from is Some ==> final(first).rows@ == old(first).rows@.filter(
            |row: IndexedTx| row.position.block_num < next.revert_from->0,
        ) + next.rows@,
{
}

/// A fold drops what either plan drops: it has the lower of their cuts, and none where neither has
/// one.
pub proof fn a_fold_drops_what_either_plan_drops(first: &mut Plan, next: Plan, block_num: u64)
    requires
        call_ensures(Plan::merge, (first, next), ()),
    ensures
        (final(first).revert_from is Some && final(first).revert_from->0 <= block_num) <==> (old(first).revert_from is Some && old(first).revert_from->0 <= block_num) || (
        next.revert_from is Some && next.revert_from->0 <= block_num),
        final(first).revert_from is None <==> old(first).revert_from is None && next.revert_from
            is None,
{
}

/// The same of every fold as a relation of three plans.
pub proof fn a_fold_keeps_the_later_commit(first: Plan, next: Plan, merged: Plan)
    requires
        first.merged_into(next, merged),
    ensures
        next.committed is Some ==> merged.committed == next.committed,
        next.committed is None && first.committed is Some && (next.revert_from is None || (
        first.committed->0).block_num < next.revert_from->0) ==> merged.committed
            == first.committed,
        next.committed is None && (first.committed is None || (next.revert_from is Some && (
        first.committed->0).block_num >= next.revert_from->0)) ==> merged.committed is None,
        next.tip is Some ==> merged.tip == next.tip,
        next.tip is None ==> merged.tip == first.tip,
        merged.revert_from is Some <==> first.revert_from is Some || next.revert_from is Some,
        first.revert_from is Some ==> merged.revert_from->0 <= first.revert_from->0,
        next.revert_from is Some ==> merged.revert_from->0 <= next.revert_from->0,
        merged.revert_from is Some ==> merged.revert_from == first.revert_from
            || merged.revert_from == next.revert_from,
{
}

/// A plan that changes nothing, folded into another or the other into it, leaves that one as it
/// is.
pub proof fn a_fold_with_nothing_changes_nothing(
    none: Plan,
    plan: Plan,
    before: Plan,
    behind: Plan,
)
    requires
        call_ensures(<Plan as Default>::default, (), none),
        none.merged_into(plan, before),
        plan.merged_into(none, behind),
    ensures
        before.revert_from == plan.revert_from,
        before.rows@ == plan.rows@,
        before.tip == plan.tip,
        before.committed == plan.committed,
        behind.revert_from == plan.revert_from,
        behind.rows@ == plan.rows@,
        behind.tip == plan.tip,
        behind.committed == plan.committed,
{
    reveal(Seq::filter);
    assert(before.rows@ =~= plan.rows@);
    assert(behind.rows@ =~= plan.rows@);
}

/// Of two pieces of knowledge the newer is taken, and the older where there is none newer.
pub proof fn the_newer_is_taken(new: Option<Tip>, old: Option<Tip>)
    ensures
        new is Some ==> later(new, old) == new,
        new is None ==> later(new, old) == old,
{
}

// ---- what a plan leaves

/// What a plan leaves at a position: the last of its rows there; where it has none, what was
/// there, but at or above its cut nothing.
pub proof fn a_plan_leaves_its_last_row_at_a_position(
    rows: Map<Position, Tx>,
    plan: Plan,
    p: Position,
    i: int,
)
    ensures
        0 <= i < plan.rows@.len() && plan.rows@[i].position == p && (forall|j: int|
            i < j < plan.rows@.len() ==> (#[trigger] plan.rows@[j]).position != p)
            ==> plan.outcome(rows).contains_key(p) && plan.outcome(rows)[p] == plan.rows@[i]@,
        (forall|j: int|
            0 <= j < plan.rows@.len() ==> (#[trigger] plan.rows@[j]).position != p) ==> {
            &&& plan.outcome(rows).contains_key(p) <==> rows.contains_key(p) && (
            plan.revert_from is Some ==> p.block_num < plan.revert_from->0)
            &&& plan.outcome(rows).contains_key(p) ==> plan.outcome(rows)[p] == rows[p]
        },
{
    let base = below(rows, plan.revert_from);
    let txs = plan.txs();
    if 0 <= i < plan.rows@.len() && plan.rows@[i].position == p && (forall|j: int|
        i < j < plan.rows@.len() ==> (#[trigger] plan.rows@[j]).position != p) {
        assert(txs[i] == plan.rows@[i]@);
        assert forall|j: int| i < j < txs.len() implies (#[trigger] txs[j]).position != p by {
            assert(txs[j] == plan.rows@[j]@);
        }
        lemma_last_inserted(base, txs, i);
    }
    if forall|j: int| 0 <= j < plan.rows@.len() ==> (#[trigger] plan.rows@[j]).position != p {
        assert forall|j: int| 0 <= j < txs.len() implies (#[trigger] txs[j]).position != p by {
            assert(txs[j] == plan.rows@[j]@);
        }
        lemma_insert_all_at(base, txs, p);
    }
}

proof fn lemma_last_inserted(rows: Map<Position, Tx>, txs: Seq<Tx>, i: int)
    requires
        0 <= i < txs.len(),
        forall|j: int| i < j < txs.len() ==> (#[trigger] txs[j]).position != txs[i].position,
    ensures
        insert_all(rows, txs).contains_key(txs[i].position),
        insert_all(rows, txs)[txs[i].position] == txs[i],
    decreases txs.len(),
{
    if i < txs.len() - 1 {
        let head = txs.drop_last();
        assert(txs[txs.len() - 1].position != txs[i].position);
        assert forall|j: int| i < j < head.len() implies (#[trigger] head[j]).position
            != head[i].position by {
            assert(txs[j].position != txs[i].position);
        }
        lemma_last_inserted(rows, head, i);
    }
}

/// Of the rows of a list at one position only the last is left standing, and it is.
pub proof fn only_the_last_row_at_a_position_stands(txs: Seq<Tx>, tx: Tx)
    ensures
        standing(txs).contains(tx) <==> exists|i: int|
            {
                &&& 0 <= i < txs.len()
                &&& #[trigger] txs[i] == tx
                &&& forall|j: int| i < j < txs.len() ==> (#[trigger] txs[j]).position != tx.position
            },
        forall|i: int, j: int|
            0 <= i < j < standing(txs).len() ==> #[trigger] standing(txs)[i].position
                != #[trigger] standing(txs)[j].position,
    decreases txs.len(),
{
    lemma_standing(Map::empty(), txs);
    if txs.len() > 0 {
        let head = txs.drop_last();
        let last = txs.last();
        let keep = |t: Tx| t.position != last.position;
        only_the_last_row_at_a_position_stands(head, tx);
        lemma_filtered(standing(head), keep, tx);
        lemma_pushed(elsewhere(standing(head), last.position), last, tx);
        if tx == last {
            assert(txs[txs.len() - 1] == tx);
        }
        if standing(head).contains(tx) && tx.position != last.position {
            let i = choose|i: int|
                {
                    &&& 0 <= i < head.len()
                    &&& #[trigger] head[i] == tx
                    &&& forall|j: int|
                        i < j < head.len() ==> (#[trigger] head[j]).position != tx.position
                };
            assert(txs[i] == tx);
            assert forall|j: int| i < j < txs.len() implies (#[trigger] txs[j]).position
                != tx.position by {
                if j < head.len() {
                    assert(head[j].position != tx.position);
                }
            }
        }
        if exists|i: int|
            {
                &&& 0 <= i < txs.len()
                &&& #[trigger] txs[i] == tx
                &&& forall|j: int| i < j < txs.len() ==> (#[trigger] txs[j]).position != tx.position
            } {
            let i = choose|i: int|
                {
                    &&& 0 <= i < txs.len()
                    &&& #[trigger] txs[i] == tx
                    &&& forall|j: int|
                        i < j < txs.len() ==> (#[trigger] txs[j]).position != tx.position
                };
            if i < head.len() {
                assert(txs[txs.len() - 1].position != tx.position);
                assert(head[i] == tx);
                assert forall|j: int| i < j < head.len() implies (#[trigger] head[j]).position
                    != tx.position by {
                    assert(txs[j].position != tx.position);
                }
            }
        }
    }
}

/// Where a list has a row at a position, it has a last one there.
pub proof fn lemma_last_at(txs: Seq<Tx>, p: Position, i: int) -> (last: int)
    requires
        0 <= i < txs.len(),
        txs[i].position == p,
    ensures
        i <= last < txs.len(),
        txs[last].position == p,
        forall|j: int| last < j < txs.len() ==> (#[trigger] txs[j]).position != p,
    decreases txs.len() - i,
{
    if exists|j: int| i < j < txs.len() && (#[trigger] txs[j]).position == p {
        let j = choose|j: int| i < j < txs.len() && (#[trigger] txs[j]).position == p;
        lemma_last_at(txs, p, j)
    } else {
        i
    }
}

} // verus!
