//! The index over an ordered in-memory store, driven as any store would be.

use std::cell::RefCell;
use std::collections::BTreeMap;
use std::ops::Bound;
use std::rc::Rc;

use tx_index::codec::{decode_row, encode_row, read_count, read_tip, tip_key, HAS_FEE_PAYER};
use tx_index::count::total_counter;
use tx_index::layout::pos_key;
use tx_index::{
    open_page, peek, resolve, row_keys, Address, BlockRange, Draft, Error, Filter, IndexedTx,
    Keyspace, Op, Order, Page, Plan, Position, Query, Request, Stats, Tip, B256, MAX_LIMIT,
};

type Entries = BTreeMap<Vec<u8>, Vec<u8>>;

/// What the store holds, keyspace by keyspace.
#[derive(Clone, Default)]
struct Db {
    keyspaces: BTreeMap<&'static str, Entries>,
}

impl Db {
    fn get(&self, keyspace: Keyspace, key: &[u8]) -> Option<Vec<u8>> {
        self.keyspaces.get(keyspace.name())?.get(key).cloned()
    }

    fn write(&mut self, op: Op) {
        match op {
            Op::Put {
                keyspace,
                key,
                value,
            } => {
                self.keyspaces
                    .entry(keyspace.name())
                    .or_default()
                    .insert(key, value);
            }
            Op::Delete { keyspace, key } => {
                self.keyspaces
                    .entry(keyspace.name())
                    .or_default()
                    .remove(&key);
            }
        }
    }

    /// The first entry ahead of a bound, in a direction.
    fn ahead(
        &self,
        keyspace: Keyspace,
        bound: Bound<Vec<u8>>,
        order: Order,
    ) -> Option<(Vec<u8>, Vec<u8>)> {
        let entries = self.keyspaces.get(keyspace.name())?;
        let found = match order {
            Order::Ascending => entries.range((bound, Bound::Unbounded)).next(),
            Order::Descending => entries.range((Bound::Unbounded, bound)).next_back(),
        };
        found.map(|(key, value)| (key.clone(), value.clone()))
    }

    /// Every entry from a key on.
    fn from(&self, keyspace: Keyspace, start: Vec<u8>) -> Vec<(Vec<u8>, Vec<u8>)> {
        match self.keyspaces.get(keyspace.name()) {
            Some(entries) => entries
                .range((Bound::Included(start), Bound::Unbounded))
                .map(|(key, value)| (key.clone(), value.clone()))
                .collect(),
            None => Vec::new(),
        }
    }
}

/// The iterators of a query, one per walk: each its keyspace and direction, and the key it stands
/// on. Counts how often one was set and how often one was moved.
struct Iterators<'a> {
    db: &'a Db,
    at: BTreeMap<usize, (Keyspace, Order, Option<Vec<u8>>)>,
    seeks: usize,
    steps: usize,
}

impl<'a> Iterators<'a> {
    fn new(db: &'a Db) -> Self {
        Self {
            db,
            at: BTreeMap::new(),
            seeks: 0,
            steps: 0,
        }
    }

    fn perform(&mut self, request: Request) -> Option<(Vec<u8>, Vec<u8>)> {
        match request {
            Request::Seek {
                walk,
                keyspace,
                key,
                order,
            } => {
                self.seeks += 1;
                let entry = self.db.ahead(keyspace, Bound::Included(key), order);
                let on = entry.as_ref().map(|(key, _)| key.clone());
                self.at.insert(walk, (keyspace, order, on));
                entry
            }
            Request::Next { walk } => {
                self.steps += 1;
                let (keyspace, order, on) = self.at[&walk].clone();
                let on = on.expect("an iterator is not moved past its end");
                let entry = self.db.ahead(keyspace, Bound::Excluded(on), order);
                let on = entry.as_ref().map(|(key, _)| key.clone());
                self.at.insert(walk, (keyspace, order, on));
                entry
            }
        }
    }
}

/// The writing half.
struct Store {
    db: Rc<RefCell<Db>>,
}

/// The reading half.
struct Reader {
    db: Rc<RefCell<Db>>,
}

impl Store {
    fn empty() -> Self {
        Self {
            db: Rc::new(RefCell::new(Db::default())),
        }
    }

    fn reader(&self) -> Reader {
        Reader {
            db: Rc::clone(&self.db),
        }
    }

    fn put(&self, keyspace: Keyspace, key: Vec<u8>, value: Vec<u8>) {
        self.db.borrow_mut().write(Op::Put {
            keyspace,
            key,
            value,
        });
    }

    fn apply(&mut self, plan: &Plan) -> Result<(), Error> {
        let mut db = self.db.borrow_mut();
        let entries = match plan.revert_start() {
            Some(start) => db.from(Keyspace::Primary, start),
            None => Vec::new(),
        };
        let stored: Vec<Option<Vec<u8>>> = plan
            .replacing_keys()
            .iter()
            .map(|key| db.get(Keyspace::Primary, key))
            .collect();
        let draft = Draft::prepare(plan, &entries, &stored)?;
        let counts: Vec<Option<Vec<u8>>> = draft
            .counters()
            .iter()
            .map(|key| db.get(Keyspace::Count, key))
            .collect();
        for op in draft.finish(&counts)? {
            db.write(op);
        }
        Ok(())
    }

    fn indexed_tip(&self) -> Result<Option<Tip>, Error> {
        self.reader().tip()
    }
}

impl Reader {
    fn snapshot(&self) -> Db {
        self.db.borrow().clone()
    }

    fn tip(&self) -> Result<Option<Tip>, Error> {
        read_tip(self.snapshot().get(Keyspace::Meta, &tip_key()).as_deref())
    }

    fn query(
        &self,
        filter: &Filter,
        after: Option<Position>,
        order: Order,
        limit: usize,
    ) -> Result<Vec<IndexedTx>, Error> {
        self.query_at(&self.snapshot(), filter, after, order, limit)
    }

    fn query_at(
        &self,
        snapshot: &Db,
        filter: &Filter,
        after: Option<Position>,
        order: Order,
        limit: usize,
    ) -> Result<Vec<IndexedTx>, Error> {
        self.counting(snapshot, filter, after, order, limit)
            .map(|(rows, _, _)| rows)
    }

    /// The rows of a query, with the seeks and steps it took.
    fn counting(
        &self,
        snapshot: &Db,
        filter: &Filter,
        after: Option<Position>,
        order: Order,
        limit: usize,
    ) -> Result<(Vec<IndexedTx>, usize, usize), Error> {
        let mut iterators = Iterators::new(snapshot);
        match Query::new(filter, after, order, limit) {
            Query::Listing(mut listing) => {
                while let Some(request) = listing.request() {
                    let entry = iterators.perform(request);
                    let entry = entry.as_ref().map(|(key, value)| (&key[..], &value[..]));
                    listing.answer(entry)?;
                }
                Ok((listing.into_rows(), iterators.seeks, iterators.steps))
            }
            Query::Search(mut search) => {
                while let Some(request) = search.request() {
                    let entry = iterators.perform(request);
                    search.answer(entry.as_ref().map(|(key, _)| &key[..]))?;
                }
                let values: Vec<Option<Vec<u8>>> = row_keys(search.positions())
                    .iter()
                    .map(|key| snapshot.get(Keyspace::Primary, key))
                    .collect();
                let rows = resolve(search.positions(), &values)?;
                Ok((rows, iterators.seeks, iterators.steps))
            }
        }
    }

    fn count(&self, filter: &Filter) -> Result<Option<u64>, Error> {
        match filter.counter() {
            Some(key) => {
                read_count(self.snapshot().get(Keyspace::Count, &key).as_deref()).map(Some)
            }
            None => Ok(None),
        }
    }

    fn page(
        &self,
        filter: &Filter,
        cursor: Option<&str>,
        order: Order,
        limit: Option<usize>,
    ) -> Result<Page, Error> {
        let (after, size) = open_page(cursor, limit)?;
        let rows = self.query(filter, after, order, peek(size))?;
        Ok(Page::cut(rows, size))
    }

    fn stats(&self) -> Result<Stats, Error> {
        let db = self.snapshot();
        let sizes = Keyspace::created().map(|keyspace| {
            let entries = db.keyspaces.get(keyspace.name())?;
            Some(entries.iter().map(|(k, v)| (k.len() + v.len()) as u64).sum())
        });
        Stats::assemble(
            db.get(Keyspace::Meta, &tip_key()).as_deref(),
            db.get(Keyspace::Count, &total_counter()).as_deref(),
            &sizes,
        )
    }
}

fn addr(byte: u8) -> Address {
    Address::from([byte; 20])
}

/// A deterministic tip for `block`, so a test can name one without inventing a hash.
fn tip(block: u64) -> Option<Tip> {
    Some(Tip::new(block, B256::from([block as u8; 32])))
}

fn tx(block: u64, index: u32, from: u8, to: Option<u8>, tx_type: u8) -> IndexedTx {
    IndexedTx {
        position: Position::new(block, index),
        hash: B256::from([(block * 10 + u64::from(index)) as u8; 32]),
        from: addr(from),
        to: to.map(addr).into_iter().collect(),
        tx_type,
        fee_token: None,
        fee_payer: None,
    }
}

/// A transaction whose gas someone else paid, in a token of its choosing.
fn sponsored(
    block: u64,
    index: u32,
    from: u8,
    to: Option<u8>,
    fee_token: Option<u8>,
    fee_payer: u8,
) -> IndexedTx {
    IndexedTx {
        fee_token: fee_token.map(addr),
        fee_payer: Some(addr(fee_payer)),
        ..tx(block, index, from, to, 0x76)
    }
}

/// A transaction that calls several addresses, as a batch does.
fn batch(block: u64, index: u32, from: u8, to: &[u8], tx_type: u8) -> IndexedTx {
    IndexedTx {
        to: to.iter().copied().map(addr).collect(),
        ..tx(block, index, from, None, tx_type)
    }
}

fn empty() -> Store {
    Store::empty()
}

/// A [`Plan`] for tests: insert `rows` (dropping from `revert_from` first) and
/// move the tip.
fn plan(revert_from: Option<u64>, rows: Vec<IndexedTx>, tip: Option<Tip>) -> Plan {
    Plan {
        revert_from,
        rows,
        tip,
        ..Default::default()
    }
}

fn seeded() -> Store {
    let mut store = empty();
    let entries = vec![
        tx(1, 0, 0xaa, Some(0xbb), 2),
        tx(1, 1, 0xaa, Some(0xcc), 2),
        tx(2, 0, 0xbb, Some(0xaa), 0),
        tx(3, 0, 0xaa, None, 2),
    ];
    store.apply(&plan(None, entries, tip(3))).unwrap();
    store
}

#[test]
fn cursor_round_trips() {
    let pos = Position::new(12345, 7);
    assert_eq!(Position::decode(&pos.encode()), Some(pos));
    assert_eq!(Position::decode("nonsense"), None, "no separator");
    assert_eq!(Position::decode("abc:def"), None, "non-numeric parts");
    assert_eq!(Position::decode("1:-1"), None, "negative index");
}

#[test]
fn cursors_sort_lexicographically() {
    assert!(Position::new(2, 0).encode() > Position::new(1, 9).encode());
    assert!(Position::new(1, 2).encode() > Position::new(1, 1).encode());
}

#[test]
fn zero_position_round_trips() {
    let pos = Position::new(0, 0);
    assert_eq!(Position::decode(&pos.encode()), Some(pos));
}

#[test]
fn filters_by_sender() {
    let store = seeded();
    let filter = Filter {
        from: Some(addr(0xaa)),
        ..Default::default()
    };
    let got = store
        .reader()
        .query(&filter, None, Order::Ascending, 10)
        .unwrap();
    assert_eq!(got.len(), 3);
    assert!(got.iter().all(|t| t.from == addr(0xaa)));
}

#[test]
fn filters_by_type() {
    let store = seeded();
    let filter = Filter {
        tx_type: Some(0),
        ..Default::default()
    };
    let got = store
        .reader()
        .query(&filter, None, Order::Ascending, 10)
        .unwrap();
    assert_eq!(got.len(), 1);
    assert_eq!(got[0].position, Position::new(2, 0));
}

#[test]
fn filters_intersect() {
    let store = seeded();
    let filter = Filter {
        from: Some(addr(0xaa)),
        to: Some(addr(0xcc)),
        ..Default::default()
    };
    let got = store
        .reader()
        .query(&filter, None, Order::Ascending, 10)
        .unwrap();
    assert_eq!(got.len(), 1);
    assert_eq!(got[0].position, Position::new(1, 1));

    // Three-way, exercising the full merge width.
    let filter = Filter {
        from: Some(addr(0xaa)),
        to: Some(addr(0xbb)),
        tx_type: Some(2),
        ..Default::default()
    };
    let got = store
        .reader()
        .query(&filter, None, Order::Ascending, 10)
        .unwrap();
    assert_eq!(got.len(), 1);
    assert_eq!(got[0].position, Position::new(1, 0));
}

#[test]
fn every_call_target_is_found_by_a_to_filter() {
    // The whole point of a list: a batch reaches several contracts, and a `to` filter
    // that comes back empty on one of them reads exactly like "no such transactions".
    let mut store = empty();
    store
        .apply(&plan(
            None,
            vec![batch(1, 0, 0xaa, &[0xc1, 0xc2, 0xc3], 0x76)],
            tip(1),
        ))
        .unwrap();

    for target in [0xc1, 0xc2, 0xc3] {
        let filter = Filter {
            to: Some(addr(target)),
            ..Default::default()
        };
        assert_eq!(
            positions(&store, &filter, Order::Ascending),
            vec![Position::new(1, 0)],
            "the call to {target:#x} was not indexed",
        );
    }
    // And an address it never calls is still not a match.
    let filter = Filter {
        to: Some(addr(0xc4)),
        ..Default::default()
    };
    assert!(positions(&store, &filter, Order::Ascending).is_empty());
}

#[test]
fn a_row_round_trips_any_number_of_targets() {
    let mut store = empty();
    let rows = vec![
        tx(1, 0, 0xaa, None, 2),
        tx(2, 0, 0xaa, Some(0xbb), 2),
        batch(3, 0, 0xaa, &[0xc1, 0xc2], 0x76),
        // The same address twice, which a batch is free to do.
        batch(4, 0, 0xaa, &[0xc1, 0xc1], 0x76),
    ];
    store.apply(&plan(None, rows.clone(), tip(4))).unwrap();
    let got = store
        .reader()
        .query(&Filter::default(), None, Order::Ascending, MAX_LIMIT)
        .unwrap();
    assert_eq!(got, rows, "the row is not what came back out of the store");
}

#[test]
fn a_repeated_target_is_indexed_once() {
    // Two calls to the same address are one entry in the `to` keyspace. Writing
    // it twice is harmless; the hazard is a revert that deletes it once.
    let mut store = empty();
    store
        .apply(&plan(
            None,
            vec![batch(1, 0, 0xaa, &[0xc1, 0xc1], 0x76)],
            tip(1),
        ))
        .unwrap();
    let filter = Filter {
        to: Some(addr(0xc1)),
        ..Default::default()
    };
    assert_eq!(
        positions(&store, &filter, Order::Ascending),
        vec![Position::new(1, 0)],
        "a repeated target must not page as two hits",
    );
}

#[test]
fn a_revert_scrubs_every_target_of_a_batch() {
    let mut store = empty();
    store
        .apply(&plan(
            None,
            vec![batch(1, 0, 0xaa, &[0xc1, 0xc2, 0xc3], 0x76)],
            tip(1),
        ))
        .unwrap();
    store.apply(&plan(Some(1), vec![], tip(0))).unwrap();

    for target in [0xc1, 0xc2, 0xc3] {
        let filter = Filter {
            to: Some(addr(target)),
            ..Default::default()
        };
        assert!(
            positions(&store, &filter, Order::Ascending).is_empty(),
            "the revert left {target:#x} behind",
        );
    }
}

#[test]
fn a_row_that_is_not_whole_addresses_is_rejected() {
    // The layout carries no version byte, so a row of another one has to fail loudly
    // rather than decode as a different transaction. Width is what catches it:
    // addresses are fixed, so anything left over is not a row of this layout.
    let mut val = encode_row(&tx(1, 0, 0xaa, Some(0xbb), 2));
    val.pop();
    let err = decode_row(Position::new(1, 0), &val)
        .unwrap_err().message();
    assert!(
        err.contains("deleted and rebuilt"),
        "unhelpful error: {err}"
    );
}

#[test]
fn an_address_matches_either_side() {
    // What a wallet's default screen asks. 0xbb receives in block 1 and sends in
    // block 2; either query alone sees half of that.
    let store = seeded();
    let by = |address| Filter {
        address: Some(addr(address)),
        ..Default::default()
    };
    assert_eq!(
        positions(&store, &by(0xbb), Order::Ascending),
        vec![Position::new(1, 0), Position::new(2, 0)],
    );
    // And it is exactly the union of the two one-sided queries.
    let sent = positions(
        &store,
        &Filter {
            from: Some(addr(0xbb)),
            ..Default::default()
        },
        Order::Ascending,
    );
    let received = positions(
        &store,
        &Filter {
            to: Some(addr(0xbb)),
            ..Default::default()
        },
        Order::Ascending,
    );
    let mut union = [sent, received].concat();
    union.sort();
    assert_eq!(positions(&store, &by(0xbb), Order::Ascending), union);
}

#[test]
fn an_address_yields_a_transaction_to_itself_once() {
    // The union's one hazard: a transaction from an address to itself sits in
    // both walks, and a merge that advanced only one would report it twice.
    let mut store = empty();
    store
        .apply(&plan(
            None,
            vec![tx(1, 0, 0xee, Some(0xee), 2), tx(2, 0, 0xee, Some(0xff), 2)],
            tip(2),
        ))
        .unwrap();
    let filter = Filter {
        address: Some(addr(0xee)),
        ..Default::default()
    };
    for order in [Order::Ascending, Order::Descending] {
        let mut got = positions(&store, &filter, order);
        got.sort();
        assert_eq!(got, vec![Position::new(1, 0), Position::new(2, 0)]);
    }
}

#[test]
fn an_address_intersects_the_other_filters() {
    // A union is still one `AND` term: everything else narrows it.
    let store = seeded();
    assert_eq!(
        positions(
            &store,
            &Filter {
                address: Some(addr(0xaa)),
                tx_type: Some(0),
                ..Default::default()
            },
            Order::Ascending,
        ),
        vec![Position::new(2, 0)],
        "0xaa is on four transactions; one is type 0, and it received that one",
    );
    assert_eq!(
        positions(
            &store,
            &Filter {
                address: Some(addr(0xaa)),
                blocks: BlockRange::new(Some(3), None),
                ..Default::default()
            },
            Order::Ascending,
        ),
        vec![Position::new(3, 0)],
        "the range bounds both walks of the union",
    );
}

#[test]
fn an_address_pages_like_any_other_filter() {
    let store = seeded();
    let reader = store.reader();
    let filter = Filter {
        address: Some(addr(0xaa)),
        ..Default::default()
    };
    for order in [Order::Ascending, Order::Descending] {
        let all = reader
            .page(&filter, None, order, Some(MAX_LIMIT))
            .unwrap()
            .rows;
        assert_eq!(all.len(), 4, "0xaa is on every seeded transaction");
        let (mut seen, mut cursor) = (Vec::new(), None);
        for _ in 0..=all.len() {
            let page = reader
                .page(&filter, cursor.as_deref(), order, Some(1))
                .unwrap();
            seen.extend(page.rows);
            cursor = page.next_cursor;
            if cursor.is_none() {
                break;
            }
        }
        assert!(cursor.is_none(), "the cursor never ran out ({order:?})");
        assert_eq!(seen, all, "paged result diverged ({order:?})");
    }
}

#[test]
fn an_address_gallops_inside_its_union() {
    // The union has to gallop like a plain walk does, or intersecting a busy
    // address against a rare one degrades to scanning the busy side.
    let mut store = empty();
    let mut rows: Vec<_> = (1..=40).map(|b| tx(b, 0, 0xbb, Some(0xcc), 2)).collect();
    rows.push(tx(60, 0, 0x0a, Some(0xcc), 2));
    store.apply(&plan(None, rows, tip(60))).unwrap();

    let filter = Filter {
        address: Some(addr(0xcc)),
        from: Some(addr(0x0a)),
        ..Default::default()
    };
    for order in [Order::Ascending, Order::Descending] {
        assert_eq!(
            positions(&store, &filter, order),
            vec![Position::new(60, 0)],
            "{order:?}",
        );
    }
}

/// The positions a whole query selects - what a range test is actually about.
fn positions(store: &Store, filter: &Filter, order: Order) -> Vec<Position> {
    store
        .reader()
        .query(filter, None, order, MAX_LIMIT)
        .unwrap()
        .iter()
        .map(|t| t.position)
        .collect()
}

fn in_blocks(min: Option<u64>, max: Option<u64>) -> Filter {
    Filter {
        blocks: BlockRange::new(min, max),
        ..Default::default()
    }
}

#[test]
fn a_block_range_bounds_the_walk() {
    let store = seeded();
    assert_eq!(
        positions(&store, &in_blocks(Some(2), Some(2)), Order::Ascending),
        vec![Position::new(2, 0)],
    );
    // Either end open.
    assert_eq!(
        positions(&store, &in_blocks(Some(2), None), Order::Ascending),
        vec![Position::new(2, 0), Position::new(3, 0)],
    );
    assert_eq!(
        positions(&store, &in_blocks(None, Some(1)), Order::Ascending),
        vec![Position::new(1, 0), Position::new(1, 1)],
    );
    // Both ends open is exactly the unbounded walk.
    assert_eq!(
        positions(&store, &in_blocks(None, None), Order::Ascending),
        positions(&store, &Filter::default(), Order::Ascending),
    );
}

#[test]
fn a_block_range_reads_the_same_both_ways() {
    let store = seeded();
    let filter = in_blocks(Some(1), Some(2));
    let mut descending = positions(&store, &filter, Order::Descending);
    descending.reverse();
    assert_eq!(descending.len(), 3);
    assert_eq!(positions(&store, &filter, Order::Ascending), descending);
}

#[test]
fn a_block_range_bounds_a_filtered_walk() {
    // The bound has to hold on the merged path too, where each secondary walk
    // stops on its own rather than one primary scan stopping for everyone.
    let store = seeded();
    let filter = Filter {
        from: Some(addr(0xaa)),
        blocks: BlockRange::new(None, Some(1)),
        ..Default::default()
    };
    assert_eq!(
        positions(&store, &filter, Order::Ascending),
        vec![Position::new(1, 0), Position::new(1, 1)],
        "0xaa also sends in block 3, outside the range",
    );
}

#[test]
fn an_impossible_range_selects_nothing() {
    let store = seeded();
    // Past the tip, and a max below its own min.
    for filter in [in_blocks(Some(10), Some(20)), in_blocks(Some(3), Some(1))] {
        for order in [Order::Ascending, Order::Descending] {
            assert!(positions(&store, &filter, order).is_empty(), "{filter:?}");
        }
    }
}

#[test]
fn a_range_and_a_cursor_take_the_tighter_bound() {
    // Both say where to begin. Honouring only the cursor walks out of the range;
    // honouring only the range replays rows the cursor already returned.
    let store = seeded();
    let reader = store.reader();
    let at = |filter: Filter, after, order| {
        reader
            .query(&filter, Some(after), order, MAX_LIMIT)
            .unwrap()
            .iter()
            .map(|t| t.position)
            .collect::<Vec<_>>()
    };

    assert_eq!(
        at(
            in_blocks(Some(3), None),
            Position::new(1, 0),
            Order::Ascending
        ),
        vec![Position::new(3, 0)],
        "the range is the tighter opening",
    );
    assert_eq!(
        at(
            in_blocks(Some(1), Some(2)),
            Position::new(1, 0),
            Order::Ascending
        ),
        vec![Position::new(1, 1), Position::new(2, 0)],
        "the cursor is the tighter opening, and the range still ends the walk",
    );
    assert_eq!(
        at(
            in_blocks(None, Some(1)),
            Position::new(3, 0),
            Order::Descending
        ),
        vec![Position::new(1, 1), Position::new(1, 0)],
        "descending, the range's max is the tighter opening",
    );
}

#[test]
fn paging_within_a_range_stays_inside_it() {
    let store = seeded();
    let reader = store.reader();
    let filter = in_blocks(Some(1), Some(2));
    let all = reader
        .page(&filter, None, Order::Ascending, Some(MAX_LIMIT))
        .unwrap();
    let (mut seen, mut cursor) = (Vec::new(), None);
    for _ in 0..=all.rows.len() {
        let page = reader
            .page(&filter, cursor.as_deref(), Order::Ascending, Some(1))
            .unwrap();
        seen.extend(page.rows);
        cursor = page.next_cursor;
        if cursor.is_none() {
            break;
        }
    }
    assert!(cursor.is_none(), "the cursor never ran out");
    assert_eq!(seen, all.rows);
    assert!(seen.iter().all(|row| row.position.block_num <= 2));
}

#[test]
fn a_gallop_stops_at_the_range_rather_than_seeking_past_it() {
    // The one place a range and the intersection meet: `advance_to` gives up
    // stepping and seeks straight to its target, and that target can sit outside
    // the range. Checking the bound only where the walk *starts* would let the
    // seek land beyond it and serve a row the caller excluded.
    let mut store = empty();
    // Filler to the shared recipient, more than GALLOP_AFTER of it, so the
    // recipient's walk gives up stepping and seeks.
    let mut rows: Vec<_> = (1..=39).map(|b| tx(b, 0, 0xbb, Some(0xcc), 2)).collect();
    // The rare sender inside the range, but paying someone else: the seek target
    // is in range while the entry the recipient's walk lands on is not.
    rows.push(tx(40, 0, 0x0a, Some(0xdd), 2));
    // The pair's only real meeting, past the range's end.
    rows.push(tx(60, 0, 0x0a, Some(0xcc), 2));
    store.apply(&plan(None, rows, tip(60))).unwrap();

    let filter = |blocks| Filter {
        from: Some(addr(0x0a)),
        to: Some(addr(0xcc)),
        blocks,
        ..Default::default()
    };
    assert_eq!(
        positions(&store, &filter(BlockRange::default()), Order::Ascending),
        vec![Position::new(60, 0)],
        "unbounded, the gallop finds it",
    );
    assert!(
        positions(
            &store,
            &filter(BlockRange::new(None, Some(50))),
            Order::Ascending
        )
        .is_empty(),
        "the seek landed past the range's end and the walk must stop there",
    );
}

#[test]
fn contract_creation_has_no_recipient() {
    let store = seeded();
    let got = store
        .reader()
        .query(&Filter::default(), None, Order::Ascending, 10)
        .unwrap();
    let creation = got.iter().find(|t| t.position.block_num == 3).unwrap();
    assert!(
        creation.to.is_empty(),
        "a creation calls no existing address"
    );
}

#[test]
fn descending_is_the_reverse_of_ascending() {
    let store = seeded();
    let asc = store
        .reader()
        .query(&Filter::default(), None, Order::Ascending, 10)
        .unwrap();
    let mut desc = store
        .reader()
        .query(&Filter::default(), None, Order::Descending, 10)
        .unwrap();
    desc.reverse();
    assert_eq!(asc, desc);
}

#[test]
fn paging_visits_every_row_exactly_once() {
    let store = seeded();
    for order in [Order::Ascending, Order::Descending] {
        let all = store
            .reader()
            .query(&Filter::default(), None, order, 100)
            .unwrap();
        let mut seen = Vec::new();
        let mut cursor = None;
        loop {
            let page = store
                .reader()
                .query(&Filter::default(), cursor, order, 1)
                .unwrap();
            let Some(entry) = page.into_iter().next() else {
                break;
            };
            cursor = Some(entry.position);
            seen.push(entry);
        }
        assert_eq!(
            seen, all,
            "paged result diverged from the single-page result"
        );
    }
}

#[test]
fn filtered_paging_pages_through_the_merge() {
    // The cursor has to hold on the merged path too, not only the primary scan.
    let store = seeded();
    let filter = Filter {
        from: Some(addr(0xaa)),
        ..Default::default()
    };
    let all = store
        .reader()
        .query(&filter, None, Order::Descending, 100)
        .unwrap();
    let mut seen = Vec::new();
    let mut cursor = None;
    loop {
        let page = store
            .reader()
            .query(&filter, cursor, Order::Descending, 1)
            .unwrap();
        let Some(entry) = page.into_iter().next() else {
            break;
        };
        cursor = Some(entry.position);
        seen.push(entry);
    }
    assert_eq!(seen, all);
}

#[test]
fn revert_drops_the_block_and_everything_above() {
    let mut store = seeded();
    store.apply(&plan(Some(2), vec![], tip(1))).unwrap();
    let left = store
        .reader()
        .query(&Filter::default(), None, Order::Ascending, 10)
        .unwrap();
    assert_eq!(left.len(), 2);
    assert!(left.iter().all(|t| t.position.block_num == 1));
    assert_eq!(store.indexed_tip().unwrap(), tip(1));
}

#[test]
fn revert_scrubs_every_secondary_keyspace() {
    // The KV-specific hazard a SQL DELETE never had: each secondary entry is
    // reconstructed from its primary row. A missed one serves ghosts.
    let mut store = seeded();
    store.apply(&plan(Some(1), vec![], tip(0))).unwrap();
    for filter in [
        Filter {
            from: Some(addr(0xaa)),
            ..Default::default()
        },
        Filter {
            to: Some(addr(0xbb)),
            ..Default::default()
        },
        Filter {
            tx_type: Some(2),
            ..Default::default()
        },
    ] {
        assert!(
            store
                .reader()
                .query(&filter, None, Order::Ascending, 10)
                .unwrap()
                .is_empty(),
            "revert left a ghost behind {filter:?}"
        );
    }
}

#[test]
fn intersection_gallops_across_a_wide_gap() {
    // Forces the seek path: the recipient's keyspace holds far more than
    // GALLOP_AFTER entries between the sender's, so stepping alone never gets
    // there. Results must match the brute-force answer in both directions.
    let mut store = empty();
    let mut rows = Vec::new();
    // Blocks 1..=2: the rare sender pays the shared recipient.
    for b in 1..=2u64 {
        rows.push(tx(b, 0, 0x0a, Some(0xcc), 2));
    }
    // Blocks 3..=60: filler traffic to the same recipient from someone else.
    for b in 3..=60u64 {
        rows.push(tx(b, 0, 0xbb, Some(0xcc), 2));
    }
    store.apply(&plan(None, rows, tip(60))).unwrap();

    let filter = Filter {
        from: Some(addr(0x0a)),
        to: Some(addr(0xcc)),
        ..Default::default()
    };
    let want: Vec<Position> = vec![Position::new(1, 0), Position::new(2, 0)];
    for order in [Order::Ascending, Order::Descending] {
        let got: Vec<Position> = store
            .reader()
            .query(&filter, None, order, 100)
            .unwrap()
            .iter()
            .map(|t| t.position)
            .collect();
        let mut expect = want.clone();
        if order == Order::Descending {
            expect.reverse();
        }
        assert_eq!(got, expect, "gallop diverged from brute force ({order:?})");
    }
}

#[test]
fn reorg_replaces_rather_than_merges() {
    let mut store = seeded();
    let replacement = vec![tx(2, 0, 0xdd, Some(0xee), 2)];
    store.apply(&plan(Some(2), replacement, tip(3))).unwrap();

    let orphaned = store
        .reader()
        .query(
            &Filter {
                from: Some(addr(0xbb)),
                ..Default::default()
            },
            None,
            Order::Ascending,
            10,
        )
        .unwrap();
    assert!(orphaned.is_empty(), "orphaned transaction survived a reorg");

    let canonical = store
        .reader()
        .query(
            &Filter {
                from: Some(addr(0xdd)),
                ..Default::default()
            },
            None,
            Order::Ascending,
            10,
        )
        .unwrap();
    assert_eq!(canonical.len(), 1);
}

/// The invariant every count test wants: what the counter reports is what the walk
/// yields. Kept as one helper so no test can check the number without checking that.
fn assert_count_matches_walk(store: &Store, filter: &Filter) {
    let reader = store.reader();
    let walked = reader
        .query(filter, None, Order::Ascending, MAX_LIMIT)
        .unwrap()
        .len();
    assert_eq!(
        reader.count(filter).unwrap(),
        Some(walked as u64),
        "the count disagreed with the walk for {filter:?}",
    );
}

/// Every filter the seeded store has a counter for.
fn counted_filters() -> Vec<Filter> {
    let mut filters = vec![Filter::default()];
    for byte in [0xaa, 0xbb, 0xcc, 0xdd] {
        filters.push(Filter {
            from: Some(addr(byte)),
            ..Default::default()
        });
        filters.push(Filter {
            to: Some(addr(byte)),
            ..Default::default()
        });
        filters.push(Filter {
            address: Some(addr(byte)),
            ..Default::default()
        });
    }
    for tx_type in [0, 2, 0x76] {
        filters.push(Filter {
            tx_type: Some(tx_type),
            ..Default::default()
        });
    }
    filters
}

#[test]
fn the_fee_payer_and_fee_token_are_filterable() {
    let mut store = empty();
    store
        .apply(&plan(
            None,
            vec![
                // Sponsored by 0xf0, paid in 0xe1.
                sponsored(1, 0, 0xaa, Some(0xbb), Some(0xe1), 0xf0),
                // Sponsored by 0xf0 too, but paid in the native currency.
                sponsored(2, 0, 0xaa, Some(0xbb), None, 0xf0),
                // Nobody sponsored this one: the sender paid for themselves.
                sponsored(3, 0, 0xcc, Some(0xbb), Some(0xe1), 0xcc),
            ],
            tip(3),
        ))
        .unwrap();

    let by_payer = |payer| Filter {
        fee_payer: Some(addr(payer)),
        ..Default::default()
    };
    assert_eq!(
        positions(&store, &by_payer(0xf0), Order::Ascending),
        vec![Position::new(1, 0), Position::new(2, 0)],
    );
    // The unsponsored one is found by its own sender, because "who paid" is
    // recorded for every transaction rather than only the sponsored ones.
    assert_eq!(
        positions(&store, &by_payer(0xcc), Order::Ascending),
        vec![Position::new(3, 0)],
    );
    assert_eq!(
        positions(
            &store,
            &Filter {
                fee_token: Some(addr(0xe1)),
                ..Default::default()
            },
            Order::Ascending,
        ),
        vec![Position::new(1, 0), Position::new(3, 0)],
        "the transaction paying in the native currency is not in the token's walk",
    );
}

#[test]
fn the_fee_columns_intersect_and_count_like_the_others() {
    let mut store = empty();
    store
        .apply(&plan(
            None,
            vec![
                sponsored(1, 0, 0xaa, Some(0xbb), Some(0xe1), 0xf0),
                sponsored(2, 0, 0xaa, Some(0xbb), None, 0xf0),
            ],
            tip(2),
        ))
        .unwrap();

    assert_eq!(
        positions(
            &store,
            &Filter {
                fee_payer: Some(addr(0xf0)),
                fee_token: Some(addr(0xe1)),
                ..Default::default()
            },
            Order::Ascending,
        ),
        vec![Position::new(1, 0)],
    );
    for filter in [
        Filter {
            fee_payer: Some(addr(0xf0)),
            ..Default::default()
        },
        Filter {
            fee_token: Some(addr(0xe1)),
            ..Default::default()
        },
    ] {
        assert_count_matches_walk(&store, &filter);
    }
}

#[test]
fn a_revert_scrubs_the_fee_keyspaces() {
    let mut store = empty();
    store
        .apply(&plan(
            None,
            vec![sponsored(1, 0, 0xaa, Some(0xbb), Some(0xe1), 0xf0)],
            tip(1),
        ))
        .unwrap();
    store.apply(&plan(Some(1), vec![], tip(0))).unwrap();

    for filter in [
        Filter {
            fee_payer: Some(addr(0xf0)),
            ..Default::default()
        },
        Filter {
            fee_token: Some(addr(0xe1)),
            ..Default::default()
        },
    ] {
        assert!(
            positions(&store, &filter, Order::Ascending).is_empty(),
            "the revert left a ghost behind {filter:?}",
        );
        assert_eq!(store.reader().count(&filter).unwrap(), Some(0));
    }
}

#[test]
fn a_row_round_trips_its_optional_addresses() {
    // Both, one, the other and neither -- the flags byte has to place what follows
    // it, and a wrong one would read a call target as a fee payer.
    let mut store = empty();
    let rows = vec![
        sponsored(1, 0, 0xaa, Some(0xbb), Some(0xe1), 0xf0),
        sponsored(2, 0, 0xaa, Some(0xbb), None, 0xf0),
        IndexedTx {
            fee_token: Some(addr(0xe1)),
            fee_payer: None,
            ..tx(3, 0, 0xaa, Some(0xbb), 0x76)
        },
        tx(4, 0, 0xaa, Some(0xbb), 2),
        // Optional addresses in front of several call targets.
        IndexedTx {
            fee_token: Some(addr(0xe1)),
            fee_payer: Some(addr(0xf0)),
            ..batch(5, 0, 0xaa, &[0xc1, 0xc2], 0x76)
        },
    ];
    store.apply(&plan(None, rows.clone(), tip(5))).unwrap();
    assert_eq!(
        store
            .reader()
            .query(&Filter::default(), None, Order::Ascending, MAX_LIMIT)
            .unwrap(),
        rows,
    );
}

#[test]
fn a_row_this_build_cannot_place_is_rejected() {
    // Not a length check: a row of the right width whose flags name a field this
    // build does not know would decode everything after it as something else.
    let mut val = encode_row(&tx(1, 0, 0xaa, Some(0xbb), 2));
    val[53] = 0x80;
    let err = decode_row(Position::new(1, 0), &val)
        .unwrap_err().message();
    assert!(
        err.contains("deleted and rebuilt"),
        "unhelpful error: {err}"
    );

    // And a row too short for the address its flags promise.
    let mut val = encode_row(&tx(1, 0, 0xaa, None, 2));
    val[53] = HAS_FEE_PAYER;
    assert!(decode_row(Position::new(1, 0), &val).is_err());
}

#[test]
fn a_count_is_what_the_walk_would_yield() {
    let store = seeded();
    for filter in counted_filters() {
        assert_count_matches_walk(&store, &filter);
    }
}

#[test]
fn a_revert_gives_back_what_it_counted() {
    let mut store = seeded();
    store.apply(&plan(Some(2), vec![], tip(1))).unwrap();
    for filter in counted_filters() {
        assert_count_matches_walk(&store, &filter);
    }
    // And back to nothing once every row is gone -- not merely consistent with an
    // empty walk, which it would be at any number, but actually zero.
    store.apply(&plan(Some(0), vec![], None)).unwrap();
    assert_eq!(store.reader().count(&Filter::default()).unwrap(), Some(0));
}

#[test]
fn reapplying_a_block_does_not_inflate_the_count() {
    // The index is idempotent under a repeated put; a counter is not. A
    // notification redelivered after a restart must not double what it counts.
    let mut store = seeded();
    store
        .apply(&plan(None, vec![tx(1, 0, 0xaa, Some(0xbb), 2)], tip(3)))
        .unwrap();
    for filter in counted_filters() {
        assert_count_matches_walk(&store, &filter);
    }
}

#[test]
fn a_reorg_counts_the_replacement_rather_than_both() {
    let mut store = seeded();
    store
        .apply(&plan(Some(2), vec![tx(2, 0, 0xdd, Some(0xee), 2)], tip(2)))
        .unwrap();
    for filter in counted_filters() {
        assert_count_matches_walk(&store, &filter);
    }
    assert_eq!(
        store
            .reader()
            .count(&Filter {
                from: Some(addr(0xbb)),
                ..Default::default()
            })
            .unwrap(),
        Some(0),
        "the orphan's sender is still counted",
    );
}

#[test]
fn a_batch_counts_once_per_distinct_participant() {
    let mut store = empty();
    // The same target twice, and a sender who is also a target.
    store
        .apply(&plan(
            None,
            vec![batch(1, 0, 0xaa, &[0xc1, 0xc1, 0xaa], 0x76)],
            tip(1),
        ))
        .unwrap();
    let reader = store.reader();
    for byte in [0xaa, 0xc1] {
        assert_eq!(
            reader
                .count(&Filter {
                    address: Some(addr(byte)),
                    ..Default::default()
                })
                .unwrap(),
            Some(1),
            "{byte:#x} took part in one transaction",
        );
    }
    assert_eq!(reader.count(&Filter::default()).unwrap(), Some(1));
}

#[test]
fn no_counter_answers_more_than_one_term() {
    // Counters are kept per filter value, so an intersection or a range has no
    // stored answer. Saying so beats inventing one by walking.
    let store = seeded();
    let reader = store.reader();
    assert_eq!(
        reader
            .count(&Filter {
                from: Some(addr(0xaa)),
                tx_type: Some(2),
                ..Default::default()
            })
            .unwrap(),
        None,
    );
    assert_eq!(
        reader
            .count(&Filter {
                from: Some(addr(0xaa)),
                blocks: BlockRange::new(Some(1), None),
                ..Default::default()
            })
            .unwrap(),
        None,
    );
}

#[test]
fn replacing_a_row_replaces_its_index_entries() {
    // A put over an occupied position rewrites the row, and the secondary entries
    // the *old* row put there have to go with it. Left behind, the old sender's
    // walk still names the position, and hydrating it hands back the new row --
    // a transaction the filter does not match, reported as though it did.
    let mut store = seeded();
    store
        .apply(&plan(None, vec![tx(3, 0, 0xcc, Some(0xdd), 2)], tip(3)))
        .unwrap();

    let sent_by_the_old_sender = positions(
        &store,
        &Filter {
            from: Some(addr(0xaa)),
            ..Default::default()
        },
        Order::Ascending,
    );
    assert!(
        !sent_by_the_old_sender.contains(&Position::new(3, 0)),
        "the replaced row's sender still finds it",
    );
    assert_eq!(sent_by_the_old_sender.len(), 2);
    // The new row's own entries are there: the delete precedes the put, so the
    // entries both rows share survive rather than cancelling out.
    assert_eq!(
        positions(
            &store,
            &Filter {
                from: Some(addr(0xcc)),
                ..Default::default()
            },
            Order::Ascending,
        ),
        vec![Position::new(3, 0)],
    );
}

#[test]
fn reapplying_a_block_does_not_duplicate_it() {
    let mut store = seeded();
    store
        .apply(&plan(None, vec![tx(1, 0, 0xaa, Some(0xbb), 2)], tip(3)))
        .unwrap();
    let got = store
        .reader()
        .query(&Filter::default(), None, Order::Ascending, 10)
        .unwrap();
    assert_eq!(got.len(), 4);
}

#[test]
fn tip_is_absent_before_the_first_notification() {
    let store = empty();
    assert_eq!(store.indexed_tip().unwrap(), None);
}

#[test]
fn tip_round_trips_with_its_hash() {
    let mut store = empty();
    let want = Tip::new(7, B256::from([0x7c; 32]));
    store.apply(&plan(None, vec![], Some(want))).unwrap();
    assert_eq!(store.indexed_tip().unwrap(), Some(want));
}

#[test]
fn tip_is_replaced_not_appended() {
    let mut store = empty();
    store.apply(&plan(None, vec![], tip(1))).unwrap();
    store.apply(&plan(None, vec![], tip(2))).unwrap();
    assert_eq!(store.indexed_tip().unwrap(), tip(2));
}

#[test]
fn a_revert_moves_the_tip_back() {
    let mut store = seeded();
    assert_eq!(store.indexed_tip().unwrap(), tip(3));
    store.apply(&plan(Some(2), vec![], tip(1))).unwrap();
    assert_eq!(store.indexed_tip().unwrap(), tip(1));
}

#[test]
fn stats_follow_the_rows_and_the_tip() {
    let mut store = seeded();
    let ops = store.reader();

    let stats = ops.stats().unwrap();
    assert_eq!(stats.rows, 4);
    assert_eq!(stats.tip, tip(3));
    let named: Vec<&str> = stats.keyspaces.iter().map(|(name, _)| *name).collect();
    assert_eq!(
        named,
        ["primary", "from", "to", "type", "fee_token", "fee_payer", "count"],
        "a keyspace absent from stats is one nobody sizes"
    );

    store.apply(&plan(Some(2), vec![], tip(1))).unwrap();
    let stats = ops.stats().unwrap();
    assert_eq!(stats.rows, 2, "a revert discounts what it dropped");
    assert_eq!(stats.tip, tip(1));
}

#[test]
fn stats_count_rows_rather_than_index_entries() {
    // One row, three secondary entries, four counters. `rows` is the primary's,
    // which is the number an operator sizing a rebuild is asking for.
    let mut store = empty();
    store
        .apply(&plan(
            None,
            vec![batch(1, 0, 0xaa, &[0xbb, 0xcc], 2)],
            tip(1),
        ))
        .unwrap();
    assert_eq!(store.reader().stats().unwrap().rows, 1);
}

#[test]
fn reader_sees_the_writers_commits() {
    // "Cannot write" needs no runtime test: `Reader` has no write methods, so it
    // is a compile error instead.
    let mut store = empty();
    let reader = store.reader();
    store
        .apply(&plan(None, vec![tx(1, 0, 0xaa, Some(0xbb), 2)], tip(1)))
        .unwrap();
    let got = reader
        .query(&Filter::default(), None, Order::Ascending, 10)
        .unwrap();
    assert_eq!(got.len(), 1);
    assert_eq!(reader.tip().unwrap(), tip(1));

    // Including the operator's view: the handle is taken at the launch site, before
    // the store moves into the ExEx, so one reporting the index as it stood when
    // taken would answer zero forever.
    let stats = reader.stats().unwrap();
    assert_eq!(stats.rows, 1);
    assert_eq!(stats.tip, tip(1));
}

#[test]
fn a_page_reads_one_commit_even_as_the_writer_reverts() {
    // Without a pinned snapshot, a revert landing mid-query deletes a row the
    // walk already named, and its lookup errors - on the path every reorg takes.
    let mut store = seeded();
    let reader = store.reader();
    let snapshot = reader.snapshot();

    // Everything the query is about to name is dropped *after* it is pinned.
    store.apply(&plan(Some(1), vec![], tip(0))).unwrap();

    let filter = Filter {
        from: Some(addr(0xaa)),
        ..Default::default()
    };
    let pinned = reader
        .query_at(&snapshot, &filter, None, Order::Ascending, 10)
        .unwrap();
    assert_eq!(
        pinned.len(),
        3,
        "the walk and the lookups that resolve it must read the same commit"
    );

    // A query started afterwards pins the later commit, and sees the revert.
    assert!(reader
        .query(&filter, None, Order::Ascending, 10)
        .unwrap()
        .is_empty());
}

#[test]
fn a_corrupt_row_errors_rather_than_panicking() {
    // Only reachable through corruption or a hand-edited file, but the blow-up
    // would otherwise be a slice panic inside the node.
    let store = seeded();
    store.put(Keyspace::Primary, pos_key(Position::new(1, 0)), b"short".to_vec());
    store.put(Keyspace::Meta, tip_key(), b"also short".to_vec());

    assert!(store
        .reader()
        .query(&Filter::default(), None, Order::Ascending, 10)
        .is_err());
    assert!(store.indexed_tip().is_err());
}
#[test]
fn a_page_stops_at_the_limit_and_says_where_to_resume() {
    let store = seeded();
    let page = store
        .reader()
        .page(&Filter::default(), None, Order::Ascending, Some(2))
        .unwrap();
    assert_eq!(page.rows.len(), 2);
    // The cursor names the last row returned, not the row peeked at to learn
    // there was more -- resuming from the peeked one would skip it.
    assert_eq!(page.next_cursor, Some(page.rows[1].position.encode()));
}

#[test]
fn the_last_page_reports_no_cursor() {
    // Exactly as many rows as the limit, so the look-ahead comes back empty. A
    // page sized from a count would hand back a cursor onto nothing here, and
    // every caller would pay one empty round trip to discover the end.
    let store = seeded();
    let page = store
        .reader()
        .page(&Filter::default(), None, Order::Ascending, Some(4))
        .unwrap();
    assert_eq!(page.rows.len(), 4);
    assert_eq!(page.next_cursor, None);
}

#[test]
fn paging_by_cursor_covers_every_row_once() {
    let store = seeded();
    let reader = store.reader();
    for order in [Order::Ascending, Order::Descending] {
        let all = reader
            .page(&Filter::default(), None, order, Some(100))
            .unwrap();
        let (mut seen, mut cursor) = (Vec::new(), None);
        // Bounded: a cursor that fails to advance would otherwise hang rather
        // than fail, which is the harder of the two to read.
        for _ in 0..=all.rows.len() {
            let page = reader
                .page(&Filter::default(), cursor.as_deref(), order, Some(1))
                .unwrap();
            seen.extend(page.rows);
            cursor = page.next_cursor;
            if cursor.is_none() {
                break;
            }
        }
        assert!(cursor.is_none(), "the cursor never ran out ({order:?})");
        assert_eq!(seen, all.rows, "paged result diverged ({order:?})");
    }
}

#[test]
fn limit_clamps_at_both_ends() {
    let store = seeded();
    let reader = store.reader();
    let page = |limit| {
        reader
            .page(&Filter::default(), None, Order::Ascending, limit)
            .unwrap()
    };
    // Zero would leave no last row to cut a cursor from, so it clamps up rather
    // than reporting a walk that is over.
    assert_eq!(page(Some(0)).rows.len(), 1);
    assert!(page(Some(0)).next_cursor.is_some());
    assert_eq!(page(Some(usize::MAX)).rows.len(), 4, "clamped to MAX_LIMIT");
    assert_eq!(page(None).rows.len(), 4, "fewer rows than DEFAULT_LIMIT");
}

#[test]
fn a_cursor_this_did_not_issue_is_rejected() {
    // Not an empty page: a caller replaying a stale cursor would read silence as
    // the end of the walk.
    let store = seeded();
    let got = store.reader().page(
        &Filter::default(),
        Some("cursor-from-somewhere-else"),
        Order::Ascending,
        None,
    );
    assert!(got.is_err());
}

/// A commit plan for `rows` ending at `tip_block`, as a watcher would build it.
fn commit(rows: Vec<IndexedTx>, tip_block: u64) -> Plan {
    Plan {
        revert_from: None,
        rows,
        tip: tip(tip_block),
        committed: tip(tip_block),
    }
}

#[test]
fn merge_concatenates_commits() {
    let mut merged = commit(vec![tx(1, 0, 0xaa, None, 2)], 1);
    merged.merge(commit(vec![tx(2, 0, 0xbb, None, 2)], 2));
    assert_eq!(
        merged,
        Plan {
            revert_from: None,
            rows: vec![tx(1, 0, 0xaa, None, 2), tx(2, 0, 0xbb, None, 2)],
            tip: tip(2),
            committed: tip(2),
        }
    );
}

#[test]
fn merge_reorg_cuts_unwritten_rows() {
    // Blocks 2 and 3 exist only inside the merge; the reorg at 2 orphans them
    // before they ever reach the store, and the replacement row wins.
    let mut merged = commit(vec![tx(1, 0, 0xaa, None, 2), tx(2, 0, 0xbb, None, 2)], 2);
    merged.merge(commit(vec![tx(3, 0, 0xcc, None, 2)], 3));
    merged.merge(Plan {
        revert_from: Some(2),
        rows: vec![tx(2, 0, 0xdd, None, 0)],
        tip: tip(2),
        committed: tip(2),
    });
    assert_eq!(
        merged,
        Plan {
            revert_from: Some(2),
            rows: vec![tx(1, 0, 0xaa, None, 2), tx(2, 0, 0xdd, None, 0)],
            tip: tip(2),
            committed: tip(2),
        }
    );
}

#[test]
fn merge_keeps_lowest_cut() {
    // Two reverts: the store must be scrubbed from the lower of the two, no
    // matter the order they arrive in.
    let mut merged = plan(Some(5), vec![], tip(4));
    merged.merge(plan(Some(3), vec![], tip(2)));
    assert_eq!(merged.revert_from, Some(3));

    let mut merged = plan(Some(3), vec![], tip(2));
    merged.merge(plan(Some(5), vec![], tip(4)));
    assert_eq!(merged.revert_from, Some(3));
}

#[test]
fn merge_revert_only_drops_batch_commit() {
    // The commit at 2 was orphaned inside the merge; acknowledging it upstream
    // would let the node prune history the index still needs replayed.
    let mut merged = commit(vec![tx(2, 0, 0xaa, None, 2)], 2);
    merged.merge(plan(Some(2), vec![], tip(1)));
    assert_eq!(merged.committed, None);
    assert_eq!(merged.tip, tip(1), "tip still moves to the revert's parent");
    assert!(merged.rows.is_empty());
}

#[test]
fn merge_keeps_a_commit_below_the_cut() {
    // The batch committed block 2, then a queued reorg cut from block 5. Block 2
    // is still canonical, and the merged apply is this batch's only chance to
    // acknowledge it -- dropping it is safe but pays a replay for nothing.
    let mut merged = Plan {
        rows: vec![tx(2, 0, 0xaa, None, 2)],
        tip: tip(2),
        committed: tip(2),
        ..Default::default()
    };
    merged.merge(Plan {
        revert_from: Some(5),
        tip: tip(4),
        ..Default::default()
    });
    assert_eq!(
        merged.committed,
        tip(2),
        "a commit below the cut survived the merge"
    );
    assert_eq!(merged.tip, tip(4));
}

#[test]
fn merge_matches_sequential_apply() {
    // The contract `merge` exists for: one apply of the fold leaves the store
    // exactly as applying each plan in order would - including a reorg that
    // cuts into rows the store already holds.
    let history = || {
        vec![
            commit(
                vec![tx(1, 0, 0xaa, Some(0xbb), 2), tx(1, 1, 0xaa, None, 0)],
                1,
            ),
            commit(vec![tx(2, 0, 0xbb, Some(0xaa), 2)], 2),
            commit(vec![tx(3, 0, 0xcc, None, 2)], 3),
            // Reorg: 2 and 3 are replaced by a different block 2.
            Plan {
                revert_from: Some(2),
                rows: vec![tx(2, 0, 0xdd, Some(0xee), 0)],
                tip: Some(Tip::new(2, B256::from([0x22; 32]))),
                committed: Some(Tip::new(2, B256::from([0x22; 32]))),
            },
            commit(vec![tx(3, 0, 0xee, Some(0xdd), 2)], 3),
        ]
    };

    let mut sequential = seeded();
    for plan in history() {
        sequential.apply(&plan).unwrap();
    }

    let mut merged_store = seeded();
    let mut folded = Plan::default();
    for plan in history() {
        folded.merge(plan);
    }
    merged_store.apply(&folded).unwrap();

    let all = |store: &Store| {
        store
            .reader()
            .query(&Filter::default(), None, Order::Ascending, MAX_LIMIT)
            .unwrap()
    };
    assert_eq!(all(&sequential), all(&merged_store));
    assert_eq!(
        sequential.indexed_tip().unwrap(),
        merged_store.indexed_tip().unwrap()
    );
    // The secondaries were scrubbed identically too - query each one.
    for filter in [
        Filter {
            from: Some(addr(0xbb)),
            ..Default::default()
        },
        Filter {
            to: Some(addr(0xaa)),
            ..Default::default()
        },
        Filter {
            tx_type: Some(0),
            ..Default::default()
        },
    ] {
        let seq = sequential
            .reader()
            .query(&filter, None, Order::Ascending, MAX_LIMIT);
        let mrg = merged_store
            .reader()
            .query(&filter, None, Order::Ascending, MAX_LIMIT);
        assert_eq!(seq.unwrap(), mrg.unwrap());
    }
    // And the counts netted out the same, which is the half a fold can get wrong
    // without the walk showing it: a reorg discounts the rows it drops and counts
    // their replacements, and one merged apply has to land where five separate
    // ones did.
    for filter in counted_filters() {
        assert_count_matches_walk(&sequential, &filter);
        assert_eq!(
            sequential.reader().count(&filter).unwrap(),
            merged_store.reader().count(&filter).unwrap(),
            "the fold and the replay disagree on {filter:?}",
        );
    }
}
// ---- beyond the scenarios above

/// Every row that a filter selects, found by looking at each.
fn by_hand(rows: &[IndexedTx], filter: &Filter, order: Order) -> Vec<Position> {
    let mut found: Vec<Position> = rows
        .iter()
        .filter(|row| filter.from.map_or(true, |a| row.from == a))
        .filter(|row| filter.to.map_or(true, |a| row.to.contains(&a)))
        .filter(|row| {
            filter
                .address
                .map_or(true, |a| row.from == a || row.to.contains(&a))
        })
        .filter(|row| filter.tx_type.map_or(true, |t| row.tx_type == t))
        .filter(|row| filter.fee_token.map_or(true, |a| row.fee_token == Some(a)))
        .filter(|row| filter.fee_payer.map_or(true, |a| row.fee_payer == Some(a)))
        .filter(|row| filter.blocks.min.map_or(true, |b| b <= row.position.block_num))
        .filter(|row| filter.blocks.max.map_or(true, |b| row.position.block_num <= b))
        .map(|row| row.position)
        .collect();
    found.sort();
    if order == Order::Descending {
        found.reverse();
    }
    found
}

/// A few hundred rows over a handful of addresses, so that every filter has hits and misses.
fn busy_rows() -> Vec<IndexedTx> {
    let mut rows = Vec::new();
    for block in 0..80u64 {
        for index in 0..(block % 4) as u32 {
            let seed = (block * 7 + u64::from(index) * 13) as u8;
            let targets = [seed % 5, seed % 3, seed % 7];
            let mut row = batch(block, index, seed % 4, &targets[..(seed % 4) as usize % 4], seed % 3);
            if seed % 2 == 0 {
                row.fee_payer = Some(addr(seed % 6));
            }
            if seed % 5 == 0 {
                row.fee_token = Some(addr(seed % 3));
            }
            rows.push(row);
        }
    }
    rows
}

fn busy_filters() -> Vec<Filter> {
    let ranges = [
        BlockRange::default(),
        BlockRange::new(Some(20), None),
        BlockRange::new(None, Some(41)),
        BlockRange::new(Some(13), Some(57)),
    ];
    let mut filters = Vec::new();
    for blocks in ranges {
        for a in 0..4u8 {
            for b in 0..3u8 {
                for shape in 0..6u8 {
                    let mut filter = Filter {
                        blocks,
                        ..Default::default()
                    };
                    match shape {
                        0 => filter.from = Some(addr(a)),
                        1 => {
                            filter.from = Some(addr(a));
                            filter.to = Some(addr(b));
                        }
                        2 => filter.address = Some(addr(a)),
                        3 => {
                            filter.address = Some(addr(a));
                            filter.tx_type = Some(b);
                        }
                        4 => {
                            filter.fee_payer = Some(addr(a));
                            filter.fee_token = Some(addr(b));
                        }
                        _ => {
                            filter.address = Some(addr(a));
                            filter.to = Some(addr(b));
                            filter.tx_type = Some(b);
                        }
                    }
                    filters.push(filter);
                }
            }
        }
    }
    filters
}

#[test]
fn a_query_finds_what_looking_at_every_row_finds() {
    let mut store = empty();
    let rows = busy_rows();
    store.apply(&plan(None, rows.clone(), tip(79))).unwrap();
    let reader = store.reader();
    for filter in busy_filters() {
        for order in [Order::Ascending, Order::Descending] {
            let want = by_hand(&rows, &filter, order);
            let got = reader.query(&filter, None, order, 1000).unwrap();
            let at: Vec<Position> = got.iter().map(|row| row.position).collect();
            assert_eq!(at, want, "{filter:?} {order:?}");
            // A limit cuts the same walk short.
            let some = reader.query(&filter, None, order, 3).unwrap();
            assert_eq!(some[..], got[..got.len().min(3)], "{filter:?} {order:?}");
            // A cursor resumes it, wherever it points.
            for after in [Position::new(30, 1), Position::new(31, 7)] {
                let rest = reader.query(&filter, Some(after), order, 1000).unwrap();
                let want: Vec<Position> = want
                    .iter()
                    .copied()
                    .filter(|p| match order {
                        Order::Ascending => *p > after,
                        Order::Descending => *p < after,
                    })
                    .collect();
                let at: Vec<Position> = rest.iter().map(|row| row.position).collect();
                assert_eq!(at, want, "{filter:?} {order:?} after {after:?}");
            }
        }
    }
}

#[test]
fn pages_of_any_size_cover_a_filtered_walk_once() {
    let mut store = empty();
    store.apply(&plan(None, busy_rows(), tip(79))).unwrap();
    let reader = store.reader();
    let filter = Filter {
        address: Some(addr(1)),
        ..Default::default()
    };
    for order in [Order::Ascending, Order::Descending] {
        let all = reader.query(&filter, None, order, 1000).unwrap();
        for size in [1, 2, 3, 7, all.len(), all.len() + 1] {
            let (mut seen, mut cursor) = (Vec::new(), None);
            loop {
                let page = reader
                    .page(&filter, cursor.as_deref(), order, Some(size))
                    .unwrap();
                assert!(page.rows.len() <= size.min(MAX_LIMIT));
                seen.extend(page.rows);
                cursor = page.next_cursor;
                if cursor.is_none() {
                    break;
                }
            }
            assert_eq!(seen, all, "pages of {size}");
        }
    }
}

#[test]
fn a_limit_of_nothing_reads_nothing() {
    let store = seeded();
    let reader = store.reader();
    let (rows, seeks, steps) = reader
        .counting(
            &reader.snapshot(),
            &Filter::default(),
            None,
            Order::Ascending,
            0,
        )
        .unwrap();
    assert!(rows.is_empty());
    assert_eq!((seeks, steps), (0, 0));
    // A filtered one opens its walks, and stops.
    let filter = Filter {
        from: Some(addr(0xaa)),
        ..Default::default()
    };
    let (rows, seeks, steps) = reader
        .counting(&reader.snapshot(), &filter, None, Order::Ascending, 0)
        .unwrap();
    assert!(rows.is_empty());
    assert_eq!((seeks, steps), (1, 0));
}

#[test]
fn a_wide_gap_takes_a_seek_rather_than_a_walk() {
    // One sender on the far side of two thousand entries: sixteen steps toward it, then a seek.
    let mut store = empty();
    let mut rows: Vec<_> = (1..=2000).map(|b| tx(b, 0, 0xbb, Some(0xcc), 2)).collect();
    rows.push(tx(3000, 0, 0x0a, Some(0xcc), 2));
    store.apply(&plan(None, rows, tip(3000))).unwrap();
    let reader = store.reader();
    let filter = Filter {
        from: Some(addr(0x0a)),
        to: Some(addr(0xcc)),
        ..Default::default()
    };
    let (rows, seeks, steps) = reader
        .counting(&reader.snapshot(), &filter, None, Order::Ascending, 10)
        .unwrap();
    assert_eq!(rows.len(), 1);
    assert_eq!(seeks, 3, "one to open each walk, and one across the gap");
    assert_eq!(steps, 18, "sixteen before the seek, and one past the hit for each walk");
}

#[test]
fn a_small_gap_is_stepped_over() {
    let mut store = empty();
    let mut rows: Vec<_> = (1..=15).map(|b| tx(b, 0, 0xbb, Some(0xcc), 2)).collect();
    rows.push(tx(16, 0, 0x0a, Some(0xcc), 2));
    store.apply(&plan(None, rows, tip(16))).unwrap();
    let reader = store.reader();
    let filter = Filter {
        from: Some(addr(0x0a)),
        to: Some(addr(0xcc)),
        ..Default::default()
    };
    let (rows, seeks, _) = reader
        .counting(&reader.snapshot(), &filter, None, Order::Ascending, 10)
        .unwrap();
    assert_eq!(rows.len(), 1);
    assert_eq!(seeks, 2);
}

#[test]
fn a_secondary_entry_without_its_row_is_reported() {
    let store = seeded();
    store.db.borrow_mut().write(Op::Delete {
        keyspace: Keyspace::Primary,
        key: pos_key(Position::new(1, 1)),
    });
    let filter = Filter {
        from: Some(addr(0xaa)),
        ..Default::default()
    };
    let got = store.reader().query(&filter, None, Order::Ascending, 10);
    assert_eq!(got, Err(Error::MissingRow));
    assert_eq!(
        Error::MissingRow.message(),
        "secondary entry points at a missing row"
    );
}

#[test]
fn a_malformed_key_is_reported() {
    let store = seeded();
    let mut key = vec![0xaa; 20];
    key.extend_from_slice(&[0xff; 3]);
    store.put(Keyspace::From, key, vec![]);
    let filter = Filter {
        from: Some(addr(0xaa)),
        ..Default::default()
    };
    let got = store.reader().query(&filter, None, Order::Ascending, 10);
    assert_eq!(got, Err(Error::PositionKey(3)));
}

#[test]
fn a_malformed_row_stops_a_revert_before_anything_is_written() {
    let mut store = seeded();
    store.put(
        Keyspace::Primary,
        pos_key(Position::new(3, 0)),
        b"short".to_vec(),
    );
    let before = store.reader().snapshot().keyspaces;
    assert_eq!(
        store.apply(&plan(Some(2), vec![], tip(1))),
        Err(Error::Row(5))
    );
    assert_eq!(store.reader().snapshot().keyspaces, before);
    // So does one that a row would be put over.
    assert_eq!(
        store.apply(&plan(None, vec![tx(3, 0, 0xdd, None, 0)], tip(3))),
        Err(Error::Row(5))
    );
    assert_eq!(store.reader().snapshot().keyspaces, before);
}

#[test]
fn a_malformed_counter_is_reported() {
    let mut store = seeded();
    store.put(Keyspace::Count, total_counter(), b"four".to_vec());
    assert_eq!(
        store.reader().count(&Filter::default()),
        Err(Error::Count(4))
    );
    assert_eq!(store.reader().stats(), Err(Error::Count(4)));
    assert_eq!(
        store.apply(&plan(None, vec![tx(9, 0, 0xaa, None, 0)], tip(9))),
        Err(Error::Count(4))
    );
}

#[test]
fn a_counter_saturates_rather_than_failing() {
    let mut store = empty();
    store.put(
        Keyspace::Count,
        total_counter(),
        u64::MAX.to_be_bytes().to_vec(),
    );
    store
        .apply(&plan(None, vec![tx(1, 0, 0xaa, None, 0)], tip(1)))
        .unwrap();
    assert_eq!(
        store.reader().count(&Filter::default()).unwrap(),
        Some(u64::MAX)
    );
    // And at the other end: a counter that was lost does not go below nothing.
    store.db.borrow_mut().write(Op::Delete {
        keyspace: Keyspace::Count,
        key: total_counter(),
    });
    store.apply(&plan(Some(1), vec![], tip(0))).unwrap();
    assert_eq!(store.reader().count(&Filter::default()).unwrap(), Some(0));
}

#[test]
fn an_index_reverted_to_nothing_holds_only_its_tip() {
    let mut store = empty();
    store.apply(&plan(None, busy_rows(), tip(79))).unwrap();
    store.apply(&plan(Some(0), vec![], tip(0))).unwrap();
    let left = store.reader().snapshot().keyspaces;
    for (name, entries) in &left {
        if *name == Keyspace::Meta.name() {
            assert_eq!(entries.len(), 1);
        } else {
            assert!(entries.is_empty(), "{name} still holds entries");
        }
    }
}

#[test]
fn applying_a_plan_twice_changes_nothing_more() {
    let mut store = seeded();
    let again = || {
        plan(
            Some(2),
            vec![tx(1, 1, 0xcc, Some(0xaa), 1), tx(2, 0, 0xdd, Some(0xee), 2)],
            tip(2),
        )
    };
    store.apply(&again()).unwrap();
    let once = store.reader().snapshot().keyspaces;
    store.apply(&again()).unwrap();
    assert_eq!(store.reader().snapshot().keyspaces, once);
}

#[test]
fn a_fold_leaves_the_very_bytes_that_a_replay_leaves() {
    let history = || {
        vec![
            commit(busy_rows(), 79),
            Plan {
                revert_from: Some(40),
                rows: vec![tx(40, 0, 1, Some(2), 0), tx(41, 0, 2, Some(1), 1)],
                tip: tip(41),
                committed: tip(41),
            },
            plan(Some(20), vec![], tip(19)),
            commit(vec![tx(20, 0, 3, Some(3), 2)], 20),
        ]
    };
    let mut sequential = seeded();
    for plan in history() {
        sequential.apply(&plan).unwrap();
    }
    let mut folded = Plan::default();
    for plan in history() {
        folded.merge(plan);
    }
    let mut merged = seeded();
    merged.apply(&folded).unwrap();
    assert_eq!(contents(&sequential), contents(&merged));
}

/// What a store holds, but for keyspaces that hold nothing.
fn contents(store: &Store) -> BTreeMap<&'static str, Entries> {
    let mut all = store.reader().snapshot().keyspaces;
    all.retain(|_, entries| !entries.is_empty());
    all
}

/// The store after applying each plan in order, and after applying their fold, onto the same rows.
fn replayed_and_folded(stored: &[IndexedTx], history: impl Fn() -> Vec<Plan>) -> (Store, Store) {
    let (mut sequential, mut merged) = (empty(), empty());
    for store in [&mut sequential, &mut merged] {
        store.apply(&plan(None, stored.to_vec(), tip(0))).unwrap();
    }
    let mut folded = Plan::default();
    for plan in history() {
        sequential.apply(&plan).unwrap();
    }
    for plan in history() {
        folded.merge(plan);
    }
    merged.apply(&folded).unwrap();
    (sequential, merged)
}

#[test]
fn a_fold_of_a_redelivered_block_counts_it_once() {
    let block = || commit(vec![tx(1, 0, 0xaa, Some(0xbb), 2)], 1);
    let (sequential, merged) = replayed_and_folded(&[], || vec![block(), block()]);
    assert_eq!(contents(&sequential), contents(&merged));
    assert_eq!(
        positions(&merged, &Filter::default(), Order::Ascending),
        vec![Position::new(1, 0)]
    );
    let from = Filter {
        from: Some(addr(0xaa)),
        ..Default::default()
    };
    for filter in [Filter::default(), from] {
        assert_eq!(merged.reader().count(&filter).unwrap(), Some(1));
    }
    assert_eq!(merged.reader().stats().unwrap().rows, 1);
}

#[test]
fn a_fold_keeps_the_last_row_at_a_position() {
    // Differing senders, with and without a row already stored there, and the rows of the plans
    // out of chain order once they are folded.
    let history = || {
        vec![
            commit(vec![tx(1, 0, 0xaa, Some(0xbb), 2), tx(2, 0, 0xaa, None, 2)], 2),
            commit(vec![tx(1, 0, 0xcc, Some(0xdd), 0)], 2),
            commit(vec![tx(1, 1, 0xee, Some(0xaa), 1), tx(2, 0, 0xcc, None, 0)], 2),
            commit(vec![tx(1, 0, 0xdd, Some(0xcc), 2)], 2),
        ]
    };
    let stored = [tx(1, 0, 0xff, Some(0xff), 1), tx(3, 0, 0xff, None, 1)];
    for stored in [&[][..], &stored[..]] {
        let (sequential, merged) = replayed_and_folded(stored, history);
        assert_eq!(contents(&sequential), contents(&merged));
        let by = |byte| {
            let filter = Filter {
                from: Some(addr(byte)),
                ..Default::default()
            };
            assert_count_matches_walk(&merged, &filter);
            positions(&merged, &filter, Order::Ascending)
        };
        assert!(by(0xaa).is_empty());
        assert_eq!(by(0xcc), vec![Position::new(2, 0)]);
        assert_eq!(by(0xdd), vec![Position::new(1, 0)]);
        assert_eq!(by(0xee), vec![Position::new(1, 1)]);
    }
}

#[test]
fn a_fold_with_a_cut_keeps_the_last_row_below_it() {
    let history = || {
        vec![
            commit(vec![tx(1, 0, 0xaa, Some(0xbb), 2), tx(4, 0, 0xaa, None, 2)], 4),
            Plan {
                revert_from: Some(3),
                rows: vec![tx(1, 0, 0xcc, Some(0xdd), 0), tx(3, 0, 0xcc, None, 0)],
                tip: tip(3),
                committed: tip(3),
            },
            commit(vec![tx(3, 0, 0xdd, None, 1)], 3),
        ]
    };
    let stored = [tx(1, 0, 0xff, Some(0xff), 1), tx(3, 0, 0xff, None, 1)];
    let (sequential, merged) = replayed_and_folded(&stored, history);
    assert_eq!(contents(&sequential), contents(&merged));
    assert_eq!(merged.reader().count(&Filter::default()).unwrap(), Some(2));
}

#[test]
fn the_very_last_block_is_replaced_like_any_other() {
    let row = |from| IndexedTx {
        position: Position::new(u64::MAX, 0),
        ..tx(0, 0, from, None, 2)
    };
    let mut store = empty();
    store.apply(&plan(None, vec![row(0xaa)], None)).unwrap();
    store.apply(&plan(None, vec![row(0xcc)], None)).unwrap();
    let by = |byte| Filter {
        from: Some(addr(byte)),
        ..Default::default()
    };
    assert!(positions(&store, &by(0xaa), Order::Ascending).is_empty());
    let reader = store.reader();
    assert_eq!(reader.count(&by(0xaa)).unwrap(), Some(0));
    assert_eq!(reader.count(&by(0xcc)).unwrap(), Some(1));
    assert_eq!(reader.count(&Filter::default()).unwrap(), Some(1));

    let mut straight = empty();
    straight.apply(&plan(None, vec![row(0xcc)], None)).unwrap();
    assert_eq!(contents(&store), contents(&straight));
}

#[test]
fn the_layout_is_what_it_says() {
    let mut store = empty();
    let row = sponsored(0x0102, 3, 0xaa, Some(0xbb), Some(0xe1), 0xf0);
    store
        .apply(&plan(None, vec![row], Some(Tip::new(0x0102, B256::from([7; 32])))))
        .unwrap();
    let position = [0, 0, 0, 0, 0, 0, 1, 2, 0, 0, 0, 3];
    let entry = |value: &[u8]| [value, &position].concat();
    let db = store.reader().snapshot();

    let mut stored = vec![0x17u8; 0];
    stored.extend_from_slice(&[(0x0102u64 * 10 + 3) as u8; 32]);
    stored.extend_from_slice(&[0xaa; 20]);
    stored.extend_from_slice(&[0x76, 3]);
    stored.extend_from_slice(&[0xe1; 20]);
    stored.extend_from_slice(&[0xf0; 20]);
    stored.extend_from_slice(&[0xbb; 20]);
    assert_eq!(db.get(Keyspace::Primary, &position), Some(stored));
    for (keyspace, value) in [
        (Keyspace::From, &[0xaa; 20][..]),
        (Keyspace::To, &[0xbb; 20][..]),
        (Keyspace::Type, &[0x76][..]),
        (Keyspace::FeeToken, &[0xe1; 20][..]),
        (Keyspace::FeePayer, &[0xf0; 20][..]),
    ] {
        assert_eq!(db.get(keyspace, &entry(value)), Some(vec![]), "{keyspace:?}");
        assert_eq!(db.keyspaces[keyspace.name()].len(), 1);
    }
    let one = Some(1u64.to_be_bytes().to_vec());
    for key in [
        [&b"from\0"[..], &[0xaa; 20]].concat(),
        [&b"to\0"[..], &[0xbb; 20]].concat(),
        [&b"type\0"[..], &[0x76]].concat(),
        [&b"fee_token\0"[..], &[0xe1; 20]].concat(),
        [&b"fee_payer\0"[..], &[0xf0; 20]].concat(),
        [&b"addr\0"[..], &[0xaa; 20]].concat(),
        [&b"addr\0"[..], &[0xbb; 20]].concat(),
        b"all\0".to_vec(),
    ] {
        assert_eq!(db.get(Keyspace::Count, &key), one, "{key:?}");
    }
    assert_eq!(db.keyspaces[Keyspace::Count.name()].len(), 8);
    let tip = [&[0, 0, 0, 0, 0, 0, 1, 2][..], &[7; 32]].concat();
    assert_eq!(db.get(Keyspace::Meta, b"tip"), Some(tip));
}

#[test]
fn a_cursor_does_not_drift_as_blocks_arrive() {
    let mut store = seeded();
    let reader = store.reader();
    let first = reader
        .page(&Filter::default(), None, Order::Descending, Some(2))
        .unwrap();
    let before = reader
        .page(
            &Filter::default(),
            first.next_cursor.as_deref(),
            Order::Descending,
            Some(2),
        )
        .unwrap();
    store
        .apply(&plan(
            None,
            vec![tx(4, 0, 0xaa, Some(0xbb), 2), tx(5, 0, 0xbb, None, 0)],
            tip(5),
        ))
        .unwrap();
    let after = reader
        .page(
            &Filter::default(),
            first.next_cursor.as_deref(),
            Order::Descending,
            Some(2),
        )
        .unwrap();
    assert_eq!(before, after);
}

#[test]
fn a_revert_leaves_what_lies_below_the_cut() {
    let mut store = empty();
    let rows = busy_rows();
    store.apply(&plan(None, rows.clone(), tip(79))).unwrap();
    store.apply(&plan(Some(33), vec![], tip(32))).unwrap();
    let mut straight = empty();
    let kept: Vec<IndexedTx> = rows
        .into_iter()
        .filter(|row| row.position.block_num < 33)
        .collect();
    straight.apply(&plan(None, kept, tip(32))).unwrap();
    assert_eq!(
        store.reader().snapshot().keyspaces,
        straight.reader().snapshot().keyspaces
    );
}

#[test]
fn a_cursor_does_not_drift_as_blocks_above_it_are_reorganised() {
    let mut store = seeded();
    let reader = store.reader();
    let first = reader
        .page(&Filter::default(), None, Order::Descending, Some(2))
        .unwrap();
    assert_eq!(first.next_cursor, Some(Position::new(2, 0).encode()));
    let rest = |reader: &Reader| {
        reader
            .page(
                &Filter::default(),
                first.next_cursor.as_deref(),
                Order::Descending,
                Some(2),
            )
            .unwrap()
    };
    let before = rest(&reader);
    store
        .apply(&plan(
            Some(3),
            vec![tx(2, 1, 0xdd, None, 1), tx(3, 0, 0xee, Some(0xbb), 0)],
            tip(3),
        ))
        .unwrap();
    assert_eq!(rest(&reader), before);
    assert_eq!(before.rows.len(), 2);
    // A cut at the cursor's block or below it takes rows past the cursor with it.
    store.apply(&plan(Some(1), vec![], tip(0))).unwrap();
    assert_eq!(rest(&reader).rows, vec![]);
}

#[test]
fn applying_a_plan_twice_leaves_even_a_wrong_counter_as_it_is() {
    let mut store = seeded();
    store.put(
        Keyspace::Count,
        total_counter(),
        u64::MAX.to_be_bytes().to_vec(),
    );
    let lost = Filter {
        from: Some(addr(0xaa)),
        ..Default::default()
    };
    store.db.borrow_mut().write(Op::Delete {
        keyspace: Keyspace::Count,
        key: lost.counter().unwrap(),
    });
    let again = || {
        plan(
            Some(2),
            vec![tx(1, 2, 0xbb, None, 1), tx(2, 0, 0xdd, Some(0xee), 2)],
            tip(2),
        )
    };
    store.apply(&again()).unwrap();
    assert_eq!(store.reader().count(&Filter::default()).unwrap(), Some(u64::MAX));
    assert_eq!(store.reader().count(&lost).unwrap(), Some(0));
    let once = contents(&store);
    store.apply(&again()).unwrap();
    assert_eq!(contents(&store), once);
    // The rows are those of a store whose counters were never wrong.
    let mut sound = seeded();
    sound.apply(&again()).unwrap();
    for name in [Keyspace::Primary, Keyspace::From, Keyspace::To, Keyspace::Type] {
        assert_eq!(contents(&sound).get(name.name()), once.get(name.name()));
    }
}

#[test]
fn a_result_has_as_many_pages_as_its_rows_fill() {
    for n in 0..=6u64 {
        let mut store = empty();
        let rows: Vec<_> = (1..=n).map(|b| tx(b, 0, 0xaa, None, 2)).collect();
        store.apply(&plan(None, rows, tip(n))).unwrap();
        for (size, expected) in [
            (1, [1, 1, 2, 3, 4, 5, 6]),
            (2, [1, 1, 1, 2, 2, 3, 3]),
            (3, [1, 1, 1, 1, 2, 2, 2]),
            (6, [1, 1, 1, 1, 1, 1, 1]),
        ] {
            let mut pages = vec![];
            let mut cursor: Option<String> = None;
            loop {
                let page = store
                    .reader()
                    .page(&Filter::default(), cursor.as_deref(), Order::Ascending, Some(size))
                    .unwrap();
                pages.push(page.rows);
                match page.next_cursor {
                    Some(next) => cursor = Some(next),
                    None => break,
                }
            }
            assert_eq!(pages.len(), expected[n as usize], "{n} rows by {size}");
            assert_eq!(pages.concat().len() as u64, n);
            assert!(n == 0 || pages.iter().all(|page| !page.is_empty()));
        }
    }
}

#[test]
fn a_walk_comes_to_its_target_across_any_gap() {
    // The walk of one side is moved up to the other's position and on from there, by steps or by a
    // seek as the gap is wide.
    for gap in 0..40u64 {
        let mut store = empty();
        let mut rows: Vec<_> = (1..=gap).map(|b| tx(b, 0, 0xbb, Some(0xcc), 2)).collect();
        rows.push(tx(gap + 1, 0, 0x0a, None, 2));
        rows.push(tx(gap + 2, 0, 0x0a, Some(0xcc), 2));
        rows.push(tx(gap + 3, 0, 0xbb, Some(0xcc), 2));
        rows.push(tx(gap + 4, 0, 0x0a, Some(0xcc), 2));
        store.apply(&plan(None, rows, tip(gap + 4))).unwrap();
        let filter = Filter {
            from: Some(addr(0x0a)),
            to: Some(addr(0xcc)),
            ..Default::default()
        };
        let mut hits = vec![Position::new(gap + 2, 0), Position::new(gap + 4, 0)];
        assert_eq!(positions(&store, &filter, Order::Ascending), hits, "a gap of {gap}");
        hits.reverse();
        assert_eq!(positions(&store, &filter, Order::Descending), hits, "a gap of {gap}");
        let short = Filter {
            blocks: BlockRange {
                min: None,
                max: Some(gap + 3),
            },
            ..filter
        };
        assert_eq!(
            positions(&store, &short, Order::Ascending),
            vec![Position::new(gap + 2, 0)],
            "a gap of {gap}"
        );
    }
}
