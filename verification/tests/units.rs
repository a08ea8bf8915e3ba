//! The parts of the index, one at a time.

use tx_index::codec::{
    decode_count, decode_row, decode_tip, encode_count, encode_row, encode_tip, read_count,
    read_tip,
};
use tx_index::deltas::{sum_up, Change};
use tx_index::entries::{columns, count_key, counters, secondaries, targets};
use tx_index::layout::{pos_from_key, pos_key, sec_key};
use tx_index::{
    open_page, peek, resolve, Address, BlockRange, Draft, Error, Filter, IndexedTx, KeyScan,
    Keyspace, Kind, Listing, Op, Order, Page, Plan, Position, Query, Reading, Request, Search,
    Stats, Tip, Window, B256, DEFAULT_LIMIT, MAX_LIMIT,
};

fn addr(byte: u8) -> Address {
    Address::from([byte; 20])
}

fn row(block: u64, index: u32, to: &[u8]) -> IndexedTx {
    IndexedTx {
        position: Position::new(block, index),
        hash: B256::from([9; 32]),
        from: addr(0xaa),
        to: to.iter().copied().map(addr).collect(),
        tx_type: 2,
        fee_token: None,
        fee_payer: None,
    }
}

#[test]
fn a_cursor_is_twenty_digits_and_ten() {
    assert_eq!(
        Position::new(12345, 7).encode(),
        "00000000000000012345:0000000007"
    );
    assert_eq!(
        Position::new(u64::MAX, u32::MAX).encode(),
        "18446744073709551615:4294967295"
    );
    let last = Position::new(u64::MAX, u32::MAX);
    assert_eq!(Position::decode(&last.encode()), Some(last));
}

#[test]
fn nothing_but_a_cursor_is_taken_for_one() {
    for text in [
        "",
        ":",
        "1:2",
        "+0000000000000012345:0000000007",
        "00000000000000012345:000000007",
        "00000000000000012345-0000000007",
        "0000000000000001234x:0000000007",
        "00000000000000012345:00000000070",
        "18446744073709551616:0000000000",
        "00000000000000000001:4294967296",
        "0000000000000001234\u{e9}:0000000007",
    ] {
        assert_eq!(Position::decode(text), None, "{text:?}");
    }
}

#[test]
fn the_default_order_is_descending() {
    assert_eq!(Order::default(), Order::Descending);
}

#[test]
fn positions_go_by_block_and_index() {
    assert!(Position::new(1, 9).is_before(Position::new(2, 0), Order::Ascending));
    assert!(Position::new(2, 0).is_before(Position::new(1, 9), Order::Descending));
    assert!(!Position::new(2, 0).is_before(Position::new(2, 0), Order::Ascending));
}

#[test]
fn a_position_key_is_big_endian() {
    let pos = Position::new(0x0102, 0x0304);
    assert_eq!(pos_key(pos), [0, 0, 0, 0, 0, 0, 1, 2, 0, 0, 3, 4]);
    assert_eq!(pos_from_key(&pos_key(pos)), Ok(pos));
    assert_eq!(sec_key(&[7], pos), [7, 0, 0, 0, 0, 0, 0, 1, 2, 0, 0, 3, 4]);
    let err = pos_from_key(&[0; 11]).unwrap_err();
    assert_eq!(err, Error::PositionKey(11));
    assert_eq!(err.message(), "position key: expected 12 bytes, found 11");
}

#[test]
fn keys_sort_as_positions_do() {
    let mut positions = vec![
        Position::new(256, 0),
        Position::new(1, 256),
        Position::new(255, u32::MAX),
        Position::new(1, 255),
        Position::new(u64::MAX, 0),
    ];
    let mut keys: Vec<Vec<u8>> = positions.iter().map(|p| sec_key(&[5, 5], *p)).collect();
    positions.sort();
    keys.sort();
    let sorted: Vec<Vec<u8>> = positions.iter().map(|p| sec_key(&[5, 5], *p)).collect();
    assert_eq!(keys, sorted);
}

#[test]
fn a_row_of_two_targets_is_ninety_four_bytes() {
    let row = row(1, 0, &[1, 2]);
    let val = encode_row(&row);
    assert_eq!(val.len(), 94);
    assert_eq!(val[52..54], [2, 0]);
    assert_eq!(decode_row(row.position, &val), Ok(row));
}

#[test]
fn a_row_that_is_no_row_says_so() {
    let pos = Position::new(1, 0);
    let err = decode_row(pos, &[0; 53]).unwrap_err();
    assert_eq!(err, Error::Row(53));
    assert_eq!(
        err.message(),
        "row value: 53 bytes is not a 54-byte header, its flagged addresses and whole call \
         targets -- an index written by an older layout has to be deleted and rebuilt"
    );
    assert_eq!(decode_row(pos, &[0; 55]), Err(Error::Row(55)));
    // One address, where the flags promise two.
    let mut val = vec![0; 74];
    val[53] = 3;
    assert_eq!(decode_row(pos, &val), Err(Error::Row(74)));
    val[53] = 4;
    assert_eq!(decode_row(pos, &val), Err(Error::Row(74)));
    val[53] = 1;
    assert_eq!(
        decode_row(pos, &val).unwrap().fee_token,
        Some(Address::from([0; 20]))
    );
}

#[test]
fn counters_are_eight_bytes() {
    assert_eq!(encode_count(258), [0, 0, 0, 0, 0, 0, 1, 2]);
    assert_eq!(decode_count(&encode_count(u64::MAX)), Ok(u64::MAX));
    assert_eq!(read_count(None), Ok(0));
    assert_eq!(read_count(Some(&[0, 0, 0, 0, 0, 0, 0, 9])), Ok(9));
    let err = decode_count(&[1, 2, 3]).unwrap_err();
    assert_eq!(err, Error::Count(3));
    assert_eq!(err.message(), "count value: expected 8 bytes, found 3");
}

#[test]
fn a_tip_is_forty_bytes() {
    let tip = Tip::new(258, B256::from([7; 32]));
    let val = encode_tip(tip);
    assert_eq!(val.len(), 40);
    assert_eq!(val[..8], [0, 0, 0, 0, 0, 0, 1, 2]);
    assert_eq!(decode_tip(&val), Ok(tip));
    assert_eq!(read_tip(None), Ok(None));
    let err = decode_tip(&val[1..]).unwrap_err();
    assert_eq!(err, Error::Tip(39));
    assert_eq!(err.message(), "tip value: expected 40 bytes, found 39");
}

#[test]
fn repeats_are_dropped_where_they_first_stand() {
    assert_eq!(
        targets(&row(1, 0, &[3, 1, 3, 2, 1])),
        vec![addr(3), addr(1), addr(2)]
    );
}

#[test]
fn a_row_owns_an_entry_per_column() {
    let mut tx = row(1, 0, &[3, 3]);
    tx.fee_payer = Some(addr(4));
    assert_eq!(
        secondaries(&tx),
        vec![
            (Keyspace::From, vec![0xaa; 20]),
            (Keyspace::Type, vec![2]),
            (Keyspace::FeePayer, vec![4; 20]),
            (Keyspace::To, vec![3; 20]),
        ]
    );
    let keys = counters(&tx);
    assert_eq!(keys.len(), 7);
    assert_eq!(keys[2], count_key(Kind::FeePayer.name(), &[4; 20]));
    assert_eq!(keys[6], b"all\0".to_vec());
}

#[test]
fn a_filter_walks_a_column_per_term() {
    let filter = Filter {
        to: Some(addr(1)),
        tx_type: Some(0x76),
        address: Some(addr(2)),
        ..Default::default()
    };
    assert_eq!(
        columns(&filter),
        vec![(Keyspace::To, vec![1; 20]), (Keyspace::Type, vec![0x76])]
    );
    assert_eq!(filter.counter(), None);
}

#[test]
fn a_counter_answers_one_term_or_none() {
    assert_eq!(Filter::default().counter(), Some(b"all\0".to_vec()));
    let filter = Filter {
        address: Some(addr(2)),
        ..Default::default()
    };
    assert_eq!(filter.counter(), Some(count_key("addr", &[2; 20])));
    let filter = Filter {
        blocks: BlockRange::new(None, Some(0)),
        ..Default::default()
    };
    assert_eq!(filter.counter(), None);
}

#[test]
fn no_counter_reads_as_anothers() {
    let keys = [
        count_key("from", &[1, 2]),
        count_key("to", &[1, 2]),
        count_key("fee_token", &[1, 2]),
        count_key("fee_payer", &[1, 2]),
        count_key("type", &[1, 2]),
        count_key("addr", &[1, 2]),
        count_key("all", &[]),
        count_key("from", &[1]),
    ];
    for (i, a) in keys.iter().enumerate() {
        for b in &keys[i + 1..] {
            assert_ne!(a, b);
        }
    }
}

#[test]
fn changes_add_up_counter_by_counter() {
    let change = |key: &[u8], gain| Change {
        key: key.to_vec(),
        gain,
    };
    let changes = vec![
        change(b"b", true),
        change(b"a", true),
        change(b"b", false),
        change(b"c", false),
        change(b"a", true),
        change(b"ab", true),
        change(b"c", false),
    ];
    let (keys, sums) = sum_up(&changes);
    assert_eq!(keys, [&b"a"[..], b"ab", b"b", b"c"]);
    assert_eq!(sums, [2, 1, 0, -2]);
}

#[test]
fn a_plan_says_what_to_read() {
    let plan = Plan {
        revert_from: Some(3),
        rows: vec![row(2, 1, &[]), row(3, 0, &[]), row(4, 0, &[])],
        ..Default::default()
    };
    assert_eq!(plan.revert_start(), Some(pos_key(Position::new(3, 0))));
    assert_eq!(plan.replacing_keys(), vec![pos_key(Position::new(2, 1))]);
    let plan = Plan {
        revert_from: None,
        ..plan
    };
    assert_eq!(plan.revert_start(), None);
    assert_eq!(plan.replacing_keys().len(), 3);
}

#[test]
fn only_the_last_row_at_a_position_is_looked_up_and_written() {
    let plan = Plan {
        rows: vec![
            row(1, 0, &[1]),
            row(u64::MAX, 0, &[]),
            row(1, 0, &[2]),
            row(2, 0, &[]),
        ],
        ..Default::default()
    };
    let keys = [
        pos_key(Position::new(u64::MAX, 0)),
        pos_key(Position::new(1, 0)),
        pos_key(Position::new(2, 0)),
    ];
    assert_eq!(plan.replacing_keys(), keys);
    let draft = Draft::prepare(&plan, &vec![], &vec![None; 3]).unwrap();
    let counts = vec![None; draft.counters().len()];
    let ops = draft.finish(&counts).unwrap();
    let put: Vec<Vec<u8>> = ops
        .iter()
        .filter_map(|op| match op {
            Op::Put { keyspace, key, .. } if *keyspace == Keyspace::Primary => Some(key.clone()),
            _ => None,
        })
        .collect();
    assert_eq!(put, keys);
    assert!(ops.contains(&Op::Put {
        keyspace: Keyspace::Count,
        key: b"all\0".to_vec(),
        value: encode_count(3)
    }));
}

#[test]
fn a_revert_writes_its_deletes_first() {
    let old = row(3, 0, &[]);
    let new = row(3, 0, &[5]);
    let plan = Plan {
        revert_from: Some(3),
        rows: vec![new.clone()],
        tip: Some(Tip::new(3, B256::from([3; 32]))),
        ..Default::default()
    };
    let key = pos_key(old.position);
    let draft = Draft::prepare(&plan, &vec![(key.clone(), encode_row(&old))], &vec![]).unwrap();
    let one = Some(encode_count(1));
    let counts: Vec<Option<Vec<u8>>> = draft
        .counters()
        .iter()
        .map(|k| {
            if k.ends_with(&[5; 20]) {
                None
            } else {
                one.clone()
            }
        })
        .collect();
    let ops = draft.finish(&counts).unwrap();
    assert_eq!(
        ops[0],
        Op::Delete {
            keyspace: Keyspace::Primary,
            key: key.clone()
        }
    );
    assert_eq!(
        ops[1],
        Op::Delete {
            keyspace: Keyspace::From,
            key: sec_key(&[0xaa; 20], old.position)
        }
    );
    assert_eq!(
        ops[3],
        Op::Put {
            keyspace: Keyspace::Primary,
            key,
            value: encode_row(&new)
        }
    );
    assert_eq!(
        ops[ops.len() - 1],
        Op::Put {
            keyspace: Keyspace::Meta,
            key: b"tip".to_vec(),
            value: encode_tip(Tip::new(3, B256::from([3; 32])))
        }
    );
    // What the two rows share is counted as before.
    assert!(ops.contains(&Op::Put {
        keyspace: Keyspace::Count,
        key: b"all\0".to_vec(),
        value: encode_count(1)
    }));
}

#[test]
fn a_window_starts_at_the_tighter_bound() {
    let window = |after, min, max, order| Window {
        after,
        blocks: BlockRange::new(min, max),
        order,
    };
    let at = Position::new;
    let up = Order::Ascending;
    let down = Order::Descending;
    assert_eq!(window(None, None, None, up).start(), at(0, 0));
    assert_eq!(
        window(None, None, None, down).start(),
        at(u64::MAX, u32::MAX)
    );
    assert_eq!(window(Some(at(4, 2)), Some(4), None, up).start(), at(4, 2));
    assert_eq!(window(Some(at(3, 2)), Some(4), None, up).start(), at(4, 0));
    assert_eq!(
        window(Some(at(3, 2)), None, Some(4), down).start(),
        at(3, 2)
    );
    assert!(window(None, None, Some(4), up).past_stop(at(5, 0)));
    assert!(!window(None, None, Some(4), up).past_stop(at(4, 9)));
    assert!(window(None, Some(4), None, down).past_stop(at(3, 9)));
}

#[test]
fn a_walk_reads_its_entries() {
    let scan = KeyScan::new(Keyspace::Type, &[2]);
    let window = Window {
        after: Some(Position::new(1, 0)),
        blocks: BlockRange::new(None, Some(5)),
        order: Order::Ascending,
    };
    let read = |key: Option<&[u8]>| scan.next_entry(&window, key);
    assert_eq!(read(None), Ok(Reading::End));
    assert_eq!(read(Some(&[3, 0, 0])), Ok(Reading::End));
    assert_eq!(
        read(Some(&scan.key_at(Position::new(1, 0)))),
        Ok(Reading::Skip)
    );
    assert_eq!(
        read(Some(&scan.key_at(Position::new(5, 1)))),
        Ok(Reading::At(Position::new(5, 1)))
    );
    assert_eq!(
        read(Some(&scan.key_at(Position::new(6, 0)))),
        Ok(Reading::End)
    );
    assert_eq!(read(Some(&[2, 0])), Err(Error::PositionKey(1)));
}

#[test]
fn a_query_without_terms_is_a_listing() {
    let all = Query::new(&Filter::default(), None, Order::Ascending, 5);
    assert!(matches!(all, Query::Listing(_)));
    let filter = Filter {
        tx_type: Some(1),
        ..Default::default()
    };
    assert!(matches!(
        Query::new(&filter, None, Order::Ascending, 5),
        Query::Search(_)
    ));
}

#[test]
fn a_search_opens_each_walk_in_turn() {
    let window = Window {
        after: None,
        blocks: BlockRange::default(),
        order: Order::Ascending,
    };
    let filter = Filter {
        address: Some(addr(7)),
        ..Default::default()
    };
    let mut search = Search::new(&filter, window, 5).unwrap();
    let start = sec_key(&[7; 20], Position::new(0, 0));
    assert_eq!(
        search.request(),
        Some(Request::Seek {
            walk: 0,
            keyspace: Keyspace::From,
            key: start.clone(),
            order: Order::Ascending
        })
    );
    search.answer(None).unwrap();
    assert_eq!(
        search.request(),
        Some(Request::Seek {
            walk: 1,
            keyspace: Keyspace::To,
            key: start,
            order: Order::Ascending
        })
    );
    let hit = Position::new(3, 1);
    search.answer(Some(&sec_key(&[7; 20], hit))).unwrap();
    assert_eq!(search.positions(), &vec![hit]);
    assert_eq!(search.request(), Some(Request::Next { walk: 1 }));
    search.answer(None).unwrap();
    assert_eq!(search.request(), None);
    assert_eq!(search.positions(), &vec![hit]);
}

#[test]
fn a_search_that_is_over_takes_no_more_keys() {
    let window = Window {
        after: None,
        blocks: BlockRange::default(),
        order: Order::Ascending,
    };
    let filter = Filter {
        tx_type: Some(7),
        ..Default::default()
    };
    let mut search = Search::new(&filter, window, 1).unwrap();
    let hit = Position::new(3, 1);
    // A key that cannot be read is reported, and the search still asks for it.
    assert_eq!(search.answer(Some(&[7, 0])), Err(Error::PositionKey(1)));
    assert!(matches!(search.request(), Some(Request::Seek { .. })));
    search.answer(Some(&sec_key(&[7], hit))).unwrap();
    assert_eq!(search.request(), Some(Request::Next { walk: 0 }));
    search.answer(Some(&sec_key(&[7], Position::new(4, 0)))).unwrap();
    assert_eq!(search.request(), None);
    assert_eq!(search.positions(), &vec![hit]);
    search.answer(Some(&[7, 0])).unwrap();
    search.answer(None).unwrap();
    assert_eq!(search.request(), None);
    assert_eq!(search.positions(), &vec![hit]);
}

#[test]
fn a_listing_reads_rows_off_the_walk() {
    let window = Window {
        after: Some(Position::new(1, 0)),
        blocks: BlockRange::default(),
        order: Order::Ascending,
    };
    let (first, second) = (row(1, 0, &[1]), row(2, 0, &[2]));
    let mut listing = Listing::new(window, 1);
    assert!(matches!(listing.request(), Some(Request::Seek { .. })));
    let key = pos_key(first.position);
    listing.answer(Some((&key, &encode_row(&first)))).unwrap();
    assert_eq!(listing.request(), Some(Request::Next { walk: 0 }));
    let key = pos_key(second.position);
    assert_eq!(
        listing.answer(Some((&key, &[1, 2, 3]))),
        Err(Error::Row(3))
    );
    listing.answer(Some((&key, &encode_row(&second)))).unwrap();
    assert_eq!(listing.request(), None);
    assert_eq!(listing.into_rows(), vec![second]);
}

#[test]
fn positions_resolve_to_their_rows() {
    let (first, second) = (row(1, 0, &[1]), row(2, 0, &[2]));
    let positions = vec![first.position, second.position];
    let values = vec![Some(encode_row(&first)), Some(encode_row(&second))];
    assert_eq!(resolve(&positions, &values), Ok(vec![first.clone(), second]));
    let values = vec![Some(encode_row(&first)), None];
    assert_eq!(resolve(&positions, &values), Err(Error::MissingRow));
    let values = vec![Some(vec![0; 60]), None];
    assert_eq!(resolve(&positions, &values), Err(Error::Row(60)));
}

#[test]
fn a_page_opens_where_its_cursor_points() {
    assert_eq!(open_page(None, None), Ok((None, DEFAULT_LIMIT)));
    assert_eq!(open_page(None, Some(0)), Ok((None, 1)));
    assert_eq!(open_page(None, Some(100)), Ok((None, MAX_LIMIT)));
    assert_eq!(open_page(None, Some(101)), Ok((None, MAX_LIMIT)));
    let pos = Position::new(8, 1);
    assert_eq!(open_page(Some(&pos.encode()), Some(7)), Ok((Some(pos), 7)));
    let err = open_page(Some("elsewhere"), None).unwrap_err();
    assert_eq!(err, Error::Cursor("elsewhere".to_string()));
    assert_eq!(err.message(), "malformed cursor: elsewhere");
}

#[test]
fn a_page_is_cut_at_the_last_row_returned() {
    let rows = vec![row(1, 0, &[]), row(2, 0, &[]), row(3, 0, &[])];
    assert_eq!(peek(2), 3);
    assert_eq!(peek(usize::MAX), usize::MAX);
    let page = Page::cut(rows.clone(), 2);
    assert_eq!(page.rows, rows[..2]);
    assert_eq!(page.next_cursor, Some(Position::new(2, 0).encode()));
    let page = Page::cut(rows.clone(), 3);
    assert_eq!(page.rows, rows);
    assert_eq!(page.next_cursor, None);
    assert_eq!(Page::cut(rows, 0).next_cursor, None);
}

#[test]
fn stats_are_put_together_in_layout_order() {
    let tip = Tip::new(3, B256::from([3; 32]));
    let sizes = [Some(1), None, Some(3), Some(4), Some(5), Some(6), Some(7)];
    let stats = Stats::assemble(Some(&encode_tip(tip)), Some(&encode_count(4)), &sizes).unwrap();
    assert_eq!(stats.tip, Some(tip));
    assert_eq!(stats.rows, 4);
    assert_eq!(
        stats.keyspaces,
        vec![
            ("primary", 1),
            ("from", 0),
            ("to", 3),
            ("type", 4),
            ("fee_token", 5),
            ("fee_payer", 6),
            ("count", 7),
        ]
    );
    assert_eq!(stats.bytes(), 26);
    let fresh = Stats::assemble(None, None, &[None; 7]).unwrap();
    assert_eq!((fresh.tip, fresh.rows, fresh.bytes()), (None, 0, 0));
    assert_eq!(
        Stats::assemble(Some(&[1]), Some(&[1]), &[None; 7]),
        Err(Error::Tip(1))
    );
}
