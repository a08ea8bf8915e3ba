//! Which entries and counters a row owns, and which of them a filter asks for.

use vstd::prelude::*;
use vstd::string::*;
use vstd::utf8::{encode_utf8, is_ascii_chars, is_ascii_chars_encode_utf8};

use crate::bytes::append;
use crate::layout::{is_secondary, kind_name, kind_of, Keyspace, Kind};
use crate::primitives::{lemma_address_ext, Address};
use crate::types::{Filter, IndexedTx, Tx};

verus! {

/// A list without the repeats: each address where it first stands.
pub open spec fn distinct(list: Seq<Address>) -> Seq<Address>
    decreases list.len(),
{
    if list.len() == 0 {
        Seq::empty()
    } else {
        let head = distinct(list.drop_last());
        if head.contains(list.last()) {
            head
        } else {
            head.push(list.last())
        }
    }
}

/// One entry for an address that may be absent.
pub open spec fn optional(keyspace: Keyspace, value: Option<Address>) -> Seq<(Keyspace, Seq<u8>)> {
    match value {
        Some(a) => seq![(keyspace, a@)],
        None => Seq::empty(),
    }
}

/// Every secondary entry a row owns: which keyspace, and the prefix within it.
pub open spec fn row_columns(tx: Tx) -> Seq<(Keyspace, Seq<u8>)> {
    seq![(Keyspace::From, tx.from@), (Keyspace::Type, seq![tx.tx_type])]
        + optional(Keyspace::FeeToken, tx.fee_token)
        + optional(Keyspace::FeePayer, tx.fee_payer)
        + distinct(tx.to).map_values(|a: Address| (Keyspace::To, a@))
}

/// Whether a row owns an entry.
pub open spec fn owns(tx: Tx, keyspace: Keyspace, prefix: Seq<u8>) -> bool {
    row_columns(tx).contains((keyspace, prefix))
}

/// Everyone who took part in a transaction: the sender, and each other address it calls.
pub open spec fn participants(tx: Tx) -> Seq<Address> {
    seq![tx.from] + distinct(tx.to).filter(|a: Address| a != tx.from)
}

/// The key of a counter: which kind, and what it counts. Names are ASCII, so the
/// zero byte keeps one kind from reading as another's prefix.
pub open spec fn counter_key(kind: Seq<char>, prefix: Seq<u8>) -> Seq<u8> {
    encode_utf8(kind) + seq![0u8] + prefix
}

/// The counters for a list of columns.
pub open spec fn column_counters(columns: Seq<(Keyspace, Seq<u8>)>) -> Seq<Seq<u8>> {
    columns.map_values(
        |c: (Keyspace, Seq<u8>)| counter_key(kind_name(kind_of(c.0)), c.1),
    )
}

/// Every counter a row contributes to.
pub open spec fn row_counters(tx: Tx) -> Seq<Seq<u8>> {
    column_counters(row_columns(tx))
        + participants(tx).map_values(|a: Address| counter_key(kind_name(Kind::Address), a@))
        + seq![counter_key(kind_name(Kind::Total), Seq::empty())]
}

/// The columns that a filter's terms walk, but for `address`.
pub open spec fn filter_columns(filter: Filter) -> Seq<(Keyspace, Seq<u8>)> {
    optional(Keyspace::From, filter.from)
        + optional(Keyspace::To, filter.to)
        + (match filter.tx_type {
            Some(t) => seq![(Keyspace::Type, seq![t])],
            None => Seq::empty(),
        })
        + optional(Keyspace::FeeToken, filter.fee_token)
        + optional(Keyspace::FeePayer, filter.fee_payer)
}

/// A list of columns, as mathematical values.
pub open spec fn column_views(columns: Seq<(Keyspace, Vec<u8>)>) -> Seq<(Keyspace, Seq<u8>)> {
    columns.map_values(|c: (Keyspace, Vec<u8>)| (c.0, c.1@))
}

/// A list of keys, as mathematical values.
pub open spec fn key_views(keys: Seq<Vec<u8>>) -> Seq<Seq<u8>> {
    keys.map_values(|k: Vec<u8>| k@)
}

// ---- building them

/// Whether a list holds an address.
fn holds(list: &Vec<Address>, address: Address) -> (r: bool)
    ensures
        r == list@.contains(address),
{
    let mut i: usize = 0;
    while i < list.len()
        invariant
            i <= list@.len(),
            forall|j: int| 0 <= j < i ==> list@[j] != address,
        decreases list@.len() - i,
    {
        if list[i] == address {
            return true;
        }
        i = i + 1;
    }
    false
}

/// The addresses a row calls, without repeats: a batch that names one twice still
/// owns one entry, and deleting that entry once is what a revert has to do.
pub fn targets(row: &IndexedTx) -> (r: Vec<Address>)
    ensures
        r@ == distinct(row@.to),
{
    let mut out: Vec<Address> = Vec::with_capacity(row.to.len());
    let mut i: usize = 0;
    assert(row@.to.take(0) =~= Seq::empty());
    while i < row.to.len()
        invariant
            i <= row.to@.len(),
            out@ == distinct(row.to@.take(i as int)),
        decreases row.to@.len() - i,
    {
        assert(row.to@.take(i + 1).drop_last() =~= row.to@.take(i as int));
        if !holds(&out, row.to[i]) {
            out.push(row.to[i]);
        }
        i = i + 1;
    }
    assert(row.to@.take(i as int) =~= row.to@);
    out
}

fn push_optional(out: &mut Vec<(Keyspace, Vec<u8>)>, keyspace: Keyspace, value: Option<Address>)
    ensures
        column_views(final(out)@) == column_views(old(out)@) + optional(keyspace, value),
{
    if let Some(a) = value {
        out.push((keyspace, a.to_vec()));
    }
    assert(column_views(out@) =~= column_views(old(out)@) + optional(keyspace, value));
}

/// Every secondary entry a row owns: which keyspace, and the prefix within it.
///
/// One definition, read by the write and the revert paths alike. A revert rebuilds a
/// row's entries from the row itself, so a column added to one path and forgotten in
/// the other leaves that keyspace serving ghosts.
pub fn secondaries(row: &IndexedTx) -> (r: Vec<(Keyspace, Vec<u8>)>)
    ensures
        column_views(r@) == row_columns(row@),
{
    let mut out: Vec<(Keyspace, Vec<u8>)> = Vec::new();
    out.push((Keyspace::From, row.from.to_vec()));
    let mut tag: Vec<u8> = Vec::new();
    tag.push(row.tx_type);
    assert(tag@ =~= seq![row.tx_type]);
    out.push((Keyspace::Type, tag));
    let ghost fixed = seq![
        (Keyspace::From, row.from@),
        (Keyspace::Type, seq![row.tx_type]),
    ];
    assert(column_views(out@) =~= fixed);
    push_optional(&mut out, Keyspace::FeeToken, row.fee_token);
    push_optional(&mut out, Keyspace::FeePayer, row.fee_payer);
    let called: Vec<Address> = targets(row);
    let ghost base = column_views(out@);
    let ghost calls = called@.map_values(|a: Address| (Keyspace::To, a@));
    let mut i: usize = 0;
    assert(base =~= base + calls.take(0));
    while i < called.len()
        invariant
            i <= called@.len(),
            calls == called@.map_values(|a: Address| (Keyspace::To, a@)),
            column_views(out@) == base + calls.take(i as int),
        decreases called@.len() - i,
    {
        let ghost before = out@;
        out.push((Keyspace::To, called[i].to_vec()));
        assert(column_views(out@) =~= column_views(before).push(calls[i as int]));
        assert(calls.take(i + 1) =~= calls.take(i as int).push(calls[i as int]));
        assert(column_views(out@) =~= base + calls.take(i + 1));
        i = i + 1;
    }
    assert(calls.take(i as int) =~= calls);
    out
}

/// The key of a counter: which kind, and what it counts.
pub fn count_key(kind: &str, prefix: &[u8]) -> (r: Vec<u8>)
    ensures
        r@ == counter_key(kind@, prefix@),
{
    let name: &[u8] = kind.as_bytes();
    let mut k: Vec<u8> = Vec::with_capacity(name.len());
    append(&mut k, name);
    k.push(0);
    append(&mut k, prefix);
    assert(k@ =~= counter_key(kind@, prefix@));
    k
}

/// The filters one walk answers, as the keyspace and prefix to walk.
///
/// Read by the query and the count alike, so a column becomes filterable and countable
/// in one edit. `address` is in neither: it is a union of two walks, with no keyspace
/// of its own.
pub fn columns(filter: &Filter) -> (r: Vec<(Keyspace, Vec<u8>)>)
    ensures
        column_views(r@) == filter_columns(*filter),
{
    let mut out: Vec<(Keyspace, Vec<u8>)> = Vec::new();
    assert(column_views(out@) =~= Seq::empty());
    push_optional(&mut out, Keyspace::From, filter.from);
    push_optional(&mut out, Keyspace::To, filter.to);
    let ghost before = out@;
    if let Some(t) = filter.tx_type {
        let mut tag: Vec<u8> = Vec::new();
        tag.push(t);
        assert(tag@ =~= seq![t]);
        out.push((Keyspace::Type, tag));
        assert(column_views(out@) =~= column_views(before) + seq![(Keyspace::Type, seq![t])]);
    } else {
        assert(column_views(out@) =~= column_views(before) + Seq::empty());
    }
    push_optional(&mut out, Keyspace::FeeToken, filter.fee_token);
    push_optional(&mut out, Keyspace::FeePayer, filter.fee_payer);
    assert(column_views(out@) =~= filter_columns(*filter));
    out
}

/// The counters for a list of columns.
pub fn counters_of(columns: &Vec<(Keyspace, Vec<u8>)>) -> (r: Vec<Vec<u8>>)
    ensures
        key_views(r@) == column_counters(column_views(columns@)),
{
    let mut out: Vec<Vec<u8>> = Vec::new();
    let mut i: usize = 0;
    let ghost want = column_counters(column_views(columns@));
    assert(key_views(out@) =~= want.take(0));
    while i < columns.len()
        invariant
            i <= columns@.len(),
            want == column_counters(column_views(columns@)),
            key_views(out@) == want.take(i as int),
        decreases columns@.len() - i,
    {
        let ghost before = out@;
        let key: Vec<u8> = count_key(Kind::of(columns[i].0).name(), columns[i].1.as_slice());
        assert(key@ == want[i as int]);
        out.push(key);
        assert(key_views(out@) =~= key_views(before).push(want[i as int]));
        assert(want.take(i + 1) =~= want.take(i as int).push(want[i as int]));
        i = i + 1;
    }
    assert(want.take(i as int) =~= want);
    out
}

/// Every counter a row contributes to: one per [`secondaries`] entry, plus the two no
/// keyspace holds, taking part on either side and the total.
pub fn counters(row: &IndexedTx) -> (r: Vec<Vec<u8>>)
    ensures
        key_views(r@) == row_counters(row@),
{
    let mut out: Vec<Vec<u8>> = counters_of(&secondaries(row));
    let ghost cols = column_counters(row_columns(row@));
    let ghost tx = row@;
    let ghost other = |a: Address| a != tx.from;
    // Once per distinct participant: a transaction from an address to itself took part
    // once, and counting it twice would disagree with what the union yields.
    let called: Vec<Address> = targets(row);
    let ghost mut seen: Seq<Address> = seq![tx.from];
    out.push(count_key(Kind::Address.name(), row.from.as_slice()));
    assert(key_views(out@) =~= cols + seen.map_values(
        |a: Address| counter_key(kind_name(Kind::Address), a@),
    ));
    assert(seen =~= seq![tx.from] + called@.take(0).filter(other)) by {
        reveal(Seq::filter);
    }
    let mut i: usize = 0;
    while i < called.len()
        invariant
            i <= called@.len(),
            tx == row@,
            other == (|a: Address| a != tx.from),
            called@ == distinct(tx.to),
            seen == seq![tx.from] + called@.take(i as int).filter(other),
            key_views(out@) == cols + seen.map_values(
                |a: Address| counter_key(kind_name(Kind::Address), a@),
            ),
        decreases called@.len() - i,
    {
        proof {
            reveal(Seq::filter);
            assert(called@.take(i + 1).drop_last() =~= called@.take(i as int));
            assert(called@.take(i + 1).last() == called@[i as int]);
        }
        let to: Address = called[i];
        if to != row.from {
            let ghost before = out@;
            out.push(count_key(Kind::Address.name(), to.as_slice()));
            proof {
                let grown = seen.push(to);
                let f = |a: Address| counter_key(kind_name(Kind::Address), a@);
                assert(grown.map_values(f) =~= seen.map_values(f).push(f(to)));
                assert(key_views(out@) =~= key_views(before).push(f(to)));
                assert(key_views(out@) =~= cols + grown.map_values(f));
                assert(grown =~= seq![tx.from] + called@.take(i + 1).filter(other));
                seen = grown;
            }
        }
        i = i + 1;
    }
    assert(called@.take(i as int) =~= called@);
    assert(seen == participants(tx));
    let ghost before = out@;
    let none: Vec<u8> = Vec::new();
    assert(none@ =~= Seq::<u8>::empty());
    out.push(count_key(Kind::Total.name(), none.as_slice()));
    assert(key_views(out@) =~= key_views(before).push(
        counter_key(kind_name(Kind::Total), Seq::empty()),
    ));
    assert(key_views(out@) =~= row_counters(tx));
    out
}

// ---- what they hold

/// Dropping repeats keeps every address, once.
pub proof fn lemma_distinct(list: Seq<Address>)
    ensures
        distinct(list).no_duplicates(),
        forall|a: Address| #[trigger] distinct(list).contains(a) <==> list.contains(a),
    decreases list.len(),
{
    if list.len() > 0 {
        let head = list.drop_last();
        let last = list.last();
        lemma_distinct(head);
        assert forall|a: Address| #[trigger] distinct(list).contains(a) <==> list.contains(a) by {
            lemma_pushed(head, last, a);
            lemma_pushed(distinct(head), last, a);
            assert(head.push(last) =~= list);
            assert(distinct(head).contains(a) <==> head.contains(a));
        }
    }
}

/// What a list holds after a push.
pub proof fn lemma_pushed<T>(list: Seq<T>, last: T, a: T)
    ensures
        list.push(last).contains(a) <==> list.contains(a) || a == last,
{
    let more = list.push(last);
    if list.contains(a) {
        let i = choose|i: int| 0 <= i < list.len() && list[i] == a;
        assert(more[i] == a);
    }
    if a == last {
        assert(more[list.len() as int] == a);
    }
    if more.contains(a) {
        let i = choose|i: int| 0 <= i < more.len() && more[i] == a;
        if i < list.len() {
            assert(list[i] == a);
        }
    }
}

/// What two lists hold together.
pub proof fn lemma_joined<T>(a: Seq<T>, b: Seq<T>, x: T)
    ensures
        (a + b).contains(x) <==> a.contains(x) || b.contains(x),
{
    let c = a + b;
    if a.contains(x) {
        let i = choose|i: int| 0 <= i < a.len() && a[i] == x;
        assert(c[i] == x);
    }
    if b.contains(x) {
        let i = choose|i: int| 0 <= i < b.len() && b[i] == x;
        assert(c[a.len() + i] == x);
    }
    if c.contains(x) {
        let i = choose|i: int| 0 <= i < c.len() && c[i] == x;
        if i < a.len() {
            assert(a[i] == x);
        } else {
            assert(b[i - a.len()] == x);
        }
    }
}

/// Two lists without repeats, and with nothing in common, have none together.
pub proof fn lemma_joined_no_duplicates<T>(a: Seq<T>, b: Seq<T>)
    requires
        a.no_duplicates(),
        b.no_duplicates(),
        forall|i: int, j: int| 0 <= i < a.len() && 0 <= j < b.len() ==> a[i] != b[j],
    ensures
        (a + b).no_duplicates(),
{
    let c = a + b;
    assert forall|i: int, j: int| 0 <= i < c.len() && 0 <= j < c.len() && i != j implies c[i]
        != c[j] by {
        if i < a.len() && j >= a.len() {
            assert(a[i] != b[j - a.len()]);
        } else if j < a.len() && i >= a.len() {
            assert(a[j] != b[i - a.len()]);
        }
    }
}

/// What a prefix says of a row, in each keyspace.
pub open spec fn column_matches(tx: Tx, keyspace: Keyspace, prefix: Seq<u8>) -> bool {
    match keyspace {
        Keyspace::From => prefix == tx.from@,
        Keyspace::Type => prefix == seq![tx.tx_type],
        Keyspace::FeeToken => tx.fee_token is Some && prefix == tx.fee_token->0@,
        Keyspace::FeePayer => tx.fee_payer is Some && prefix == tx.fee_payer->0@,
        Keyspace::To => exists|a: Address| #[trigger] tx.to.contains(a) && prefix == a@,
        _ => false,
    }
}

proof fn lemma_optional(keyspace: Keyspace, value: Option<Address>, ks: Keyspace, prefix: Seq<u8>)
    ensures
        optional(keyspace, value).contains((ks, prefix)) <==> value is Some && ks == keyspace
            && prefix == value->0@,
{
    let list = optional(keyspace, value);
    if value is Some {
        assert(list[0] == (keyspace, value->0@));
    }
}

proof fn lemma_calls(tx: Tx, ks: Keyspace, prefix: Seq<u8>)
    ensures
        distinct(tx.to).map_values(|a: Address| (Keyspace::To, a@)).contains((ks, prefix)) <==> ks
            == Keyspace::To && exists|a: Address| #[trigger] tx.to.contains(a) && prefix == a@,
{
    lemma_distinct(tx.to);
    let calls = distinct(tx.to).map_values(|a: Address| (Keyspace::To, a@));
    if calls.contains((ks, prefix)) {
        let i = choose|i: int| 0 <= i < calls.len() && calls[i] == (ks, prefix);
        let a = distinct(tx.to)[i];
        assert(distinct(tx.to).contains(a));
        assert(tx.to.contains(a));
    }
    if ks == Keyspace::To && exists|a: Address| #[trigger] tx.to.contains(a) && prefix == a@ {
        let a = choose|a: Address| #[trigger] tx.to.contains(a) && prefix == a@;
        assert(distinct(tx.to).contains(a));
        let i = choose|i: int| 0 <= i < distinct(tx.to).len() && distinct(tx.to)[i] == a;
        assert(calls[i] == (ks, prefix));
    }
}

/// The entries a row owns are the prefixes that say something of it.
pub proof fn lemma_owns(tx: Tx, keyspace: Keyspace, prefix: Seq<u8>)
    ensures
        owns(tx, keyspace, prefix) <==> column_matches(tx, keyspace, prefix),
{
    let c = (keyspace, prefix);
    let fixed = seq![(Keyspace::From, tx.from@), (Keyspace::Type, seq![tx.tx_type])];
    let token = optional(Keyspace::FeeToken, tx.fee_token);
    let payer = optional(Keyspace::FeePayer, tx.fee_payer);
    let calls = distinct(tx.to).map_values(|a: Address| (Keyspace::To, a@));
    lemma_joined(fixed + token + payer, calls, c);
    lemma_joined(fixed + token, payer, c);
    lemma_joined(fixed, token, c);
    lemma_optional(Keyspace::FeeToken, tx.fee_token, keyspace, prefix);
    lemma_optional(Keyspace::FeePayer, tx.fee_payer, keyspace, prefix);
    lemma_calls(tx, keyspace, prefix);
    assert(fixed[0] == (Keyspace::From, tx.from@));
    assert(fixed[1] == (Keyspace::Type, seq![tx.tx_type]));
    assert(fixed.contains(c) <==> c == fixed[0] || c == fixed[1]);
}

/// For one address, the prefix of its bytes says that the row calls it.
pub proof fn lemma_owns_target(tx: Tx, a: Address)
    ensures
        owns(tx, Keyspace::To, a@) <==> tx.to.contains(a),
{
    lemma_owns(tx, Keyspace::To, a@);
    assert forall|b: Address| #[trigger] tx.to.contains(b) && a@ == b@ implies tx.to.contains(
        a,
    ) by {
        lemma_address_ext(a, b);
    }
}

/// A row has one `to` entry for each distinct address it calls, however often it calls it.
pub proof fn a_target_is_indexed_once(tx: Tx, a: Address)
    ensures
        owns(tx, Keyspace::To, a@) <==> tx.to.contains(a),
        row_columns(tx).no_duplicates(),
{
    lemma_owns_target(tx, a);
    lemma_row_columns(tx);
}

/// Every column of a row is in a secondary keyspace, and none stands there twice.
pub proof fn lemma_row_columns(tx: Tx)
    ensures
        row_columns(tx).no_duplicates(),
        forall|i: int|
            0 <= i < row_columns(tx).len() ==> is_secondary(#[trigger] row_columns(tx)[i].0),
{
    let fixed = seq![(Keyspace::From, tx.from@), (Keyspace::Type, seq![tx.tx_type])];
    let token = optional(Keyspace::FeeToken, tx.fee_token);
    let payer = optional(Keyspace::FeePayer, tx.fee_payer);
    let calls = distinct(tx.to).map_values(|a: Address| (Keyspace::To, a@));
    lemma_distinct(tx.to);
    assert(calls.no_duplicates()) by {
        assert forall|i: int, j: int|
            0 <= i < calls.len() && 0 <= j < calls.len() && i != j implies calls[i] != calls[j] by {
            lemma_address_ext(distinct(tx.to)[i], distinct(tx.to)[j]);
        }
    }
    lemma_joined_no_duplicates(fixed, token);
    lemma_joined_no_duplicates(fixed + token, payer);
    lemma_joined_no_duplicates(fixed + token + payer, calls);
}

/// A kind's name is ASCII and holds no zero byte.
proof fn lemma_kind_name(kind: Kind)
    ensures
        encode_utf8(kind_name(kind)) == Seq::new(
            kind_name(kind).len(),
            |i: int| kind_name(kind)[i] as u8,
        ),
        forall|i: int|
            0 <= i < kind_name(kind).len() ==> 0 < #[trigger] kind_name(kind)[i] as int <= 127,
{
    reveal_strlit("from");
    reveal_strlit("to");
    reveal_strlit("type");
    reveal_strlit("fee_token");
    reveal_strlit("fee_payer");
    reveal_strlit("addr");
    reveal_strlit("all");
    assert(is_ascii_chars(kind_name(kind)));
    is_ascii_chars_encode_utf8(kind_name(kind));
}

proof fn lemma_kind_names_differ(a: Kind, b: Kind)
    requires
        kind_name(a) == kind_name(b),
    ensures
        a == b,
{
    reveal_strlit("from");
    reveal_strlit("to");
    reveal_strlit("type");
    reveal_strlit("fee_token");
    reveal_strlit("fee_payer");
    reveal_strlit("addr");
    reveal_strlit("all");
    assert("from"@[0] == 'f' && "type"@[0] == 't' && "addr"@[0] == 'a');
    assert("fee_token"@[4] == 't' && "fee_payer"@[4] == 'p');
    assert("from"@.len() == 4 && "type"@.len() == 4 && "addr"@.len() == 4);
    assert("to"@.len() == 2 && "all"@.len() == 3);
    assert("fee_token"@.len() == 9 && "fee_payer"@.len() == 9);
}

/// A counter's key says which counter it is: no two kinds or values share one.
pub proof fn counter_keys_are_distinct(a: Kind, p: Seq<u8>, b: Kind, q: Seq<u8>)
    ensures
        counter_key(kind_name(a), p) == counter_key(kind_name(b), q) <==> a == b && p == q,
{
    let k = counter_key(kind_name(a), p);
    let l = counter_key(kind_name(b), q);
    if k == l {
        lemma_kind_name(a);
        lemma_kind_name(b);
        let m = encode_utf8(kind_name(a));
        let n = encode_utf8(kind_name(b));
        assert(k[m.len() as int] == 0);
        assert(l[n.len() as int] == 0);
        if m.len() < n.len() {
            assert(l[m.len() as int] == n[m.len() as int]);
            assert(kind_name(b)[m.len() as int] as int > 0);
        }
        if n.len() < m.len() {
            assert(k[n.len() as int] == m[n.len() as int]);
            assert(kind_name(a)[n.len() as int] as int > 0);
        }
        assert forall|i: int| 0 <= i < m.len() implies kind_name(a)[i] == kind_name(b)[i] by {
            assert(k[i] == m[i] && l[i] == n[i]);
            assert(kind_name(a)[i] as int <= 127 && kind_name(b)[i] as int <= 127);
        }
        assert(kind_name(a) =~= kind_name(b));
        lemma_kind_names_differ(a, b);
        assert(k.skip(m.len() as int + 1) =~= p);
        assert(l.skip(n.len() as int + 1) =~= q);
    }
}

/// Whether a row counts towards a counter.
pub open spec fn counted(tx: Tx, kind: Kind, prefix: Seq<u8>) -> bool {
    match kind {
        Kind::From => column_matches(tx, Keyspace::From, prefix),
        Kind::To => column_matches(tx, Keyspace::To, prefix),
        Kind::Type => column_matches(tx, Keyspace::Type, prefix),
        Kind::FeeToken => column_matches(tx, Keyspace::FeeToken, prefix),
        Kind::FeePayer => column_matches(tx, Keyspace::FeePayer, prefix),
        Kind::Address => column_matches(tx, Keyspace::From, prefix) || column_matches(
            tx,
            Keyspace::To,
            prefix,
        ),
        Kind::Total => prefix.len() == 0,
    }
}

proof fn lemma_column_counters(tx: Tx, kind: Kind, prefix: Seq<u8>)
    ensures
        column_counters(row_columns(tx)).contains(counter_key(kind_name(kind), prefix)) <==> !(
        kind is Address || kind is Total) && counted(tx, kind, prefix),
{
    let columns = row_columns(tx);
    let list = column_counters(columns);
    let key = counter_key(kind_name(kind), prefix);
    lemma_row_columns(tx);
    if list.contains(key) {
        let i = choose|i: int| 0 <= i < list.len() && list[i] == key;
        let c = columns[i];
        assert(is_secondary(c.0));
        counter_keys_are_distinct(kind_of(c.0), c.1, kind, prefix);
        assert(columns.contains((c.0, c.1)));
        lemma_owns(tx, c.0, c.1);
    }
    if !(kind is Address || kind is Total) && counted(tx, kind, prefix) {
        let ks = match kind {
            Kind::From => Keyspace::From,
            Kind::To => Keyspace::To,
            Kind::Type => Keyspace::Type,
            Kind::FeeToken => Keyspace::FeeToken,
            _ => Keyspace::FeePayer,
        };
        lemma_owns(tx, ks, prefix);
        let i = choose|i: int| 0 <= i < columns.len() && columns[i] == (ks, prefix);
        assert(list[i] == key);
    }
}

proof fn lemma_participants(tx: Tx)
    ensures
        participants(tx).no_duplicates(),
        forall|a: Address| #[trigger] participants(tx).contains(a) <==> a == tx.from
            || tx.to.contains(a),
{
    let other = |a: Address| a != tx.from;
    let rest = distinct(tx.to).filter(other);
    lemma_distinct(tx.to);
    lemma_filter_no_duplicates(distinct(tx.to), other);
    assert forall|i: int, j: int| 0 <= i < 1 && 0 <= j < rest.len() implies seq![tx.from][i]
        != rest[j] by {
        lemma_filtered(distinct(tx.to), other, rest[j]);
        assert(rest.contains(rest[j]));
    }
    lemma_joined_no_duplicates(seq![tx.from], rest);
    assert forall|a: Address| #[trigger] participants(tx).contains(a) <==> a == tx.from
        || tx.to.contains(a) by {
        lemma_joined(seq![tx.from], rest, a);
        assert(seq![tx.from].contains(a) <==> a == tx.from) by {
            assert(seq![tx.from][0] == tx.from);
        }
        assert(distinct(tx.to).contains(a) <==> tx.to.contains(a));
        lemma_filtered(distinct(tx.to), other, a);
    }
}

/// What a filter keeps.
pub proof fn lemma_filtered<T>(list: Seq<T>, keep: spec_fn(T) -> bool, x: T)
    ensures
        list.filter(keep).contains(x) <==> list.contains(x) && keep(x),
    decreases list.len(),
{
    reveal(Seq::filter);
    if list.len() > 0 {
        let head = list.drop_last();
        lemma_filtered(head, keep, x);
        lemma_pushed(head, list.last(), x);
        lemma_pushed(head.filter(keep), list.last(), x);
        assert(head.push(list.last()) =~= list);
    }
}

proof fn lemma_filter_no_duplicates<T>(list: Seq<T>, keep: spec_fn(T) -> bool)
    requires
        list.no_duplicates(),
    ensures
        list.filter(keep).no_duplicates(),
    decreases list.len(),
{
    reveal(Seq::filter);
    if list.len() > 0 {
        let head = list.drop_last();
        lemma_filter_no_duplicates(head, keep);
        let kept = head.filter(keep);
        assert forall|i: int| 0 <= i < kept.len() implies kept[i] != list.last() by {
            lemma_filtered(head, keep, kept[i]);
            assert(kept.contains(kept[i]));
            let j = choose|j: int| 0 <= j < head.len() && head[j] == kept[i];
            assert(list[j] == kept[i]);
        }
    }
}

/// A row contributes to the counters of what is said of it, and to each once.
pub proof fn lemma_row_counters(tx: Tx, kind: Kind, prefix: Seq<u8>)
    ensures
        row_counters(tx).contains(counter_key(kind_name(kind), prefix)) <==> counted(
            tx,
            kind,
            prefix,
        ),
{
    let key = counter_key(kind_name(kind), prefix);
    let cols = column_counters(row_columns(tx));
    let f = |a: Address| counter_key(kind_name(Kind::Address), a@);
    let parts = participants(tx).map_values(f);
    let total = seq![counter_key(kind_name(Kind::Total), Seq::empty())];
    lemma_joined(cols + parts, total, key);
    lemma_joined(cols, parts, key);
    lemma_column_counters(tx, kind, prefix);
    lemma_participants(tx);
    counter_keys_are_distinct(Kind::Total, Seq::empty(), kind, prefix);
    assert(total.contains(key) <==> total[0] == key);
    assert(prefix.len() == 0 <==> prefix =~= Seq::empty());
    if parts.contains(key) {
        let i = choose|i: int| 0 <= i < parts.len() && parts[i] == key;
        let a = participants(tx)[i];
        counter_keys_are_distinct(Kind::Address, a@, kind, prefix);
        assert(participants(tx).contains(a));
    }
    if kind is Address && counted(tx, kind, prefix) {
        let a = if prefix == tx.from@ {
            tx.from
        } else {
            choose|a: Address| #[trigger] tx.to.contains(a) && prefix == a@
        };
        assert(participants(tx).contains(a));
        let i = choose|i: int| 0 <= i < participants(tx).len() && participants(tx)[i] == a;
        assert(parts[i] == key);
    }
}

/// No counter stands twice in a row's list.
pub proof fn lemma_row_counters_distinct(tx: Tx)
    ensures
        row_counters(tx).no_duplicates(),
{
    let columns = row_columns(tx);
    let cols = column_counters(columns);
    let f = |a: Address| counter_key(kind_name(Kind::Address), a@);
    let people = participants(tx);
    let parts = people.map_values(f);
    let total = seq![counter_key(kind_name(Kind::Total), Seq::empty())];
    lemma_row_columns(tx);
    lemma_participants(tx);
    assert forall|i: int, j: int|
        0 <= i < cols.len() && 0 <= j < cols.len() && i != j implies cols[i] != cols[j] by {
        assert(is_secondary(columns[i].0) && is_secondary(columns[j].0));
        counter_keys_are_distinct(
            kind_of(columns[i].0),
            columns[i].1,
            kind_of(columns[j].0),
            columns[j].1,
        );
        assert(columns[i] != columns[j]);
    }
    assert forall|i: int, j: int|
        0 <= i < parts.len() && 0 <= j < parts.len() && i != j implies parts[i] != parts[j] by {
        counter_keys_are_distinct(Kind::Address, people[i]@, Kind::Address, people[j]@);
        lemma_address_ext(people[i], people[j]);
    }
    assert forall|i: int, j: int| 0 <= i < cols.len() && 0 <= j < parts.len() implies cols[i]
        != parts[j] by {
        assert(is_secondary(columns[i].0));
        counter_keys_are_distinct(
            kind_of(columns[i].0),
            columns[i].1,
            Kind::Address,
            people[j]@,
        );
    }
    lemma_joined_no_duplicates(cols, parts);
    assert forall|i: int, j: int|
        0 <= i < (cols + parts).len() && 0 <= j < total.len() implies (cols + parts)[i]
        != total[j] by {
        if i < cols.len() {
            assert(is_secondary(columns[i].0));
            counter_keys_are_distinct(
                kind_of(columns[i].0),
                columns[i].1,
                Kind::Total,
                Seq::empty(),
            );
        } else {
            counter_keys_are_distinct(
                Kind::Address,
                people[i - cols.len()]@,
                Kind::Total,
                Seq::empty(),
            );
        }
    }
    lemma_joined_no_duplicates(cols + parts, total);
}

// ---- what a row owns, and what a filter asks for

/// The addresses a row calls are listed once each, in the order in which they are first called.
pub proof fn targets_are_listed_once_in_call_order(row: &IndexedTx, r: Vec<Address>, i: int, j: int)
    requires
        call_ensures(targets, (row,), r),
    ensures
        forall|a: Address| #[trigger] r@.contains(a) <==> row.to@.contains(a),
        r@.no_duplicates(),
        0 <= i < j < r@.len() ==> exists|x: int|
            {
                &&& 0 <= x < row.to@.len()
                &&& #[trigger] row.to@[x] == r@[i]
                &&& forall|y: int| 0 <= y <= x ==> #[trigger] row.to@[y] != r@[j]
            },
{
    lemma_distinct(row.to@);
    if 0 <= i < j < r@.len() {
        lemma_first_calls(row.to@, i, j);
    }
}

proof fn lemma_first_calls(list: Seq<Address>, i: int, j: int)
    requires
        0 <= i < j < distinct(list).len(),
    ensures
        exists|x: int|
            {
                &&& 0 <= x < list.len()
                &&& #[trigger] list[x] == distinct(list)[i]
                &&& forall|y: int| 0 <= y <= x ==> #[trigger] list[y] != distinct(list)[j]
            },
    decreases list.len(),
{
    let head = list.drop_last();
    let d = distinct(head);
    lemma_distinct(head);
    if j < d.len() {
        lemma_first_calls(head, i, j);
        let x = choose|x: int|
            {
                &&& 0 <= x < head.len()
                &&& #[trigger] head[x] == d[i]
                &&& forall|y: int| 0 <= y <= x ==> #[trigger] head[y] != d[j]
            };
        assert(list[x] == distinct(list)[i]);
        assert forall|y: int| 0 <= y <= x implies #[trigger] list[y] != distinct(list)[j] by {
            assert(head[y] != d[j]);
        }
    } else {
        assert(d.contains(d[i]));
        let x = choose|x: int| 0 <= x < head.len() && head[x] == d[i];
        assert(list[x] == distinct(list)[i]);
        assert forall|y: int| 0 <= y <= x implies #[trigger] list[y] != distinct(list)[j] by {
            assert(head.contains(head[y]));
            assert(d.contains(head[y]));
        }
    }
}

/// A row owns an entry under its sender and one under its type, one under each fee address it has,
/// and one under each address it calls, once: in that order, and no others.
pub proof fn a_row_owns_an_entry_per_column(
    row: &IndexedTx,
    r: Vec<(Keyspace, Vec<u8>)>,
    called: Vec<Address>,
    k: int,
)
    requires
        call_ensures(secondaries, (row,), r),
        call_ensures(targets, (row,), called),
    ensures
        ({
            let token: int = if row.fee_token is Some {
                1
            } else {
                0
            };
            let payer: int = if row.fee_payer is Some {
                1
            } else {
                0
            };
            let calls = 2 + token + payer;
            &&& r@.len() == calls + called@.len()
            &&& r@[0].0 is From && r@[0].1@ == row.from.0@
            &&& r@[1].0 is Type && r@[1].1@ == seq![row.tx_type]
            &&& row.fee_token is Some ==> r@[2].0 is FeeToken && r@[2].1@ == (
            row.fee_token->0).0@
            &&& row.fee_payer is Some ==> r@[calls - 1].0 is FeePayer && r@[calls - 1].1@ == (
            row.fee_payer->0).0@
            &&& 0 <= k < called@.len() ==> r@[calls + k].0 is To && r@[calls + k].1@
                == called@[k].0@
        }),
{
    let want = row_columns(row@);
    assert(column_views(r@).len() == r@.len());
    assert forall|i: int| 0 <= i < r@.len() implies want[i] == (
        (#[trigger] r@[i]).0,
        r@[i].1@,
    ) by {
        assert(column_views(r@)[i] == (r@[i].0, r@[i].1@));
    }
}

/// A row is found in a keyspace under what it has there, and under nothing else.
pub proof fn a_row_is_found_under_what_it_has(tx: Tx, keyspace: Keyspace, prefix: Seq<u8>)
    ensures
        owns(tx, Keyspace::From, prefix) <==> prefix == tx.from.0@,
        owns(tx, Keyspace::Type, prefix) <==> prefix == seq![tx.tx_type],
        owns(tx, Keyspace::FeeToken, prefix) <==> tx.fee_token is Some && prefix == (
        tx.fee_token->0).0@,
        owns(tx, Keyspace::FeePayer, prefix) <==> tx.fee_payer is Some && prefix == (
        tx.fee_payer->0).0@,
        owns(tx, Keyspace::To, prefix) <==> exists|i: int|
            0 <= i < tx.to.len() && (#[trigger] tx.to[i]).0@ == prefix,
        owns(tx, keyspace, prefix) ==> keyspace is From || keyspace is Type || keyspace is FeeToken
            || keyspace is FeePayer || keyspace is To,
{
    lemma_owns(tx, Keyspace::From, prefix);
    lemma_owns(tx, Keyspace::Type, prefix);
    lemma_owns(tx, Keyspace::FeeToken, prefix);
    lemma_owns(tx, Keyspace::FeePayer, prefix);
    lemma_owns(tx, Keyspace::To, prefix);
    lemma_owns(tx, keyspace, prefix);
    if exists|i: int| 0 <= i < tx.to.len() && (#[trigger] tx.to[i]).0@ == prefix {
        let i = choose|i: int| 0 <= i < tx.to.len() && (#[trigger] tx.to[i]).0@ == prefix;
        assert(tx.to.contains(tx.to[i]));
    }
    if column_matches(tx, Keyspace::To, prefix) {
        let a = choose|a: Address| #[trigger] tx.to.contains(a) && prefix == a@;
        let i = choose|i: int| 0 <= i < tx.to.len() && tx.to[i] == a;
        assert(tx.to[i].0@ == prefix);
    }
}

/// A filter walks one column for each of its terms but `address`, in order, under what the term
/// names.
pub proof fn a_filter_walks_a_column_per_term(
    filter: &Filter,
    r: Vec<(Keyspace, Vec<u8>)>,
)
    requires
        call_ensures(columns, (filter,), r),
    ensures
        ({
            let one = |there: bool|
                if there {
                    1int
                } else {
                    0
                };
            let to = one(filter.from is Some);
            let tag = to + one(filter.to is Some);
            let token = tag + one(filter.tx_type is Some);
            let payer = token + one(filter.fee_token is Some);
            &&& r@.len() == payer + one(filter.fee_payer is Some)
            &&& filter.from is Some ==> r@[0].0 is From && r@[0].1@ == (filter.from->0).0@
            &&& filter.to is Some ==> r@[to].0 is To && r@[to].1@ == (filter.to->0).0@
            &&& filter.tx_type is Some ==> r@[tag].0 is Type && r@[tag].1@ == seq![
                filter.tx_type->0,
            ]
            &&& filter.fee_token is Some ==> r@[token].0 is FeeToken && r@[token].1@ == (
            filter.fee_token->0).0@
            &&& filter.fee_payer is Some ==> r@[payer].0 is FeePayer && r@[payer].1@ == (
            filter.fee_payer->0).0@
        }),
{
    let want = filter_columns(*filter);
    assert(column_views(r@).len() == r@.len());
    assert forall|i: int| 0 <= i < r@.len() implies want[i] == (
        (#[trigger] r@[i]).0,
        r@[i].1@,
    ) by {
        assert(column_views(r@)[i] == (r@[i].0, r@[i].1@));
    }
}

/// A counter's key is the name of its kind, a zero byte, and the value it counts.
pub proof fn a_counter_key_is_its_kind_and_value(kind: &str, prefix: &[u8], key: Vec<u8>, i: int)
    requires
        call_ensures(count_key, (kind, prefix), key),
        is_ascii_chars(kind@),
    ensures
        key@.len() == kind@.len() + 1 + prefix@.len(),
        0 <= i < kind@.len() ==> key@[i] == kind@[i] as u8,
        key@[kind@.len() as int] == 0,
        key@.skip(kind@.len() + 1int) == prefix@,
{
    is_ascii_chars_encode_utf8(kind@);
    assert(key@.skip(kind@.len() + 1int) =~= prefix@);
}

/// A row contributes to the counter of each of its columns, to that of everyone who took part in
/// it, and to the grand total: to each once, and to no others.
pub proof fn a_row_counts_once_for_what_it_has(
    row: &IndexedTx,
    r: Vec<Vec<u8>>,
    kind: Kind,
    name: &str,
    prefix: &[u8],
    key: Vec<u8>,
)
    requires
        call_ensures(counters, (row,), r),
        call_ensures(Kind::name, (kind,), name),
        call_ensures(count_key, (name, prefix), key),
    ensures
        forall|i: int, j: int| 0 <= i < j < r@.len() ==> #[trigger] r@[i]@ != #[trigger] r@[j]@,
        (exists|i: int| 0 <= i < r@.len() && #[trigger] r@[i]@ == key@) <==> match kind {
            Kind::From => prefix@ == row.from.0@,
            Kind::To => exists|k: int|
                0 <= k < row.to@.len() && (#[trigger] row.to@[k]).0@ == prefix@,
            Kind::Type => prefix@ == seq![row.tx_type],
            Kind::FeeToken => row.fee_token is Some && prefix@ == (row.fee_token->0).0@,
            Kind::FeePayer => row.fee_payer is Some && prefix@ == (row.fee_payer->0).0@,
            Kind::Address => prefix@ == row.from.0@ || exists|k: int|
                0 <= k < row.to@.len() && (#[trigger] row.to@[k]).0@ == prefix@,
            Kind::Total => prefix@.len() == 0,
        },
        forall|i: int|
            0 <= i < r@.len() ==> exists|k: Kind, p: Seq<u8>|
                (#[trigger] r@[i])@ == #[trigger] counter_key(kind_name(k), p),
{
    let tx = row@;
    let all = row_counters(tx);
    assert(key_views(r@).len() == r@.len());
    assert forall|i: int| 0 <= i < r@.len() implies #[trigger] r@[i]@ == all[i] by {
        assert(key_views(r@)[i] == r@[i]@);
    }
    lemma_row_counters_distinct(tx);
    lemma_row_counters(tx, kind, prefix@);
    if all.contains(key@) {
        let i = choose|i: int| 0 <= i < all.len() && all[i] == key@;
        assert(r@[i]@ == key@);
    }
    if exists|i: int| 0 <= i < r@.len() && #[trigger] r@[i]@ == key@ {
        let i = choose|i: int| 0 <= i < r@.len() && #[trigger] r@[i]@ == key@;
        assert(all[i] == key@);
    }
    a_row_is_found_under_what_it_has(tx, Keyspace::To, prefix@);
    lemma_owns(tx, Keyspace::To, prefix@);
    assert forall|i: int| 0 <= i < r@.len() implies exists|k: Kind, p: Seq<u8>|
        (#[trigger] r@[i])@ == #[trigger] counter_key(kind_name(k), p) by {
        let n = row_columns(tx).len() as int;
        let people = participants(tx);
        assert(r@[i]@ == all[i]);
        if i < n {
            let c = row_columns(tx)[i];
            assert(all[i] == counter_key(kind_name(kind_of(c.0)), c.1));
        } else if i < n + people.len() {
            assert(all[i] == counter_key(kind_name(Kind::Address), people[i - n]@));
        } else {
            assert(all[i] == counter_key(kind_name(Kind::Total), Seq::empty()));
        }
    }
}

/// The counters of some columns are those of their keyspaces' kinds, one for one.
pub proof fn columns_are_counted_one_for_one(
    columns: &Vec<(Keyspace, Vec<u8>)>,
    r: Vec<Vec<u8>>,
    i: int,
    kind: Kind,
    name: &str,
    prefix: &[u8],
    key: Vec<u8>,
)
    requires
        call_ensures(counters_of, (columns,), r),
        0 <= i < columns@.len(),
        call_ensures(Kind::of, (columns@[i].0,), kind),
        call_ensures(Kind::name, (kind,), name),
        prefix@ == columns@[i].1@,
        call_ensures(count_key, (name, prefix), key),
    ensures
        r@.len() == columns@.len(),
        r@[i]@ == key@,
{
    assert(key_views(r@).len() == column_counters(column_views(columns@)).len());
    assert(key_views(r@)[i] == r@[i]@);
}

} // verus!
