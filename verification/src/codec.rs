//! The values the store holds: rows, counters and the tip, as bytes.

use vstd::arithmetic::power::pow;
use vstd::prelude::*;
use vstd::slice::slice_subrange;

use crate::bytes::{append, be, be_value, lemma_be_of_8, lemma_be_u64,
    numbers_are_written_big_endian, push_be, read_be};
use crate::error::Error;
use crate::position::Position;
use crate::primitives::{lemma_address_ext, lemma_hash_ext, Address, B256};
use crate::types::{IndexedTx, Tip, Tx};

verus! {

/// Hash, sender, type and flags: what every row carries before its addresses.
pub const ROW_HEADER: usize = 54;

/// Set where the address of the fee token follows the header.
pub const HAS_FEE_TOKEN: u8 = 1;

/// Set where the address of the fee payer follows.
pub const HAS_FEE_PAYER: u8 = 2;

/// The flags this layout knows.
pub const KNOWN_FLAGS: u8 = 3;

// ---- rows

/// Addresses, one after another.
pub open spec fn flat(list: Seq<Address>) -> Seq<u8>
    decreases list.len(),
{
    if list.len() == 0 {
        Seq::empty()
    } else {
        flat(list.drop_last()) + list.last()@
    }
}

/// The bytes of an address that may be absent.
pub open spec fn optional_bytes(value: Option<Address>) -> Seq<u8> {
    match value {
        Some(a) => a@,
        None => Seq::empty(),
    }
}

/// Which optional addresses follow the header.
pub open spec fn row_flags(tx: Tx) -> u8 {
    ((if tx.fee_token is Some { 1int } else { 0 }) + (if tx.fee_payer is Some { 2int } else { 0 })) as u8
}

/// A row as it is stored: `hash | from | type | flags | [fee_token] | [fee_payer] | to*n`.
pub open spec fn row_bytes(tx: Tx) -> Seq<u8> {
    tx.hash@ + tx.from@ + seq![tx.tx_type, row_flags(tx)] + optional_bytes(tx.fee_token)
        + optional_bytes(tx.fee_payer) + flat(tx.to)
}

/// How many of the optional addresses the flags promise.
pub open spec fn flagged(flags: u8) -> int {
    if flags == 0 {
        0
    } else if flags == 3 {
        2
    } else {
        1
    }
}

/// Whether bytes are a row of this layout: a header with known flags, the addresses they
/// promise, and whole call targets.
pub open spec fn is_row(val: Seq<u8>) -> bool {
    &&& val.len() >= 54
    &&& val[53] <= 3
    &&& (val.len() - 54) % 20 == 0
    &&& val.len() - 54 >= 20 * flagged(val[53])
}

/// `tx` is the row stored as `val` at a position.
pub open spec fn decodes_to(position: Position, val: Seq<u8>, tx: Tx) -> bool {
    tx.position == position && row_bytes(tx) == val
}

/// The row stored as `val` at a position.
pub open spec fn row_at(position: Position, val: Seq<u8>) -> Tx {
    Tx { position, ..choose|tx: Tx| #[trigger] decodes_to(position, val, tx) }
}

proof fn lemma_flat_len(list: Seq<Address>)
    ensures
        flat(list).len() == 20 * list.len(),
    decreases list.len(),
{
    if list.len() > 0 {
        lemma_flat_len(list.drop_last());
    }
}

proof fn lemma_flat_injective(a: Seq<Address>, b: Seq<Address>)
    requires
        flat(a) == flat(b),
    ensures
        a == b,
    decreases a.len(),
{
    lemma_flat_len(a);
    lemma_flat_len(b);
    if a.len() > 0 {
        let x = flat(a.drop_last());
        let y = flat(b.drop_last());
        lemma_flat_len(a.drop_last());
        lemma_flat_len(b.drop_last());
        assert(flat(a).take(x.len() as int) =~= x);
        assert(flat(b).take(y.len() as int) =~= y);
        lemma_flat_injective(a.drop_last(), b.drop_last());
        assert(flat(a).skip(x.len() as int) =~= a.last()@);
        assert(flat(b).skip(y.len() as int) =~= b.last()@);
        lemma_address_ext(a.last(), b.last());
        assert(a =~= a.drop_last().push(a.last()));
        assert(b =~= b.drop_last().push(b.last()));
    }
    assert(a =~= b);
}

/// The parts of a stored row, by their places.
proof fn lemma_row_parts(tx: Tx)
    ensures
        ({
            let s = row_bytes(tx);
            let n = optional_bytes(tx.fee_token).len() as int;
            let m = optional_bytes(tx.fee_payer).len() as int;
            &&& s.len() == 54 + n + m + 20 * tx.to.len()
            &&& s.subrange(0, 32) == tx.hash@
            &&& s.subrange(32, 52) == tx.from@
            &&& s[52] == tx.tx_type
            &&& s[53] == row_flags(tx)
            &&& s.subrange(54, 54 + n) == optional_bytes(tx.fee_token)
            &&& s.subrange(54 + n, 54 + n + m) == optional_bytes(tx.fee_payer)
            &&& s.skip(54 + n + m) == flat(tx.to)
        }),
{
    lemma_flat_len(tx.to);
    let s = row_bytes(tx);
    let n = optional_bytes(tx.fee_token).len() as int;
    let m = optional_bytes(tx.fee_payer).len() as int;
    assert(s.subrange(0, 32) =~= tx.hash@);
    assert(s.subrange(32, 52) =~= tx.from@);
    assert(s.subrange(54, 54 + n) =~= optional_bytes(tx.fee_token));
    assert(s.subrange(54 + n, 54 + n + m) =~= optional_bytes(tx.fee_payer));
    assert(s.skip(54 + n + m) =~= flat(tx.to));
}

/// What is stored for a row is a row of this layout.
pub proof fn lemma_row_is_row(tx: Tx)
    ensures
        is_row(row_bytes(tx)),
{
    lemma_row_parts(tx);
}

/// A row comes back out of the store as it went in: what is stored at a position stands for
/// one row.
pub proof fn rows_round_trip(a: Tx, b: Tx)
    requires
        a.position == b.position,
        row_bytes(a) == row_bytes(b),
    ensures
        a == b,
{
    lemma_row_parts(a);
    lemma_row_parts(b);
    lemma_hash_ext(a.hash, b.hash);
    lemma_address_ext(a.from, b.from);
    assert(row_flags(a) == row_flags(b));
    if a.fee_token is Some {
        lemma_address_ext(a.fee_token->0, b.fee_token->0);
    }
    if a.fee_payer is Some {
        lemma_address_ext(a.fee_payer->0, b.fee_payer->0);
    }
    lemma_flat_injective(a.to, b.to);
}

/// What is stored for a row at its position is that row.
pub proof fn lemma_row_at(tx: Tx)
    ensures
        row_at(tx.position, row_bytes(tx)) == tx,
{
    assert(decodes_to(tx.position, row_bytes(tx), tx));
    let read = choose|t: Tx| #[trigger] decodes_to(tx.position, row_bytes(tx), t);
    rows_round_trip(read, tx);
}

/// The error for a value that is not a row of this layout.
pub fn row_error(len: usize) -> (r: Error)
    ensures
        r == Error::Row(len),
{
    Error::Row(len)
}

/// A row as it is stored.
///
/// The optional addresses are flagged because nothing about their width tells them
/// apart from a call target; the targets need no count because they are whatever is
/// left, and addresses are fixed width.
pub fn encode_row(row: &IndexedTx) -> (r: Vec<u8>)
    ensures
        r@ == row_bytes(row@),
{
    let ghost tx = row@;
    let mut v: Vec<u8> = Vec::with_capacity(ROW_HEADER);
    append(&mut v, row.hash.as_slice());
    append(&mut v, row.from.as_slice());
    v.push(row.tx_type);
    let mut flags: u8 = 0;
    if row.fee_token.is_some() {
        flags = flags | HAS_FEE_TOKEN;
        assert(0u8 | 1u8 == 1u8) by (bit_vector);
    }
    if row.fee_payer.is_some() {
        flags = flags | HAS_FEE_PAYER;
        assert(0u8 | 2u8 == 2u8 && 1u8 | 2u8 == 3u8) by (bit_vector);
    }
    assert(flags == row_flags(tx));
    v.push(flags);
    let ghost header = tx.hash@ + tx.from@ + seq![tx.tx_type, row_flags(tx)];
    assert(v@ =~= header);
    if let Some(a) = row.fee_token {
        append(&mut v, a.as_slice());
    }
    assert(v@ =~= header + optional_bytes(tx.fee_token));
    if let Some(a) = row.fee_payer {
        append(&mut v, a.as_slice());
    }
    let ghost front = header + optional_bytes(tx.fee_token) + optional_bytes(tx.fee_payer);
    assert(v@ =~= front);
    let mut i: usize = 0;
    assert(v@ =~= front + flat(tx.to.take(0)));
    while i < row.to.len()
        invariant
            i <= row.to@.len(),
            tx == row@,
            v@ == front + flat(tx.to.take(i as int)),
        decreases row.to@.len() - i,
    {
        append(&mut v, row.to[i].as_slice());
        proof {
            assert(tx.to.take(i + 1).drop_last() =~= tx.to.take(i as int));
            assert(v@ =~= front + flat(tx.to.take(i + 1)));
        }
        i = i + 1;
    }
    assert(tx.to.take(i as int) =~= tx.to);
    v
}

proof fn lemma_flag_bits(flags: u8)
    ensures
        (flags & !3u8 != 0) == (flags > 3),
        flags <= 3 ==> (flags & 1 == 0) == (flags == 0 || flags == 2),
        flags <= 3 ==> (flags & 2 == 0) == (flags == 0 || flags == 1),
{
    assert((flags & !3u8 != 0) == (flags > 3)) by (bit_vector);
    assert(flags <= 3 ==> (flags & 1 == 0) == (flags == 0 || flags == 2)) by (bit_vector);
    assert(flags <= 3 ==> (flags & 2 == 0) == (flags == 0 || flags == 1)) by (bit_vector);
}

/// The row stored at a position, or an error where the bytes are not one.
pub fn decode_row(position: Position, val: &[u8]) -> (r: Result<IndexedTx, Error>)
    ensures
        is_row(val@) ==> r is Ok && decodes_to(position, val@, r->Ok_0@) && r->Ok_0@ == row_at(
            position,
            val@,
        ),
        !is_row(val@) ==> r == Err::<IndexedTx, Error>(Error::Row(val@.len() as usize)),
{
    let len: usize = val.len();
    if len < ROW_HEADER {
        return Err(row_error(len));
    }
    let flags: u8 = val[53];
    proof {
        lemma_flag_bits(flags);
    }
    // A flag this layout does not know means a field it cannot place, and everything
    // after that field would decode as something else.
    if flags & !KNOWN_FLAGS != 0 {
        return Err(row_error(len));
    }
    // Each flagged address in turn; whatever is left is the call targets.
    let mut at: usize = ROW_HEADER;
    let mut fee_token: Option<Address> = None;
    if flags & HAS_FEE_TOKEN != 0 {
        if len - at < 20 {
            return Err(row_error(len));
        }
        fee_token = Some(Address::from_slice(slice_subrange(val, at, at + 20)));
        at = at + 20;
    }
    let ghost token_end = at as int;
    let mut fee_payer: Option<Address> = None;
    if flags & HAS_FEE_PAYER != 0 {
        if len - at < 20 {
            return Err(row_error(len));
        }
        fee_payer = Some(Address::from_slice(slice_subrange(val, at, at + 20)));
        at = at + 20;
    }
    let ghost start = at as int;
    let mut to: Vec<Address> = Vec::new();
    assert(val@.subrange(start, start) =~= flat(to@));
    while len - at >= 20
        invariant
            len == val@.len(),
            54 <= start <= at <= len,
            at == start + 20 * to@.len(),
            val@.subrange(start, at as int) == flat(to@),
        decreases len - at,
    {
        let ghost before = to@;
        let a: Address = Address::from_slice(slice_subrange(val, at, at + 20));
        to.push(a);
        proof {
            assert(to@.drop_last() =~= before);
            assert(val@.subrange(start, at + 20) =~= val@.subrange(start, at as int)
                + val@.subrange(at as int, at + 20));
        }
        at = at + 20;
    }
    assert(start == 54 + 20 * flagged(flags));
    if at != len {
        assert((len - 54) % 20 != 0);
        return Err(row_error(len));
    }
    assert((len - 54) % 20 == 0);
    let row = IndexedTx {
        position,
        hash: B256::from_slice(slice_subrange(val, 0, 32)),
        from: Address::from_slice(slice_subrange(val, 32, 52)),
        to,
        tx_type: val[52],
        fee_token,
        fee_payer,
    };
    proof {
        let tx = row@;
        assert(row_flags(tx) == flags);
        assert(optional_bytes(tx.fee_token) =~= val@.subrange(54, token_end));
        assert(optional_bytes(tx.fee_payer) =~= val@.subrange(token_end, start));
        assert(row_bytes(tx) =~= val@);
        lemma_row_at(tx);
    }
    Ok(row)
}

// ---- counters

/// The number a counter's value stands for; absent is zero.
pub open spec fn count_value(val: Option<Seq<u8>>) -> int {
    match val {
        None => 0,
        Some(s) => be_value(s),
    }
}

/// The number stored for a counter, or an error where the bytes are not eight.
pub fn decode_count(val: &[u8]) -> (r: Result<u64, Error>)
    ensures
        val@.len() == 8 ==> r is Ok && r->Ok_0 == be_value(val@),
        val@.len() != 8 ==> r == Err::<u64, Error>(Error::Count(val@.len() as usize)),
{
    if val.len() != 8 {
        return Err(Error::Count(val.len()));
    }
    Ok(read_be(val))
}

/// One counter's value. Absent is zero: a counter is only written once something is
/// counted, and deleted again when it falls back to nothing.
pub fn read_count(val: Option<&[u8]>) -> (r: Result<u64, Error>)
    ensures
        match val {
            None => r == Ok::<u64, Error>(0),
            Some(s) => if s@.len() == 8 {
                r is Ok && r->Ok_0 == be_value(s@)
            } else {
                r == Err::<u64, Error>(Error::Count(s@.len() as usize))
            },
        },
{
    match val {
        None => Ok(0),
        Some(s) => decode_count(s),
    }
}

/// A counter's value as it is stored.
pub fn encode_count(n: u64) -> (r: Vec<u8>)
    ensures
        r@ == be(n as nat, 8),
{
    let mut v: Vec<u8> = Vec::with_capacity(8);
    push_be(&mut v, n, 8);
    assert(v@ =~= be(n as nat, 8));
    v
}

// ---- the tip

/// The key of the tip, in the store's default keyspace.
pub open spec fn tip_key_bytes() -> Seq<u8> {
    seq![116u8, 105u8, 112u8]
}

/// The tip as it is stored: block, then hash.
pub open spec fn tip_bytes(tip: Tip) -> Seq<u8> {
    be(tip.block_num as nat, 8) + tip.hash@
}

/// What is stored for the tip stands for one tip.
pub proof fn tips_round_trip(a: Tip, b: Tip)
    requires
        tip_bytes(a) == tip_bytes(b),
    ensures
        a == b,
{
    lemma_be_u64(0, a.block_num);
    lemma_be_u64(0, b.block_num);
    assert(tip_bytes(a).take(8) =~= be(a.block_num as nat, 8));
    assert(tip_bytes(b).take(8) =~= be(b.block_num as nat, 8));
    assert(tip_bytes(a).skip(8) =~= a.hash@);
    assert(tip_bytes(b).skip(8) =~= b.hash@);
    lemma_hash_ext(a.hash, b.hash);
}

/// The key of the resume point: `tip`, replaced on every applied tip.
pub fn tip_key() -> (r: Vec<u8>)
    ensures
        r@ == tip_key_bytes(),
{
    let mut k: Vec<u8> = Vec::with_capacity(3);
    k.push(116);
    k.push(105);
    k.push(112);
    assert(k@ =~= tip_key_bytes());
    k
}

/// The tip as it is stored.
pub fn encode_tip(tip: Tip) -> (r: Vec<u8>)
    ensures
        r@ == tip_bytes(tip),
{
    let mut v: Vec<u8> = Vec::with_capacity(40);
    push_be(&mut v, tip.block_num, 8);
    append(&mut v, tip.hash.as_slice());
    assert(v@ =~= tip_bytes(tip));
    v
}

/// The tip that was stored, or an error where the bytes are not forty.
pub fn decode_tip(val: &[u8]) -> (r: Result<Tip, Error>)
    ensures
        val@.len() == 40 ==> r is Ok && tip_bytes(r->Ok_0) == val@,
        val@.len() != 40 ==> r == Err::<Tip, Error>(Error::Tip(val@.len() as usize)),
{
    if val.len() != 40 {
        return Err(Error::Tip(val.len()));
    }
    let block_num: u64 = read_be(slice_subrange(val, 0, 8));
    let hash: B256 = B256::from_slice(slice_subrange(val, 8, 40));
    let tip: Tip = Tip::new(block_num, hash);
    proof {
        lemma_be_of_8(val@.subrange(0, 8));
        assert(tip_bytes(tip) =~= val@);
    }
    Ok(tip)
}

/// The block the index is caught up to, or `None` before the first notification.
pub fn read_tip(val: Option<&[u8]>) -> (r: Result<Option<Tip>, Error>)
    ensures
        match val {
            None => r == Ok::<Option<Tip>, Error>(None),
            Some(s) => if s@.len() == 40 {
                r is Ok && r->Ok_0 is Some && tip_bytes(r->Ok_0->0) == s@
            } else {
                r == Err::<Option<Tip>, Error>(Error::Tip(s@.len() as usize))
            },
        },
{
    match val {
        None => Ok(None),
        Some(s) => match decode_tip(s) {
            Ok(tip) => Ok(Some(tip)),
            Err(e) => Err(e),
        },
    }
}

// ---- what the stored bytes show

/// How many addresses an option is.
pub open spec fn some(value: Option<Address>) -> int {
    if value is Some {
        1
    } else {
        0
    }
}

/// A stored row shows each of its parts in its place: the hash, the sender, the type, which of the
/// optional addresses there are, those, and the call targets in call order.
pub proof fn a_stored_row_shows_its_parts(row: &IndexedTx, v: Vec<u8>, k: int)
    requires
        call_ensures(encode_row, (row,), v),
    ensures
        ({
            let token = some(row.fee_token);
            let payer = some(row.fee_payer);
            let calls = 54 + 20 * (token + payer);
            &&& v@.len() == calls + 20 * row.to@.len()
            &&& v@.subrange(0, 32) == row.hash.0@
            &&& v@.subrange(32, 52) == row.from.0@
            &&& v@[52] == row.tx_type
            &&& v@[53] == token + 2 * payer
            &&& row.fee_token is Some ==> v@.subrange(54, 74) == (row.fee_token->0).0@
            &&& row.fee_payer is Some ==> v@.subrange(calls - 20, calls) == (row.fee_payer->0).0@
            &&& 0 <= k < row.to@.len() ==> v@.subrange(calls + 20 * k, calls + 20 * k + 20)
                == row.to@[k].0@
        }),
{
    let tx = row@;
    lemma_row_parts(tx);
    let start = 54 + 20 * (some(row.fee_token) + some(row.fee_payer));
    if 0 <= k < row.to@.len() {
        lemma_flat_at(tx.to, k);
        assert(v@.subrange(start + 20 * k, start + 20 * k + 20) =~= flat(tx.to).subrange(
            20 * k,
            20 * k + 20,
        ));
    }
}

proof fn lemma_flat_at(list: Seq<Address>, k: int)
    requires
        0 <= k < list.len(),
    ensures
        flat(list).len() == 20 * list.len(),
        flat(list).subrange(20 * k, 20 * k + 20) == list[k]@,
    decreases list.len(),
{
    let head = list.drop_last();
    lemma_flat_len(list);
    lemma_flat_len(head);
    if k < head.len() {
        lemma_flat_at(head, k);
        assert(flat(list).subrange(20 * k, 20 * k + 20) =~= flat(head).subrange(
            20 * k,
            20 * k + 20,
        ));
    } else {
        assert(flat(list).subrange(20 * k, 20 * k + 20) =~= list[k]@);
    }
}

/// Bytes are a row where there is a header, no flag but the known ones, the addresses that are
/// flagged, and whole call targets. What is read from them is the row at the position whose parts
/// they show, and stored again it is the same bytes; from anything else, nothing is read but its
/// length.
pub proof fn rows_are_read_as_they_are_stored(
    position: Position,
    val: &[u8],
    read: Result<IndexedTx, Error>,
    again: Vec<u8>,
    fault: Error,
)
    requires
        call_ensures(decode_row, (position, val), read),
        call_ensures(row_error, (val@.len() as usize,), fault),
        read is Ok ==> call_ensures(encode_row, (&read->Ok_0,), again),
    ensures
        read is Ok <==> {
            &&& val@.len() >= 54
            &&& val@[53] <= 3
            &&& (val@.len() - 54) % 20 == 0
            &&& val@[53] == 1 || val@[53] == 2 ==> val@.len() >= 74
            &&& val@[53] == 3 ==> val@.len() >= 94
        },
        read is Ok ==> {
            let row = read->Ok_0;
            &&& row.position == position
            &&& again@ == val@
            &&& row.hash.0@ == val@.subrange(0, 32)
            &&& row.from.0@ == val@.subrange(32, 52)
            &&& row.tx_type == val@[52]
            &&& row.fee_token is Some <==> val@[53] == 1 || val@[53] == 3
            &&& row.fee_payer is Some <==> val@[53] == 2 || val@[53] == 3
        },
        read is Err ==> read->Err_0 == Error::Row(val@.len() as usize),
        fault == Error::Row(val@.len() as usize),
{
    if read is Ok {
        a_stored_row_shows_its_parts(&read->Ok_0, again, 0);
    }
}

/// A row comes back out of the store as it went in.
pub proof fn a_row_reads_back(
    row: &IndexedTx,
    v: Vec<u8>,
    val: &[u8],
    read: Result<IndexedTx, Error>,
)
    requires
        call_ensures(encode_row, (row,), v),
        val@ == v@,
        call_ensures(decode_row, (row.position, val), read),
    ensures
        read is Ok,
        read->Ok_0.position == row.position,
        read->Ok_0.hash == row.hash,
        read->Ok_0.from == row.from,
        read->Ok_0.to@ == row.to@,
        read->Ok_0.tx_type == row.tx_type,
        read->Ok_0.fee_token == row.fee_token,
        read->Ok_0.fee_payer == row.fee_payer,
{
    lemma_row_is_row(row@);
    rows_round_trip(read->Ok_0@, row@);
}

/// What is stored for a row, as a mathematical value, is what its stored bytes are.
pub proof fn a_row_has_one_stored_form(row: &IndexedTx, v: Vec<u8>)
    requires
        call_ensures(encode_row, (row,), v),
    ensures
        row_bytes(row@) == v@,
        is_row(v@),
        row_at(row.position, v@) == row@,
{
    lemma_row_is_row(row@);
    lemma_row_at(row@);
}

/// A count is stored in eight bytes, most significant first, and reads back. What is absent reads
/// as zero; what is not eight bytes is reported by its length.
pub proof fn a_count_reads_back(
    n: u64,
    v: Vec<u8>,
    i: int,
    s: &[u8],
    decoded: Result<u64, Error>,
    read: Result<u64, Error>,
    absent: Result<u64, Error>,
)
    requires
        call_ensures(encode_count, (n,), v),
        call_ensures(decode_count, (s,), decoded),
        call_ensures(read_count, (Some(s),), read),
        call_ensures(read_count, (None,), absent),
        0 <= i < 8,
    ensures
        v@.len() == 8,
        v@[i] == (n as int / pow(256, (7 - i) as nat)) % 256,
        decoded is Ok <==> s@.len() == 8,
        decoded is Ok ==> (decoded->Ok_0 == n <==> s@ == v@),
        decoded is Err ==> decoded->Err_0 == Error::Count(s@.len() as usize),
        read == decoded,
        absent == Ok::<u64, Error>(0),
{
    lemma_be_u64(0, n);
    numbers_are_written_big_endian(n as nat, 8, i);
    if s@.len() == 8 {
        lemma_be_of_8(s@);
    }
}

/// The tip is stored as its block in eight bytes, most significant first, and its hash in
/// thirty-two, and reads back with both. What is absent is no tip; what is not forty bytes is
/// reported by its length.
pub proof fn a_tip_reads_back(
    tip: Tip,
    v: Vec<u8>,
    i: int,
    s: &[u8],
    decoded: Result<Tip, Error>,
    read: Result<Option<Tip>, Error>,
    absent: Result<Option<Tip>, Error>,
)
    requires
        call_ensures(encode_tip, (tip,), v),
        call_ensures(decode_tip, (s,), decoded),
        call_ensures(read_tip, (Some(s),), read),
        call_ensures(read_tip, (None,), absent),
        0 <= i < 8,
    ensures
        v@.len() == 40,
        v@[i] == (tip.block_num as int / pow(256, (7 - i) as nat)) % 256,
        v@.subrange(8, 40) == tip.hash.0@,
        decoded is Ok <==> s@.len() == 40,
        decoded is Ok ==> (decoded->Ok_0 == tip <==> s@ == v@),
        decoded is Ok ==> decoded->Ok_0.hash.0@ == s@.subrange(8, 40),
        decoded is Err ==> decoded->Err_0 == Error::Tip(s@.len() as usize),
        decoded is Ok ==> read == Ok::<Option<Tip>, Error>(Some(decoded->Ok_0)),
        decoded is Err ==> read is Err && read->Err_0 == decoded->Err_0,
        absent == Ok::<Option<Tip>, Error>(None),
{
    lemma_be_u64(0, tip.block_num);
    numbers_are_written_big_endian(tip.block_num as nat, 8, i);
    assert(v@.subrange(8, 40) =~= tip.hash.0@);
    if s@.len() == 40 {
        let t = decoded->Ok_0;
        lemma_be_u64(0, t.block_num);
        assert(s@.subrange(8, 40) =~= t.hash.0@);
        if s@ == v@ {
            tips_round_trip(t, tip);
        }
        tips_round_trip(t, read->Ok_0->0);
    }
}

/// The tip is kept under the three letters of its name.
pub proof fn the_tip_is_kept_under_its_name(key: Vec<u8>)
    requires
        call_ensures(tip_key, (), key),
    ensures
        key@.len() == 3,
        key@[0] == 't' as u8,
        key@[1] == 'i' as u8,
        key@[2] == 'p' as u8,
{
}

} // verus!
