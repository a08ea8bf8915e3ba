//! Where everything is kept: keyspaces, and the keys within them.
//!
//! ```text
//! primary   block|idx           -> hash, from, type, fee_token?, fee_payer?, to*
//! from      from |block|idx     -> ()
//! to        to   |block|idx     -> ()
//! type      type |block|idx     -> ()
//! fee_token fee_token|block|idx -> ()
//! fee_payer fee_payer|block|idx -> ()
//! count     kind|0|value        -> u64
//! ```

use vstd::arithmetic::power::pow;
use vstd::prelude::*;
use vstd::string::*;

use crate::bytes::{append, be, be_value, lemma_be_of_4, lemma_be_of_8, lemma_be_u32, lemma_be_u64,
    numbers_are_written_big_endian, push_be, read_be};
use crate::error::Error;
use crate::lex::{lemma_lex_asymmetric, lemma_lex_prefix, lex_lt, parts_at, starts_with};
use crate::position::{earlier, Position};

verus! {

/// A part of the store with keys of its own.
#[derive(Clone, Copy, Debug, PartialEq, Eq, Structural)]
pub enum Keyspace {
    /// The rows, by position.
    Primary,
    From,
    To,
    Type,
    FeeToken,
    FeePayer,
    /// Row counts per filter value, so an address page can say how many without paging
    /// to the end of the walk to find out.
    Count,
    /// The store's default keyspace, which holds the tip.
    Meta,
}

/// The name a keyspace is created under.
pub open spec fn name_of(keyspace: Keyspace) -> Seq<char> {
    match keyspace {
        Keyspace::Primary => "primary"@,
        Keyspace::From => "from"@,
        Keyspace::To => "to"@,
        Keyspace::Type => "type"@,
        Keyspace::FeeToken => "fee_token"@,
        Keyspace::FeePayer => "fee_payer"@,
        Keyspace::Count => "count"@,
        Keyspace::Meta => "default"@,
    }
}

impl Keyspace {
    /// The name the keyspace is created under.
    pub fn name(self) -> (r: &'static str)
        ensures
            r@ == name_of(self),
    {
        match self {
            Keyspace::Primary => "primary",
            Keyspace::From => "from",
            Keyspace::To => "to",
            Keyspace::Type => "type",
            Keyspace::FeeToken => "fee_token",
            Keyspace::FeePayer => "fee_payer",
            Keyspace::Count => "count",
            Keyspace::Meta => "default",
        }
    }

    /// The keyspaces that are created at open, in layout order.
    pub fn created() -> (r: [Keyspace; 7])
        ensures
            r@ == created_keyspaces(),
    {
        let r: [Keyspace; 7] = [
            Keyspace::Primary,
            Keyspace::From,
            Keyspace::To,
            Keyspace::Type,
            Keyspace::FeeToken,
            Keyspace::FeePayer,
            Keyspace::Count,
        ];
        assert(r@ =~= created_keyspaces());
        r
    }
}

/// The keyspaces that are created at open, in layout order.
pub open spec fn created_keyspaces() -> Seq<Keyspace> {
    seq![
        Keyspace::Primary,
        Keyspace::From,
        Keyspace::To,
        Keyspace::Type,
        Keyspace::FeeToken,
        Keyspace::FeePayer,
        Keyspace::Count,
    ]
}

/// What a counter counts by. Two kinds are no keyspace: "took part on either side", which
/// is a union at read time and so has no single walk to count, and the grand total.
#[derive(Clone, Copy, Debug, PartialEq, Eq, Structural)]
pub enum Kind {
    From,
    To,
    Type,
    FeeToken,
    FeePayer,
    Address,
    Total,
}

/// The name a counter's key begins with.
pub open spec fn kind_name(kind: Kind) -> Seq<char> {
    match kind {
        Kind::From => "from"@,
        Kind::To => "to"@,
        Kind::Type => "type"@,
        Kind::FeeToken => "fee_token"@,
        Kind::FeePayer => "fee_payer"@,
        Kind::Address => "addr"@,
        Kind::Total => "all"@,
    }
}

/// The counter that goes with a secondary keyspace.
pub open spec fn kind_of(keyspace: Keyspace) -> Kind {
    match keyspace {
        Keyspace::From => Kind::From,
        Keyspace::To => Kind::To,
        Keyspace::Type => Kind::Type,
        Keyspace::FeeToken => Kind::FeeToken,
        Keyspace::FeePayer => Kind::FeePayer,
        _ => Kind::Total,
    }
}

impl Kind {
    /// The name a counter's key begins with.
    pub fn name(self) -> (r: &'static str)
        ensures
            r@ == kind_name(self),
    {
        match self {
            Kind::From => "from",
            Kind::To => "to",
            Kind::Type => "type",
            Kind::FeeToken => "fee_token",
            Kind::FeePayer => "fee_payer",
            Kind::Address => "addr",
            Kind::Total => "all",
        }
    }

    /// The counter that goes with a secondary keyspace.
    pub fn of(keyspace: Keyspace) -> (r: Kind)
        ensures
            r == kind_of(keyspace),
    {
        match keyspace {
            Keyspace::From => Kind::From,
            Keyspace::To => Kind::To,
            Keyspace::Type => Kind::Type,
            Keyspace::FeeToken => Kind::FeeToken,
            Keyspace::FeePayer => Kind::FeePayer,
            _ => Kind::Total,
        }
    }
}

/// Whether a keyspace is a secondary: one entry per value and position.
pub open spec fn is_secondary(keyspace: Keyspace) -> bool {
    keyspace is From || keyspace is To || keyspace is Type || keyspace is FeeToken
        || keyspace is FeePayer
}

// ---- positions as keys

/// Block and index, big-endian: the primary key and every secondary's suffix.
pub open spec fn position_key(pos: Position) -> Seq<u8> {
    be(pos.block_num as nat, 8) + be(pos.tx_index as nat, 4)
}

/// The position that twelve bytes stand for.
pub open spec fn position_of(key: Seq<u8>) -> Position {
    Position {
        block_num: be_value(key.subrange(0, 8)) as u64,
        tx_index: be_value(key.subrange(8, 12)) as u32,
    }
}

/// The key of a secondary entry.
pub open spec fn entry_key(prefix: Seq<u8>, pos: Position) -> Seq<u8> {
    prefix + position_key(pos)
}

/// A position key is twelve bytes, and stands for the position.
pub proof fn lemma_position_key(pos: Position)
    ensures
        position_key(pos).len() == 12,
        position_of(position_key(pos)) == pos,
{
    lemma_be_u64(0, pos.block_num);
    lemma_be_u32(0, pos.tx_index);
    let key = position_key(pos);
    assert(key.subrange(0, 8) =~= be(pos.block_num as nat, 8));
    assert(key.subrange(8, 12) =~= be(pos.tx_index as nat, 4));
}

/// Twelve bytes are the key of the position they stand for.
pub proof fn lemma_position_of(key: Seq<u8>)
    requires
        key.len() == 12,
    ensures
        position_key(position_of(key)) == key,
        0 <= be_value(key.subrange(0, 8)) <= u64::MAX,
        0 <= be_value(key.subrange(8, 12)) <= u32::MAX,
{
    lemma_be_of_8(key.subrange(0, 8));
    lemma_be_of_4(key.subrange(8, 12));
    assert(key =~= key.subrange(0, 8) + key.subrange(8, 12));
}

proof fn lemma_key_order_one_way(p: Position, q: Position)
    requires
        earlier(p, q),
    ensures
        lex_lt(position_key(p), position_key(q)),
{
    lemma_be_u64(p.block_num, q.block_num);
    lemma_be_u64(q.block_num, p.block_num);
    lemma_be_u32(p.tx_index, q.tx_index);
    lemma_be_u32(q.tx_index, p.tx_index);
    let a = be(p.block_num as nat, 8);
    let b = be(q.block_num as nat, 8);
    if p.block_num < q.block_num {
        let i = choose|i: int| #[trigger] parts_at(a, b, i);
        assert(parts_at(position_key(p), position_key(q), i));
    } else {
        lemma_lex_prefix(a, be(p.tx_index as nat, 4), be(q.tx_index as nat, 4));
    }
}

/// Keys under one prefix sort as the positions they end in.
pub proof fn keys_sort_as_positions(prefix: Seq<u8>, p: Position, q: Position)
    ensures
        lex_lt(entry_key(prefix, p), entry_key(prefix, q)) <==> earlier(p, q),
        entry_key(prefix, p) == entry_key(prefix, q) <==> p == q,
{
    lemma_lex_prefix(prefix, position_key(p), position_key(q));
    lemma_position_key(p);
    lemma_position_key(q);
    if earlier(p, q) {
        lemma_key_order_one_way(p, q);
    } else if earlier(q, p) {
        lemma_key_order_one_way(q, p);
        lemma_lex_asymmetric(position_key(q), position_key(p));
    } else {
        assert(p == q);
        let k = position_key(p);
        if lex_lt(k, k) {
            lemma_lex_asymmetric(k, k);
        }
    }
    if entry_key(prefix, p) == entry_key(prefix, q) {
        assert(entry_key(prefix, p).skip(prefix.len() as int) =~= position_key(p));
        assert(entry_key(prefix, q).skip(prefix.len() as int) =~= position_key(q));
    }
}

/// An entry's key is its prefix, and a position.
pub proof fn lemma_entry_key(prefix: Seq<u8>, pos: Position)
    ensures
        entry_key(prefix, pos).len() == prefix.len() + 12,
        starts_with(entry_key(prefix, pos), prefix),
        entry_key(prefix, pos).take(prefix.len() as int) == prefix,
        entry_key(prefix, pos).skip(prefix.len() as int) == position_key(pos),
{
    lemma_position_key(pos);
    let k = entry_key(prefix, pos);
    assert(k.take(prefix.len() as int) =~= prefix);
    assert(k.skip(prefix.len() as int) =~= position_key(pos));
}

/// Block and index, big-endian: the primary key and every secondary's suffix.
pub fn pos_key(pos: Position) -> (r: Vec<u8>)
    ensures
        r@ == position_key(pos),
{
    let mut k: Vec<u8> = Vec::with_capacity(12);
    push_be(&mut k, pos.block_num, 8);
    push_be(&mut k, pos.tx_index as u64, 4);
    assert(k@ =~= position_key(pos));
    k
}

/// The position that a key's last twelve bytes stand for. An error, never a slice panic: a
/// wrong-length key only occurs through corruption or a hand-edited file, exactly
/// when the node should report rather than abort.
pub fn pos_from_key(suffix: &[u8]) -> (r: Result<Position, Error>)
    ensures
        suffix@.len() == 12 ==> r == Ok::<Position, Error>(position_of(suffix@)),
        suffix@.len() != 12 ==> r == Err::<Position, Error>(
            Error::PositionKey(suffix@.len() as usize),
        ),
{
    if suffix.len() != 12 {
        return Err(Error::PositionKey(suffix.len()));
    }
    proof {
        lemma_position_of(suffix@);
    }
    let block_num: u64 = read_be(vstd::slice::slice_subrange(suffix, 0, 8));
    let tx_index: u64 = read_be(vstd::slice::slice_subrange(suffix, 8, 12));
    Ok(Position::new(block_num, tx_index as u32))
}

/// The key of a secondary entry.
pub fn sec_key(prefix: &[u8], pos: Position) -> (r: Vec<u8>)
    ensures
        r@ == entry_key(prefix@, pos),
{
    let mut k: Vec<u8> = Vec::with_capacity(prefix.len());
    append(&mut k, prefix);
    push_be(&mut k, pos.block_num, 8);
    push_be(&mut k, pos.tx_index as u64, 4);
    assert(k@ =~= entry_key(prefix@, pos));
    k
}

// ---- what keys and names look like

/// A position's key is its block in eight bytes and its index in four, most significant first; an
/// entry's key is its prefix and that.
pub proof fn keys_show_the_position(
    pos: Position,
    key: Vec<u8>,
    prefix: &[u8],
    entry: Vec<u8>,
    i: int,
)
    requires
        call_ensures(pos_key, (pos,), key),
        call_ensures(sec_key, (prefix, pos), entry),
    ensures
        key@.len() == 12,
        0 <= i < 8 ==> key@[i] == (pos.block_num as int / pow(256, (7 - i) as nat)) % 256,
        0 <= i < 4 ==> key@[8 + i] == (pos.tx_index as int / pow(256, (3 - i) as nat)) % 256,
        entry@ == prefix@ + key@,
{
    lemma_be_u64(0, pos.block_num);
    lemma_be_u32(0, pos.tx_index);
    if 0 <= i < 8 {
        numbers_are_written_big_endian(pos.block_num as nat, 8, i);
    }
    if 0 <= i < 4 {
        numbers_are_written_big_endian(pos.tx_index as nat, 4, i);
    }
}

/// A position reads back from its key; every twelve bytes are the key of the position that is read
/// from them, and nothing of another length is read as one.
pub proof fn positions_read_back_from_their_keys(
    pos: Position,
    key: Vec<u8>,
    suffix: &[u8],
    read: Result<Position, Error>,
)
    requires
        call_ensures(pos_key, (pos,), key),
        call_ensures(pos_from_key, (suffix,), read),
    ensures
        read is Ok <==> suffix@.len() == 12,
        read is Ok ==> (read->Ok_0 == pos <==> suffix@ == key@),
        read is Err ==> read->Err_0 == Error::PositionKey(suffix@.len() as usize),
{
    lemma_position_key(pos);
    if suffix@.len() == 12 {
        lemma_position_of(suffix@);
    }
}

/// The keyspaces go by their names, and are created in the order of the layout.
pub proof fn keyspaces_go_by_their_names(
    keyspace: Keyspace,
    name: &'static str,
    created: [Keyspace; 7],
)
    requires
        call_ensures(Keyspace::name, (keyspace,), name),
        call_ensures(Keyspace::created, (), created),
    ensures
        keyspace is Primary ==> name@ == "primary"@,
        keyspace is From ==> name@ == "from"@,
        keyspace is To ==> name@ == "to"@,
        keyspace is Type ==> name@ == "type"@,
        keyspace is FeeToken ==> name@ == "fee_token"@,
        keyspace is FeePayer ==> name@ == "fee_payer"@,
        keyspace is Count ==> name@ == "count"@,
        keyspace is Meta ==> name@ == "default"@,
        created@[0] is Primary,
        created@[1] is From,
        created@[2] is To,
        created@[3] is Type,
        created@[4] is FeeToken,
        created@[5] is FeePayer,
        created@[6] is Count,
{
}

/// The counters of a column go by its keyspace's name; those that no keyspace has go by names of
/// their own.
pub proof fn kinds_go_by_their_names(
    kind: Kind,
    name: &'static str,
    keyspace: Keyspace,
    of: Kind,
    column: &'static str,
    own: &'static str,
)
    requires
        call_ensures(Kind::name, (kind,), name),
        call_ensures(Kind::of, (keyspace,), of),
        call_ensures(Kind::name, (of,), own),
        call_ensures(Keyspace::name, (keyspace,), column),
    ensures
        kind is From ==> name@ == "from"@,
        kind is To ==> name@ == "to"@,
        kind is Type ==> name@ == "type"@,
        kind is FeeToken ==> name@ == "fee_token"@,
        kind is FeePayer ==> name@ == "fee_payer"@,
        kind is Address ==> name@ == "addr"@,
        kind is Total ==> name@ == "all"@,
        is_secondary(keyspace) ==> own@ == column@ && !(of is Address) && !(of is Total),
        is_secondary(keyspace) <==> keyspace is From || keyspace is To || keyspace is Type
            || keyspace is FeeToken || keyspace is FeePayer,
        of is From <==> keyspace is From,
        of is To <==> keyspace is To,
        of is Type <==> keyspace is Type,
        of is FeeToken <==> keyspace is FeeToken,
        of is FeePayer <==> keyspace is FeePayer,
{
}

} // verus!
