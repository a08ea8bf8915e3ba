//! Where a transaction stands in the chain, and the cursor that names the place.

use vstd::arithmetic::power::pow;
use vstd::prelude::*;
use vstd::string::*;

use crate::decimal::{all_digits, ascii, digits_value, is_digit, lemma_digits_are_padded,
    lemma_padded, lemma_padded_round_trip, padded, padded_text_shows_each_digit, parse_digits,
    push_padded};
use crate::lex::{lemma_lex_asymmetric, lemma_lex_prefix, lemma_numeral_order, lex_lt, numeral,
    parts_at};

verus! {

/// Ordering direction for a query.
#[derive(Clone, Copy, Debug, PartialEq, Eq, Structural)]
pub enum Order {
    Ascending,
    Descending,
}

impl Default for Order {
    /// Newest first.
    fn default() -> (r: Self)
        ensures
            r == Order::Descending,
    {
        Order::Descending
    }
}

/// A transaction's position in the chain. Doubles as the pagination cursor.
///
/// `tx_index` is `u32` because that is what the key format stores.
#[derive(Clone, Copy, Debug, PartialEq, Eq, Structural, PartialOrd, Ord)]
pub struct Position {
    pub block_num: u64,
    pub tx_index: u32,
}

/// `a` stands earlier in the chain than `b`.
pub open spec fn earlier(a: Position, b: Position) -> bool {
    a.block_num < b.block_num || (a.block_num == b.block_num && a.tx_index < b.tx_index)
}

/// A walk in the given direction meets `a` before `b`.
pub open spec fn before(order: Order, a: Position, b: Position) -> bool {
    match order {
        Order::Ascending => earlier(a, b),
        Order::Descending => earlier(b, a),
    }
}

/// The text of a cursor: block and index, zero-padded to the widest they can be.
pub open spec fn cursor_text(pos: Position) -> Seq<char> {
    padded(pos.block_num as nat, 20) + seq![':'] + padded(pos.tx_index as nat, 10)
}

/// The position that a text names as a cursor: the one it is the cursor of, and none where it is
/// the cursor of none.
pub open spec fn cursor_position(text: Seq<char>) -> Option<Position> {
    if exists|p: Position| #[trigger] cursor_text(p) == text {
        Some(choose|p: Position| #[trigger] cursor_text(p) == text)
    } else {
        None
    }
}

impl Position {
    pub fn new(block_num: u64, tx_index: u32) -> (r: Self)
        ensures
            r == (Position { block_num, tx_index }),
    {
        Self { block_num, tx_index }
    }

    /// Zero-padded so cursors sort lexicographically too, keeping them opaque strings
    /// that clients never have to parse.
    pub fn encode(&self) -> (r: String)
        ensures
            r@ == cursor_text(*self),
    {
        let mut out: String = String::new();
        push_padded(&mut out, self.block_num, 20);
        out.append(":");
        push_padded(&mut out, self.tx_index as u64, 10);
        proof {
            reveal_strlit(":");
        }
        assert(out@ =~= cursor_text(*self));
        out
    }

    /// Parse a cursor from [`Self::encode`]; `None` on anything else, so a malformed
    /// cursor is an error rather than a silently different page.
    pub fn decode(cursor: &str) -> (r: Option<Self>)
        ensures
            r == cursor_position(cursor@),
    {
        let ghost text = cursor@;
        if !cursor.is_ascii() {
            proof {
                assert forall|p: Position| #[trigger] cursor_text(p) != text by {
                    lemma_cursor_shape(p);
                }
            }
            return None;
        }
        let bytes: &[u8] = cursor.as_bytes();
        proof {
            is_ascii_spec_bytes(cursor);
            assert(bytes@.len() == text.len());
            assert forall|p: Position| #[trigger] cursor_text(p) == text implies text.len() == 31
                && bytes@[20] == 58 && all_digits(text.subrange(0, 20)) && digits_value(
                text.subrange(0, 20),
            ) == p.block_num && all_digits(text.subrange(21, 31)) && digits_value(
                text.subrange(21, 31),
            ) == p.tx_index by {
                lemma_cursor_shape(p);
            }
        }
        if bytes.len() != 31 || bytes[20] != 58 {
            return None;
        }
        let block: u64 = match parse_digits(bytes, 0, 20, u64::MAX, Ghost(text)) {
            Some(n) => n,
            None => return None,
        };
        let index: u64 = match parse_digits(bytes, 21, 31, u32::MAX as u64, Ghost(text)) {
            Some(n) => n,
            None => return None,
        };
        let pos: Position = Self { block_num: block, tx_index: index as u32 };
        proof {
            lemma_digits_are_padded(text.subrange(0, 20));
            lemma_digits_are_padded(text.subrange(21, 31));
            assert(text[20] == ':');
            assert(cursor_text(pos) =~= text);
            cursor_round_trips(pos);
        }
        Some(pos)
    }

    /// Whether a walk in the given direction meets `self` before `other`.
    pub fn is_before(self, other: Position, order: Order) -> (r: bool)
        ensures
            r == before(order, self, other),
    {
        let (a, b): (Position, Position) = match order {
            Order::Ascending => (self, other),
            Order::Descending => (other, self),
        };
        a.block_num < b.block_num || (a.block_num == b.block_num && a.tx_index < b.tx_index)
    }
}

/// A cursor is twenty digits, a colon and ten digits, which stand for the block and the index.
pub proof fn lemma_cursor_shape(pos: Position)
    ensures
        ({
            let text = cursor_text(pos);
            &&& text.len() == 31
            &&& text[20] == ':'
            &&& vstd::utf8::is_ascii_chars(text)
            &&& all_digits(text.subrange(0, 20))
            &&& digits_value(text.subrange(0, 20)) == pos.block_num
            &&& all_digits(text.subrange(21, 31))
            &&& digits_value(text.subrange(21, 31)) == pos.tx_index
        }),
{
    let text = cursor_text(pos);
    let a = padded(pos.block_num as nat, 20);
    let b = padded(pos.tx_index as nat, 10);
    lemma_decimal_widths();
    lemma_padded(pos.block_num as nat, 20);
    lemma_padded(pos.tx_index as nat, 10);
    lemma_padded_round_trip(pos.block_num as nat, 20);
    lemma_padded_round_trip(pos.tx_index as nat, 10);
    assert(text.subrange(0, 20) =~= a);
    assert(text.subrange(21, 31) =~= b);
    assert forall|j: int| 0 <= j < text.len() implies 0 <= #[trigger] text[j] as int <= 127 by {
        if j < 20 {
            assert(is_digit(a[j]));
        } else if j > 20 {
            assert(is_digit(b[j - 21]));
        }
    }
}

/// An inclusive window of block heights, either end open.
///
/// Heights rather than positions: a caller asking for "blocks 1000 to 2000" means whole
/// blocks, and the cursor is already the way to resume mid-block.
#[derive(Clone, Copy, Debug, PartialEq, Eq, Structural)]
pub struct BlockRange {
    pub min: Option<u64>,
    pub max: Option<u64>,
}

impl BlockRange {
    pub fn new(min: Option<u64>, max: Option<u64>) -> (r: Self)
        ensures
            r == (BlockRange { min, max }),
    {
        Self { min, max }
    }

    /// Whether the window holds a height.
    pub open spec fn holds(self, block_num: u64) -> bool {
        &&& self.min is Some ==> self.min->0 <= block_num
        &&& self.max is Some ==> block_num <= self.max->0
    }
}

impl Default for BlockRange {
    /// Every height.
    fn default() -> (r: Self)
        ensures
            r == (BlockRange { min: None, max: None }),
    {
        Self { min: None, max: None }
    }
}

proof fn lemma_decimal_widths()
    ensures
        pow(10, 10) == 10_000_000_000,
        pow(10, 20) == 100_000_000_000_000_000_000,
{
    reveal(pow);
    reveal_with_fuel(pow, 11);
    assert(pow(10, 5) == 100_000);
    assert(pow(10, 10) == 10_000_000_000);
    vstd::arithmetic::power::lemma_pow_adds(10, 10, 10);
}

/// A cursor names the position it was made from, and no two positions share one.
pub proof fn cursor_round_trips(pos: Position)
    ensures
        cursor_position(cursor_text(pos)) == Some(pos),
{
    let text = cursor_text(pos);
    let named = choose|p: Position| #[trigger] cursor_text(p) == text;
    lemma_cursor_shape(pos);
    lemma_cursor_shape(named);
}

/// A text that names a position is its cursor: nothing else is taken for one.
pub proof fn only_cursors_name_positions(text: Seq<char>, pos: Position)
    ensures
        cursor_position(text) == Some(pos) <==> text == cursor_text(pos),
{
    cursor_round_trips(pos);
}

/// Cursors sort, byte by byte, as the positions they name do.
pub proof fn cursors_sort_as_positions(p: Position, q: Position)
    ensures
        earlier(p, q) <==> lex_lt(ascii(cursor_text(p)), ascii(cursor_text(q))),
{
    if earlier(p, q) {
        lemma_cursor_order(p, q);
    } else if earlier(q, p) {
        lemma_cursor_order(q, p);
        lemma_lex_asymmetric(ascii(cursor_text(q)), ascii(cursor_text(p)));
    } else {
        assert(p == q);
        let t = ascii(cursor_text(p));
        if lex_lt(t, t) {
            lemma_lex_asymmetric(t, t);
        }
    }
}

proof fn lemma_cursor_order(p: Position, q: Position)
    requires
        earlier(p, q),
    ensures
        lex_lt(ascii(cursor_text(p)), ascii(cursor_text(q))),
{
    let a = numeral(p.block_num as nat, 20, 10, 48);
    let b = numeral(q.block_num as nat, 20, 10, 48);
    let x = numeral(p.tx_index as nat, 10, 10, 48);
    let y = numeral(q.tx_index as nat, 10, 10, 48);
    lemma_decimal_widths();
    lemma_padded(p.block_num as nat, 20);
    lemma_padded(q.block_num as nat, 20);
    lemma_padded(p.tx_index as nat, 10);
    lemma_padded(q.tx_index as nat, 10);
    let s = ascii(cursor_text(p));
    let t = ascii(cursor_text(q));
    assert(s =~= a + seq![58u8] + x) by {
        assert forall|j: int| 0 <= j < s.len() implies s[j] == (a + seq![58u8] + x)[j] by {
            if j < 20 {
                assert(ascii(padded(p.block_num as nat, 20))[j] == a[j]);
            } else if j > 20 {
                assert(ascii(padded(p.tx_index as nat, 10))[j - 21] == x[j - 21]);
            }
        }
    }
    assert(t =~= b + seq![58u8] + y) by {
        assert forall|j: int| 0 <= j < t.len() implies t[j] == (b + seq![58u8] + y)[j] by {
            if j < 20 {
                assert(ascii(padded(q.block_num as nat, 20))[j] == b[j]);
            } else if j > 20 {
                assert(ascii(padded(q.tx_index as nat, 10))[j - 21] == y[j - 21]);
            }
        }
    }
    if p.block_num < q.block_num {
        lemma_numeral_order(p.block_num as nat, q.block_num as nat, 20, 10, 48);
        let i = choose|i: int| #[trigger] parts_at(a, b, i);
        assert(parts_at(s, t, i));
    } else {
        lemma_numeral_order(p.tx_index as nat, q.tx_index as nat, 10, 10, 48);
        lemma_lex_prefix(a + seq![58u8], x, y);
    }
}

// ---- the order of the chain

/// Positions stand in the chain by block, and by index within a block: as one number would that
/// has the block above and the index below.
pub proof fn positions_stand_by_block_and_index(a: Position, b: Position)
    ensures
        earlier(a, b) <==> a.block_num * 0x1_0000_0000 + a.tx_index < b.block_num * 0x1_0000_0000
            + b.tx_index,
        before(Order::Ascending, a, b) <==> earlier(a, b),
        before(Order::Descending, a, b) <==> earlier(b, a),
        a == b <==> !earlier(a, b) && !earlier(b, a),
{
}

/// A walk meets the lower position first, and one in the other direction the higher.
pub proof fn a_walk_meets_positions_in_its_order(a: Position, b: Position, order: Order, r: bool)
    requires
        call_ensures(Position::is_before, (a, b, order), r),
    ensures
        r <==> match order {
            Order::Ascending => a.block_num * 0x1_0000_0000 + a.tx_index < b.block_num
                * 0x1_0000_0000 + b.tx_index,
            Order::Descending => b.block_num * 0x1_0000_0000 + b.tx_index < a.block_num
                * 0x1_0000_0000 + a.tx_index,
        },
{
}

/// A window of heights holds those from its lower end to its upper, both of them included; an open
/// end bounds nothing.
pub proof fn a_range_holds_both_its_ends(range: BlockRange, block_num: u64)
    ensures
        range.holds(block_num) <==> {
            let low = match range.min {
                Some(min) => min,
                None => 0,
            };
            let high = match range.max {
                Some(max) => max,
                None => u64::MAX,
            };
            low <= block_num <= high
        },
{
}

/// Positions and windows are what they are made of; by default a window holds every height, and
/// the newest comes first.
pub proof fn positions_and_ranges_are_what_they_are_made_of(
    block_num: u64,
    tx_index: u32,
    pos: Position,
    min: Option<u64>,
    max: Option<u64>,
    range: BlockRange,
    every: BlockRange,
    order: Order,
)
    requires
        call_ensures(Position::new, (block_num, tx_index), pos),
        call_ensures(BlockRange::new, (min, max), range),
        call_ensures(<BlockRange as Default>::default, (), every),
        call_ensures(<Order as Default>::default, (), order),
    ensures
        pos.block_num == block_num,
        pos.tx_index == tx_index,
        range.min == min,
        range.max == max,
        forall|height: u64| #[trigger] every.holds(height),
        forall|a: Position, b: Position| #[trigger] before(order, a, b) <==> earlier(b, a),
{
}

// ---- cursors

/// A cursor is the block in twenty digits, a colon, and the index in ten: each digit in its place.
pub proof fn a_cursor_shows_the_position(pos: &Position, r: String, i: int)
    requires
        call_ensures(Position::encode, (pos,), r),
    ensures
        r@.len() == 31,
        r@[20] == ':',
        0 <= i < 20 ==> r@[i] as int == 48 + (pos.block_num as int / pow(10, (19 - i) as nat)) % 10,
        0 <= i < 10 ==> r@[21 + i] as int == 48 + (pos.tx_index as int / pow(10, (9 - i) as nat))
            % 10,
{
    lemma_padded(pos.block_num as nat, 20);
    lemma_padded(pos.tx_index as nat, 10);
    if 0 <= i < 20 {
        padded_text_shows_each_digit(pos.block_num as nat, 20, i);
    }
    if 0 <= i < 10 {
        padded_text_shows_each_digit(pos.tx_index as nat, 10, i);
    }
}

/// A cursor reads back as the position it was made from, and nothing else does.
pub proof fn a_cursor_reads_back(pos: &Position, made: String, text: &str, read: Option<Position>)
    requires
        call_ensures(Position::encode, (pos,), made),
        call_ensures(Position::decode, (text,), read),
    ensures
        read == Some(*pos) <==> text@ == made@,
{
    only_cursors_name_positions(text@, *pos);
}

} // verus!
