//! Walking one keyspace: where a walk starts, which entries it yields, where it ends.

use vstd::prelude::*;
use vstd::slice::slice_subrange;

use crate::bytes::{begins_with, copied};
use crate::error::Error;
use crate::layout::{entry_key, keys_sort_as_positions, lemma_entry_key, lemma_position_of,
    lemma_position_key, pos_from_key, pos_key, position_key, position_of, sec_key, Keyspace};
use crate::lex::{lemma_lex_asymmetric, lemma_lex_transitive, lemma_prefix_contiguous, lex_lt,
    starts_with, what_begins_with_a_prefix_goes_on_from_it};
use crate::position::{before, earlier, BlockRange, Order, Position};
use crate::store::Contents;

verus! {

/// What every walk of a query shares: the cursor, the range of blocks and the direction.
#[derive(Clone, Copy, Debug, PartialEq, Eq, Structural)]
pub struct Window {
    /// Where to go on from; exclusive, and read in the order's direction.
    pub after: Option<Position>,
    pub blocks: BlockRange,
    pub order: Order,
}

impl Window {
    /// Whether the window holds a position: in the range, and past the cursor.
    pub open spec fn holds(self, p: Position) -> bool {
        &&& self.blocks.holds(p.block_num)
        &&& self.after is Some ==> before(self.order, self.after->0, p)
    }

    /// Where the range alone would start a walk.
    pub open spec fn near_end(self) -> Position {
        match self.order {
            Order::Ascending => Position {
                block_num: match self.blocks.min {
                    Some(min) => min,
                    None => 0,
                },
                tx_index: 0,
            },
            Order::Descending => Position {
                block_num: match self.blocks.max {
                    Some(max) => max,
                    None => u64::MAX,
                },
                tx_index: u32::MAX,
            },
        }
    }

    /// Where a walk starts: at the cursor or where the range does, the tighter of the two.
    pub open spec fn first(self) -> Position {
        match self.after {
            Some(pos) => if before(self.order, self.near_end(), pos) {
                pos
            } else {
                self.near_end()
            },
            None => self.near_end(),
        }
    }

    /// Whether a position lies past the far end of the range.
    pub open spec fn is_past(self, p: Position) -> bool {
        match self.order {
            Order::Ascending => self.blocks.max is Some && p.block_num > self.blocks.max->0,
            Order::Descending => self.blocks.min is Some && p.block_num < self.blocks.min->0,
        }
    }

    /// Where the range alone would start a walk: unbounded, the extreme position,
    /// whose key is the same all-zero or all-`0xFF` seek an unbounded walk makes.
    fn opening(&self) -> (r: Position)
        ensures
            r == self.near_end(),
    {
        match self.order {
            Order::Ascending => Position::new(
                match self.blocks.min {
                    Some(min) => min,
                    None => 0,
                },
                0,
            ),
            Order::Descending => Position::new(
                match self.blocks.max {
                    Some(max) => max,
                    None => u64::MAX,
                },
                u32::MAX,
            ),
        }
    }

    /// Where a walk starts.
    ///
    /// The cursor and the range both say where to begin, and the tighter one wins:
    /// only the cursor, and a resumed page walks out of the range; only the range,
    /// and rows the cursor already returned are replayed.
    pub fn start(&self) -> (r: Position)
        ensures
            r == self.first(),
    {
        let opening: Position = self.opening();
        match self.after {
            Some(pos) => if opening.is_before(pos, self.order) {
                pos
            } else {
                opening
            },
            None => opening,
        }
    }

    /// Whether a position lies past the far end of the range. The near end needs no test: it is
    /// where a walk starts.
    pub fn past_stop(&self, pos: Position) -> (r: bool)
        ensures
            r == self.is_past(pos),
    {
        match self.order {
            Order::Ascending => match self.blocks.max {
                Some(stop) => pos.block_num > stop,
                None => false,
            },
            Order::Descending => match self.blocks.min {
                Some(stop) => pos.block_num < stop,
                None => false,
            },
        }
    }
}

/// A directional walk over the entries of one keyspace under one prefix.
#[derive(Debug, PartialEq, Eq)]
pub struct KeyScan {
    pub keyspace: Keyspace,
    pub prefix: Vec<u8>,
}

/// A walk as a mathematical value.
#[verifier::ext_equal]
pub struct Walk {
    pub keyspace: Keyspace,
    pub prefix: Seq<u8>,
}

impl View for KeyScan {
    type V = Walk;

    open spec fn view(&self) -> Walk {
        Walk { keyspace: self.keyspace, prefix: self.prefix@ }
    }
}

/// What an entry means to a walk.
#[derive(Clone, Copy, Debug, PartialEq, Eq, Structural)]
pub enum Reading {
    /// The walk is over.
    End,
    /// The cursor's own entry, passed over so that the cursor is exclusive.
    Skip,
    /// The walk yields this position.
    At(Position),
}

/// What an entry means to a walk: `None` where there are no more entries.
pub open spec fn reading(walk: Walk, window: Window, key: Option<Seq<u8>>) -> Result<
    Reading,
    Error,
> {
    match key {
        None => Ok(Reading::End),
        Some(k) => if !starts_with(k, walk.prefix) {
            Ok(Reading::End)
        } else {
            let suffix = k.skip(walk.prefix.len() as int);
            if suffix.len() != 12 {
                Err(Error::PositionKey(suffix.len() as usize))
            } else if window.after == Some(position_of(suffix)) {
                Ok(Reading::Skip)
            } else if window.is_past(position_of(suffix)) {
                Ok(Reading::End)
            } else {
                Ok(Reading::At(position_of(suffix)))
            }
        },
    }
}

impl KeyScan {
    /// A walk over a keyspace's entries under a prefix.
    pub fn new(keyspace: Keyspace, prefix: &[u8]) -> (r: KeyScan)
        ensures
            r@ == (Walk { keyspace, prefix: prefix@ }),
    {
        KeyScan { keyspace, prefix: copied(prefix) }
    }

    /// The key of the walk's entry at a position.
    pub fn key_at(&self, pos: Position) -> (r: Vec<u8>)
        ensures
            r@ == entry_key(self@.prefix, pos),
    {
        sec_key(self.prefix.as_slice(), pos)
    }

    /// What the next entry means to the walk: `None` where there are no more entries.
    pub fn next_entry(&self, window: &Window, key: Option<&[u8]>) -> (r: Result<Reading, Error>)
        ensures
            r == reading(
                self@,
                *window,
                match key {
                    Some(k) => Some(k@),
                    None => None,
                },
            ),
    {
        let key: &[u8] = match key {
            Some(key) => key,
            None => return Ok(Reading::End),
        };
        if !begins_with(key, self.prefix.as_slice()) {
            return Ok(Reading::End);
        }
        let suffix: &[u8] = slice_subrange(key, self.prefix.len(), key.len());
        assert(suffix@ =~= key@.skip(self.prefix@.len() as int));
        let pos: Position = match pos_from_key(suffix) {
            Ok(pos) => pos,
            Err(e) => return Err(e),
        };
        if let Some(after) = window.after {
            if after == pos {
                return Ok(Reading::Skip);
            }
        }
        // Past the far end of the range; every later key is further past it,
        // so the walk is over.
        if window.past_stop(pos) {
            return Ok(Reading::End);
        }
        Ok(Reading::At(pos))
    }
}

// ---- what the store answers

/// A walk in the given direction meets key `a` before key `b`.
pub open spec fn key_before(order: Order, a: Seq<u8>, b: Seq<u8>) -> bool {
    match order {
        Order::Ascending => lex_lt(a, b),
        Order::Descending => lex_lt(b, a),
    }
}

/// Whether an iterator that stands at `bound` has a key ahead of it: at it or past it, or only
/// past it.
pub open spec fn ahead(order: Order, bound: Seq<u8>, inclusive: bool, key: Seq<u8>) -> bool {
    key_before(order, bound, key) || (inclusive && key == bound)
}

/// `got` is the first key of a keyspace that an iterator has ahead of it.
pub open spec fn found(
    m: Contents,
    keyspace: Keyspace,
    order: Order,
    bound: Seq<u8>,
    inclusive: bool,
    got: Option<Seq<u8>>,
) -> bool {
    match got {
        None => forall|k: Seq<u8>| #[trigger]
            m.contains_key((keyspace, k)) ==> !ahead(order, bound, inclusive, k),
        Some(key) => {
            &&& m.contains_key((keyspace, key))
            &&& ahead(order, bound, inclusive, key)
            &&& forall|k: Seq<u8>| #[trigger]
                m.contains_key((keyspace, k)) && ahead(order, bound, inclusive, k) ==> k == key
                    || key_before(order, key, k)
        },
    }
}

/// Whether a walk yields a position: its entry is there, and the window holds it.
pub open spec fn yields(m: Contents, walk: Walk, window: Window, p: Position) -> bool {
    window.holds(p) && m.contains_key((walk.keyspace, entry_key(walk.prefix, p)))
}

/// Whether `p` is ahead of an iterator that stands at `q`.
pub open spec fn remains(order: Order, q: Position, inclusive: bool, p: Position) -> bool {
    before(order, q, p) || (inclusive && p == q)
}

/// What lies ahead of a walk's iterator, in keys, is what lies ahead of it in positions.
proof fn lemma_ahead(order: Order, prefix: Seq<u8>, q: Position, inclusive: bool, p: Position)
    ensures
        ahead(order, entry_key(prefix, q), inclusive, entry_key(prefix, p)) <==> remains(
            order,
            q,
            inclusive,
            p,
        ),
        key_before(order, entry_key(prefix, q), entry_key(prefix, p)) <==> before(order, q, p),
{
    keys_sort_as_positions(prefix, q, p);
    keys_sort_as_positions(prefix, p, q);
}

/// A key under a prefix, with a position behind it, is the entry at that position.
proof fn lemma_key_parts(prefix: Seq<u8>, key: Seq<u8>)
    requires
        starts_with(key, prefix),
        key.skip(prefix.len() as int).len() == 12,
    ensures
        key == entry_key(prefix, position_of(key.skip(prefix.len() as int))),
{
    lemma_position_of(key.skip(prefix.len() as int));
    assert(key =~= prefix + key.skip(prefix.len() as int));
}

/// What a walk's iterator found: where the walk ends, nothing that it yields lies ahead; where it
/// yields a position, that is the first that lies ahead; and where it passes over the cursor's
/// own entry, everything that it yields lies beyond that.
pub proof fn lemma_reading(
    m: Contents,
    walk: Walk,
    window: Window,
    q: Position,
    inclusive: bool,
    got: Option<Seq<u8>>,
)
    requires
        found(m, walk.keyspace, window.order, entry_key(walk.prefix, q), inclusive, got),
        !before(window.order, q, window.first()),
    ensures
        match reading(walk, window, got) {
            Err(_) => true,
            Ok(Reading::End) => forall|p: Position| #[trigger]
                yields(m, walk, window, p) ==> !remains(window.order, q, inclusive, p),
            Ok(Reading::Skip) => {
                &&& window.after is Some
                &&& remains(window.order, q, inclusive, window.after->0)
                &&& !before(window.order, window.after->0, window.first())
                &&& forall|p: Position| #[trigger]
                    yields(m, walk, window, p) ==> before(window.order, window.after->0, p)
            },
            Ok(Reading::At(pos)) => {
                &&& yields(m, walk, window, pos)
                &&& remains(window.order, q, inclusive, pos)
                &&& !before(window.order, pos, window.first())
                &&& forall|p: Position| #[trigger]
                    yields(m, walk, window, p) && remains(window.order, q, inclusive, p) ==> !before(
                        window.order,
                        p,
                        pos,
                    )
            },
        },
{
    let order = window.order;
    let prefix = walk.prefix;
    let bound = entry_key(prefix, q);
    lemma_entry_key(prefix, q);
    assert forall|p: Position| #[trigger] yields(m, walk, window, p) && remains(
        order,
        q,
        inclusive,
        p,
    ) implies got is Some && (entry_key(prefix, p) == got->0 || key_before(
        order,
        got->0,
        entry_key(prefix, p),
    )) by {
        lemma_ahead(order, prefix, q, inclusive, p);
    }
    if got is Some {
        let key = got->0;
        if !starts_with(key, prefix) {
            assert forall|p: Position| #[trigger] yields(m, walk, window, p) implies !remains(
                order,
                q,
                inclusive,
                p,
            ) by {
                if remains(order, q, inclusive, p) {
                    let k = entry_key(prefix, p);
                    lemma_entry_key(prefix, p);
                    if order is Ascending {
                        lemma_prefix_contiguous(prefix, bound, key, k);
                    } else {
                        lemma_prefix_contiguous(prefix, k, key, bound);
                    }
                }
            }
        } else if key.skip(prefix.len() as int).len() == 12 {
            let pos = position_of(key.skip(prefix.len() as int));
            lemma_key_parts(prefix, key);
            lemma_ahead(order, prefix, q, inclusive, pos);
            assert forall|p: Position| #[trigger] yields(m, walk, window, p) && remains(
                order,
                q,
                inclusive,
                p,
            ) implies !before(order, p, pos) by {
                lemma_ahead(order, prefix, pos, false, p);
                keys_sort_as_positions(prefix, p, pos);
            }
        }
    }
}

/// The entry that a walk yields, or passes over, is the one at the position it is read as.
pub proof fn lemma_key_of(walk: Walk, window: Window, key: Seq<u8>)
    ensures
        reading(walk, window, Some(key)) matches Ok(Reading::At(pos)) ==> key == entry_key(
            walk.prefix,
            pos,
        ),
        reading(walk, window, Some(key)) matches Ok(Reading::Skip) ==> window.after is Some && key
            == entry_key(walk.prefix, window.after->0),
{
    if starts_with(key, walk.prefix) && key.skip(walk.prefix.len() as int).len() == 12 {
        lemma_key_parts(walk.prefix, key);
    }
}

/// The places of a walk's keyspace that lie past a position.
pub open spec fn past_places(m: Contents, walk: Walk, order: Order, q: Position) -> Set<
    (Keyspace, Seq<u8>),
> {
    m.dom().filter(
        |place: (Keyspace, Seq<u8>)|
            place.0 == walk.keyspace && key_before(order, entry_key(walk.prefix, q), place.1),
    )
}

/// There is less past a position that comes later.
pub proof fn lemma_past_places(m: Contents, walk: Walk, order: Order, q: Position, p: Position)
    requires
        m.dom().finite(),
    ensures
        past_places(m, walk, order, q).len() <= m.dom().len(),
        before(order, q, p) && m.contains_key((walk.keyspace, entry_key(walk.prefix, p)))
            ==> past_places(m, walk, order, p).len() < past_places(m, walk, order, q).len(),
{
    let a = past_places(m, walk, order, q);
    let b = past_places(m, walk, order, p);
    vstd::set_lib::lemma_len_subset(a, m.dom());
    vstd::set_lib::lemma_len_subset(b, m.dom());
    let place = (walk.keyspace, entry_key(walk.prefix, p));
    if before(order, q, p) && m.contains_key(place) {
        let x = entry_key(walk.prefix, q);
        let y = entry_key(walk.prefix, p);
        lemma_ahead(order, walk.prefix, q, false, p);
        assert(a.contains(place));
        assert forall|at: (Keyspace, Seq<u8>)| b.contains(at) implies #[trigger] a.remove(
            place,
        ).contains(at) by {
            if order is Ascending {
                lemma_lex_transitive(x, y, at.1);
            } else {
                lemma_lex_transitive(at.1, y, x);
            }
            if at.1 == y {
                lemma_lex_asymmetric(y, y);
            }
        }
        vstd::set_lib::lemma_len_subset(b, a.remove(place));
    }
}

/// Nothing that a walk yields lies before the place where it starts.
pub proof fn lemma_first(window: Window, p: Position)
    requires
        window.holds(p),
    ensures
        remains(window.order, window.first(), true, p),
        !before(window.order, p, window.first()),
{
}

// ---- what a walk is asked, and what it makes of the answer

/// An iterator hands back the nearest key of its keyspace in its direction: the lowest at or above
/// where it stands going up, the highest at or below going down, and past it where it has been
/// there already. It hands back none exactly where there is none.
pub proof fn an_iterator_finds_the_nearest_key(
    m: Contents,
    keyspace: Keyspace,
    bound: Seq<u8>,
    inclusive: bool,
    key: Seq<u8>,
)
    ensures
        found(m, keyspace, Order::Ascending, bound, inclusive, None) <==> forall|k: Seq<u8>|
            #[trigger]
            m.contains_key((keyspace, k)) ==> !lex_lt(bound, k) && !(inclusive && k == bound),
        found(m, keyspace, Order::Descending, bound, inclusive, None) <==> forall|k: Seq<u8>|
            #[trigger]
            m.contains_key((keyspace, k)) ==> !lex_lt(k, bound) && !(inclusive && k == bound),
        found(m, keyspace, Order::Ascending, bound, inclusive, Some(key)) <==> {
            &&& m.contains_key((keyspace, key))
            &&& lex_lt(bound, key) || (inclusive && key == bound)
            &&& forall|k: Seq<u8>| #[trigger]
                m.contains_key((keyspace, k)) && (lex_lt(bound, k) || (inclusive && k == bound))
                    ==> k == key || lex_lt(key, k)
        },
        found(m, keyspace, Order::Descending, bound, inclusive, Some(key)) <==> {
            &&& m.contains_key((keyspace, key))
            &&& lex_lt(key, bound) || (inclusive && key == bound)
            &&& forall|k: Seq<u8>| #[trigger]
                m.contains_key((keyspace, k)) && (lex_lt(k, bound) || (inclusive && k == bound))
                    ==> k == key || lex_lt(k, key)
        },
{
}

/// A window holds what lies in its heights and past its cursor, and a walk yields what the window
/// holds and the store has an entry for.
pub proof fn a_window_holds_what_lies_past_its_cursor(
    m: Contents,
    walk: Walk,
    window: Window,
    p: Position,
)
    ensures
        window.holds(p) <==> {
            &&& window.blocks.min is Some ==> window.blocks.min->0 <= p.block_num
            &&& window.blocks.max is Some ==> p.block_num <= window.blocks.max->0
            &&& window.after is Some && window.order is Ascending ==> earlier(window.after->0, p)
            &&& window.after is Some && window.order is Descending ==> earlier(p, window.after->0)
        },
        yields(m, walk, window, p) <==> window.holds(p) && m.contains_key(
            (walk.keyspace, walk.prefix + position_key(p)),
        ),
{
}

/// A walk starts where the window does: at the end of its heights, or at the cursor where that is
/// further on. Nothing that the window holds lies before it.
pub proof fn a_walk_starts_where_its_window_does(
    window: &Window,
    r: Position,
    pos: Position,
    past: bool,
)
    requires
        call_ensures(Window::start, (window,), r),
        call_ensures(Window::past_stop, (window, pos), past),
    ensures
        window.holds(pos) ==> pos == r || before(window.order, r, pos),
        window.after is None && window.order is Ascending ==> r.tx_index == 0 && r.block_num == (
        if window.blocks.min is Some {
            window.blocks.min->0
        } else {
            0
        }),
        window.after is None && window.order is Descending ==> r.tx_index == u32::MAX
            && r.block_num == (if window.blocks.max is Some {
            window.blocks.max->0
        } else {
            u64::MAX
        }),
        window.after is Some ==> r == window.after->0 || before(window.order, window.after->0, r),
        window.after is Some && window.blocks.holds((window.after->0).block_num) ==> r
            == window.after->0,
        past <==> (window.order is Ascending && window.blocks.max is Some && pos.block_num
            > window.blocks.max->0) || (window.order is Descending && window.blocks.min is Some
            && pos.block_num < window.blocks.min->0),
        past ==> !window.holds(pos),
{
}

/// A walk is over a keyspace's entries under a prefix, and its entry at a position has the prefix
/// and the position's key.
pub proof fn a_walk_is_over_a_keyspace_under_a_prefix(
    keyspace: Keyspace,
    prefix: &[u8],
    scan: KeyScan,
    pos: Position,
    key: Vec<u8>,
    entry: Vec<u8>,
)
    requires
        call_ensures(KeyScan::new, (keyspace, prefix), scan),
        call_ensures(pos_key, (pos,), key),
        call_ensures(KeyScan::key_at, (&scan, pos), entry),
    ensures
        scan.keyspace == keyspace,
        scan.prefix@ == prefix@,
        entry@ == prefix@ + key@,
{
}

/// A walk is over where there is no next key, or one that does not begin with its prefix, or one of
/// a position past the far end of its window. It passes over the cursor's own, and yields the
/// position of any other; what does not end in a position is reported.
pub proof fn a_walk_yields_the_position_of_a_key(
    scan: &KeyScan,
    window: &Window,
    key: Option<&[u8]>,
    r: Result<Reading, Error>,
    pos: Position,
    own: Vec<u8>,
)
    requires
        call_ensures(KeyScan::next_entry, (scan, window, key), r),
        call_ensures(pos_key, (pos,), own),
    ensures
        key is None ==> r == Ok::<Reading, Error>(Reading::End),
        key is Some && !(exists|rest: Seq<u8>| key->0@ == #[trigger] (scan.prefix@ + rest)) ==> r
            == Ok::<Reading, Error>(Reading::End),
        key is Some && key->0@ == scan.prefix@ + own@ ==> r == Ok::<Reading, Error>(
            if window.after == Some(pos) {
                Reading::Skip
            } else if window.order is Ascending && window.blocks.max is Some && pos.block_num
                > window.blocks.max->0 {
                Reading::End
            } else if window.order is Descending && window.blocks.min is Some && pos.block_num
                < window.blocks.min->0 {
                Reading::End
            } else {
                Reading::At(pos)
            },
        ),
        key is Some && (exists|rest: Seq<u8>|
            rest.len() != 12 && key->0@ == #[trigger] (scan.prefix@ + rest)) ==> r == Err::<
            Reading,
            Error,
        >(Error::PositionKey((key->0@.len() - scan.prefix@.len()) as usize)),
        r is Err ==> key is Some && exists|rest: Seq<u8>|
            rest.len() != 12 && key->0@ == #[trigger] (scan.prefix@ + rest),
{
    let prefix = scan.prefix@;
    lemma_position_key(pos);
    if key is Some {
        let k = key->0@;
        what_begins_with_a_prefix_goes_on_from_it(k, prefix);
        if k == prefix + own@ {
            assert(k == prefix + own@);
            assert(starts_with(k, prefix));
            assert(k.skip(prefix.len() as int) =~= own@);
        }
        if exists|rest: Seq<u8>| rest.len() != 12 && k == #[trigger] (prefix + rest) {
            let rest = choose|rest: Seq<u8>| rest.len() != 12 && k == #[trigger] (prefix + rest);
            assert(starts_with(k, prefix));
            assert(k.skip(prefix.len() as int) =~= rest);
        }
        if r is Err {
            let rest = k.skip(prefix.len() as int);
            assert(k =~= prefix + rest);
        }
    }
}

} // verus!
