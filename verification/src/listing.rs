//! A query without filters: the primary keyspace walked directly, whose values are the rows.

use vstd::prelude::*;

use crate::codec::{decode_row, is_row, row_at};
use crate::error::Error;
use crate::layout::{entry_key, Keyspace};
use crate::position::{before, Position};
use crate::scan::{found, lemma_first, lemma_key_of, lemma_past_places, lemma_reading, past_places,
    reading, remains, yields, KeyScan, Reading, Walk, Window};
use crate::search::Request;
use crate::store::Contents;
use crate::types::{views, IndexedTx, Tx};

verus! {

/// The walk over the rows.
pub open spec fn primary_walk() -> Walk {
    Walk { keyspace: Keyspace::Primary, prefix: Seq::empty() }
}

/// A listing as a mathematical value.
#[verifier::ext_equal]
pub struct Listed {
    pub window: Window,
    pub limit: usize,
    /// Where the iterator stands.
    pub mark: Position,
    /// Whether the iterator has to be set before it is read.
    pub seek: bool,
    /// Whether the walk is over.
    pub spent: bool,
    pub rows: Seq<Tx>,
}

impl Listed {
    /// A listing, before anything has been read.
    pub open spec fn fresh(self, window: Window, limit: usize) -> bool {
        &&& self.window == window
        &&& self.limit == limit
        &&& self.seek
        &&& !self.spent
        &&& self.rows.len() == 0
    }

    /// Whether there is nothing more to read: the walk is over, or the limit reached.
    pub open spec fn done(self) -> bool {
        self.spent || self.rows.len() >= self.limit
    }

    /// The position that the iterator is to be set to, or stands at.
    pub open spec fn bound(self) -> Position {
        if self.seek {
            self.window.first()
        } else {
            self.mark
        }
    }

    /// What the listing makes of an entry: `None` where there are no more.
    pub open spec fn answered(self, entry: Option<(Seq<u8>, Seq<u8>)>) -> Result<Listed, Error> {
        let key = match entry {
            Some(e) => Some(e.0),
            None => None,
        };
        match reading(primary_walk(), self.window, key) {
            Err(e) => Err(e),
            Ok(Reading::End) => Ok(Listed { spent: true, ..self }),
            Ok(Reading::Skip) => Ok(Listed { mark: self.window.after->0, seek: false, ..self }),
            Ok(Reading::At(pos)) => {
                let val = (entry->0).1;
                if is_row(val) {
                    Ok(
                        Listed {
                            mark: pos,
                            seek: false,
                            rows: self.rows.push(row_at(pos, val)),
                            ..self
                        },
                    )
                } else {
                    Err(Error::Row(val.len() as usize))
                }
            },
        }
    }

    /// `entry` is what the store's iterator hands back for the listing.
    pub open spec fn is_told(self, m: Contents, entry: Option<(Seq<u8>, Seq<u8>)>) -> bool {
        &&& found(
            m,
            Keyspace::Primary,
            self.window.order,
            entry_key(Seq::empty(), self.bound()),
            self.seek,
            match entry {
                Some(e) => Some(e.0),
                None => None,
            },
        )
        &&& entry is Some ==> m[(Keyspace::Primary, (entry->0).0)] == (entry->0).1
    }
}

/// A query without filters, under way.
pub struct Listing {
    window: Window,
    limit: usize,
    mark: Ghost<Position>,
    seek: bool,
    spent: bool,
    rows: Vec<IndexedTx>,
}

impl View for Listing {
    type V = Listed;

    closed spec fn view(&self) -> Listed {
        Listed {
            window: self.window,
            limit: self.limit,
            mark: self.mark@,
            seek: self.seek,
            spent: self.spent,
            rows: views(self.rows@),
        }
    }
}

/// The walk over the rows.
fn primary() -> (r: KeyScan)
    ensures
        r@ == primary_walk(),
{
    let none: Vec<u8> = Vec::new();
    assert(none@ =~= Seq::<u8>::empty());
    KeyScan { keyspace: Keyspace::Primary, prefix: none }
}

impl Listing {
    /// Every row within a window, up to a limit.
    pub fn new(window: Window, limit: usize) -> (r: Listing)
        ensures
            r@.fresh(window, limit),
    {
        Listing {
            window,
            limit,
            mark: Ghost(window.first()),
            seek: true,
            spent: false,
            rows: Vec::new(),
        }
    }

    /// What to do next: `None` once the listing is over. A walk that is asked for its next entry
    /// stands at the one it was last told.
    pub fn request(&self) -> (r: Option<Request>)
        ensures
            self@.done() ==> r is None,
            !self@.done() ==> r is Some && match r->0 {
                Request::Seek { walk, keyspace, key, order } => {
                    &&& self@.seek
                    &&& walk == 0
                    &&& keyspace == Keyspace::Primary
                    &&& key@ == entry_key(Seq::empty(), self@.bound())
                    &&& order == self@.window.order
                },
                Request::Next { walk } => !self@.seek && walk == 0,
            },
    {
        if self.spent || self.rows.len() >= self.limit {
            return None;
        }
        if !self.seek {
            return Some(Request::Next { walk: 0 });
        }
        Some(
            Request::Seek {
                walk: 0,
                keyspace: Keyspace::Primary,
                key: primary().key_at(self.window.start()),
                order: self.window.order,
            },
        )
    }

    /// Take the entry that was asked for: `None` where the iterator has no more.
    pub fn answer(&mut self, entry: Option<(&[u8], &[u8])>) -> (r: Result<(), Error>)
        ensures
            match old(self)@.answered(
                match entry {
                    Some(e) => Some((e.0@, e.1@)),
                    None => None,
                },
            ) {
                Err(e) => r == Err::<(), Error>(e) && final(self)@ == old(self)@,
                Ok(s) => r is Ok && final(self)@ == s,
            },
    {
        let key: Option<&[u8]> = match entry {
            Some(e) => Some(e.0),
            None => None,
        };
        let read: Reading = match primary().next_entry(&self.window, key) {
            Ok(read) => read,
            Err(e) => return Err(e),
        };
        match read {
            Reading::End => {
                self.spent = true;
            },
            Reading::Skip => {
                self.mark = Ghost(self.window.after->0);
                self.seek = false;
            },
            Reading::At(pos) => {
                if let Some(e) = entry {
                    let row: IndexedTx = match decode_row(pos, e.1) {
                        Ok(row) => row,
                        Err(e) => return Err(e),
                    };
                    let ghost was = self.rows@;
                    self.rows.push(row);
                    assert(views(self.rows@) =~= views(was).push(row@));
                    self.mark = Ghost(pos);
                    self.seek = false;
                }
            },
        }
        Ok(())
    }

    /// The rows, in order.
    pub fn into_rows(self) -> (r: Vec<IndexedTx>)
        ensures
            views(r@) == self@.rows,
    {
        self.rows
    }
}

// ---- what a listing lists

/// `rows` are the rows of a store within a window: in order, each once, and all of them, or the
/// first as many as the limit allows.
pub open spec fn lists(m: Contents, window: Window, limit: usize, rows: Seq<Tx>) -> bool {
    &&& rows.len() <= limit
    &&& forall|i: int, j: int|
        0 <= i < j < rows.len() ==> before(
            window.order,
            (#[trigger] rows[i]).position,
            (#[trigger] rows[j]).position,
        )
    &&& forall|i: int|
        0 <= i < rows.len() ==> {
            let tx = #[trigger] rows[i];
            let val = m[(Keyspace::Primary, entry_key(Seq::empty(), tx.position))];
            yields(m, primary_walk(), window, tx.position) && is_row(val) && tx == row_at(
                tx.position,
                val,
            )
        }
    &&& forall|p: Position| #[trigger]
        yields(m, primary_walk(), window, p) ==> (exists|i: int|
            0 <= i < rows.len() && (#[trigger] rows[i]).position == p) || (rows.len() == limit && (
        rows.len() > 0 ==> before(window.order, rows.last().position, p)))
}

impl Listed {
    /// A listing that tells the truth about a store.
    spec fn sound(self, m: Contents) -> bool {
        &&& self.rows.len() <= self.limit
        &&& forall|i: int, j: int|
            0 <= i < j < self.rows.len() ==> before(
                self.window.order,
                (#[trigger] self.rows[i]).position,
                (#[trigger] self.rows[j]).position,
            )
        &&& forall|i: int|
            0 <= i < self.rows.len() ==> {
                let tx = #[trigger] self.rows[i];
                let val = m[(Keyspace::Primary, entry_key(Seq::empty(), tx.position))];
                yields(m, primary_walk(), self.window, tx.position) && is_row(val) && tx == row_at(
                    tx.position,
                    val,
                )
            }
        &&& forall|p: Position| #[trigger]
            yields(m, primary_walk(), self.window, p) ==> (exists|i: int|
                0 <= i < self.rows.len() && (#[trigger] self.rows[i]).position == p) || (
            !self.spent && remains(self.window.order, self.bound(), self.seek, p))
        &&& self.rows.len() > 0 ==> !self.seek && !before(
            self.window.order,
            self.mark,
            self.rows.last().position,
        )
        &&& !self.seek ==> !before(self.window.order, self.mark, self.window.first())
    }
}

/// The states of a listing, and what it was told between them.
pub open spec fn is_listing(
    m: Contents,
    states: Seq<Listed>,
    told: Seq<Option<(Seq<u8>, Seq<u8>)>>,
) -> bool {
    &&& states.len() == told.len() + 1
    &&& forall|i: int|
        #![trigger told[i]]
        0 <= i < told.len() ==> {
            &&& !states[i].done()
            &&& states[i].is_told(m, told[i])
            &&& states[i].answered(told[i]) == Ok::<Listed, Error>(states[i + 1])
        }
}

proof fn lemma_listed(m: Contents, s: Listed, entry: Option<(Seq<u8>, Seq<u8>)>)
    requires
        s.sound(m),
        !s.done(),
        s.is_told(m, entry),
        s.answered(entry) is Ok,
    ensures
        (s.answered(entry)->Ok_0).sound(m),
{
    let d = s.answered(entry)->Ok_0;
    let order = s.window.order;
    let got = match entry {
        Some(e) => Some(e.0),
        None => None,
    };
    lemma_reading(m, primary_walk(), s.window, s.bound(), s.seek, got);
    if got is Some {
        lemma_key_of(primary_walk(), s.window, got->0);
    }
    if s.seek {
        assert forall|p: Position| #[trigger] yields(m, primary_walk(), s.window, p) implies remains(
            order,
            s.bound(),
            true,
            p,
        ) by {
            lemma_first(s.window, p);
        }
    }
    match reading(primary_walk(), s.window, got)->Ok_0 {
        Reading::At(pos) => {
            let val = (entry->0).1;
            assert(d.rows == s.rows.push(row_at(pos, val)));
            assert forall|i: int, j: int| 0 <= i < j < d.rows.len() implies before(
                order,
                (#[trigger] d.rows[i]).position,
                (#[trigger] d.rows[j]).position,
            ) by {
                if j == s.rows.len() {
                    assert(s.rows[i] == d.rows[i]);
                    if i < s.rows.len() - 1 {
                        assert(before(order, s.rows[i].position, s.rows[s.rows.len() - 1].position));
                    }
                } else {
                    assert(before(order, s.rows[i].position, s.rows[j].position));
                }
            }
            assert forall|p: Position| #[trigger] yields(m, primary_walk(), d.window, p) implies (
            exists|i: int| 0 <= i < d.rows.len() && (#[trigger] d.rows[i]).position == p) || (
            !d.spent && remains(order, d.bound(), d.seek, p)) by {
                if exists|i: int| 0 <= i < s.rows.len() && (#[trigger] s.rows[i]).position == p {
                    let i = choose|i: int| 0 <= i < s.rows.len() && (#[trigger] s.rows[i]).position == p;
                    assert(d.rows[i].position == p);
                } else if p == pos {
                    assert(d.rows[s.rows.len() as int].position == p);
                }
            }
        },
        _ => {},
    }
}

/// Every state of a listing tells the truth about the store it reads.
proof fn lemma_listing_is_sound(
    m: Contents,
    window: Window,
    limit: usize,
    states: Seq<Listed>,
    told: Seq<Option<(Seq<u8>, Seq<u8>)>>,
    n: int,
)
    requires
        is_listing(m, states, told),
        states[0].fresh(window, limit),
        0 <= n < states.len(),
    ensures
        states[n].sound(m),
        states[n].window == window,
        states[n].limit == limit,
    decreases n,
{
    if n == 0 {
        assert forall|p: Position| #[trigger] yields(m, primary_walk(), window, p) implies remains(
            window.order,
            states[0].bound(),
            true,
            p,
        ) by {
            lemma_first(window, p);
        }
    } else {
        lemma_listing_is_sound(m, window, limit, states, told, n - 1);
        let got = told[n - 1];
        lemma_listed(m, states[n - 1], got);
    }
}

/// A listing that is over has listed exactly the rows within the window: in order, each once,
/// and all of them or the first as many as the limit allows.
pub proof fn a_listing_lists_the_rows(
    m: Contents,
    window: Window,
    limit: usize,
    states: Seq<Listed>,
    told: Seq<Option<(Seq<u8>, Seq<u8>)>>,
)
    requires
        is_listing(m, states, told),
        states[0].fresh(window, limit),
        states.last().done(),
    ensures
        lists(m, window, limit, states.last().rows),
{
    let n = states.len() - 1;
    lemma_listing_is_sound(m, window, limit, states, told, n);
    let s = states[n];
    assert forall|p: Position| #[trigger] yields(m, primary_walk(), window, p) implies (exists|i: int|
        0 <= i < s.rows.len() && (#[trigger] s.rows[i]).position == p) || (s.rows.len() == limit && (
    s.rows.len() > 0 ==> before(window.order, s.rows.last().position, p))) by {}
}

/// A listing that asks for the next entry stands at the one it was last told: the caller's
/// iterator is where the listing takes it to be.
pub proof fn a_listing_goes_on_from_its_last_key(
    m: Contents,
    window: Window,
    limit: usize,
    states: Seq<Listed>,
    told: Seq<Option<(Seq<u8>, Seq<u8>)>>,
    n: int,
)
    requires
        is_listing(m, states, told),
        states[0].fresh(window, limit),
        0 <= n < states.len(),
        !states[n].done(),
        !states[n].seek,
    ensures
        n > 0,
        told[n - 1] is Some,
        (told[n - 1]->0).0 == entry_key(primary_walk().prefix, states[n].mark),
{
    let got = told[n - 1];
    if got is Some {
        lemma_key_of(primary_walk(), states[n - 1].window, (got->0).0);
    }
}

impl Listed {
    /// A bound on how much a listing will yet ask for.
    spec fn work_left(self, m: Contents) -> int {
        if self.seek {
            m.dom().len() + 1int
        } else {
            past_places(m, primary_walk(), self.window.order, self.mark).len() as int
        }
    }
}

/// Each answer that a listing is truthfully given ends it, or leaves it less to ask for.
proof fn lemma_progress(
    m: Contents,
    s: Listed,
    entry: Option<(Seq<u8>, Seq<u8>)>,
)
    requires
        m.dom().finite(),
        !s.done(),
        !before(s.window.order, s.bound(), s.window.first()),
        s.is_told(m, entry),
        s.answered(entry) is Ok,
    ensures
        ({
            let d = s.answered(entry)->Ok_0;
            &&& d.done() || d.work_left(m) < s.work_left(m)
            &&& d.work_left(m) >= 0
            &&& !before(d.window.order, d.bound(), d.window.first())
        }),
{
    let order = s.window.order;
    let got = match entry {
        Some(e) => Some(e.0),
        None => None,
    };
    lemma_reading(m, primary_walk(), s.window, s.bound(), s.seek, got);
    match reading(primary_walk(), s.window, got)->Ok_0 {
        Reading::End => {},
        Reading::Skip => {
            lemma_key_of(primary_walk(), s.window, got->0);
            lemma_past_places(m, primary_walk(), order, s.mark, s.window.after->0);
            lemma_past_places(m, primary_walk(), order, s.window.after->0, s.mark);
        },
        Reading::At(pos) => {
            lemma_past_places(m, primary_walk(), order, s.mark, pos);
            lemma_past_places(m, primary_walk(), order, pos, s.mark);
        },
    }
}

/// What a listing may yet ask for goes down with each answer.
proof fn lemma_work_goes_down(
    m: Contents,
    window: Window,
    limit: usize,
    states: Seq<Listed>,
    told: Seq<Option<(Seq<u8>, Seq<u8>)>>,
    n: int,
)
    requires
        m.dom().finite(),
        is_listing(m, states, told),
        states[0].fresh(window, limit),
        0 <= n < told.len(),
    ensures
        0 <= states[n].work_left(m),
        states[n].work_left(m) + n <= m.dom().len() + 1,
        !before(states[n].window.order, states[n].bound(), states[n].window.first()),
    decreases n,
{
    if n > 0 {
        lemma_work_goes_down(m, window, limit, states, told, n - 1);
        let got = told[n - 1];
        let next = told[n];
        lemma_progress(m, states[n - 1], got);
    }
}

/// A listing comes to an end: over a store of finitely many entries it asks no more often than
/// twice, and once per entry.
pub proof fn a_listing_comes_to_an_end(
    m: Contents,
    window: Window,
    limit: usize,
    states: Seq<Listed>,
    told: Seq<Option<(Seq<u8>, Seq<u8>)>>,
)
    requires
        m.dom().finite(),
        is_listing(m, states, told),
        states[0].fresh(window, limit),
    ensures
        told.len() <= m.dom().len() + 2,
{
    if told.len() > 0 {
        lemma_work_goes_down(m, window, limit, states, told, told.len() - 1);
    }
}

// ---- a listing, as its caller drives it

/// A listing goes on entry by entry: each is what the store's iterator hands back for the listing
/// as it stands, and leaves it as the listing makes of it.
pub proof fn a_listing_goes_on_entry_by_entry(
    m: Contents,
    states: Seq<Listed>,
    told: Seq<Option<(Seq<u8>, Seq<u8>)>>,
    next: Listed,
    got: Option<(Seq<u8>, Seq<u8>)>,
)
    requires
        states.len() > 0,
    ensures
        is_listing(m, seq![next], Seq::empty()),
        is_listing(m, states.push(next), told.push(got)) <==> {
            &&& is_listing(m, states, told)
            &&& !states.last().done()
            &&& states.last().is_told(m, got)
            &&& states.last().answered(got) == Ok::<Listed, Error>(next)
        },
{
    let more = states.push(next);
    let all = told.push(got);
    if is_listing(m, states, told) && !states.last().done() && states.last().is_told(m, got)
        && states.last().answered(got) == Ok::<Listed, Error>(next) {
        assert forall|i: int|
            #![trigger all[i]]
            0 <= i < all.len() implies {
            &&& !more[i].done()
            &&& more[i].is_told(m, all[i])
            &&& more[i].answered(all[i]) == Ok::<Listed, Error>(more[i + 1])
        } by {
            if i < told.len() {
                assert(all[i] == told[i]);
                assert(more[i] == states[i]);
                assert(more[i + 1] == states[i + 1]);
            }
        }
    }
    if is_listing(m, more, all) {
        assert(all[told.len() as int] == got);
        assert forall|i: int|
            #![trigger told[i]]
            0 <= i < told.len() implies {
            &&& !states[i].done()
            &&& states[i].is_told(m, told[i])
            &&& states[i].answered(told[i]) == Ok::<Listed, Error>(states[i + 1])
        } by {
            assert(all[i] == told[i]);
            assert(more[i] == states[i]);
            assert(more[i + 1] == states[i + 1]);
        }
    }
}

/// A listing is over where its limit is reached or its walk has ended. Else it asks for the nearest
/// key of the rows to where its window starts, in the order of the query, and then for the key
/// after the one it was last told; and takes for true that this, with the value there, is what it
/// is told.
pub proof fn a_listing_asks_for_the_entry_it_takes(
    listing: &Listing,
    r: Option<Request>,
    m: Contents,
    got: (Seq<u8>, Seq<u8>),
    last: Seq<u8>,
)
    requires
        call_ensures(Listing::request, (listing,), r),
    ensures
        r is None <==> listing@.spent || listing@.rows.len() >= listing@.limit,
        r is Some ==> match r->0 {
            Request::Seek { walk, keyspace, key, order } => {
                &&& walk == 0
                &&& keyspace is Primary
                &&& order == listing@.window.order
                &&& listing@.is_told(m, Some(got)) <==> found(
                    m,
                    keyspace,
                    order,
                    key@,
                    true,
                    Some(got.0),
                ) && m[(keyspace, got.0)] == got.1
                &&& listing@.is_told(m, None) <==> found(m, keyspace, order, key@, true, None)
            },
            Request::Next { walk } => {
                &&& walk == 0
                &&& last == entry_key(Seq::empty(), listing@.mark) ==> {
                    &&& listing@.is_told(m, Some(got)) <==> found(
                        m,
                        Keyspace::Primary,
                        listing@.window.order,
                        last,
                        false,
                        Some(got.0),
                    ) && m[(Keyspace::Primary, got.0)] == got.1
                    &&& listing@.is_told(m, None) <==> found(
                        m,
                        Keyspace::Primary,
                        listing@.window.order,
                        last,
                        false,
                        None,
                    )
                }
            },
        },
{
}

/// Handing a listing the entry it asked for is one step of it; handing it what is no entry of a row
/// is reported, and leaves it as it is. The rows it has listed are those it hands over.
pub proof fn an_entry_is_one_step_of_a_listing(
    listing: &mut Listing,
    entry: Option<(&[u8], &[u8])>,
    r: Result<(), Error>,
    m: Contents,
    over: Listing,
    rows: Vec<IndexedTx>,
    i: int,
)
    requires
        call_ensures(Listing::answer, (listing, entry), r),
        call_ensures(Listing::into_rows, (over,), rows),
    ensures
        ({
            let s = old(listing)@;
            let got = match entry {
                Some(e) => Some((e.0@, e.1@)),
                None => None,
            };
            &&& !s.done() && s.is_told(m, got) && s.answered(got) is Ok ==> r is Ok && is_listing(
                m,
                seq![s, final(listing)@],
                seq![got],
            )
            &&& s.answered(got) is Err ==> r is Err && r->Err_0 == s.answered(got)->Err_0
                && final(listing)@ == s
        }),
        rows@.len() == over@.rows.len(),
        0 <= i < rows@.len() ==> rows@[i]@ == over@.rows[i],
{
    let s = listing@;
    let got = match entry {
        Some(e) => Some((e.0@, e.1@)),
        None => None,
    };
    if !s.done() && s.is_told(m, got) && s.answered(got) is Ok {
        a_listing_goes_on_entry_by_entry(m, seq![s], Seq::empty(), final(listing)@, got);
        assert(is_listing(m, seq![s], Seq::empty()));
        assert(seq![s].push(final(listing)@) =~= seq![s, final(listing)@]);
        assert(Seq::empty().push(got) =~= seq![got]);
    }
    assert(views(rows@).len() == rows@.len());
    if 0 <= i < rows@.len() {
        assert(views(rows@)[i] == rows@[i]@);
    }
}

/// A listing takes a row for every position that its walk yields, with the value it was told, and
/// puts it behind those it has; it takes none for the cursor's own entry, and is over where its
/// walk is. What cannot be read is reported: the key first, and then the value by its length.
pub proof fn a_listing_takes_a_row_per_position(
    listing: &mut Listing,
    entry: Option<(&[u8], &[u8])>,
    r: Result<(), Error>,
    read: Result<Reading, Error>,
    row: Result<IndexedTx, Error>,
)
    requires
        call_ensures(Listing::answer, (listing, entry), r),
        read == reading(
            primary_walk(),
            listing@.window,
            match entry {
                Some(e) => Some(e.0@),
                None => None,
            },
        ),
        read is Ok && read->Ok_0 is At ==> entry is Some && call_ensures(
            decode_row,
            (read->Ok_0->0, (entry->0).1),
            row,
        ),
    ensures
        read is Err ==> r is Err && r->Err_0 == read->Err_0,
        read is Ok && !(read->Ok_0 is At) ==> r is Ok && final(listing)@.rows == old(listing)@.rows,
        read is Ok && read->Ok_0 is End ==> final(listing)@.done(),
        read is Ok && read->Ok_0 is At && row is Err ==> r is Err && r->Err_0 == row->Err_0,
        read is Ok && read->Ok_0 is At && row is Ok ==> r is Ok && final(listing)@.rows == old(listing)@.rows.push(row->Ok_0@),
        r is Err ==> final(listing)@ == old(listing)@,
        final(listing)@.window == old(listing)@.window,
        final(listing)@.limit == old(listing)@.limit,
{
}

/// A listing starts from what it was given, with nothing read.
pub proof fn a_listing_starts_from_what_it_was_given(window: Window, limit: usize, r: Listing)
    requires
        call_ensures(Listing::new, (window, limit), r),
    ensures
        r@.window == window,
        r@.limit == limit,
        r@.rows.len() == 0,
        r@.seek,
        !r@.spent,
        r@.done() <==> limit == 0,
{
}

} // verus!
