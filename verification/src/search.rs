//! A filtered query: the walks of its terms, unioned within a term and intersected across them.
//!
//! Every keyspace shares the order of positions, which is what makes `AND` a merge at all. The
//! search decides which iterator to move and what its next key means; moving it is the caller's.

use vstd::prelude::*;

use crate::entries::{column_views, columns, filter_columns};
use crate::error::Error;
use crate::layout::{entry_key, Keyspace};
use crate::position::{before, Order, Position};
use crate::scan::{found, reading, KeyScan, Reading, Walk, Window};
use crate::store::Contents;
use crate::types::Filter;

verus! {

/// How many entries a merge steps toward the other side before seeking straight to
/// it. Stepping is much cheaper than a seek, so small gaps stay cheap; past this the
/// gap is large enough that a seek wins outright.
pub const GALLOP_AFTER: usize = 16;

/// What the walks of a search are being moved for.
#[derive(Clone, Copy, Debug, PartialEq, Eq, Structural)]
pub enum Goal {
    /// Each walk to its first position.
    Open,
    /// Each walk that stands on a position past it.
    Past(Position),
    /// Each walk that is short of a position up to it.
    To(Position),
}

/// What to do next on behalf of a search.
#[derive(Debug, PartialEq, Eq)]
pub enum Request {
    /// Set the iterator of a walk to a key, in a direction, and hand back its first key.
    Seek { walk: usize, keyspace: Keyspace, key: Vec<u8>, order: Order },
    /// Hand back the next key of a walk's iterator.
    Next { walk: usize },
}

/// A search as a mathematical value.
#[verifier::ext_equal]
pub struct Progress {
    pub walks: Seq<Walk>,
    /// The term that each walk belongs to.
    pub terms: Seq<usize>,
    pub count: usize,
    pub window: Window,
    pub limit: usize,
    /// Each walk's current position, `None` once it is spent.
    pub heads: Seq<Option<Position>>,
    /// Where each walk's iterator stands.
    pub marks: Seq<Position>,
    pub goal: Goal,
    /// The walk that is being moved.
    pub current: int,
    /// How many entries it has stepped toward the goal.
    pub steps: int,
    /// Whether its iterator has to be set before it is read.
    pub seek: bool,
    pub done: bool,
    /// The positions found so far.
    pub out: Seq<Position>,
}

// ---- what a search does

/// The less advanced of two heads.
pub open spec fn less_advanced(
    order: Order,
    a: Option<Position>,
    b: Option<Position>,
) -> Option<Position> {
    match (a, b) {
        (Some(x), Some(y)) => if before(order, y, x) {
            b
        } else {
            a
        },
        (None, _) => b,
        (_, None) => a,
    }
}

/// The more advanced of two heads; a spent one is past everything.
pub open spec fn more_advanced(
    order: Order,
    a: Option<Position>,
    b: Option<Position>,
) -> Option<Position> {
    match (a, b) {
        (Some(x), Some(y)) => if before(order, x, y) {
            b
        } else {
            a
        },
        _ => None,
    }
}

/// The most advanced of some heads.
pub open spec fn most_advanced(order: Order, heads: Seq<Option<Position>>) -> Option<Position>
    decreases heads.len(),
{
    if heads.len() == 0 {
        None
    } else if heads.len() == 1 {
        heads[0]
    } else {
        more_advanced(order, most_advanced(order, heads.drop_last()), heads.last())
    }
}

impl Progress {
    /// The head of a term, by its walks among the first `n`: the *least* advanced of them.
    /// `None` once every one is spent.
    pub open spec fn head_among(self, term: int, n: int) -> Option<Position>
        decreases n,
    {
        if n <= 0 {
            None
        } else {
            let rest = self.head_among(term, n - 1);
            if self.terms[n - 1] == term {
                less_advanced(self.window.order, rest, self.heads[n - 1])
            } else {
                rest
            }
        }
    }

    /// The position each term yields next.
    pub open spec fn term_heads(self) -> Seq<Option<Position>> {
        Seq::new(self.count as nat, |t: int| self.head_among(t, self.walks.len() as int))
    }

    /// Whether a walk has to be moved for the goal.
    pub open spec fn needs(self, i: int) -> bool {
        match self.goal {
            Goal::Open => true,
            Goal::Past(p) => self.heads[i] == Some(p),
            Goal::To(t) => self.heads[i] is Some && before(
                self.window.order,
                self.heads[i]->0,
                t,
            ),
        }
    }

    /// The first walk from `i` on that has to be moved for the goal.
    pub open spec fn next_needing(self, i: int) -> int
        decreases self.walks.len() - i,
    {
        if i >= self.walks.len() || self.needs(i) {
            i
        } else {
            self.next_needing(i + 1)
        }
    }

    /// Take up a goal that is reached by moving walks on from where they stand.
    pub open spec fn toward(self, goal: Goal) -> Progress {
        let s = Progress { goal, ..self };
        Progress { current: s.next_needing(0), steps: 0, seek: false, ..s }
    }

    /// What comes once every walk has been moved for the goal. An exhausted term ends the
    /// search: nothing further can be in every term. Else the *most* advanced head is the
    /// meeting point: anything behind it can go straight to it, and when every head sits on
    /// it, that position is in the intersection.
    pub open spec fn decided(self) -> Progress {
        let heads = self.term_heads();
        let meeting = most_advanced(self.window.order, heads);
        if self.out.len() >= self.limit || meeting is None {
            Progress { done: true, ..self }
        } else if forall|t: int| 0 <= t < heads.len() ==> #[trigger] heads[t] == meeting {
            Progress { out: self.out.push(meeting->0), ..self }.toward(Goal::Past(meeting->0))
        } else {
            self.toward(Goal::To(meeting->0))
        }
    }

    /// What comes once the current walk has been moved for the goal, to a position or to its
    /// end.
    pub open spec fn settled(self, head: Option<Position>) -> Progress {
        let s = Progress { heads: self.heads.update(self.current, head), ..self };
        let next = s.next_needing(self.current + 1);
        if next < self.walks.len() {
            Progress { current: next, steps: 0, seek: self.goal is Open, ..s }
        } else {
            s.decided()
        }
    }

    /// The iterator of the current walk stands at a position.
    pub open spec fn stands_at(self, pos: Position) -> Progress {
        Progress { marks: self.marks.update(self.current, pos), seek: false, ..self }
    }

    /// Whether the current walk goes on from a position, toward the goal.
    pub open spec fn goes_on(self, pos: Position) -> bool {
        match self.goal {
            Goal::To(t) => before(self.window.order, pos, t) && self.steps < GALLOP_AFTER,
            _ => false,
        }
    }

    /// What the search makes of an entry that was read for it.
    pub open spec fn answered(self, entry: Reading) -> Progress {
        match entry {
            Reading::End => self.settled(None),
            Reading::Skip => self.stands_at(self.window.after->0),
            Reading::At(pos) => if self.goes_on(pos) {
                Progress {
                    steps: self.steps + 1,
                    seek: self.steps + 1 == GALLOP_AFTER,
                    ..self.stands_at(pos)
                }
            } else {
                self.stands_at(pos).settled(Some(pos))
            },
        }
    }

    /// The position that the current walk's iterator is to be set to, or stands at.
    pub open spec fn bound(self) -> Position {
        if self.seek {
            match self.goal {
                Goal::To(t) => t,
                _ => self.window.first(),
            }
        } else {
            self.marks[self.current]
        }
    }

    /// The walk that is being moved.
    pub open spec fn walk(self) -> Walk {
        self.walks[self.current]
    }

    /// `got` is what the store's iterator hands back for the search.
    pub open spec fn is_told(self, m: Contents, got: Option<Seq<u8>>) -> bool {
        found(
            m,
            self.walk().keyspace,
            self.window.order,
            entry_key(self.walk().prefix, self.bound()),
            self.seek,
            got,
        )
    }

    /// A search is in order: every walk belongs to a term, and every term has one.
    pub open spec fn proper(self) -> bool {
        &&& self.terms.len() == self.walks.len()
        &&& self.heads.len() == self.walks.len()
        &&& self.marks.len() == self.walks.len()
        &&& !self.done ==> self.count >= 1
        &&& forall|i: int| 0 <= i < self.terms.len() ==> #[trigger] self.terms[i] < self.count
        &&& forall|t: int| 0 <= t < self.count ==> #[trigger] self.has_walk(t)
        &&& !self.done ==> 0 <= self.current < self.walks.len()
        &&& 0 <= self.steps <= GALLOP_AFTER
    }

    /// Whether a term has a walk.
    pub open spec fn has_walk(self, term: int) -> bool {
        exists|i: int| 0 <= i < self.terms.len() && #[trigger] self.terms[i] == term
    }
}

/// The walks that a filter's terms take: one each, but for `address`, which takes two.
pub open spec fn filter_walks(filter: Filter) -> Seq<Walk> {
    filter_columns(filter).map_values(
        |c: (Keyspace, Seq<u8>)| Walk { keyspace: c.0, prefix: c.1 },
    ) + (match filter.address {
        Some(a) => seq![
            Walk { keyspace: Keyspace::From, prefix: a@ },
            Walk { keyspace: Keyspace::To, prefix: a@ },
        ],
        None => Seq::empty(),
    })
}

/// The term that each walk of a filter belongs to.
pub open spec fn filter_terms(filter: Filter) -> Seq<usize> {
    let n = filter_columns(filter).len();
    Seq::new(n, |i: int| i as usize) + (match filter.address {
        Some(_) => seq![n as usize, n as usize],
        None => Seq::empty(),
    })
}

/// How many terms a filter has, its block range aside.
pub open spec fn term_count(filter: Filter) -> int {
    filter_columns(filter).len() + (if filter.address is Some {
        1int
    } else {
        0
    })
}

/// A search for what a filter selects, before anything has been read.
pub open spec fn search_of(filter: Filter, window: Window, limit: usize, s: Progress) -> bool {
    let walks = filter_walks(filter);
    &&& s.walks == walks
    &&& s.terms == filter_terms(filter)
    &&& s.count == term_count(filter)
    &&& s.window == window
    &&& s.limit == limit
    &&& s.heads == Seq::new(walks.len(), |i: int| None::<Position>)
    &&& s.goal is Open
    &&& s.current == 0
    &&& s.steps == 0
    &&& s.seek
    &&& !s.done
    &&& s.out.len() == 0
}

// ---- doing it

/// The walks of a query, and how far they have been merged.
struct Merge {
    scans: Vec<KeyScan>,
    terms: Vec<usize>,
    count: usize,
    window: Window,
    limit: usize,
    heads: Vec<Option<Position>>,
    marks: Ghost<Seq<Position>>,
    goal: Goal,
    current: usize,
    steps: usize,
    seek: bool,
    done: bool,
    out: Vec<Position>,
}

/// Walks as mathematical values.
pub open spec fn walk_views(scans: Seq<KeyScan>) -> Seq<Walk> {
    scans.map_values(|s: KeyScan| s@)
}

impl View for Merge {
    type V = Progress;

    closed spec fn view(&self) -> Progress {
        Progress {
            walks: walk_views(self.scans@),
            terms: self.terms@,
            count: self.count,
            window: self.window,
            limit: self.limit,
            heads: self.heads@,
            marks: self.marks@,
            goal: self.goal,
            current: self.current as int,
            steps: self.steps as int,
            seek: self.seek,
            done: self.done,
            out: self.out@,
        }
    }
}

/// A filtered query under way.
pub struct Search {
    merge: Merge,
}

impl View for Search {
    type V = Progress;

    closed spec fn view(&self) -> Progress {
        self.merge@
    }
}

proof fn lemma_filter_columns_len(filter: Filter)
    ensures
        filter_columns(filter).len() <= 5,
{
}

impl Search {
    #[verifier::type_invariant]
    spec fn in_order(self) -> bool {
        self.merge@.proper()
    }

    /// A search for what a filter selects within a window, up to a limit; `None` where the
    /// filter has no term to walk.
    pub fn new(filter: &Filter, window: Window, limit: usize) -> (r: Option<Search>)
        ensures
            term_count(*filter) == 0 ==> r is None,
            term_count(*filter) > 0 ==> r is Some && r->0@.proper() && search_of(
                *filter,
                window,
                limit,
                r->0@,
            ),
    {
        let named: Vec<(Keyspace, Vec<u8>)> = columns(filter);
        let ghost want = filter_columns(*filter);
        let ghost f = |c: (Keyspace, Seq<u8>)| Walk { keyspace: c.0, prefix: c.1 };
        proof {
            lemma_filter_columns_len(*filter);
        }
        let mut scans: Vec<KeyScan> = Vec::new();
        let mut terms: Vec<usize> = Vec::new();
        let mut heads: Vec<Option<Position>> = Vec::new();
        let mut i: usize = 0;
        // One term per filter, intersected. Only `address` is more than one walk.
        while i < named.len()
            invariant
                i <= named@.len(),
                column_views(named@) == want,
                f == (|c: (Keyspace, Seq<u8>)| Walk { keyspace: c.0, prefix: c.1 }),
                walk_views(scans@) =~= want.take(i as int).map_values(f),
                terms@ =~= Seq::new(i as nat, |i: int| i as usize),
                heads@ =~= Seq::new(i as nat, |i: int| None::<Position>),
            decreases named@.len() - i,
        {
            assert(column_views(named@)[i as int] == want[i as int]);
            let ghost was = scans@;
            let scan: KeyScan = KeyScan::new(named[i].0, named[i].1.as_slice());
            assert(scan@ == f(want[i as int]));
            scans.push(scan);
            assert(walk_views(scans@) =~= walk_views(was).push(scan@));
            assert(want.take(i + 1) =~= want.take(i as int).push(want[i as int]));
            terms.push(i);
            heads.push(None);
            i = i + 1;
        }
        assert(want.take(i as int) =~= want);
        let mut count: usize = i;
        if let Some(address) = filter.address {
            scans.push(KeyScan::new(Keyspace::From, address.as_slice()));
            scans.push(KeyScan::new(Keyspace::To, address.as_slice()));
            terms.push(i);
            terms.push(i);
            heads.push(None);
            heads.push(None);
            count = i + 1;
        }
        if count == 0 {
            return None;
        }
        let merge: Merge = Merge {
            scans,
            terms,
            count,
            window,
            limit,
            heads,
            marks: Ghost(Seq::new(scans@.len(), |i: int| window.first())),
            goal: Goal::Open,
            current: 0,
            steps: 0,
            seek: true,
            done: false,
            out: Vec::new(),
        };
        proof {
            let s = merge@;
            assert(s.walks =~= filter_walks(*filter));
            assert(s.terms =~= filter_terms(*filter));
            assert(s.heads =~= Seq::new(filter_walks(*filter).len(), |i: int| None::<Position>));
            assert forall|t: int| 0 <= t < s.count implies #[trigger] s.has_walk(t) by {
                assert(s.terms[t] == t);
            }
        }
        Some(Search { merge })
    }

    /// What to do next: `None` once the search is over. A walk that is asked for its next key
    /// stands at the key it was last told.
    pub fn request(&self) -> (r: Option<Request>)
        ensures
            self@.done ==> r is None,
            !self@.done ==> r is Some && match r->0 {
                Request::Seek { walk, keyspace, key, order } => {
                    &&& self@.seek
                    &&& walk == self@.current
                    &&& keyspace == self@.walk().keyspace
                    &&& key@ == entry_key(self@.walk().prefix, self@.bound())
                    &&& order == self@.window.order
                },
                Request::Next { walk } => !self@.seek && walk == self@.current,
            },
    {
        proof {
            use_type_invariant(&*self);
        }
        let merge: &Merge = &self.merge;
        if merge.done {
            return None;
        }
        if !merge.seek {
            return Some(Request::Next { walk: merge.current });
        }
        let pos: Position = match merge.goal {
            Goal::To(target) => target,
            _ => merge.window.start(),
        };
        let scan: &KeyScan = &merge.scans[merge.current];
        assert(scan@ == self@.walk());
        Some(
            Request::Seek {
                walk: merge.current,
                keyspace: scan.keyspace,
                key: scan.key_at(pos),
                order: merge.window.order,
            },
        )
    }

    /// Take the key that was asked for: `None` where the iterator has no more. A search that is
    /// over asks for none, and takes none.
    pub fn answer(&mut self, key: Option<&[u8]>) -> (r: Result<(), Error>)
        ensures
            old(self)@.done ==> r is Ok && final(self)@ == old(self)@,
            !old(self)@.done ==> match reading(
                old(self)@.walk(),
                old(self)@.window,
                match key {
                    Some(k) => Some(k@),
                    None => None,
                },
            ) {
                Err(e) => r == Err::<(), Error>(e) && final(self)@ == old(self)@,
                Ok(entry) => {
                    &&& r is Ok
                    &&& final(self)@ == old(self)@.answered(entry)
                    &&& final(self)@.proper()
                },
            },
    {
        proof {
            use_type_invariant(&*self);
        }
        if self.merge.done {
            return Ok(());
        }
        let mut merge: Merge = Merge::blank(self.merge.window);
        std::mem::swap(&mut merge, &mut self.merge);
        let r: Result<(), Error> = merge.take(key);
        std::mem::swap(&mut merge, &mut self.merge);
        r
    }

    /// The positions found, in order.
    pub fn positions(&self) -> (r: &Vec<Position>)
        ensures
            r@ == self@.out,
    {
        &self.merge.out
    }
}

impl Merge {
    /// A merge of nothing, which is over.
    fn blank(window: Window) -> (r: Merge)
        ensures
            r@.proper(),
            r@.done,
    {
        Merge {
            scans: Vec::new(),
            terms: Vec::new(),
            count: 0,
            window,
            limit: 0,
            heads: Vec::new(),
            marks: Ghost(Seq::empty()),
            goal: Goal::Open,
            current: 0,
            steps: 0,
            seek: false,
            done: true,
            out: Vec::new(),
        }
    }

    /// Take the key that was asked for.
    fn take(&mut self, key: Option<&[u8]>) -> (r: Result<(), Error>)
        requires
            old(self)@.proper(),
            !old(self)@.done,
        ensures
            final(self)@.proper(),
            match reading(
                old(self)@.walk(),
                old(self)@.window,
                match key {
                    Some(k) => Some(k@),
                    None => None,
                },
            ) {
                Err(e) => r == Err::<(), Error>(e) && final(self)@ == old(self)@,
                Ok(entry) => r is Ok && final(self)@ == old(self)@.answered(entry),
            },
    {
        let ghost s = self@;
        assert(self.scans@[self.current as int]@ == s.walk());
        let entry: Reading = match self.scans[self.current].next_entry(&self.window, key) {
            Ok(entry) => entry,
            Err(e) => return Err(e),
        };
        match entry {
            Reading::End => self.settle(None),
            Reading::Skip => self.stand_at(Ghost(s.window.after->0)),
            Reading::At(pos) => {
                self.stand_at(Ghost(pos));
                if self.still_ahead(pos) {
                    self.steps = self.steps + 1;
                    self.seek = self.steps == GALLOP_AFTER;
                    proof {
                        lemma_same_walks(s, self@);
                    }
                } else {
                    self.settle(Some(pos));
                }
            },
        }
        Ok(())
    }

    /// The iterator of the current walk stands at a position.
    fn stand_at(&mut self, Ghost(pos): Ghost<Position>)
        requires
            old(self)@.proper(),
            !old(self)@.done,
        ensures
            final(self)@ == old(self)@.stands_at(pos),
            final(self)@.proper(),
    {
        self.marks = Ghost(self.marks@.update(self.current as int, pos));
        self.seek = false;
        proof {
            lemma_same_walks(old(self)@, self@);
        }
    }

    /// Whether the current walk goes on from a position, toward the goal: step up to
    /// [`GALLOP_AFTER`] entries, then give up walking and seek the iterator straight to the
    /// target key. This is what keeps an intersection O(smaller side) instead of O(larger side).
    fn still_ahead(&self, pos: Position) -> (r: bool)
        ensures
            r == self@.goes_on(pos),
    {
        match self.goal {
            Goal::To(target) => pos.is_before(target, self.window.order) && self.steps
                < GALLOP_AFTER,
            _ => false,
        }
    }

    /// The first walk from `from` on that has to be moved for the goal.
    fn next_short(&self, from: usize) -> (r: usize)
        requires
            self@.heads.len() == self@.walks.len(),
            from <= self@.walks.len(),
        ensures
            r == self@.next_needing(from as int),
            from <= r <= self@.walks.len(),
    {
        let mut i: usize = from;
        while i < self.scans.len()
            invariant
                from <= i <= self.scans@.len(),
                self@.heads.len() == self@.walks.len(),
                self@.next_needing(from as int) == self@.next_needing(i as int),
            decreases self.scans@.len() - i,
        {
            let short: bool = match (self.goal, self.heads[i]) {
                (Goal::Open, _) => true,
                (Goal::Past(pos), Some(head)) => head == pos,
                (Goal::To(target), Some(head)) => head.is_before(target, self.window.order),
                _ => false,
            };
            assert(short == self@.needs(i as int));
            if short {
                return i;
            }
            i = i + 1;
        }
        i
    }

    /// The current walk has been moved for the goal, to a position or to its end.
    fn settle(&mut self, head: Option<Position>)
        requires
            old(self)@.proper(),
            !old(self)@.done,
        ensures
            final(self)@ == old(self)@.settled(head),
            final(self)@.proper(),
    {
        let walks: usize = self.scans.len();
        assert(self@.walks.len() == walks);
        self.heads.set(self.current, head);
        let next: usize = self.next_short(self.current + 1);
        if next < self.scans.len() {
            self.current = next;
            self.steps = 0;
            self.seek = match self.goal {
                Goal::Open => true,
                _ => false,
            };
            proof {
                lemma_same_walks(old(self)@, self@);
            }
        } else {
            proof {
                lemma_same_walks(old(self)@, self@);
            }
            self.decide();
        }
    }

    /// The position a term yields next: the *least* advanced of its walks. `None` once every
    /// walk is spent.
    fn head(&self, term: usize) -> (r: Option<Position>)
        requires
            self@.proper(),
        ensures
            r == self@.head_among(term as int, self@.walks.len() as int),
    {
        let mut head: Option<Position> = None;
        let mut i: usize = 0;
        while i < self.scans.len()
            invariant
                i <= self.scans@.len(),
                self@.proper(),
                head == self@.head_among(term as int, i as int),
            decreases self.scans@.len() - i,
        {
            if self.terms[i] == term {
                head = match (head, self.heads[i]) {
                    (Some(a), Some(b)) => Some(
                        if b.is_before(a, self.window.order) {
                            b
                        } else {
                            a
                        },
                    ),
                    (None, other) => other,
                    (mine, None) => mine,
                };
            }
            i = i + 1;
        }
        head
    }

    /// The most advanced of the terms' heads, and whether every term sits on it; `None` once a
    /// term is spent.
    fn meeting(&self) -> (r: Option<(Position, bool)>)
        requires
            self@.proper(),
            !self@.done,
        ensures
            ({
                let heads = self@.term_heads();
                let most = most_advanced(self@.window.order, heads);
                match r {
                    None => most is None,
                    Some((pos, all)) => most == Some(pos) && (all <==> forall|t: int|
                        0 <= t < heads.len() ==> #[trigger] heads[t] == most),
                }
            }),
    {
        let ghost heads = self@.term_heads();
        let order: Order = self.window.order;
        let mut meeting: Position = match self.head(0) {
            Some(pos) => pos,
            None => {
                proof {
                    lemma_spent(order, heads, 0);
                }
                return None;
            },
        };
        let mut all: bool = true;
        let mut t: usize = 1;
        assert(heads.take(1).len() == 1);
        while t < self.count
            invariant
                1 <= t <= self.count,
                self@.proper(),
                order == self@.window.order,
                heads == self@.term_heads(),
                most_advanced(order, heads.take(t as int)) == Some(meeting),
                all <==> forall|k: int| 0 <= k < t ==> #[trigger] heads[k] == Some(meeting),
            decreases self.count - t,
        {
            let head: Position = match self.head(t) {
                Some(pos) => pos,
                None => {
                    proof {
                        lemma_spent(order, heads, t as int);
                    }
                    return None;
                },
            };
            proof {
                assert(heads[t as int] == Some(head));
                assert(heads.take(t + 1).drop_last() =~= heads.take(t as int));
                assert(heads.take(t + 1).last() == heads[t as int]);
            }
            if head != meeting {
                all = false;
            }
            if meeting.is_before(head, order) {
                proof {
                    assert(heads[0] != Some(head)) by {
                        lemma_most_advanced(order, heads.take(t as int), 0);
                    }
                }
                meeting = head;
            }
            proof {
                if all {
                    assert forall|k: int| 0 <= k < t + 1 implies #[trigger] heads[k] == Some(
                        meeting,
                    ) by {}
                } else if forall|k: int| 0 <= k < t + 1 ==> #[trigger] heads[k] == Some(meeting) {
                    assert(heads[t as int] == Some(meeting));
                    assert(heads[0] == Some(meeting));
                }
            }
            t = t + 1;
        }
        assert(heads.take(t as int) =~= heads);
        Some((meeting, all))
    }

    /// Every walk has been moved for the goal: push the position where the terms meet, or take
    /// up the next goal, or end the search.
    fn decide(&mut self)
        requires
            old(self)@.proper(),
            !old(self)@.done,
        ensures
            final(self)@ == old(self)@.decided(),
            final(self)@.proper(),
    {
        if self.out.len() >= self.limit {
            self.done = true;
            proof {
                lemma_same_walks(old(self)@, self@);
            }
            return;
        }
        match self.meeting() {
            None => {
                self.done = true;
                proof {
                    lemma_same_walks(old(self)@, self@);
                }
            },
            Some((target, all)) => {
                if all {
                    self.out.push(target);
                    self.goal = Goal::Past(target);
                } else {
                    self.goal = Goal::To(target);
                }
                self.steps = 0;
                self.seek = false;
                let ghost mid = self@;
                let next: usize = self.next_short(0);
                self.current = next;
                proof {
                    let s = old(self)@;
                    let goal = self.goal;
                    lemma_needing_same(Progress { goal, out: self.out@, ..s }, mid, 0);
                    lemma_needing_same(Progress { goal, ..s }, mid, 0);
                    lemma_someone_needs(s, target, all);
                    lemma_same_walks(s, self@);
                    assert(self@ =~= s.decided());
                }
            },
        }
    }
}

/// A search that has the walks of one in order is in order too, given a current walk.
proof fn lemma_same_walks(a: Progress, b: Progress)
    requires
        a.proper(),
        b.walks == a.walks,
        b.terms == a.terms,
        b.count == a.count,
        b.heads.len() == a.heads.len(),
        b.marks.len() == a.marks.len(),
    ensures
        forall|t: int| 0 <= t < b.count ==> #[trigger] b.has_walk(t),
        forall|i: int| 0 <= i < b.terms.len() ==> #[trigger] b.terms[i] < b.count,
{
    assert forall|t: int| 0 <= t < b.count implies #[trigger] b.has_walk(t) by {
        assert(a.has_walk(t));
    }
}

/// Which walk needs moving depends on the heads and the goal alone.
pub proof fn lemma_needing_same(a: Progress, b: Progress, i: int)
    requires
        a.walks.len() == b.walks.len(),
        a.heads == b.heads,
        a.goal == b.goal,
        a.window == b.window,
    ensures
        a.next_needing(i) == b.next_needing(i),
    decreases a.walks.len() - i,
{
    if !(i >= a.walks.len() || a.needs(i)) {
        lemma_needing_same(a, b, i + 1);
    }
}

/// A spent term ends the search.
proof fn lemma_spent(order: Order, heads: Seq<Option<Position>>, i: int)
    requires
        0 <= i < heads.len(),
        heads[i] is None,
    ensures
        most_advanced(order, heads) is None,
    decreases heads.len(),
{
    if heads.len() > 1 && i < heads.len() - 1 {
        lemma_spent(order, heads.drop_last(), i);
    }
}

/// No head is past the most advanced one, and one of them is it.
pub proof fn lemma_most_advanced(order: Order, heads: Seq<Option<Position>>, i: int)
    requires
        0 <= i < heads.len(),
        most_advanced(order, heads) is Some,
    ensures
        heads[i] is Some,
        !before(order, most_advanced(order, heads)->0, heads[i]->0),
        exists|j: int| 0 <= j < heads.len() && #[trigger] heads[j] == most_advanced(order, heads),
    decreases heads.len(),
{
    if heads.len() == 1 {
        assert(heads[0] == most_advanced(order, heads));
    } else {
        let head = heads.drop_last();
        let last = heads.last();
        if i < head.len() {
            lemma_most_advanced(order, head, i);
            assert(head[i] == heads[i]);
        } else {
            lemma_most_advanced(order, head, 0);
        }
        let j = choose|j: int| 0 <= j < head.len() && #[trigger] head[j] == most_advanced(order, head);
        assert(heads[j] == head[j]);
        assert(heads[heads.len() - 1] == last);
    }
}

/// A term's head is the head of one of its walks, and none of them is before it.
pub proof fn lemma_head_among(s: Progress, term: int, n: int)
    requires
        0 <= n <= s.terms.len(),
        s.heads.len() == s.terms.len(),
    ensures
        match s.head_among(term, n) {
            Some(h) => exists|i: int|
                0 <= i < n && #[trigger] s.terms[i] == term && s.heads[i] == Some(h),
            None => forall|i: int|
                0 <= i < n && #[trigger] s.terms[i] == term ==> s.heads[i] is None,
        },
        forall|i: int|
            0 <= i < n && #[trigger] s.terms[i] == term && s.heads[i] is Some ==> s.head_among(
                term,
                n,
            ) is Some && !before(s.window.order, s.heads[i]->0, s.head_among(term, n)->0),
    decreases n,
{
    if n > 0 {
        lemma_head_among(s, term, n - 1);
        if s.head_among(term, n) is Some && s.head_among(term, n) != s.head_among(term, n - 1) {
            assert(s.terms[n - 1] == term);
        }
        if s.head_among(term, n) is Some && s.head_among(term, n) == s.head_among(term, n - 1) {
            let h = s.head_among(term, n)->0;
            let i = choose|i: int|
                0 <= i < n - 1 && #[trigger] s.terms[i] == term && s.heads[i] == Some(h);
            assert(s.terms[i] == term);
        }
    }
}

/// The walk from which on one has to be moved.
pub proof fn lemma_next_needing(s: Progress, i: int)
    requires
        0 <= i <= s.walks.len(),
    ensures
        i <= s.next_needing(i) <= s.walks.len(),
        s.next_needing(i) < s.walks.len() ==> s.needs(s.next_needing(i)),
        forall|j: int| i <= j < s.next_needing(i) ==> !#[trigger] s.needs(j),
    decreases s.walks.len() - i,
{
    if i < s.walks.len() && !s.needs(i) {
        lemma_next_needing(s, i + 1);
    }
}

/// A new goal has a walk to move.
pub proof fn lemma_someone_needs(s: Progress, target: Position, all: bool)
    requires
        s.proper(),
        !s.done,
        most_advanced(s.window.order, s.term_heads()) == Some(target),
        all <==> forall|t: int|
            0 <= t < s.term_heads().len() ==> #[trigger] s.term_heads()[t] == Some(target),
    ensures
        ({
            let goal = if all {
                Goal::Past(target)
            } else {
                Goal::To(target)
            };
            0 <= (Progress { goal, ..s }).next_needing(0) < s.walks.len()
        }),
{
    let order = s.window.order;
    let heads = s.term_heads();
    let goal = if all {
        Goal::Past(target)
    } else {
        Goal::To(target)
    };
    let b = Progress { goal, ..s };
    let n = s.walks.len() as int;
    lemma_next_needing(b, 0);
    let term = if all {
        0
    } else {
        choose|t: int| 0 <= t < heads.len() && #[trigger] heads[t] != Some(target)
    };
    lemma_most_advanced(order, heads, term);
    lemma_head_among(s, term, n);
    assert(heads[term] == s.head_among(term, n));
    let h = heads[term]->0;
    let i = choose|i: int| 0 <= i < n && #[trigger] s.terms[i] == term && s.heads[i] == Some(h);
    assert(b.needs(i));
}

// ---- what a search starts from, and how it moves

/// A filter without a term is not searched for. Any other is, from what it was given on, with one
/// walk for each of its terms in order and then two for `address`: the sender's and the
/// recipient's, which are one term.
pub proof fn a_search_has_a_walk_per_term(
    filter: &Filter,
    window: Window,
    limit: usize,
    r: Option<Search>,
    columns: Vec<(Keyspace, Vec<u8>)>,
    i: int,
)
    requires
        call_ensures(Search::new, (filter, window, limit), r),
        call_ensures(crate::entries::columns, (filter,), columns),
    ensures
        r is None <==> columns@.len() == 0 && filter.address is None,
        r is Some ==> {
            let s = r->0@;
            let n = columns@.len() as int;
            &&& s.proper()
            &&& s.window == window
            &&& s.limit == limit
            &&& !s.done
            &&& s.out.len() == 0
            &&& s.walks.len() == n + (if filter.address is Some {
                2int
            } else {
                0
            })
            &&& s.count == n + (if filter.address is Some {
                1int
            } else {
                0
            })
            &&& 0 <= i < n ==> s.terms[i] == i && s.walks[i].keyspace == columns@[i].0
                && s.walks[i].prefix == columns@[i].1@
            &&& filter.address is Some ==> {
                &&& s.terms[n] == n
                &&& s.terms[n + 1] == n
                &&& s.walks[n].keyspace is From
                &&& s.walks[n + 1].keyspace is To
                &&& s.walks[n].prefix == (filter.address->0).0@
                &&& s.walks[n + 1].prefix == (filter.address->0).0@
            }
        },
{
    let want = filter_columns(*filter);
    assert(column_views(columns@).len() == columns@.len());
    if 0 <= i < columns@.len() {
        assert(column_views(columns@)[i] == (columns@[i].0, columns@[i].1@));
    }
}

/// A walk that is short of its target takes up to sixteen steps toward it, one entry each, and then
/// a seek straight to it; it stops at the first entry that is not short of it.
pub proof fn sixteen_steps_and_then_a_seek(s: Progress, target: Position, pos: Position)
    requires
        s.goal == Goal::To(target),
        0 <= s.steps <= 16,
        0 <= s.current < s.marks.len(),
    ensures
        s.goes_on(pos) <==> before(s.window.order, pos, target) && s.steps < 16,
        s.goes_on(pos) ==> {
            let d = s.answered(Reading::At(pos));
            &&& d.current == s.current
            &&& d.goal == s.goal
            &&& d.steps == s.steps + 1
            &&& d.seek <==> s.steps + 1 == 16
            &&& d.bound() == (if s.steps + 1 == 16 {
                target
            } else {
                pos
            })
            &&& d.heads == s.heads
            &&& d.out == s.out
        },
        GALLOP_AFTER == 16,
{
}

} // verus!
