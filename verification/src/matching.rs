//! A search finds exactly what its terms have in common, in order, and comes to an end.

use vstd::prelude::*;

use crate::error::Error;
use crate::layout::entry_key;
use crate::position::{before, Order, Position};
use crate::scan::{found, lemma_first, lemma_key_of, lemma_past_places, lemma_reading, past_places, reading,
    remains, yields, Reading, Window};
use crate::search::{filter_walks, lemma_head_among, lemma_most_advanced, lemma_needing_same, lemma_next_needing,
    lemma_someone_needs, most_advanced, search_of, Goal, Progress, Request, Search,
    GALLOP_AFTER};
use crate::store::Contents;
use crate::types::Filter;

verus! {

impl Progress {
    /// Whether a walk of a term yields a position.
    pub open spec fn in_term(self, m: Contents, term: int, p: Position) -> bool {
        exists|i: int|
            0 <= i < self.walks.len() && #[trigger] self.terms[i] == term && yields(
                m,
                self.walks[i],
                self.window,
                p,
            )
    }

    /// Whether every term yields a position.
    pub open spec fn matches(self, m: Contents, p: Position) -> bool {
        forall|t: int| 0 <= t < self.count ==> #[trigger] self.in_term(m, t, p)
    }

    /// Whether a goal leaves a position ahead.
    pub open spec fn leaves(self, p: Position) -> bool {
        match self.goal {
            Goal::Open => true,
            Goal::Past(q) => before(self.window.order, q, p),
            Goal::To(t) => !before(self.window.order, p, t),
        }
    }

    /// Whether a walk has been opened, when the first `n` have been moved for the goal.
    spec fn opened(self, n: int, i: int) -> bool {
        0 <= i < self.walks.len() && (self.goal is Open ==> i < n)
    }

    /// What was found so far: in order, all of it in every term, and nothing left behind.
    spec fn found_so_far(self, m: Contents) -> bool {
        &&& self.out.len() <= self.limit
        &&& forall|i: int, j: int|
            0 <= i < j < self.out.len() ==> before(
                self.window.order,
                #[trigger] self.out[i],
                #[trigger] self.out[j],
            )
        &&& forall|i: int| 0 <= i < self.out.len() ==> self.matches(m, #[trigger] self.out[i])
        &&& forall|p: Position| #[trigger]
            self.matches(m, p) ==> self.out.contains(p) || self.leaves(p)
        &&& self.out.len() > 0 ==> forall|p: Position| #[trigger]
            self.leaves(p) ==> before(self.window.order, self.out.last(), p)
        &&& self.goal is Open ==> self.out.len() == 0
        &&& self.goal is To ==> self.out.len() < self.limit
    }

    /// Where the walks stand, when the first `n` have been moved for the goal.
    spec fn standing(self, m: Contents, n: int) -> bool {
        &&& forall|i: int|
            #![trigger self.heads[i]]
            self.opened(n, i) && self.heads[i] is Some ==> {
                &&& yields(m, self.walks[i], self.window, self.heads[i]->0)
                &&& self.goal matches Goal::Past(q) ==> !before(
                    self.window.order,
                    self.heads[i]->0,
                    q,
                )
            }
        &&& forall|i: int|
            #![trigger self.marks[i]]
            self.opened(n, i) && self.heads[i] is Some && (i < n || i > self.current)
                ==> self.marks[i] == self.heads[i]->0
        &&& forall|i: int, p: Position|
            #![trigger yields(m, self.walks[i], self.window, p)]
            self.opened(n, i) && yields(m, self.walks[i], self.window, p) && self.leaves(p)
                ==> self.heads[i] is Some && !before(self.window.order, p, self.heads[i]->0)
        &&& forall|i: int|
            0 <= i < n && !(self.goal is Open) ==> !#[trigger] self.needs(i)
        &&& self.goal matches Goal::To(t) ==> self.window.holds(t)
    }

    /// A search that tells the truth about a store, with the first `n` walks moved for the goal.
    spec fn kept(self, m: Contents, n: int) -> bool {
        self.found_so_far(m) && self.standing(m, n)
    }

    /// A search that tells the truth about a store: what it has found, and where it stands.
    pub closed spec fn sound(self, m: Contents) -> bool {
        if self.done {
            finds(m, self, self.out)
        } else {
            &&& self.kept(m, self.current)
            &&& !(self.goal is Open) ==> self.needs(self.current)
            &&& self.goal matches Goal::Past(q) ==> !self.seek && self.marks[self.current] == q
            &&& self.goal is To && self.steps == GALLOP_AFTER ==> self.seek
            &&& self.goal matches Goal::To(t) ==> before(
                self.window.order,
                self.marks[self.current],
                t,
            )
            &&& !self.seek ==> {
                &&& !before(self.window.order, self.marks[self.current], self.window.first())
                &&& forall|p: Position| #[trigger]
                    yields(m, self.walk(), self.window, p) && self.leaves(p) ==> before(
                        self.window.order,
                        self.marks[self.current],
                        p,
                    )
            }
        }
    }
}

/// `out` is what the terms of a search have in common: in order, each once, and all of it, or
/// the first as many as the limit allows.
pub open spec fn finds(m: Contents, s: Progress, out: Seq<Position>) -> bool {
    &&& out.len() <= s.limit
    &&& forall|i: int, j: int|
        0 <= i < j < out.len() ==> before(s.window.order, #[trigger] out[i], #[trigger] out[j])
    &&& forall|i: int| 0 <= i < out.len() ==> s.matches(m, #[trigger] out[i])
    &&& forall|p: Position| #[trigger]
        s.matches(m, p) ==> out.contains(p) || (out.len() == s.limit && (out.len() > 0 ==> before(
            s.window.order,
            out.last(),
            p,
        )))
}

/// A search and what it becomes look for the same thing.
proof fn lemma_same_matches(m: Contents, a: Progress, b: Progress)
    requires
        a.walks == b.walks,
        a.terms == b.terms,
        a.count == b.count,
        a.window == b.window,
    ensures
        forall|p: Position| #[trigger] a.matches(m, p) == b.matches(m, p),
        forall|t: int, p: Position| #[trigger] a.in_term(m, t, p) == b.in_term(m, t, p),
{
    assert forall|t: int, p: Position| #[trigger] a.in_term(m, t, p) == b.in_term(m, t, p) by {
        if a.in_term(m, t, p) {
            let i = choose|i: int|
                0 <= i < a.walks.len() && #[trigger] a.terms[i] == t && yields(
                    m,
                    a.walks[i],
                    a.window,
                    p,
                );
            assert(b.terms[i] == t);
        }
        if b.in_term(m, t, p) {
            let i = choose|i: int|
                0 <= i < b.walks.len() && #[trigger] b.terms[i] == t && yields(
                    m,
                    b.walks[i],
                    b.window,
                    p,
                );
            assert(a.terms[i] == t);
        }
    }
    assert forall|p: Position| #[trigger] a.matches(m, p) == b.matches(m, p) by {
        if a.matches(m, p) {
            assert forall|t: int| 0 <= t < b.count implies #[trigger] b.in_term(m, t, p) by {
                assert(a.in_term(m, t, p));
            }
        }
        if b.matches(m, p) {
            assert forall|t: int| 0 <= t < a.count implies #[trigger] a.in_term(m, t, p) by {
                assert(b.in_term(m, t, p));
            }
        }
    }
}

/// A search that has read nothing tells the truth.
pub proof fn lemma_sound_at_first(m: Contents, filter: Filter, window: Window, limit: usize, s: Progress)
    requires
        s.proper(),
        search_of(filter, window, limit, s),
    ensures
        s.sound(m),
{
}

/// What every term yields has not been passed over: it lies at the meeting point or beyond.
proof fn lemma_meeting(m: Contents, s: Progress, p: Position)
    requires
        s.proper(),
        !s.done,
        s.kept(m, s.walks.len() as int),
        s.matches(m, p),
        s.leaves(p),
    ensures
        most_advanced(s.window.order, s.term_heads()) is Some,
        !before(s.window.order, p, most_advanced(s.window.order, s.term_heads())->0),
{
    let heads = s.term_heads();
    let order = s.window.order;
    let n = s.walks.len() as int;
    assert forall|t: int| 0 <= t < heads.len() implies (#[trigger] heads[t]) is Some && !before(
        order,
        p,
        heads[t]->0,
    ) by {
        assert(s.in_term(m, t, p));
        let i = choose|i: int|
            0 <= i < s.walks.len() && #[trigger] s.terms[i] == t && yields(
                m,
                s.walks[i],
                s.window,
                p,
            );
        assert(s.opened(n, i));
        lemma_head_among(s, t, n);
        assert(s.heads[i] is Some);
    }
    lemma_all_some(order, heads);
    lemma_most_advanced(order, heads, 0);
    let j = choose|j: int| 0 <= j < heads.len() && #[trigger] heads[j] == most_advanced(order, heads);
    assert(heads[j] is Some);
}

proof fn lemma_all_some(order: Order, heads: Seq<Option<Position>>)
    requires
        heads.len() > 0,
        forall|i: int| 0 <= i < heads.len() ==> (#[trigger] heads[i]) is Some,
    ensures
        most_advanced(order, heads) is Some,
    decreases heads.len(),
{
    if heads.len() > 1 {
        assert forall|i: int| 0 <= i < heads.drop_last().len() implies (
        #[trigger] heads.drop_last()[i]) is Some by {
            assert(heads[i] is Some);
        }
        lemma_all_some(order, heads.drop_last());
        assert(heads[heads.len() - 1] is Some);
    }
}

/// A goal leaves the meeting point ahead, and what lies beyond a position it leaves.
proof fn lemma_meeting_is_ahead(m: Contents, s: Progress)
    requires
        s.proper(),
        !s.done,
        s.kept(m, s.walks.len() as int),
        most_advanced(s.window.order, s.term_heads()) is Some,
    ensures
        ({
            let t = most_advanced(s.window.order, s.term_heads())->0;
            &&& s.leaves(t)
            &&& s.window.holds(t)
            &&& forall|i: int|
                0 <= i < s.walks.len() && (#[trigger] s.heads[i]) is Some ==> s.leaves(
                    s.heads[i]->0,
                )
        }),
{
    let heads = s.term_heads();
    let order = s.window.order;
    let n = s.walks.len() as int;
    assert forall|i: int| 0 <= i < s.walks.len() && (#[trigger] s.heads[i]) is Some implies s.leaves(
        s.heads[i]->0,
    ) by {
        assert(s.opened(n, i));
        if !(s.goal is Open) {
            assert(!s.needs(i));
        }
    }
    lemma_most_advanced(order, heads, 0);
    let j = choose|j: int| 0 <= j < heads.len() && #[trigger] heads[j] == most_advanced(order, heads);
    lemma_head_among(s, j, n);
    let t = heads[j]->0;
    let i = choose|i: int| 0 <= i < n && #[trigger] s.terms[i] == j && s.heads[i] == Some(t);
    assert(s.opened(n, i));
    assert(s.heads[i] is Some);
}

/// Once every walk has been moved for the goal, what comes next tells the truth too.
proof fn lemma_decided(m: Contents, s: Progress)
    requires
        s.proper(),
        !s.done,
        s.kept(m, s.walks.len() as int),
    ensures
        s.decided().sound(m),
        s.decided().proper(),
{
    let heads = s.term_heads();
    let order = s.window.order;
    let n = s.walks.len() as int;
    let meeting = most_advanced(order, heads);
    let d = s.decided();
    if s.out.len() >= s.limit || meeting is None {
        lemma_same_matches(m, s, d);
        assert forall|t: int| 0 <= t < d.count implies #[trigger] d.has_walk(t) by {
            assert(s.has_walk(t));
        }
        assert forall|p: Position| #[trigger] d.matches(m, p) implies d.out.contains(p) || (
        d.out.len() == d.limit && (d.out.len() > 0 ==> before(d.window.order, d.out.last(), p))) by {
            assert(s.matches(m, p));
            if !s.out.contains(p) {
                assert(s.leaves(p));
                if s.out.len() < s.limit {
                    lemma_meeting(m, s, p);
                }
            }
        }
        assert forall|i: int| 0 <= i < d.out.len() implies d.matches(m, #[trigger] d.out[i]) by {
            assert(s.matches(m, s.out[i]));
        }
    } else {
        let t = meeting->0;
        let all = forall|k: int| 0 <= k < heads.len() ==> #[trigger] heads[k] == meeting;
        lemma_meeting_is_ahead(m, s);
        lemma_someone_needs(s, t, all);
        lemma_same_matches(m, s, d);
        assert forall|k: int| 0 <= k < d.count implies #[trigger] d.has_walk(k) by {
            assert(s.has_walk(k));
        }
        let b = Progress {
            goal: if all {
                Goal::Past(t)
            } else {
                Goal::To(t)
            },
            ..s
        };
        lemma_needing_same(b, d, 0);
        lemma_needing_same(Progress { out: d.out, ..b }, d, 0);
        lemma_next_needing(d, 0);
        lemma_first(s.window, t);
        if all {
            assert(d.out == s.out.push(t));
            assert(s.matches(m, t)) by {
                assert forall|k: int| 0 <= k < s.count implies #[trigger] s.in_term(m, k, t) by {
                    assert(heads[k] == Some(t));
                    lemma_head_among(s, k, n);
                    let i = choose|i: int|
                        0 <= i < n && #[trigger] s.terms[i] == k && s.heads[i] == Some(t);
                    assert(s.opened(n, i));
                    assert(s.heads[i] is Some);
                    assert(s.terms[i] == k);
                }
            }
        }
        lemma_found_after(m, s, d, t, all);
        lemma_standing_after(m, s, d, t, all);
        let c = d.current;
        assert(d.needs(c));
        assert(d.heads[c] is Some);
        assert(s.opened(n, c));
        assert(s.marks[c] == s.heads[c]->0);
        assert(yields(m, s.walks[c], s.window, s.heads[c]->0));
        lemma_first(s.window, s.heads[c]->0);
    }
}

/// `d` is `s` with a new goal, at the meeting point.
spec fn retargeted(s: Progress, d: Progress, t: Position, all: bool) -> bool {
    &&& d.walks == s.walks
    &&& d.terms == s.terms
    &&& d.count == s.count
    &&& d.window == s.window
    &&& d.limit == s.limit
    &&& d.heads == s.heads
    &&& d.marks == s.marks
    &&& d.goal == (if all {
        Goal::Past(t)
    } else {
        Goal::To(t)
    })
    &&& d.out == (if all {
        s.out.push(t)
    } else {
        s.out
    })
}

proof fn lemma_found_after(m: Contents, s: Progress, d: Progress, t: Position, all: bool)
    requires
        s.proper(),
        !s.done,
        s.kept(m, s.walks.len() as int),
        retargeted(s, d, t, all),
        most_advanced(s.window.order, s.term_heads()) == Some(t),
        s.leaves(t),
        s.out.len() < s.limit,
        all ==> s.matches(m, t),
    ensures
        d.found_so_far(m),
{
    let order = s.window.order;
    lemma_same_matches(m, s, d);
    assert forall|p: Position| #[trigger] d.matches(m, p) implies d.out.contains(p) || d.leaves(p) by {
        assert(s.matches(m, p));
        if s.out.contains(p) {
            let i = choose|i: int| 0 <= i < s.out.len() && s.out[i] == p;
            assert(d.out[i] == p);
        } else {
            assert(s.leaves(p));
            lemma_meeting(m, s, p);
            if all && p == t {
                assert(d.out[s.out.len() as int] == p);
            }
        }
    }
    assert forall|i: int| 0 <= i < d.out.len() implies d.matches(m, #[trigger] d.out[i]) by {
        if i < s.out.len() {
            assert(s.matches(m, s.out[i]));
        }
    }
    assert forall|i: int, j: int| 0 <= i < j < d.out.len() implies before(
        order,
        #[trigger] d.out[i],
        #[trigger] d.out[j],
    ) by {
        if j < s.out.len() {
            assert(before(order, s.out[i], s.out[j]));
        } else {
            assert(before(order, s.out.last(), t));
            if i < s.out.len() - 1 {
                assert(before(order, s.out[i], s.out[s.out.len() - 1]));
            }
        }
    }
    assert(d.out.len() > 0 ==> forall|p: Position| #[trigger]
        d.leaves(p) ==> before(order, d.out.last(), p)) by {
        if d.out.len() > 0 && !all {
            assert forall|p: Position| #[trigger] d.leaves(p) implies before(
                order,
                d.out.last(),
                p,
            ) by {
                assert(before(order, s.out.last(), t));
            }
        }
    }
}

proof fn lemma_standing_after(m: Contents, s: Progress, d: Progress, t: Position, all: bool)
    requires
        s.proper(),
        s.kept(m, s.walks.len() as int),
        retargeted(s, d, t, all),
        d.current == d.next_needing(0),
        most_advanced(s.window.order, s.term_heads()) == Some(t),
        s.leaves(t),
        s.window.holds(t),
        forall|i: int|
            0 <= i < s.walks.len() && (#[trigger] s.heads[i]) is Some ==> s.leaves(s.heads[i]->0),
        all <==> forall|k: int|
            0 <= k < s.term_heads().len() ==> #[trigger] s.term_heads()[k] == Some(t),
    ensures
        d.standing(m, d.current),
{
    let order = s.window.order;
    let n = s.walks.len() as int;
    let heads = s.term_heads();
    lemma_next_needing(d, 0);
    lemma_first(s.window, t);
    assert forall|i: int|
        #![trigger d.heads[i]]
        d.opened(d.current, i) && d.heads[i] is Some implies {
        &&& yields(m, d.walks[i], d.window, d.heads[i]->0)
        &&& d.goal matches Goal::Past(q) ==> !before(d.window.order, d.heads[i]->0, q)
    } by {
        assert(s.opened(n, i));
        assert(s.heads[i] is Some);
        if all {
            let k = s.terms[i] as int;
            assert(heads[k] == Some(t));
            lemma_head_among(s, k, n);
            assert(s.terms[i] == k);
        }
    }
    assert forall|i: int|
        #![trigger d.marks[i]]
        d.opened(d.current, i) && d.heads[i] is Some && (i < d.current || i > d.current) implies d.marks[i]
        == d.heads[i]->0 by {
        assert(s.opened(n, i));
        assert(s.marks[i] == s.heads[i]->0);
    }
    assert forall|i: int, p: Position|
        #![trigger yields(m, d.walks[i], d.window, p)]
        d.opened(d.current, i) && yields(m, d.walks[i], d.window, p) && d.leaves(p) implies d.heads[i]
        is Some && !before(order, p, d.heads[i]->0) by {
        assert(s.opened(n, i));
        assert(s.leaves(p));
        assert(yields(m, s.walks[i], s.window, p));
    }
}

/// Once the current walk has been moved for the goal, what comes next tells the truth too.
proof fn lemma_settled(m: Contents, s: Progress, head: Option<Position>)
    requires
        s.proper(),
        !s.done,
        s.found_so_far(m),
        ({
            let b = Progress { heads: s.heads.update(s.current, head), ..s };
            b.standing(m, s.current + 1)
        }),
    ensures
        s.settled(head).sound(m),
        s.settled(head).proper(),
{
    let b = Progress { heads: s.heads.update(s.current, head), ..s };
    let c = s.current + 1;
    let next = b.next_needing(c);
    let d = s.settled(head);
    lemma_same_matches(m, s, b);
    assert forall|t: int| 0 <= t < b.count implies #[trigger] b.has_walk(t) by {
        assert(s.has_walk(t));
    }
    assert(b.found_so_far(m)) by {
        assert forall|i: int| 0 <= i < b.out.len() implies b.matches(m, #[trigger] b.out[i]) by {
            assert(s.matches(m, s.out[i]));
        }
        assert forall|p: Position| #[trigger] b.matches(m, p) implies b.out.contains(p) || b.leaves(
            p,
        ) by {
            assert(s.matches(m, p));
            assert(s.leaves(p) == b.leaves(p));
        }
        if b.out.len() > 0 {
            assert forall|p: Position| #[trigger] b.leaves(p) implies before(
                b.window.order,
                b.out.last(),
                p,
            ) by {
                assert(s.leaves(p));
            }
        }
    }
    lemma_next_needing(b, c);
    assert(b.standing(m, next)) by {
        assert forall|i: int| 0 <= i < next && !(b.goal is Open) implies !#[trigger] b.needs(i) by {
            if i >= c {
                assert(!b.needs(i));
            }
        }
        if b.goal is Open && c < b.walks.len() {
            assert(b.needs(c));
            assert(next == c);
        }
        assert forall|i: int|
            #![trigger b.marks[i]]
            b.opened(next, i) && b.heads[i] is Some && (i < next || i > b.current) implies b.marks[i]
            == b.heads[i]->0 by {
            assert(b.opened(c, i));
        }
        assert forall|i: int|
            #![trigger b.heads[i]]
            b.opened(next, i) && b.heads[i] is Some implies {
            &&& yields(m, b.walks[i], b.window, b.heads[i]->0)
            &&& b.goal matches Goal::Past(q) ==> !before(b.window.order, b.heads[i]->0, q)
        } by {
            assert(b.opened(c, i));
        }
        assert forall|i: int, p: Position|
            #![trigger yields(m, b.walks[i], b.window, p)]
            b.opened(next, i) && yields(m, b.walks[i], b.window, p) && b.leaves(p) implies b.heads[i]
            is Some && !before(b.window.order, p, b.heads[i]->0) by {
            assert(b.opened(c, i));
        }
    }
    if next < b.walks.len() {
        assert(d == Progress { current: next, steps: 0, seek: s.goal is Open, ..b });
        lemma_same_matches(m, b, d);
        assert forall|t: int| 0 <= t < d.count implies #[trigger] d.has_walk(t) by {
            assert(b.has_walk(t));
        }
        assert(d.found_so_far(m)) by {
            assert forall|i: int| 0 <= i < d.out.len() implies d.matches(m, #[trigger] d.out[i]) by {
                assert(b.matches(m, b.out[i]));
            }
            assert forall|p: Position| #[trigger] d.matches(m, p) implies d.out.contains(p)
                || d.leaves(p) by {
                assert(b.matches(m, p));
                assert(b.leaves(p) == d.leaves(p));
            }
            if d.out.len() > 0 {
                assert forall|p: Position| #[trigger] d.leaves(p) implies before(
                    d.window.order,
                    d.out.last(),
                    p,
                ) by {
                    assert(b.leaves(p));
                }
            }
        }
        assert(d.standing(m, next)) by {
            assert forall|i: int| 0 <= i < next && !(d.goal is Open) implies !#[trigger] d.needs(
                i,
            ) by {
                assert(!b.needs(i));
            }
            assert forall|i: int|
                #![trigger d.marks[i]]
                d.opened(next, i) && d.heads[i] is Some && (i < next || i > d.current) implies d.marks[i]
                == d.heads[i]->0 by {
                assert(b.opened(next, i));
                assert(b.marks[i] == b.heads[i]->0);
            }
            assert forall|i: int|
                #![trigger d.heads[i]]
                d.opened(next, i) && d.heads[i] is Some implies {
                &&& yields(m, d.walks[i], d.window, d.heads[i]->0)
                &&& d.goal matches Goal::Past(q) ==> !before(d.window.order, d.heads[i]->0, q)
            } by {
                assert(b.opened(next, i));
                assert(b.heads[i] is Some);
            }
            assert forall|i: int, p: Position|
                #![trigger yields(m, d.walks[i], d.window, p)]
                d.opened(next, i) && yields(m, d.walks[i], d.window, p) && d.leaves(p) implies d.heads[i]
                is Some && !before(d.window.order, p, d.heads[i]->0) by {
                assert(b.opened(next, i));
                assert(b.leaves(p));
                assert(yields(m, b.walks[i], b.window, p));
            }
        }
        if !(d.goal is Open) {
            assert(b.needs(next));
            assert(d.needs(next));
            assert(b.opened(next, next));
            assert(b.heads[next] is Some);
            assert(b.marks[next] == b.heads[next]->0);
            lemma_first(d.window, d.heads[next]->0);
            assert forall|p: Position| #[trigger]
                yields(m, d.walk(), d.window, p) && d.leaves(p) implies before(
                d.window.order,
                d.marks[d.current],
                p,
            ) by {
                assert(yields(m, b.walks[next], b.window, p));
                assert(b.leaves(p));
            }
        }
    } else {
        lemma_decided(m, b);
    }
}

/// A search that tells the truth goes on doing so, whatever it is truthfully told.
pub proof fn lemma_answered(m: Contents, s: Progress, got: Option<Seq<u8>>)
    requires
        s.proper(),
        !s.done,
        s.sound(m),
        s.is_told(m, got),
        reading(s.walk(), s.window, got) is Ok,
    ensures
        s.answered(reading(s.walk(), s.window, got)->Ok_0).sound(m),
        s.answered(reading(s.walk(), s.window, got)->Ok_0).proper(),
{
    let order = s.window.order;
    let entry = reading(s.walk(), s.window, got)->Ok_0;
    let q = s.bound();
    let c = s.current;
    if !(s.goal is Open) {
        assert(s.opened(c, c));
        assert(s.needs(c));
        assert(s.heads[c] is Some);
    }
    if s.seek && s.goal is To {
        lemma_first(s.window, q);
    }
    lemma_reading(m, s.walk(), s.window, q, s.seek, got);
    // Everything the walk yields that the goal leaves lies ahead of its iterator.
    assert forall|p: Position| #[trigger] yields(m, s.walk(), s.window, p) && s.leaves(p) implies remains(
        order,
        q,
        s.seek,
        p,
    ) by {
        if s.seek {
            lemma_first(s.window, p);
        }
    }
    match entry {
        Reading::End => {
            let b = Progress { heads: s.heads.update(c, None), ..s };
            lemma_moved(m, s, b, None);
            lemma_settled(m, s, None);
        },
        Reading::Skip => {
            let d = s.answered(entry);
            lemma_stood(m, s, d, s.window.after->0);
        },
        Reading::At(pos) => {
            let e = s.stands_at(pos);
            if s.goes_on(pos) {
                let d = s.answered(entry);
                lemma_stood(m, s, d, pos);
            } else {
                let b = Progress { heads: e.heads.update(c, Some(pos)), ..e };
                lemma_moved(m, s, b, Some(pos));
                assert(e.found_so_far(m)) by {
                    lemma_still_found(m, s, e);
                }
                assert forall|t: int| 0 <= t < e.count implies #[trigger] e.has_walk(t) by {
                    assert(s.has_walk(t));
                }
                lemma_settled(m, e, Some(pos));
            }
        },
    }
}

proof fn lemma_still_found(m: Contents, s: Progress, d: Progress)
    requires
        s.found_so_far(m),
        d.walks == s.walks,
        d.terms == s.terms,
        d.count == s.count,
        d.window == s.window,
        d.limit == s.limit,
        d.goal == s.goal,
        d.out == s.out,
    ensures
        d.found_so_far(m),
{
    lemma_same_matches(m, s, d);
    assert forall|i: int| 0 <= i < d.out.len() implies d.matches(m, #[trigger] d.out[i]) by {
        assert(s.matches(m, s.out[i]));
    }
    assert forall|p: Position| #[trigger] d.matches(m, p) implies d.out.contains(p) || d.leaves(
        p,
    ) by {
        assert(s.matches(m, p));
        assert(s.leaves(p) == d.leaves(p));
    }
    if d.out.len() > 0 {
        assert forall|p: Position| #[trigger] d.leaves(p) implies before(
            d.window.order,
            d.out.last(),
            p,
        ) by {
            assert(s.leaves(p));
        }
    }
}

/// The current walk's iterator has gone on, and the walk has not been settled.
proof fn lemma_stood(m: Contents, s: Progress, d: Progress, pos: Position)
    requires
        s.proper(),
        !s.done,
        s.sound(m),
        d.walks == s.walks,
        d.terms == s.terms,
        d.count == s.count,
        d.window == s.window,
        d.limit == s.limit,
        d.heads == s.heads,
        d.goal == s.goal,
        d.current == s.current,
        d.out == s.out,
        d.marks == s.marks.update(s.current, pos),
        !d.done,
        0 <= d.steps <= GALLOP_AFTER,
        !(d.goal is Past),
        d.goal is To && d.steps == GALLOP_AFTER ==> d.seek,
        d.goal matches Goal::To(t) ==> before(d.window.order, pos, t),
        !before(s.window.order, pos, s.window.first()),
        forall|p: Position| #[trigger]
            yields(m, s.walk(), s.window, p) && s.leaves(p) ==> before(s.window.order, pos, p)
                || s.goes_on(pos),
    ensures
        d.sound(m),
        d.proper(),
{
    let c = s.current;
    lemma_still_found(m, s, d);
    assert forall|t: int| 0 <= t < d.count implies #[trigger] d.has_walk(t) by {
        assert(s.has_walk(t));
    }
    assert(d.standing(m, c)) by {
        assert forall|i: int| 0 <= i < c && !(d.goal is Open) implies !#[trigger] d.needs(i) by {
            assert(!s.needs(i));
        }
        assert forall|i: int|
            #![trigger d.marks[i]]
            d.opened(c, i) && d.heads[i] is Some && (i < c || i > d.current) implies d.marks[i]
            == d.heads[i]->0 by {
            assert(s.opened(c, i));
            assert(s.marks[i] == s.heads[i]->0);
        }
        assert forall|i: int|
            #![trigger d.heads[i]]
            d.opened(c, i) && d.heads[i] is Some implies {
            &&& yields(m, d.walks[i], d.window, d.heads[i]->0)
            &&& d.goal matches Goal::Past(q) ==> !before(d.window.order, d.heads[i]->0, q)
        } by {
            assert(s.opened(c, i));
            assert(s.heads[i] is Some);
        }
        assert forall|i: int, p: Position|
            #![trigger yields(m, d.walks[i], d.window, p)]
            d.opened(c, i) && yields(m, d.walks[i], d.window, p) && d.leaves(p) implies d.heads[i]
            is Some && !before(d.window.order, p, d.heads[i]->0) by {
            assert(s.opened(c, i));
            assert(s.leaves(p));
            assert(yields(m, s.walks[i], s.window, p));
        }
    }
    if !(d.goal is Open) {
        assert(s.needs(c));
        assert(d.needs(c));
    }
    assert forall|p: Position| #[trigger] yields(m, d.walk(), d.window, p) && d.leaves(p) implies before(
        d.window.order,
        d.marks[d.current],
        p,
    ) by {
        assert(yields(m, s.walk(), s.window, p));
        assert(s.leaves(p));
    }
}

/// The current walk has been moved for the goal, to its first position that the goal leaves, or
/// to its end where there is none.
proof fn lemma_moved(m: Contents, s: Progress, b: Progress, head: Option<Position>)
    requires
        s.proper(),
        !s.done,
        s.sound(m),
        b.walks == s.walks,
        b.window == s.window,
        b.goal == s.goal,
        b.current == s.current,
        b.heads == s.heads.update(s.current, head),
        b.marks == (match head {
            Some(pos) => s.marks.update(s.current, pos),
            None => s.marks,
        }),
        match head {
            Some(pos) => {
                &&& yields(m, s.walk(), s.window, pos)
                &&& remains(s.window.order, s.bound(), s.seek, pos)
                &&& !s.goes_on(pos)
                &&& forall|p: Position| #[trigger]
                    yields(m, s.walk(), s.window, p) && s.leaves(p) ==> !before(
                        s.window.order,
                        p,
                        pos,
                    )
            },
            None => forall|p: Position| #[trigger]
                yields(m, s.walk(), s.window, p) ==> !s.leaves(p),
        },
    ensures
        b.standing(m, s.current + 1),
{
    let c = s.current;
    let order = s.window.order;
    assert forall|i: int| 0 <= i < c + 1 && !(b.goal is Open) implies !#[trigger] b.needs(i) by {
        if i < c {
            assert(!s.needs(i));
        } else if head is Some {
            assert(s.needs(c));
        }
    }
    assert forall|i: int|
        #![trigger b.marks[i]]
        b.opened(c + 1, i) && b.heads[i] is Some && (i < c + 1 || i > b.current) implies b.marks[i]
        == b.heads[i]->0 by {
        if i != c {
            assert(s.opened(c, i));
            assert(s.marks[i] == s.heads[i]->0);
        }
    }
    assert forall|i: int|
        #![trigger b.heads[i]]
        b.opened(c + 1, i) && b.heads[i] is Some implies {
        &&& yields(m, b.walks[i], b.window, b.heads[i]->0)
        &&& b.goal matches Goal::Past(q) ==> !before(b.window.order, b.heads[i]->0, q)
    } by {
        if i != c {
            assert(s.opened(c, i));
            assert(s.heads[i] is Some);
        } else if s.goal is Past {
            assert(s.needs(c));
        }
    }
    assert forall|i: int, p: Position|
        #![trigger yields(m, b.walks[i], b.window, p)]
        b.opened(c + 1, i) && yields(m, b.walks[i], b.window, p) && b.leaves(p) implies b.heads[i]
        is Some && !before(b.window.order, p, b.heads[i]->0) by {
        assert(s.leaves(p));
        assert(yields(m, s.walks[i], s.window, p));
        if i != c {
            assert(s.opened(c, i));
        }
    }
}

// ---- a whole search

/// The states of a search, and what it was told between them: each answer is what the store's
/// iterator hands back, and none is malformed.
pub open spec fn is_run(m: Contents, states: Seq<Progress>, told: Seq<Option<Seq<u8>>>) -> bool {
    &&& states.len() == told.len() + 1
    &&& forall|i: int|
        #![trigger told[i]]
        0 <= i < told.len() ==> {
            let s = states[i];
            &&& !s.done
            &&& s.is_told(m, told[i])
            &&& reading(s.walk(), s.window, told[i]) is Ok
            &&& states[i + 1] == s.answered(reading(s.walk(), s.window, told[i])->Ok_0)
        }
}

/// Whatever happens on the way, a search looks for the same thing throughout.
proof fn lemma_same_search(s: Progress, entry: Reading)
    ensures
        ({
            let d = s.answered(entry);
            &&& d.walks == s.walks
            &&& d.terms == s.terms
            &&& d.count == s.count
            &&& d.window == s.window
            &&& d.limit == s.limit
        }),
{
}

/// Every state of a search tells the truth about the store it reads.
proof fn lemma_run_is_sound(
    m: Contents,
    filter: Filter,
    window: Window,
    limit: usize,
    states: Seq<Progress>,
    told: Seq<Option<Seq<u8>>>,
    n: int,
)
    requires
        is_run(m, states, told),
        states[0].proper(),
        search_of(filter, window, limit, states[0]),
        0 <= n < states.len(),
    ensures
        states[n].proper(),
        states[n].sound(m),
        states[n].walks == states[0].walks,
        states[n].terms == states[0].terms,
        states[n].count == states[0].count,
        states[n].window == states[0].window,
        states[n].limit == states[0].limit,
    decreases n,
{
    if n == 0 {
        lemma_sound_at_first(m, filter, window, limit, states[0]);
    } else {
        lemma_run_is_sound(m, filter, window, limit, states, told, n - 1);
        let s = states[n - 1];
        let got = told[n - 1];
        lemma_answered(m, s, got);
        lemma_same_search(s, reading(s.walk(), s.window, got)->Ok_0);
    }
}

/// Every state of a search is in order, and looks for what the first one did.
pub proof fn lemma_run_stays(
    m: Contents,
    filter: Filter,
    window: Window,
    limit: usize,
    states: Seq<Progress>,
    told: Seq<Option<Seq<u8>>>,
)
    requires
        is_run(m, states, told),
        states[0].proper(),
        search_of(filter, window, limit, states[0]),
    ensures
        states.last().proper(),
        states.last().walks == filter_walks(filter),
        states.last().window == window,
{
    lemma_run_is_sound(m, filter, window, limit, states, told, states.len() - 1);
}

/// A search that is over has found exactly the positions that every term of its filter yields
/// within the window: in order, each once, and all of them or the first as many as the limit
/// allows.
pub proof fn a_search_finds_what_matches(
    m: Contents,
    filter: Filter,
    window: Window,
    limit: usize,
    states: Seq<Progress>,
    told: Seq<Option<Seq<u8>>>,
)
    requires
        is_run(m, states, told),
        states[0].proper(),
        search_of(filter, window, limit, states[0]),
        states.last().done,
    ensures
        finds(m, states[0], states.last().out),
{
    let n = states.len() - 1;
    lemma_run_is_sound(m, filter, window, limit, states, told, n);
    lemma_same_matches(m, states[0], states[n]);
    let out = states[n].out;
    assert forall|i: int| 0 <= i < out.len() implies states[0].matches(m, #[trigger] out[i]) by {
        assert(states[n].matches(m, out[i]));
    }
    assert forall|p: Position| #[trigger] states[0].matches(m, p) implies out.contains(p) || (
    out.len() == states[0].limit && (out.len() > 0 ==> before(
        states[0].window.order,
        out.last(),
        p,
    ))) by {
        assert(states[n].matches(m, p));
    }
}

// ---- one walk, moved for the goal

/// The last key that a walk was told, among the first `n` answers: `None` where it was told none,
/// or that there are no more.
pub open spec fn last_told(
    states: Seq<Progress>,
    told: Seq<Option<Seq<u8>>>,
    walk: int,
    n: int,
) -> Option<Seq<u8>>
    decreases n,
{
    if n <= 0 {
        None
    } else if states[n - 1].current == walk {
        told[n - 1]
    } else {
        last_told(states, told, walk, n - 1)
    }
}

/// Every walk that has a head stands at the key it was last told, and so does the one being moved
/// unless it has to be set first.
proof fn lemma_last_told(
    m: Contents,
    filter: Filter,
    window: Window,
    limit: usize,
    states: Seq<Progress>,
    told: Seq<Option<Seq<u8>>>,
    n: int,
    walk: int,
)
    requires
        is_run(m, states, told),
        states[0].proper(),
        search_of(filter, window, limit, states[0]),
        0 <= n < states.len(),
        !states[n].done,
        0 <= walk < states[n].walks.len(),
        states[n].heads[walk] is Some || (walk == states[n].current && !states[n].seek),
    ensures
        last_told(states, told, walk, n) == Some(
            entry_key(states[n].walks[walk].prefix, states[n].marks[walk]),
        ),
    decreases n,
{
    if n > 0 {
        let s = states[n - 1];
        let d = states[n];
        let got = told[n - 1];
        let entry = reading(s.walk(), s.window, got)->Ok_0;
        lemma_run_is_sound(m, filter, window, limit, states, told, n - 1);
        lemma_run_is_sound(m, filter, window, limit, states, told, n);
        lemma_same_search(s, entry);
        if walk == d.current && !(d.goal is Open) {
            assert(d.needs(walk));
        }
        if walk == s.current {
            if got is Some {
                lemma_key_of(s.walk(), s.window, got->0);
            }
        } else {
            assert(d.heads[walk] == s.heads[walk]);
            assert(d.marks[walk] == s.marks[walk]);
            lemma_last_told(m, filter, window, limit, states, told, n - 1, walk);
        }
    }
}

/// A walk that a search asks for its next key stands at the key it was last told: the caller's
/// iterator for it is where the search takes it to be.
pub proof fn a_walk_goes_on_from_its_last_key(
    m: Contents,
    filter: Filter,
    window: Window,
    limit: usize,
    states: Seq<Progress>,
    told: Seq<Option<Seq<u8>>>,
    n: int,
)
    requires
        is_run(m, states, told),
        states[0].proper(),
        search_of(filter, window, limit, states[0]),
        0 <= n < states.len(),
        !states[n].done,
        !states[n].seek,
    ensures
        last_told(states, told, states[n].current, n) == Some(
            entry_key(states[n].walk().prefix, states[n].marks[states[n].current]),
        ),
{
    lemma_run_is_sound(m, filter, window, limit, states, told, n);
    lemma_last_told(m, filter, window, limit, states, told, n, states[n].current);
}

impl Progress {
    /// The current walk has been taken up for the goal and not been moved: it is to be opened, or
    /// stands within its window.
    pub open spec fn sets_out(self) -> bool {
        &&& self.proper()
        &&& !self.done
        &&& self.steps == 0
        &&& self.seek <==> self.goal is Open
        &&& !self.seek ==> !before(
            self.window.order,
            self.marks[self.current],
            self.window.first(),
        )
    }

    /// Whether an entry ends the moving of the current walk for the goal.
    pub open spec fn settles(self, entry: Reading) -> bool {
        match entry {
            Reading::End => true,
            Reading::Skip => false,
            Reading::At(pos) => !self.goes_on(pos),
        }
    }

    /// Whether the current walk is being moved for a position: it would yet yield it, and the goal
    /// is no further.
    pub open spec fn seeks(self, m: Contents, p: Position) -> bool {
        &&& yields(m, self.walk(), self.window, p)
        &&& !self.seek ==> before(self.window.order, self.marks[self.current], p)
        &&& self.goal matches Goal::To(t) ==> !before(self.window.order, p, t)
    }

    /// Every walk but the one that `start` moves is where it was in it.
    pub open spec fn others_as_in(self, start: Progress) -> bool {
        &&& forall|i: int|
            0 <= i < start.walks.len() && i != start.current ==> #[trigger] self.heads[i]
                == start.heads[i]
        &&& forall|i: int|
            0 <= i < start.walks.len() && i != start.current ==> #[trigger] self.marks[i]
                == start.marks[i]
    }

    /// Under way from `start`, which set out, the current walk has passed over nothing that it is
    /// moved for, and nothing that it had passed before lies ahead.
    spec fn on_its_way(self, m: Contents, start: Progress) -> bool {
        &&& self.proper()
        &&& !self.done
        &&& self.walks == start.walks
        &&& self.window == start.window
        &&& self.goal == start.goal
        &&& self.current == start.current
        &&& self.others_as_in(start)
        &&& !before(self.window.order, self.bound(), self.window.first())
        &&& self.goal is Past ==> !self.seek
        &&& self.goal matches Goal::To(t) ==> {
            &&& self.seek <==> self.steps == GALLOP_AFTER
            &&& !before(self.window.order, self.marks[self.current], self.window.first())
            &&& self.seek ==> before(self.window.order, self.marks[self.current], t)
        }
        &&& forall|p: Position| #[trigger]
            start.seeks(m, p) ==> remains(self.window.order, self.bound(), self.seek, p)
        &&& forall|p: Position| #[trigger]
            yields(m, self.walk(), self.window, p) && remains(
                self.window.order,
                self.bound(),
                self.seek,
                p,
            ) ==> start.seek || before(start.window.order, start.marks[start.current], p)
    }
}

/// The states of a search while one walk is moved for the goal: it sets out in the first, and the
/// last answer, and no other, settles it.
pub open spec fn is_move(m: Contents, states: Seq<Progress>, told: Seq<Option<Seq<u8>>>) -> bool {
    &&& is_run(m, states, told)
    &&& told.len() > 0
    &&& states[0].sets_out()
    &&& forall|i: int|
        #![trigger told[i]]
        0 <= i < told.len() ==> {
            let s = states[i];
            s.settles(reading(s.walk(), s.window, told[i])->Ok_0) <==> i == told.len() - 1
        }
}

proof fn lemma_on_its_way(
    m: Contents,
    states: Seq<Progress>,
    told: Seq<Option<Seq<u8>>>,
    n: int,
)
    requires
        is_move(m, states, told),
        0 <= n < told.len(),
    ensures
        states[n].on_its_way(m, states[0]),
    decreases n,
{
    let start = states[0];
    let order = start.window.order;
    if n == 0 {
        assert forall|p: Position| #[trigger] start.seeks(m, p) implies remains(
            order,
            start.bound(),
            start.seek,
            p,
        ) by {
            lemma_first(start.window, p);
        }
    } else {
        lemma_on_its_way(m, states, told, n - 1);
        let s = states[n - 1];
        let d = states[n];
        let got = told[n - 1];
        let entry = reading(s.walk(), s.window, got)->Ok_0;
        lemma_reading(m, s.walk(), s.window, s.bound(), s.seek, got);
        lemma_same_search(s, entry);
        assert forall|t: int| 0 <= t < d.count implies #[trigger] d.has_walk(t) by {
            assert(s.has_walk(t));
        }
        assert forall|p: Position| #[trigger] start.seeks(m, p) implies remains(
            order,
            d.bound(),
            d.seek,
            p,
        ) by {
            assert(yields(m, s.walk(), s.window, p));
        }
        assert forall|p: Position| #[trigger] yields(m, d.walk(), d.window, p) && remains(
            order,
            d.bound(),
            d.seek,
            p,
        ) implies start.seek || before(order, start.marks[start.current], p) by {
            assert(yields(m, s.walk(), s.window, p));
            if entry is At {
                assert(yields(m, s.walk(), s.window, entry->0));
            }
        }
    }
}

/// A walk that is moved for a goal comes to the first position that it is moved for, and stands
/// there, or to its end where there is none. So a walk that is opened comes to the first position
/// of its window; one that is moved on, to the one that follows; and one that is moved up to a
/// target, to the first at or past it, whether it steps all the way or is set to it, and never
/// past the end of its range. No other walk moves meanwhile.
pub proof fn a_walk_comes_to_its_goal(
    m: Contents,
    states: Seq<Progress>,
    told: Seq<Option<Seq<u8>>>,
)
    requires
        is_move(m, states, told),
    ensures
        match states.last().heads[states[0].current] {
            Some(p) => {
                &&& states[0].seeks(m, p)
                &&& states.last().marks[states[0].current] == p
                &&& forall|o: Position| #[trigger]
                    states[0].seeks(m, o) ==> !before(states[0].window.order, o, p)
            },
            None => forall|o: Position| !#[trigger] states[0].seeks(m, o),
        },
        states.last().others_as_in(states[0]),
{
    let n = told.len() - 1;
    let start = states[0];
    let s = states[n];
    let got = told[n];
    let entry = reading(s.walk(), s.window, got)->Ok_0;
    lemma_on_its_way(m, states, told, n);
    lemma_reading(m, s.walk(), s.window, s.bound(), s.seek, got);
    assert forall|o: Position| #[trigger] start.seeks(m, o) implies yields(
        m,
        s.walk(),
        s.window,
        o,
    ) && remains(s.window.order, s.bound(), s.seek, o) by {}
    if entry is At {
        assert(yields(m, s.walk(), s.window, entry->0));
    }
}

/// Whenever a search takes up a walk, first of all or once another is settled, that walk sets out.
pub proof fn every_walk_sets_out(
    m: Contents,
    filter: Filter,
    window: Window,
    limit: usize,
    states: Seq<Progress>,
    told: Seq<Option<Seq<u8>>>,
    n: int,
)
    requires
        is_run(m, states, told),
        states[0].proper(),
        search_of(filter, window, limit, states[0]),
        0 <= n < states.len(),
        !states[n].done,
        n > 0 ==> states[n - 1].settles(
            reading(states[n - 1].walk(), states[n - 1].window, told[n - 1])->Ok_0,
        ),
    ensures
        states[n].sets_out(),
{
    lemma_run_is_sound(m, filter, window, limit, states, told, n);
    if n > 0 {
        let got = told[n - 1];
    }
}

// ---- coming to an end

impl Progress {
    /// A bound on how often a walk will yet be moved.
    spec fn weight(self, m: Contents, i: int) -> int {
        if self.goal is Open && (i > self.current || (i == self.current && self.seek)) {
            m.dom().len() + 2int
        } else if i != self.current && self.heads[i] is None {
            0
        } else {
            1int + past_places(m, self.walks[i], self.window.order, self.marks[i]).len()
        }
    }

    /// The sum of the bounds, for the first `n` walks.
    spec fn weight_of(self, m: Contents, n: int) -> int
        decreases n,
    {
        if n <= 0 {
            0
        } else {
            self.weight_of(m, n - 1) + self.weight(m, n - 1)
        }
    }

    /// A bound on how much a search will yet ask for.
    spec fn work_left(self, m: Contents) -> int {
        self.weight_of(m, self.walks.len() as int)
    }
}

proof fn lemma_weights(m: Contents, a: Progress, b: Progress, c: int, n: int)
    requires
        forall|i: int| 0 <= i < n && i != c ==> #[trigger] a.weight(m, i) <= b.weight(m, i),
        a.weight(m, c) < b.weight(m, c),
        0 <= c,
    ensures
        a.weight_of(m, n) <= b.weight_of(m, n),
        c < n ==> a.weight_of(m, n) < b.weight_of(m, n),
    decreases n,
{
    if n > 0 {
        lemma_weights(m, a, b, c, n - 1);
        if n - 1 != c {
            assert(a.weight(m, n - 1) <= b.weight(m, n - 1));
        }
    }
}

proof fn lemma_weights_not_negative(m: Contents, s: Progress, n: int)
    ensures
        s.weight_of(m, n) >= 0,
    decreases n,
{
    if n > 0 {
        lemma_weights_not_negative(m, s, n - 1);
    }
}

/// Each answer that a search is truthfully given is its last, or leaves it less to ask for.
proof fn lemma_progress(m: Contents, s: Progress, got: Option<Seq<u8>>)
    requires
        m.dom().finite(),
        s.proper(),
        !s.done,
        s.sound(m),
        s.is_told(m, got),
        reading(s.walk(), s.window, got) is Ok,
    ensures
        s.work_left(m) > 0,
        ({
            let d = s.answered(reading(s.walk(), s.window, got)->Ok_0);
            d.done || 0 <= d.work_left(m) < s.work_left(m)
        }),
{
    let entry = reading(s.walk(), s.window, got)->Ok_0;
    let d = s.answered(entry);
    let c = s.current;
    let n = s.walks.len() as int;
    let q = s.bound();
    lemma_answered(m, s, got);
    lemma_same_search(s, entry);
    if !(s.goal is Open) {
        assert(s.opened(c, c));
        assert(s.needs(c));
        assert(s.heads[c] is Some);
    }
    if s.seek && s.goal is To {
        lemma_first(s.window, q);
    }
    lemma_reading(m, s.walk(), s.window, q, s.seek, got);
    lemma_past_places(m, s.walk(), s.window.order, s.marks[c], q);
    lemma_weights_not_negative(m, d, n);
    lemma_weights_not_negative(m, s, n);
    lemma_weight_counts(m, s, c, n);
    if !d.done {
        assert(d.weight(m, c) < s.weight(m, c)) by {
            match entry {
                Reading::End => {},
                Reading::Skip => {
                    lemma_key_of(s.walk(), s.window, got->0);
                    lemma_past_places(m, s.walk(), s.window.order, s.marks[c], s.window.after->0);
                    lemma_past_places(m, s.walk(), s.window.order, s.window.after->0, q);
                },
                Reading::At(pos) => {
                    lemma_past_places(m, s.walk(), s.window.order, s.marks[c], pos);
                    lemma_past_places(m, s.walk(), s.window.order, pos, q);
                    assert(d.marks[c] == pos);
                },
            }
        }
        assert forall|i: int| 0 <= i < n && i != c implies #[trigger] d.weight(m, i) <= s.weight(
            m,
            i,
        ) by {
            assert(d.marks[i] == s.marks[i]);
            assert(d.heads[i] == s.heads[i]);
            if i == d.current && !(d.goal is Open) {
                assert(d.needs(i));
            }
        }
        lemma_weights(m, d, s, c, n);
    }
}

/// A search comes to an end: over a store of finitely many entries it asks no more often than
/// twice, and once per entry, for each of its walks.
pub proof fn a_search_comes_to_an_end(
    m: Contents,
    filter: Filter,
    window: Window,
    limit: usize,
    states: Seq<Progress>,
    told: Seq<Option<Seq<u8>>>,
)
    requires
        m.dom().finite(),
        is_run(m, states, told),
        states[0].proper(),
        search_of(filter, window, limit, states[0]),
    ensures
        told.len() <= states[0].walks.len() * (m.dom().len() + 2),
{
    let s = states[0];
    let n = s.walks.len() as int;
    lemma_work_at_first(m, s, n);
    if told.len() > 0 {
        let last = told.len() - 1;
        lemma_work_goes_down(m, filter, window, limit, states, told, last);
        lemma_run_is_sound(m, filter, window, limit, states, told, last);
        let got = told[last];
        lemma_progress(m, states[last], got);
    } else {
        assert(0 <= n * (m.dom().len() + 2)) by (nonlinear_arith)
            requires
                n >= 0,
        ;
    }
}

/// What a fresh search may ask for.
proof fn lemma_work_at_first(m: Contents, s: Progress, n: int)
    requires
        0 <= n <= s.walks.len(),
        s.goal is Open,
        s.current == 0,
        s.seek,
    ensures
        s.weight_of(m, n) == n * (m.dom().len() + 2),
    decreases n,
{
    let each = m.dom().len() + 2int;
    if n > 0 {
        lemma_work_at_first(m, s, n - 1);
        assert((n - 1) * each + each == n * each) by (nonlinear_arith);
    } else {
        assert(n * each == 0) by (nonlinear_arith)
            requires
                n == 0,
        ;
    }
}

/// What a search may yet ask for goes down with each answer.
proof fn lemma_work_goes_down(
    m: Contents,
    filter: Filter,
    window: Window,
    limit: usize,
    states: Seq<Progress>,
    told: Seq<Option<Seq<u8>>>,
    n: int,
)
    requires
        m.dom().finite(),
        is_run(m, states, told),
        states[0].proper(),
        search_of(filter, window, limit, states[0]),
        0 <= n < told.len(),
    ensures
        states[n].work_left(m) + n <= states[0].work_left(m),
    decreases n,
{
    if n > 0 {
        lemma_work_goes_down(m, filter, window, limit, states, told, n - 1);
        lemma_run_is_sound(m, filter, window, limit, states, told, n - 1);
        let got = told[n - 1];
        let next = told[n];
        lemma_progress(m, states[n - 1], got);
    }
}

proof fn lemma_weight_counts(m: Contents, s: Progress, c: int, n: int)
    requires
        0 <= c < n,
    ensures
        s.weight_of(m, n) >= s.weight(m, c),
    decreases n,
{
    lemma_weights_not_negative(m, s, n - 1);
    if c < n - 1 {
        lemma_weight_counts(m, s, c, n - 1);
    }
}

// ---- a search, as its caller drives it

/// A run of a search goes on answer by answer: each is what the store's iterator hands back for the
/// search as it stands, and leaves it as the search makes of it.
pub proof fn a_run_goes_on_answer_by_answer(
    m: Contents,
    states: Seq<Progress>,
    told: Seq<Option<Seq<u8>>>,
    next: Progress,
    got: Option<Seq<u8>>,
)
    requires
        states.len() > 0,
    ensures
        is_run(m, seq![next], Seq::empty()),
        is_run(m, states.push(next), told.push(got)) <==> {
            &&& is_run(m, states, told)
            &&& !states.last().done
            &&& states.last().is_told(m, got)
            &&& reading(states.last().walk(), states.last().window, got) is Ok
            &&& next == states.last().answered(
                reading(states.last().walk(), states.last().window, got)->Ok_0,
            )
        },
{
    let more = states.push(next);
    let all = told.push(got);
    if is_run(m, states, told) && !states.last().done && states.last().is_told(m, got) && reading(
        states.last().walk(),
        states.last().window,
        got,
    ) is Ok && next == states.last().answered(
        reading(states.last().walk(), states.last().window, got)->Ok_0,
    ) {
        assert forall|i: int|
            #![trigger all[i]]
            0 <= i < all.len() implies {
            let s = more[i];
            &&& !s.done
            &&& s.is_told(m, all[i])
            &&& reading(s.walk(), s.window, all[i]) is Ok
            &&& more[i + 1] == s.answered(reading(s.walk(), s.window, all[i])->Ok_0)
        } by {
            if i < told.len() {
                assert(all[i] == told[i]);
                assert(more[i] == states[i]);
                assert(more[i + 1] == states[i + 1]);
            }
        }
    }
    if is_run(m, more, all) {
        assert(all[told.len() as int] == got);
        assert forall|i: int|
            #![trigger told[i]]
            0 <= i < told.len() implies {
            let s = states[i];
            &&& !s.done
            &&& s.is_told(m, told[i])
            &&& reading(s.walk(), s.window, told[i]) is Ok
            &&& states[i + 1] == s.answered(reading(s.walk(), s.window, told[i])->Ok_0)
        } by {
            assert(all[i] == told[i]);
            assert(more[i] == states[i]);
            assert(more[i + 1] == states[i + 1]);
        }
    }
}

/// A search that is not over asks for one key of one walk: for the nearest to a key, in the order
/// of the query; or, of a walk whose iterator stands at the key it was last told, for the one that
/// comes after. What it takes for true of the store is that this is what it is told.
pub proof fn a_search_asks_for_the_key_it_takes(
    search: &Search,
    r: Option<Request>,
    m: Contents,
    got: Option<Seq<u8>>,
    last: Seq<u8>,
)
    requires
        call_ensures(Search::request, (search,), r),
    ensures
        r is None <==> search@.done,
        r is Some ==> match r->0 {
            Request::Seek { walk, keyspace, key, order } => {
                &&& walk == search@.current
                &&& keyspace == search@.walk().keyspace
                &&& order == search@.window.order
                &&& search@.is_told(m, got) <==> found(m, keyspace, order, key@, true, got)
            },
            Request::Next { walk } => {
                &&& walk == search@.current
                &&& last == entry_key(
                    search@.walk().prefix,
                    search@.marks[search@.current],
                ) ==> (search@.is_told(m, got) <==> found(
                    m,
                    search@.walk().keyspace,
                    search@.window.order,
                    last,
                    false,
                    got,
                ))
            },
        },
{
}

/// Handing a search the key it asked for is one step of a run; handing it what cannot be read is
/// reported, and leaves it as it is. The positions it has found are those it reports.
pub proof fn an_answer_is_one_step_of_a_run(
    search: &mut Search,
    key: Option<&[u8]>,
    r: Result<(), Error>,
    m: Contents,
    found: &Vec<Position>,
)
    requires
        call_ensures(Search::answer, (search, key), r),
        call_ensures(Search::positions, (&*search,), found),
    ensures
        ({
            let s = old(search)@;
            let got = match key {
                Some(k) => Some(k@),
                None => None,
            };
            &&& s.done ==> r is Ok && final(search)@ == s
            &&& !s.done && s.is_told(m, got) && reading(s.walk(), s.window, got) is Ok ==> r is Ok
                && is_run(m, seq![s, final(search)@], seq![got])
            &&& !s.done && reading(s.walk(), s.window, got) is Err ==> r is Err && r->Err_0
                == reading(s.walk(), s.window, got)->Err_0 && final(search)@ == s
            &&& found@ == s.out
        }),
{
    let s = search@;
    let got = match key {
        Some(k) => Some(k@),
        None => None,
    };
    if !s.done && s.is_told(m, got) && reading(s.walk(), s.window, got) is Ok {
        a_run_goes_on_answer_by_answer(m, seq![s], Seq::empty(), final(search)@, got);
        assert(is_run(m, seq![s], Seq::empty()));
        assert(seq![s].push(final(search)@) =~= seq![s, final(search)@]);
        assert(Seq::empty().push(got) =~= seq![got]);
    }
}

} // verus!
