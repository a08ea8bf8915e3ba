//! What a batch of changes adds up to, counter by counter.

use vstd::prelude::*;

use crate::lex::{lemma_lex_asymmetric, lemma_lex_transitive, lex_lt, parts_at};

verus! {

/// One row more, or one row less, for a counter.
#[derive(Debug, PartialEq, Eq)]
pub struct Change {
    pub key: Vec<u8>,
    /// Whether the row is one more.
    pub gain: bool,
}

impl View for Change {
    type V = (Seq<u8>, int);

    open spec fn view(&self) -> (Seq<u8>, int) {
        (
            self.key@,
            if self.gain {
                1
            } else {
                -1
            },
        )
    }
}

/// The changes of a list, as mathematical values.
pub open spec fn change_views(changes: Seq<Change>) -> Seq<(Seq<u8>, int)> {
    changes.map_values(|c: Change| c@)
}

/// What the changes of a list come to for one counter.
pub open spec fn net(changes: Seq<(Seq<u8>, int)>, key: Seq<u8>) -> int
    decreases changes.len(),
{
    if changes.len() == 0 {
        0
    } else {
        net(changes.drop_last(), key) + (if changes.last().0 == key {
            changes.last().1
        } else {
            0
        })
    }
}

/// Whether a list changes a counter.
pub open spec fn names(changes: Seq<(Seq<u8>, int)>, key: Seq<u8>) -> bool {
    exists|i: int| 0 <= i < changes.len() && (#[trigger] changes[i]).0 == key
}

/// The changes of two lists, one after the other, add up.
pub proof fn lemma_net_concat(a: Seq<(Seq<u8>, int)>, b: Seq<(Seq<u8>, int)>, key: Seq<u8>)
    ensures
        net(a + b, key) == net(a, key) + net(b, key),
        names(a + b, key) <==> names(a, key) || names(b, key),
    decreases b.len(),
{
    if b.len() == 0 {
        assert(a + b =~= a);
    } else {
        assert((a + b).drop_last() =~= a + b.drop_last());
        lemma_net_concat(a, b.drop_last(), key);
    }
    if names(a, key) {
        let i = choose|i: int| 0 <= i < a.len() && (#[trigger] a[i]).0 == key;
        assert((a + b)[i].0 == key);
    }
    if names(b, key) {
        let i = choose|i: int| 0 <= i < b.len() && (#[trigger] b[i]).0 == key;
        assert((a + b)[a.len() + i].0 == key);
    }
    if names(a + b, key) {
        let i = choose|i: int| 0 <= i < (a + b).len() && (#[trigger] (a + b)[i]).0 == key;
        if i < a.len() {
            assert(a[i].0 == key);
        } else {
            assert(b[i - a.len()].0 == key);
        }
    }
}

/// A counter that nothing changes stays as it is.
pub proof fn lemma_net_unnamed(changes: Seq<(Seq<u8>, int)>, key: Seq<u8>)
    requires
        !names(changes, key),
    ensures
        net(changes, key) == 0,
    decreases changes.len(),
{
    if changes.len() > 0 {
        let head = changes.drop_last();
        assert(changes[changes.len() - 1].0 != key);
        if names(head, key) {
            let i = choose|i: int| 0 <= i < head.len() && (#[trigger] head[i]).0 == key;
            assert(changes[i].0 == key);
        }
        lemma_net_unnamed(head, key);
    }
}

/// How two keys sort.
enum Side {
    Less,
    Same,
    Greater,
}

/// How two keys sort, in dictionary order.
fn side(a: &Vec<u8>, b: &Vec<u8>) -> (r: Side)
    ensures
        match r {
            Side::Less => lex_lt(a@, b@),
            Side::Same => a@ == b@,
            Side::Greater => lex_lt(b@, a@),
        },
{
    let mut i: usize = 0;
    while i < a.len() && i < b.len()
        invariant
            i <= a@.len(),
            i <= b@.len(),
            forall|j: int| 0 <= j < i ==> a@[j] == b@[j],
        decreases a@.len() - i,
    {
        if a[i] < b[i] {
            assert(parts_at(a@, b@, i as int));
            return Side::Less;
        }
        if b[i] < a[i] {
            assert(parts_at(b@, a@, i as int));
            return Side::Greater;
        }
        i = i + 1;
    }
    if i < b.len() {
        assert(parts_at(a@, b@, i as int));
        Side::Less
    } else if i < a.len() {
        assert(parts_at(b@, a@, i as int));
        Side::Greater
    } else {
        assert(a@ =~= b@);
        Side::Same
    }
}

/// `sums` names each counter that the changes from `lo` to `hi` touch, once and in order, by
/// the place of a change to it, with what those changes come to.
spec fn settled(c: Seq<(Seq<u8>, int)>, lo: int, hi: int, sums: Seq<(usize, i128)>) -> bool {
    &&& forall|j: int|
        0 <= j < sums.len() ==> {
            let s = #[trigger] sums[j];
            lo <= s.0 < hi && s.1 == net(c.subrange(lo, hi), c[s.0 as int].0) && lo - hi <= s.1 <= hi
                - lo
        }
    &&& forall|i: int, j: int|
        0 <= i < j < sums.len() ==> lex_lt(
            c[(#[trigger] sums[i]).0 as int].0,
            c[(#[trigger] sums[j]).0 as int].0,
        )
    &&& forall|key: Seq<u8>| #[trigger]
        names(c.subrange(lo, hi), key) ==> exists|j: int|
            0 <= j < sums.len() && c[(#[trigger] sums[j]).0 as int].0 == key
}

proof fn lemma_settled_absent(
    c: Seq<(Seq<u8>, int)>,
    lo: int,
    hi: int,
    sums: Seq<(usize, i128)>,
    at: int,
    key: Seq<u8>,
)
    requires
        settled(c, lo, hi, sums),
        0 <= at <= sums.len(),
        forall|j: int| 0 <= j < at ==> lex_lt(c[(#[trigger] sums[j]).0 as int].0, key),
        at < sums.len() ==> lex_lt(key, c[sums[at].0 as int].0),
    ensures
        net(c.subrange(lo, hi), key) == 0,
{
    if names(c.subrange(lo, hi), key) {
        let j = choose|j: int| 0 <= j < sums.len() && c[(#[trigger] sums[j]).0 as int].0 == key;
        if j < at {
            lemma_lex_asymmetric(key, key);
        } else if j == at {
            lemma_lex_asymmetric(key, key);
        } else {
            lemma_lex_transitive(key, c[sums[at].0 as int].0, c[sums[j].0 as int].0);
            lemma_lex_asymmetric(key, key);
        }
    }
    lemma_net_unnamed(c.subrange(lo, hi), key);
}

/// Merge what two neighbouring runs of changes come to.
fn join(
    changes: &Vec<Change>,
    lo: usize,
    mid: usize,
    hi: usize,
    left: Vec<(usize, i128)>,
    right: Vec<(usize, i128)>,
) -> (r: Vec<(usize, i128)>)
    requires
        lo <= mid <= hi <= changes@.len(),
        settled(change_views(changes@), lo as int, mid as int, left@),
        settled(change_views(changes@), mid as int, hi as int, right@),
    ensures
        settled(change_views(changes@), lo as int, hi as int, r@),
{
    let ghost c = change_views(changes@);
    let ghost x = c.subrange(lo as int, mid as int);
    let ghost y = c.subrange(mid as int, hi as int);
    let ghost z = c.subrange(lo as int, hi as int);
    assert(z =~= x + y);
    let mut out: Vec<(usize, i128)> = Vec::with_capacity(left.len());
    let mut a: usize = 0;
    let mut b: usize = 0;
    while a < left.len() || b < right.len()
        invariant
            lo <= mid <= hi <= changes@.len(),
            c == change_views(changes@),
            x == c.subrange(lo as int, mid as int),
            y == c.subrange(mid as int, hi as int),
            z == x + y,
            settled(c, lo as int, mid as int, left@),
            settled(c, mid as int, hi as int, right@),
            a <= left@.len(),
            b <= right@.len(),
            forall|j: int|
                0 <= j < out@.len() ==> {
                    let s = #[trigger] out@[j];
                    lo <= s.0 < hi && s.1 == net(z, c[s.0 as int].0) && lo - hi <= s.1 <= hi - lo
                },
            forall|i: int, j: int|
                0 <= i < j < out@.len() ==> lex_lt(
                    c[(#[trigger] out@[i]).0 as int].0,
                    c[(#[trigger] out@[j]).0 as int].0,
                ),
            a < left@.len() ==> forall|j: int|
                0 <= j < out@.len() ==> lex_lt(
                    c[(#[trigger] out@[j]).0 as int].0,
                    c[left@[a as int].0 as int].0,
                ),
            b < right@.len() ==> forall|j: int|
                0 <= j < out@.len() ==> lex_lt(
                    c[(#[trigger] out@[j]).0 as int].0,
                    c[right@[b as int].0 as int].0,
                ),
            forall|i: int|
                0 <= i < a ==> exists|j: int|
                    0 <= j < out@.len() && c[(#[trigger] out@[j]).0 as int].0 == c[(
                    #[trigger] left@[i]).0 as int].0,
            forall|i: int|
                0 <= i < b ==> exists|j: int|
                    0 <= j < out@.len() && c[(#[trigger] out@[j]).0 as int].0 == c[(
                    #[trigger] right@[i]).0 as int].0,
        decreases left@.len() - a + right@.len() - b,
    {
        let ghost was = out@;
        let ghost a0 = a as int;
        let ghost b0 = b as int;
        let from: Side = if a == left.len() {
            Side::Greater
        } else if b == right.len() {
            Side::Less
        } else {
            side(&changes[left[a].0].key, &changes[right[b].0].key)
        };
        let next: (usize, i128) = match from {
            Side::Less => {
                a = a + 1;
                left[a - 1]
            },
            Side::Same => {
                a = a + 1;
                b = b + 1;
                (left[a - 1].0, left[a - 1].1 + right[b - 1].1)
            },
            Side::Greater => {
                b = b + 1;
                right[b - 1]
            },
        };
        let ghost key = c[next.0 as int].0;
        proof {
            lemma_net_concat(x, y, key);
            if from is Less {
                assert forall|j: int| 0 <= j < b0 implies lex_lt(
                    c[(#[trigger] right@[j]).0 as int].0,
                    key,
                ) by {
                    let k = choose|k: int|
                        0 <= k < was.len() && c[(#[trigger] was[k]).0 as int].0 == c[right@[j].0 as int].0;
                    assert(lex_lt(c[was[k].0 as int].0, key));
                }
                lemma_settled_absent(c, mid as int, hi as int, right@, b0, key);
            } else if from is Greater {
                assert forall|j: int| 0 <= j < a0 implies lex_lt(
                    c[(#[trigger] left@[j]).0 as int].0,
                    key,
                ) by {
                    let k = choose|k: int|
                        0 <= k < was.len() && c[(#[trigger] was[k]).0 as int].0 == c[left@[j].0 as int].0;
                    assert(lex_lt(c[was[k].0 as int].0, key));
                }
                lemma_settled_absent(c, lo as int, mid as int, left@, a0, key);
            }
        }
        out.push(next);
        proof {
            assert(out@.drop_last() =~= was);
            let last = out@.len() - 1;
            assert(out@[last] == next);
            if a < left@.len() {
                let ahead = c[left@[a as int].0 as int].0;
                if from is Greater {
                    if b0 < right@.len() && a0 < left@.len() {
                        assert(lex_lt(key, ahead));
                    }
                } else {
                    assert(lex_lt(c[left@[a0].0 as int].0, ahead));
                }
                assert forall|j: int| 0 <= j < out@.len() implies lex_lt(
                    c[(#[trigger] out@[j]).0 as int].0,
                    ahead,
                ) by {
                    if j < last {
                        assert(out@[j] == was[j]);
                        lemma_lex_transitive(c[was[j].0 as int].0, key, ahead);
                    }
                }
            }
            if b < right@.len() {
                let ahead = c[right@[b as int].0 as int].0;
                if from is Less {
                    assert(lex_lt(key, ahead));
                } else {
                    assert(lex_lt(c[right@[b0].0 as int].0, ahead));
                }
                assert forall|j: int| 0 <= j < out@.len() implies lex_lt(
                    c[(#[trigger] out@[j]).0 as int].0,
                    ahead,
                ) by {
                    if j < last {
                        assert(out@[j] == was[j]);
                        lemma_lex_transitive(c[was[j].0 as int].0, key, ahead);
                    }
                }
            }
            assert forall|i: int| 0 <= i < a implies exists|j: int|
                0 <= j < out@.len() && c[(#[trigger] out@[j]).0 as int].0 == c[(
                #[trigger] left@[i]).0 as int].0 by {
                if i < a0 {
                    let k = choose|k: int|
                        0 <= k < was.len() && c[(#[trigger] was[k]).0 as int].0 == c[left@[i].0 as int].0;
                    assert(out@[k] == was[k]);
                } else {
                    assert(c[out@[last].0 as int].0 == c[left@[i].0 as int].0);
                }
            }
            assert forall|i: int| 0 <= i < b implies exists|j: int|
                0 <= j < out@.len() && c[(#[trigger] out@[j]).0 as int].0 == c[(
                #[trigger] right@[i]).0 as int].0 by {
                if i < b0 {
                    let k = choose|k: int|
                        0 <= k < was.len() && c[(#[trigger] was[k]).0 as int].0 == c[right@[i].0 as int].0;
                    assert(out@[k] == was[k]);
                } else {
                    assert(c[out@[last].0 as int].0 == c[right@[i].0 as int].0);
                }
            }
        }
    }
    proof {
        assert forall|key: Seq<u8>| #[trigger] names(z, key) implies exists|j: int|
            0 <= j < out@.len() && c[(#[trigger] out@[j]).0 as int].0 == key by {
            lemma_net_concat(x, y, key);
            if names(x, key) {
                let i = choose|i: int|
                    0 <= i < left@.len() && c[(#[trigger] left@[i]).0 as int].0 == key;
                assert(c[left@[i].0 as int].0 == key);
            } else {
                let i = choose|i: int|
                    0 <= i < right@.len() && c[(#[trigger] right@[i]).0 as int].0 == key;
                assert(c[right@[i].0 as int].0 == key);
            }
        }
    }
    out
}

/// What the changes from `lo` to `hi` come to.
fn settle(changes: &Vec<Change>, lo: usize, hi: usize) -> (r: Vec<(usize, i128)>)
    requires
        lo <= hi <= changes@.len(),
    ensures
        settled(change_views(changes@), lo as int, hi as int, r@),
    decreases hi - lo,
{
    let ghost c = change_views(changes@);
    if hi - lo < 2 {
        let mut out: Vec<(usize, i128)> = Vec::new();
        let ghost z = c.subrange(lo as int, hi as int);
        if lo < hi {
            let one: i128 = if changes[lo].gain {
                1
            } else {
                -1
            };
            out.push((lo, one));
            proof {
                assert(z.drop_last() =~= Seq::empty());
                assert(z.last() == c[lo as int]);
                let key = c[lo as int].0;
                assert(net(z.drop_last(), key) == 0);
                assert(net(z, key) == one);
                assert forall|k: Seq<u8>| #[trigger] names(z, k) implies exists|j: int|
                    0 <= j < out@.len() && c[(#[trigger] out@[j]).0 as int].0 == k by {
                    assert(c[out@[0].0 as int].0 == key);
                }
            }
        }
        return out;
    }
    let mid: usize = lo + (hi - lo) / 2;
    let left: Vec<(usize, i128)> = settle(changes, lo, mid);
    let right: Vec<(usize, i128)> = settle(changes, mid, hi);
    join(changes, lo, mid, hi, left, right)
}

/// What some changes come to: each counter they touch, once, with the sum for it.
pub open spec fn sums_up(changes: Seq<(Seq<u8>, int)>, sums: Seq<(Seq<u8>, int)>) -> bool {
    &&& forall|j: int|
        0 <= j < sums.len() ==> {
            let s = #[trigger] sums[j];
            names(changes, s.0) && s.1 == net(changes, s.0)
        }
    &&& forall|i: int, j: int|
        0 <= i < j < sums.len() ==> lex_lt((#[trigger] sums[i]).0, (#[trigger] sums[j]).0)
    &&& forall|key: Seq<u8>| #[trigger]
        names(changes, key) ==> exists|j: int| 0 <= j < sums.len() && (#[trigger] sums[j]).0 == key
}

/// Sums as mathematical values.
pub open spec fn sum_views(keys: Seq<Vec<u8>>, deltas: Seq<i128>) -> Seq<(Seq<u8>, int)> {
    Seq::new(keys.len(), |i: int| (keys[i]@, deltas[i] as int))
}

/// What some changes come to, counter by counter: the keys in order, and the sum for each.
pub fn sum_up(changes: &Vec<Change>) -> (r: (Vec<Vec<u8>>, Vec<i128>))
    ensures
        r.1@.len() == r.0@.len(),
        sums_up(change_views(changes@), sum_views(r.0@, r.1@)),
        forall|j: int|
            0 <= j < r.1@.len() ==> -(usize::MAX as int) <= #[trigger] r.1@[j] <= usize::MAX,
{
    let ghost c = change_views(changes@);
    let sums: Vec<(usize, i128)> = settle(changes, 0, changes.len());
    assert(c.subrange(0, c.len() as int) =~= c);
    let mut keys: Vec<Vec<u8>> = Vec::with_capacity(sums.len());
    let mut deltas: Vec<i128> = Vec::with_capacity(sums.len());
    let mut i: usize = 0;
    while i < sums.len()
        invariant
            i <= sums@.len(),
            c == change_views(changes@),
            settled(c, 0, changes@.len() as int, sums@),
            keys@.len() == i,
            deltas@.len() == i,
            forall|j: int|
                0 <= j < i ==> (#[trigger] keys@[j])@ == c[sums@[j].0 as int].0,
            forall|j: int| 0 <= j < i ==> #[trigger] deltas@[j] == sums@[j].1,
        decreases sums@.len() - i,
    {
        let at: usize = sums[i].0;
        keys.push(crate::bytes::copied(changes[at].key.as_slice()));
        deltas.push(sums[i].1);
        i = i + 1;
    }
    proof {
        let v = sum_views(keys@, deltas@);
        assert forall|j: int| 0 <= j < v.len() implies {
            let s = #[trigger] v[j];
            names(c, s.0) && s.1 == net(c, s.0)
        } by {
            assert(c[sums@[j].0 as int].0 == keys@[j]@);
            assert(deltas@[j] == sums@[j].1);
        }
        assert forall|i: int, j: int| 0 <= i < j < v.len() implies lex_lt(
            (#[trigger] v[i]).0,
            (#[trigger] v[j]).0,
        ) by {
            assert(c[sums@[j].0 as int].0 == keys@[j]@);
            assert(c[sums@[i].0 as int].0 == keys@[i]@);
        }
        assert forall|key: Seq<u8>| #[trigger] names(c, key) implies exists|j: int|
            0 <= j < v.len() && (#[trigger] v[j]).0 == key by {
            let j = choose|j: int|
                0 <= j < sums@.len() && c[(#[trigger] sums@[j]).0 as int].0 == key;
            assert(v[j].0 == keys@[j]@);
        }
        assert forall|j: int| 0 <= j < deltas@.len() implies -(usize::MAX as int)
            <= #[trigger] deltas@[j] <= usize::MAX by {
            assert(deltas@[j] == sums@[j].1);
        }
    }
    (keys, deltas)
}

// ---- what changes add up to

/// A change is one row more or one row less for its counter. What some changes come to for a
/// counter is nothing where there are none; and one change more adds what it is to the sum for
/// its own counter, and to no other.
pub proof fn changes_add_up_one_by_one(change: Change, changes: Seq<Change>, key: Seq<u8>)
    ensures
        change@.0 == change.key@,
        change.gain ==> change@.1 == 1,
        !change.gain ==> change@.1 == -1,
        net(change_views(Seq::empty()), key) == 0,
        net(change_views(changes.push(change)), key) == net(change_views(changes), key) + (
        if change.key@ == key {
            if change.gain {
                1
            } else {
                -1int
            }
        } else {
            0
        }),
{
    assert(change_views(Seq::empty()) =~= Seq::empty());
    assert(change_views(changes.push(change)).drop_last() =~= change_views(changes));
}

/// Summing changes up names each counter that they touch once, in order, with what they come to
/// for it.
pub proof fn every_counter_is_summed_up_once(
    changes: &Vec<Change>,
    r: (Vec<Vec<u8>>, Vec<i128>),
    i: int,
    j: int,
)
    requires
        call_ensures(sum_up, (changes,), r),
    ensures
        r.1@.len() == r.0@.len(),
        0 <= i < r.0@.len() ==> r.1@[i] == net(change_views(changes@), r.0@[i]@),
        0 <= i < r.0@.len() ==> exists|k: int|
            0 <= k < changes@.len() && (#[trigger] changes@[k]).key@ == r.0@[i]@,
        0 <= i < j < r.0@.len() ==> lex_lt(r.0@[i]@, r.0@[j]@),
        0 <= j < changes@.len() ==> exists|k: int|
            0 <= k < r.0@.len() && (#[trigger] r.0@[k])@ == changes@[j].key@,
{
    let c = change_views(changes@);
    let sums = sum_views(r.0@, r.1@);
    assert(forall|k: int| 0 <= k < changes@.len() ==> c[k] == (#[trigger] changes@[k])@);
    if 0 <= i < r.0@.len() {
        assert(sums[i] == (r.0@[i]@, r.1@[i] as int));
        let k = choose|k: int| 0 <= k < c.len() && (#[trigger] c[k]).0 == sums[i].0;
        assert(changes@[k].key@ == r.0@[i]@);
        if i < j < r.0@.len() {
            assert(sums[j].0 == r.0@[j]@);
        }
    }
    if 0 <= j < changes@.len() {
        let key = changes@[j].key@;
        assert(c[j].0 == key);
        assert(names(c, key));
        let k = choose|k: int| 0 <= k < sums.len() && (#[trigger] sums[k]).0 == key;
        assert(r.0@[k]@ == key);
    }
}

} // verus!
