//! What the index is holding and where it stands: an operator's view, not a query.

use vstd::prelude::*;
use vstd::string::*;

use crate::bytes::be_value;
use crate::codec::{read_count, read_tip, tip_bytes, tips_round_trip};
use crate::error::Error;
use crate::layout::{created_keyspaces, name_of, Keyspace};
use crate::types::Tip;

verus! {

/// What the index is holding and where it stands.
#[derive(Clone, Debug, PartialEq, Eq)]
pub struct Stats {
    /// The block the index is caught up to; `None` before the first apply.
    pub tip: Option<Tip>,
    /// Rows in the primary keyspace, from the counter that applying a plan maintains: exact, and
    /// the same number a filterless count gives.
    pub rows: u64,
    /// File bytes per keyspace, in layout order: what the index costs on disk.
    ///
    /// File bytes rather than live ones, so this runs ahead of what is reachable: a count is
    /// read-modify-write, and overwritten counters occupy their files until the store compacts
    /// them away on its own. A keyspace still entirely in memory reports zero.
    pub keyspaces: Vec<(&'static str, u64)>,
}

/// The bytes of some keyspaces together.
pub open spec fn total_bytes(keyspaces: Seq<(&'static str, u64)>) -> int
    decreases keyspaces.len(),
{
    if keyspaces.len() == 0 {
        0
    } else {
        total_bytes(keyspaces.drop_last()) + keyspaces.last().1
    }
}

proof fn lemma_total_grows(keyspaces: Seq<(&'static str, u64)>, n: int)
    requires
        0 <= n <= keyspaces.len(),
    ensures
        0 <= total_bytes(keyspaces.take(n)) <= total_bytes(keyspaces),
    decreases keyspaces.len(),
{
    if n < keyspaces.len() {
        let head = keyspaces.drop_last();
        lemma_total_grows(head, n);
        assert(head.take(n) =~= keyspaces.take(n));
    } else {
        assert(keyspaces.take(n) =~= keyspaces);
        if n > 0 {
            lemma_total_grows(keyspaces.drop_last(), n - 1);
        }
    }
}

impl Stats {
    /// Every keyspace's bytes together.
    pub fn bytes(&self) -> (r: u64)
        requires
            total_bytes(self.keyspaces@) <= u64::MAX,
        ensures
            r == total_bytes(self.keyspaces@),
    {
        let mut sum: u64 = 0;
        let mut i: usize = 0;
        assert(self.keyspaces@.take(0) =~= Seq::empty());
        while i < self.keyspaces.len()
            invariant
                i <= self.keyspaces@.len(),
                total_bytes(self.keyspaces@) <= u64::MAX,
                sum == total_bytes(self.keyspaces@.take(i as int)),
            decreases self.keyspaces@.len() - i,
        {
            proof {
                lemma_total_grows(self.keyspaces@, i + 1);
                assert(self.keyspaces@.take(i + 1).drop_last() =~= self.keyspaces@.take(i as int));
            }
            sum = sum + self.keyspaces[i].1;
            i = i + 1;
        }
        assert(self.keyspaces@.take(i as int) =~= self.keyspaces@);
        sum
    }

    /// The stats, given what the store holds at the tip's key, what it holds at the grand
    /// total's, and how large it says the files of each keyspace are, in layout order.
    pub fn assemble(tip: Option<&[u8]>, total: Option<&[u8]>, sizes: &[Option<u64>; 7]) -> (r: Result<
        Stats,
        Error,
    >)
        ensures
            tip is Some && tip->0@.len() != 40 ==> r == Err::<Stats, Error>(
                Error::Tip(tip->0@.len() as usize),
            ),
            (tip is Some ==> tip->0@.len() == 40) && total is Some && total->0@.len() != 8 ==> r
                == Err::<Stats, Error>(Error::Count(total->0@.len() as usize)),
            (tip is Some ==> tip->0@.len() == 40) && (total is Some ==> total->0@.len() == 8) ==> {
                &&& r is Ok
                &&& match tip {
                    Some(t) => r->Ok_0.tip is Some && tip_bytes(r->Ok_0.tip->0) == t@,
                    None => r->Ok_0.tip is None,
                }
                &&& r->Ok_0.rows == (match total {
                    Some(n) => be_value(n@),
                    None => 0,
                })
                &&& r->Ok_0.keyspaces@.len() == 7
                &&& forall|i: int|
                    0 <= i < 7 ==> (#[trigger] r->Ok_0.keyspaces@[i]).0@ == name_of(
                        created_keyspaces()[i],
                    ) && r->Ok_0.keyspaces@[i].1 == (match sizes@[i] {
                        Some(n) => n,
                        None => 0,
                    })
            },
    {
        let tip: Option<Tip> = match read_tip(tip) {
            Ok(tip) => tip,
            Err(e) => return Err(e),
        };
        let rows: u64 = match read_count(total) {
            Ok(rows) => rows,
            Err(e) => return Err(e),
        };
        let names: [Keyspace; 7] = Keyspace::created();
        let mut keyspaces: Vec<(&'static str, u64)> = Vec::with_capacity(7);
        let mut i: usize = 0;
        while i < 7
            invariant
                i <= 7,
                names@ == created_keyspaces(),
                keyspaces@.len() == i,
                forall|j: int|
                    0 <= j < i ==> (#[trigger] keyspaces@[j]).0@ == name_of(created_keyspaces()[j])
                        && keyspaces@[j].1 == (match sizes@[j] {
                        Some(n) => n,
                        None => 0,
                    }),
            decreases 7 - i,
        {
            let bytes: u64 = match sizes[i] {
                Some(n) => n,
                None => 0,
            };
            keyspaces.push((names[i].name(), bytes));
            i = i + 1;
        }
        Ok(Stats { tip, rows, keyspaces })
    }
}

// ---- what the stats say

/// The total is the plain sum: nothing for no keyspaces, and one keyspace more adds its bytes,
/// whichever end it is put at.
pub proof fn the_total_is_the_plain_sum(
    keyspaces: Seq<(&'static str, u64)>,
    name: &'static str,
    bytes: u64,
)
    ensures
        total_bytes(Seq::empty()) == 0,
        total_bytes(seq![(name, bytes)]) == bytes,
        total_bytes(keyspaces.push((name, bytes))) == total_bytes(keyspaces) + bytes,
        total_bytes(seq![(name, bytes)] + keyspaces) == bytes + total_bytes(keyspaces),
    decreases keyspaces.len(),
{
    let one = seq![(name, bytes)];
    assert(keyspaces.push((name, bytes)).drop_last() =~= keyspaces);
    assert(one.drop_last() =~= Seq::empty());
    if keyspaces.len() == 0 {
        assert(one + keyspaces =~= one);
    } else {
        the_total_is_the_plain_sum(keyspaces.drop_last(), name, bytes);
        assert((one + keyspaces).drop_last() =~= one + keyspaces.drop_last());
    }
}

/// The total that is reported is the sum of the keyspaces' bytes: nothing for none of them, and
/// the bytes of one more on top.
pub proof fn a_keyspace_more_adds_its_bytes(
    a: &Stats,
    b: &Stats,
    name: &'static str,
    bytes: u64,
    total_a: u64,
    total_b: u64,
)
    requires
        call_ensures(Stats::bytes, (a,), total_a),
        call_ensures(Stats::bytes, (b,), total_b),
    ensures
        a.keyspaces@.len() == 0 ==> total_a == 0,
        a.keyspaces@ == seq![(name, bytes)] ==> total_a == bytes,
        b.keyspaces@ == a.keyspaces@.push((name, bytes)) ==> total_b == total_a + bytes,
{
    the_total_is_the_plain_sum(a.keyspaces@, name, bytes);
    if a.keyspaces@.len() == 0 {
        assert(a.keyspaces@ =~= Seq::empty());
    }
}

/// The stats are what was read: the tip, the grand total, and the size of each keyspace under its
/// name. What is not there counts for nothing, and what is malformed is reported, the tip first.
pub proof fn stats_are_what_was_read(
    tip: Option<&[u8]>,
    total: Option<&[u8]>,
    sizes: &[Option<u64>; 7],
    r: Result<Stats, Error>,
    read_as: Result<Option<Tip>, Error>,
    counted: Result<u64, Error>,
    created: [Keyspace; 7],
    i: int,
    name: &'static str,
)
    requires
        call_ensures(Stats::assemble, (tip, total, sizes), r),
        call_ensures(read_tip, (tip,), read_as),
        call_ensures(read_count, (total,), counted),
        call_ensures(Keyspace::created, (), created),
        0 <= i < 7,
        call_ensures(Keyspace::name, (created@[i],), name),
    ensures
        r is Ok <==> read_as is Ok && counted is Ok,
        read_as is Err ==> r is Err && r->Err_0 == read_as->Err_0,
        read_as is Ok && counted is Err ==> r is Err && r->Err_0 == counted->Err_0,
        r is Ok ==> {
            &&& r->Ok_0.tip == read_as->Ok_0
            &&& r->Ok_0.rows == counted->Ok_0
            &&& r->Ok_0.keyspaces@.len() == 7
            &&& r->Ok_0.keyspaces@[i].0@ == name@
            &&& sizes@[i] is Some ==> r->Ok_0.keyspaces@[i].1 == sizes@[i]->0
            &&& sizes@[i] is None ==> r->Ok_0.keyspaces@[i].1 == 0
        },
{
    if r is Ok && tip is Some {
        tips_round_trip(r->Ok_0.tip->0, read_as->Ok_0->0);
    }
    if r is Ok {
        assert(r->Ok_0.keyspaces@[i].0@ == name@);
    }
}

} // verus!
