//! How many rows a filter selects, without walking to the end to find out.

use vstd::prelude::*;

use crate::bytes::lemma_be_u64;
use crate::codec::{count_value, read_count};
use crate::entries::{column_counters, column_matches, columns, count_key, counter_key, counters_of,
    filter_columns, key_views, lemma_owns, lemma_owns_target, lemma_row_counters, row_counters};
use crate::error::Error;
use crate::layout::{kind_name, kind_of, Keyspace, Kind};
use crate::position::{BlockRange, Position};
use crate::primitives::{lemma_address_ext, Address};
use crate::search::term_count;
use crate::store::{counted_rows, index_of, lemma_index_lookup, lookup, proper, tally};
use crate::types::{Filter, Tip, Tx};

verus! {

/// The counters of a filter's terms.
pub open spec fn term_counters(filter: Filter) -> Seq<Seq<u8>> {
    column_counters(filter_columns(filter)) + (match filter.address {
        Some(a) => seq![counter_key(kind_name(Kind::Address), a@)],
        None => Seq::empty(),
    })
}

/// The counter that answers a filter: there is one where it has no block range and at most one
/// term.
pub open spec fn filter_counter(filter: Filter) -> Option<Seq<u8>> {
    let terms = term_counters(filter);
    if filter.blocks != (BlockRange { min: None, max: None }) || terms.len() > 1 {
        None
    } else if terms.len() == 1 {
        Some(terms[0])
    } else {
        Some(counter_key(kind_name(Kind::Total), Seq::empty()))
    }
}

/// The key of the grand total.
pub fn total_counter() -> (r: Vec<u8>)
    ensures
        r@ == counter_key(kind_name(Kind::Total), Seq::empty()),
{
    let none: Vec<u8> = Vec::new();
    assert(none@ =~= Seq::<u8>::empty());
    count_key(Kind::Total.name(), none.as_slice())
}

impl Filter {
    /// The key of the counter that answers the filter.
    ///
    /// `None` where no counter does: counts are kept per filter value as rows are written, so
    /// an intersection of two, or a block range, has no stored answer, and producing one by
    /// walking is the scan a count exists to avoid. An address page asks a single term, which
    /// is the case this serves.
    pub fn counter(&self) -> (r: Option<Vec<u8>>)
        ensures
            match filter_counter(*self) {
                Some(key) => r is Some && r->0@ == key,
                None => r is None,
            },
    {
        if self.blocks.min.is_some() || self.blocks.max.is_some() {
            return None;
        }
        let mut terms: Vec<Vec<u8>> = counters_of(&columns(self));
        if let Some(address) = self.address {
            terms.push(count_key(Kind::Address.name(), address.as_slice()));
        }
        assert(key_views(terms@) =~= term_counters(*self));
        assert(forall|i: int| 0 <= i < terms@.len() ==> key_views(terms@)[i] == terms@[i]@);
        match terms.len() {
            0 => Some(total_counter()),
            1 => terms.pop(),
            // An intersection: each side is counted, their overlap is not.
            _ => None,
        }
    }
}

// ---- counts are what the walk would yield

/// The rows that a filter selects.
pub open spec fn selected(rows: Map<Position, Tx>, filter: Filter) -> Set<Position> {
    rows.dom().filter(|p: Position| filter.selects(rows[p]))
}

/// What an address says of a row, in each keyspace of addresses.
pub proof fn lemma_column_selects(tx: Tx, value: Address)
    ensures
        column_matches(tx, Keyspace::From, value@) <==> tx.from == value,
        column_matches(tx, Keyspace::To, value@) <==> tx.to.contains(value),
        column_matches(tx, Keyspace::FeeToken, value@) <==> tx.fee_token == Some(value),
        column_matches(tx, Keyspace::FeePayer, value@) <==> tx.fee_payer == Some(value),
{
    if tx.from@ == value@ {
        lemma_address_ext(tx.from, value);
    }
    lemma_owns(tx, Keyspace::To, value@);
    lemma_owns_target(tx, value);
    if tx.fee_token is Some && tx.fee_token->0@ == value@ {
        lemma_address_ext(tx.fee_token->0, value);
    }
    if tx.fee_payer is Some && tx.fee_payer->0@ == value@ {
        lemma_address_ext(tx.fee_payer->0, value);
    }
}

/// A row contributes to the counter that answers a filter exactly where the filter selects it.
proof fn lemma_counter_selects(filter: Filter, tx: Tx)
    requires
        filter_counter(filter) is Some,
    ensures
        row_counters(tx).contains(filter_counter(filter)->0) <==> filter.selects(tx),
{
    let key = filter_counter(filter)->0;
    let terms = term_counters(filter);
    let cols = filter_columns(filter);
    if terms.len() == 0 {
        lemma_row_counters(tx, Kind::Total, Seq::empty());
    } else if filter.address is Some {
        let a = filter.address->0;
        assert(cols.len() == 0);
        assert(key == counter_key(kind_name(Kind::Address), a@));
        lemma_row_counters(tx, Kind::Address, a@);
        lemma_column_selects(tx, a);
    } else {
        let c = cols[0];
        assert(key == counter_key(kind_name(kind_of(c.0)), c.1));
        lemma_row_counters(tx, kind_of(c.0), c.1);
        if filter.from is Some {
            lemma_column_selects(tx, filter.from->0);
        } else if filter.to is Some {
            lemma_column_selects(tx, filter.to->0);
        } else if filter.tx_type is Some {
            let t = filter.tx_type->0;
            assert(seq![tx.tx_type] == seq![t] <==> tx.tx_type == t) by {
                assert(seq![tx.tx_type][0] == tx.tx_type);
                assert(seq![t][0] == t);
            }
        } else if filter.fee_token is Some {
            lemma_column_selects(tx, filter.fee_token->0);
        } else {
            lemma_column_selects(tx, filter.fee_payer->0);
        }
    }
}

/// The counter that answers a filter stands at the number of rows that the filter selects.
pub proof fn a_count_is_what_the_filter_selects(
    rows: Map<Position, Tx>,
    tip: Option<Tip>,
    filter: Filter,
)
    requires
        proper(rows),
        rows.dom().len() <= u64::MAX,
        filter_counter(filter) is Some,
    ensures
        ({
            let val = lookup(index_of(rows, tip), Keyspace::Count, filter_counter(filter)->0);
            &&& val is Some ==> (val->0).len() == 8
            &&& count_value(val) == selected(rows, filter).len()
        }),
{
    let key = filter_counter(filter)->0;
    assert(counted_rows(rows, key) =~= selected(rows, filter)) by {
        assert forall|p: Position| rows.contains_key(p) implies (row_counters(
            #[trigger] rows[p],
        ).contains(key) <==> filter.selects(rows[p])) by {
            lemma_counter_selects(filter, rows[p]);
        }
    }
    lemma_index_lookup(rows, tip, Keyspace::Count, key);
    vstd::set_lib::lemma_len_subset(counted_rows(rows, key), rows.dom());
    let n = tally(rows, key) as u64;
    lemma_be_u64(n, n);
}

/// There is a counter for a filter exactly where it has no block range and at most one term.
pub proof fn no_counter_answers_an_intersection(filter: Filter)
    ensures
        filter_counter(filter) is Some <==> filter.blocks == (BlockRange { min: None, max: None })
            && term_count(filter) <= 1,
{
}

// ---- what is counted

/// A filter has a counter exactly where its heights are not bounded and it has at most one term.
pub proof fn only_a_single_term_is_counted(filter: &Filter, key: Option<Vec<u8>>)
    requires
        call_ensures(Filter::counter, (filter,), key),
    ensures
        ({
            let one = |there: bool|
                if there {
                    1int
                } else {
                    0
                };
            key is Some <==> {
                &&& filter.blocks.min is None
                &&& filter.blocks.max is None
                &&& one(filter.from is Some) + one(filter.to is Some) + one(filter.address is Some)
                    + one(filter.tx_type is Some) + one(filter.fee_token is Some) + one(
                    filter.fee_payer is Some,
                ) <= 1
            }
        }),
{
}

/// The counter of a filter is that of its one term, by the term's kind and value; or the grand
/// total, where it has no term.
pub proof fn a_term_is_counted_by_its_kind_and_value(
    filter: &Filter,
    key: Option<Vec<u8>>,
    total: Vec<u8>,
    kind: Kind,
    name: &str,
    value: &[u8],
    counter: Vec<u8>,
)
    requires
        call_ensures(Filter::counter, (filter,), key),
        key is Some,
        call_ensures(total_counter, (), total),
        call_ensures(Kind::name, (kind,), name),
        call_ensures(count_key, (name, value), counter),
    ensures
        kind is From && filter.from is Some && value@ == (filter.from->0).0@ ==> key->0@
            == counter@,
        kind is To && filter.to is Some && value@ == (filter.to->0).0@ ==> key->0@ == counter@,
        kind is Address && filter.address is Some && value@ == (filter.address->0).0@ ==> key->0@
            == counter@,
        kind is Type && filter.tx_type is Some && value@ == seq![filter.tx_type->0] ==> key->0@
            == counter@,
        kind is FeeToken && filter.fee_token is Some && value@ == (filter.fee_token->0).0@
            ==> key->0@ == counter@,
        kind is FeePayer && filter.fee_payer is Some && value@ == (filter.fee_payer->0).0@
            ==> key->0@ == counter@,
        kind is Total && value@.len() == 0 ==> total@ == counter@,
        filter.from is None && filter.to is None && filter.address is None && filter.tx_type is None
            && filter.fee_token is None && filter.fee_payer is None ==> key->0@ == total@,
{
    if value@.len() == 0 {
        assert(value@ =~= Seq::empty());
    }
}

/// What is counted for a filter is how many rows it selects.
pub proof fn a_count_is_the_number_of_rows_selected(
    rows: Map<Position, Tx>,
    tip: Option<Tip>,
    filter: &Filter,
    key: Option<Vec<u8>>,
    val: Option<&[u8]>,
    n: Result<u64, Error>,
)
    requires
        proper(rows),
        rows.dom().len() <= u64::MAX,
        call_ensures(Filter::counter, (filter,), key),
        key is Some,
        val is Some <==> index_of(rows, tip).contains_key((Keyspace::Count, key->0@)),
        val is Some ==> val->0@ == index_of(rows, tip)[(Keyspace::Count, key->0@)],
        call_ensures(read_count, (val,), n),
    ensures
        n is Ok,
        n->Ok_0 == rows.dom().filter(|p: Position| filter.selects(rows[p])).len(),
        forall|p: Position| #[trigger]
            selected(rows, *filter).contains(p) <==> rows.contains_key(p) && filter.selects(
                rows[p],
            ),
{
    a_count_is_what_the_filter_selects(rows, tip, *filter);
    assert(selected(rows, *filter) =~= rows.dom().filter(
        |p: Position| filter.selects(rows[p]),
    ));
}

} // verus!
