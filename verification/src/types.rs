//! What the index holds and what a query asks for.

use vstd::prelude::*;

use crate::position::{BlockRange, Position};
use crate::primitives::{lemma_address_ext, Address, TxHash, B256};

verus! {

/// One indexed transaction.
#[derive(Clone, Debug, PartialEq, Eq)]
pub struct IndexedTx {
    pub position: Position,
    pub hash: TxHash,
    pub from: Address,
    /// Every address this transaction calls, in call order; empty for a creation.
    ///
    /// A list because a chain may batch, and a `to` filter that saw only the first
    /// target would miss the rest silently. Repeats are allowed and indexed once.
    pub to: Vec<Address>,
    pub tx_type: u8,
    /// Which token paid, where a chain lets one choose. `None` for the native currency.
    pub fee_token: Option<Address>,
    /// Who paid: the sponsor where one paid, the sender otherwise. `None` where the
    /// chain has no notion of it.
    ///
    /// Set for every transaction, not only sponsored ones: a filter meaning "who paid"
    /// for some and nothing for the rest leaves the caller no way to ask for the half
    /// it dropped.
    pub fee_payer: Option<Address>,
}

/// An indexed transaction as a mathematical value.
#[verifier::ext_equal]
pub struct Tx {
    pub position: Position,
    pub hash: TxHash,
    pub from: Address,
    pub to: Seq<Address>,
    pub tx_type: u8,
    pub fee_token: Option<Address>,
    pub fee_payer: Option<Address>,
}

impl View for IndexedTx {
    type V = Tx;

    open spec fn view(&self) -> Tx {
        Tx {
            position: self.position,
            hash: self.hash,
            from: self.from,
            to: self.to@,
            tx_type: self.tx_type,
            fee_token: self.fee_token,
            fee_payer: self.fee_payer,
        }
    }
}

/// The rows of a list, as mathematical values.
pub open spec fn views(rows: Seq<IndexedTx>) -> Seq<Tx> {
    rows.map_values(|row: IndexedTx| row@)
}

/// Which transactions a query selects. Every field is optional and they intersect.
#[derive(Clone, Debug, PartialEq, Eq)]
pub struct Filter {
    pub from: Option<Address>,
    pub to: Option<Address>,
    /// Either side: transactions this address sent *or* received, in one query
    /// rather than two merged by the caller.
    pub address: Option<Address>,
    pub tx_type: Option<u8>,
    /// Which token paid, for a chain where that is a choice.
    pub fee_token: Option<Address>,
    /// Who paid: the sponsor where one paid, the sender otherwise.
    pub fee_payer: Option<Address>,
    /// The heights to walk. Not a keyspace of its own: every key already ends in
    /// a position, so a range is where each walk starts and stops.
    pub blocks: BlockRange,
}

impl Default for Filter {
    /// Every transaction.
    fn default() -> (r: Self)
        ensures
            r == (Filter {
                from: None,
                to: None,
                address: None,
                tx_type: None,
                fee_token: None,
                fee_payer: None,
                blocks: BlockRange { min: None, max: None },
            }),
    {
        Self {
            from: None,
            to: None,
            address: None,
            tx_type: None,
            fee_token: None,
            fee_payer: None,
            blocks: BlockRange { min: None, max: None },
        }
    }
}

impl Filter {
    /// Whether the filter selects a transaction.
    pub open spec fn selects(self, tx: Tx) -> bool {
        &&& self.from is Some ==> tx.from == self.from->0
        &&& self.to is Some ==> tx.to.contains(self.to->0)
        &&& self.address is Some ==> tx.from == self.address->0 || tx.to.contains(self.address->0)
        &&& self.tx_type is Some ==> tx.tx_type == self.tx_type->0
        &&& self.fee_token is Some ==> tx.fee_token == self.fee_token
        &&& self.fee_payer is Some ==> tx.fee_payer == self.fee_payer
        &&& self.blocks.holds(tx.position.block_num)
    }
}

/// The canonical block the index is caught up to: where a restart resumes from.
///
/// The hash is load-bearing: a node resolves where to resume by hash, and after a
/// reorg the block at a given height is a different one.
#[derive(Clone, Copy, Debug, PartialEq, Eq)]
pub struct Tip {
    pub block_num: u64,
    pub hash: B256,
}

impl Tip {
    pub fn new(block_num: u64, hash: B256) -> (r: Self)
        ensures
            r == (Tip { block_num, hash }),
    {
        Self { block_num, hash }
    }
}

/// A row is what its fields are.
pub proof fn a_row_is_its_fields(row: IndexedTx, rows: Seq<IndexedTx>, i: int)
    ensures
        row@.position == row.position,
        row@.hash == row.hash,
        row@.from == row.from,
        row@.to == row.to@,
        row@.tx_type == row.tx_type,
        row@.fee_token == row.fee_token,
        row@.fee_payer == row.fee_payer,
        views(rows).len() == rows.len(),
        0 <= i < rows.len() ==> views(rows)[i] == rows[i]@,
{
}

/// The terms of a filter intersect: it selects a transaction exactly where the transaction meets
/// every term that is there. `to` is any of the addresses it calls, and `address` is either side.
pub proof fn a_filter_selects_what_meets_every_term(filter: Filter, tx: Tx)
    ensures
        filter.selects(tx) && filter.from is Some ==> tx.from@ == filter.from->0@,
        filter.selects(tx) && filter.to is Some ==> exists|i: int|
            0 <= i < tx.to.len() && #[trigger] tx.to[i] == filter.to->0,
        filter.selects(tx) && filter.address is Some ==> tx.from == filter.address->0 || exists|
            i: int,
        |
            0 <= i < tx.to.len() && #[trigger] tx.to[i] == filter.address->0,
        filter.selects(tx) && filter.tx_type is Some ==> tx.tx_type == filter.tx_type->0,
        filter.selects(tx) && filter.fee_token is Some ==> tx.fee_token == filter.fee_token,
        filter.selects(tx) && filter.fee_payer is Some ==> tx.fee_payer == filter.fee_payer,
        filter.selects(tx) && filter.blocks.min is Some ==> filter.blocks.min->0
            <= tx.position.block_num,
        filter.selects(tx) && filter.blocks.max is Some ==> tx.position.block_num
            <= filter.blocks.max->0,
        ({
            &&& filter.from is Some ==> tx.from@ == filter.from->0@
            &&& filter.to is Some ==> exists|i: int|
                0 <= i < tx.to.len() && #[trigger] tx.to[i] == filter.to->0
            &&& filter.address is Some ==> tx.from == filter.address->0 || exists|i: int|
                0 <= i < tx.to.len() && #[trigger] tx.to[i] == filter.address->0
            &&& filter.tx_type is Some ==> tx.tx_type == filter.tx_type->0
            &&& filter.fee_token is Some ==> tx.fee_token == filter.fee_token
            &&& filter.fee_payer is Some ==> tx.fee_payer == filter.fee_payer
            &&& filter.blocks.min is Some ==> filter.blocks.min->0 <= tx.position.block_num
            &&& filter.blocks.max is Some ==> tx.position.block_num <= filter.blocks.max->0
        }) ==> filter.selects(tx),
{
    if filter.from is Some {
        lemma_address_ext(tx.from, filter.from->0);
    }
}

/// The filter that names nothing selects everything, and a tip is what it is made of.
pub proof fn the_default_filter_selects_everything(
    filter: Filter,
    tx: Tx,
    block_num: u64,
    hash: B256,
    tip: Tip,
)
    requires
        call_ensures(<Filter as Default>::default, (), filter),
        call_ensures(Tip::new, (block_num, hash), tip),
    ensures
        filter.selects(tx),
        tip.block_num == block_num,
        tip.hash == hash,
{
}

} // verus!
