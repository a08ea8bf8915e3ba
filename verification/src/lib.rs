//! A transaction index: which transactions involve this address?
//!
//! A node stores transactions by hash and by block, so it cannot cheaply answer the question
//! an explorer or wallet asks first. This is the secondary index that can. It deals in
//! addresses, hashes and a type byte, and knows nothing about how a chain represents a
//! transaction.
//!
//! The layout ([`layout`]): a primary keyspace of rows by position, one secondary keyspace per
//! filterable column, and one of counters. Chain position is the suffix of every key, because
//! it is the only total order transactions have: it keeps cursors stable and makes every
//! secondary range iterate in chain order for free.
//!
//! The store itself is an ordered key-value store of the caller's choosing. What it is asked
//! and told is decided here; reading and writing it is left to the caller:
//!
//! - [`Draft`] turns a [`Plan`] and what was read for it into one batch of writes.
//! - [`Query`] says which iterator to move next and takes the key that came of it, until the
//!   rows of a page are found.
//! - [`Filter::counter`], [`page`] and [`Stats`] do the same for counts, pages and an operator's
//!   view.
//!
//! What holds of all this together is proved in [`upkeep`] (applying plans keeps the store the
//! index of exactly the rows that the plans leave), [`matching`] and [`listing`] (a query finds
//! exactly what it is after, and comes to an end) and [`answers`] (queries, pages and counts
//! answer truly of the rows).

pub mod answers;
pub mod apply;
pub mod bytes;
pub mod codec;
pub mod count;
pub mod decimal;
pub mod deltas;
pub mod entries;
pub mod error;
pub mod layout;
pub mod lex;
pub mod listing;
pub mod matching;
pub mod page;
pub mod plan;
pub mod position;
pub mod primitives;
pub mod query;
pub mod scan;
pub mod search;
pub mod stats;
pub mod store;
pub mod types;
pub mod upkeep;

pub use crate::apply::Draft;
pub use crate::error::Error;
pub use crate::layout::{Keyspace, Kind};
pub use crate::listing::Listing;
pub use crate::page::{open_page, peek, Page, DEFAULT_LIMIT, MAX_LIMIT};
pub use crate::plan::Plan;
pub use crate::position::{BlockRange, Order, Position};
pub use crate::primitives::{Address, TxHash, B256};
pub use crate::query::{resolve, row_keys, Query};
pub use crate::scan::{KeyScan, Reading, Window};
pub use crate::search::{Request, Search};
pub use crate::stats::Stats;
pub use crate::store::Op;
pub use crate::types::{Filter, IndexedTx, Tip};
