# tx-index

A secondary index from address and transaction type to chain position, for nodes that
store transactions by hash and by block, with its logic verified in Verus.

A node can answer "give me this transaction" and "give me block 12". It cannot cheaply
answer the question an explorer or wallet asks first (*which transactions involve this
address*) because nothing is keyed that way. This is the index that answers it.

## Layout of the store

One primary keyspace and one secondary per filterable column, and one of counters:

```
primary   block|idx           -> hash, from, type, fee_token?, fee_payer?, to*
from      from |block|idx     -> ()
to        to   |block|idx     -> ()
type      type |block|idx     -> ()
fee_token fee_token|block|idx -> ()
fee_payer fee_payer|block|idx -> ()
count     kind|0|value        -> u64
```

Chain position is the suffix everywhere, because it is the only *total* order transactions
have. Cursors are stable, every secondary range iterates in chain order for free, and
filters intersect by merging sorted ranges.

## Layout of the project

`src/` is the library. It never touches a database: it says what to read, takes what was
read, and hands back what to write.

- `lex`, `bytes`, `decimal`, `position`, `primitives`, `types`, `error`: byte strings in
  dictionary order, numbers, positions and cursors, addresses and hashes, rows and filters.
- `layout`, `codec`, `entries`: keyspaces and keys, stored values, and which entries and
  counters a row owns.
- `plan`, `deltas`, `apply`: what a change to the chain means, and the batch of writes it
  makes (`Plan`, `Draft`).
- `scan`, `search`, `listing`, `query`: which iterator to move next and what its key means,
  until the rows of a query are found (`Query`, `Search`, `Listing`).
- `count`, `page`, `stats`: counts, pages and an operator's view.
- `store`: the store as a mathematical value, and what it holds when it is the index of some
  rows.
- `upkeep`, `matching`, `answers`: what holds of all this together.

`app/` is the index over RocksDB: it opens the database, performs the reads the library asks
for, under one snapshot per query, and commits each batch whole.

`tests/` drives the library over an ordered map in memory.

## What is proved

Applying any plan to a store that holds the index of some rows leaves one that holds the index
of exactly the rows the plan leaves. A revert scrubs every keyspace, and a row put over another
takes its entries with it. As long as there are no more rows than a 64-bit counter can count,
every counter stands at the number of rows it counts. Folding plans and applying the result
leaves the store as applying them in order does: every keyspace, but for the counters beyond
that bound. Applying a plan twice leaves the store as applying it once does, always.

A query has one answer: exactly the rows its filter selects past the cursor, in order, each
once, up to the limit; and it comes to it in the end. Each walk it moves comes to the first
entry at or past its target, by steps or by a seek. A cursor does not drift as blocks arrive or
are reorganised above it. Descending is the reverse of ascending, paging by cursor covers every
row exactly once in as many pages as the rows fill, and a count is what walking to the end would
yield.
