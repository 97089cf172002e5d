# FluxDB

A transactional key/value storage engine: fixed-size pages, a write-ahead log, a buffer
pool, a B+Tree with row versions, and transactions with snapshot isolation. The library is
written in Verus: every function carries a contract, and the contracts are proved.

## Layout

- `src/types` - how keys and values are stored, and how stored keys compare
- `src/page` - leaf, internal and metadata pages, checksums
- `src/wal` - records, the ring of waiting records, segments, opening a log
- `src/disk.rs`, `src/buffer_pool` - the data file and the frames in front of it
- `src/transaction.rs`, `src/transaction_manager.rs` - snapshots and the commit log
- `src/index` - the tree: search, insert, delete, update, splits, scans, vacuum
- `src/recovery` - repeating the log after a restart and rebuilding the commit log
- `src/engine` - the database: transactions of one operation, transaction handles
- `app` - the host: files, waiting, error messages, command line
- `tests` - examples that are run

Public proof functions whose names begin with `law_` state what holds of several functions
together, such as what a read gives back of a write (`src/engine/history.rs`,
`src/index/laws.rs`), how every page of the tree is reached (`src/index/tree.rs`), what a
snapshot sees (`src/transaction.rs`), what a restart keeps (`src/recovery`,
`src/engine/restart.rs`, `src/engine/told.rs`) and what readers find after a crash
(`src/engine/crash.rs`). What is read is stated over the rows of all leaves in order
(`src/index/flat.rs`), since the versions of one key may fill several leaves
(`src/index/run.rs`). The laws on a crash rest on two invariants of the index: the log keeps up with
the pages (`src/index/trail.rs`), and what the data file and the segments of the log hold is a
tree in order at any time (`src/index/floor.rs`).

## The host's part

The library does no input or output. It holds the data file's pages and the log's segments
in memory, decides what a read, a write or a commit does to them, and tells which pages
changed. The host saves the segments before the pages, and reports a failure back. It commits
in two steps: `TxnHandle::prepare` puts the record into the segments, the host saves them, and
`Ending::settle` takes what came of that; until then the transaction counts as active. A
transaction that has to wait for another one is told so; the host waits and asks again.
