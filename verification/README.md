# arcux

The verified core of a distributed, transactional key-value database: a log-structured storage
engine with multi-version snapshots and two-phase transactions, a Raft consensus core, a placement
driver with its timestamp oracle, and the decisions of the client and the shell. The library is
written in Rust and verified with Verus.

## Layout

- `src/engine/` — write-ahead log, memtable, sorted tables, manifest, recovery, group commit,
  snapshots, lock resolution and transactions. What they promise together stands in `merged.rs`
  (reads see every write that was applied), `durability.rs` (what a crash leaves, and what an engine
  that is opened again reads), `isolation.rs` (snapshots and locks), `atomicity.rs` (whole
  transactions), `grouping.rs` and `commit.rs` (group commit) and `range.rs` (scans).
- `src/raft/` — the node and its store, and the safety of a group of nodes: `cluster.rs` says what
  can happen, `history.rs`, `steps.rs` and `frame.rs` keep the record, and `safety.rs` states what
  holds.
- `src/pd/` — regions, membership, the timestamp oracle, the replicated state machine and its
  replica, the group that serves requests, and the conversions at its edges. That a group never
  hands out a timestamp twice, and that its replicas agree, stands in `oracle.rs` and `grants.rs`;
  what holds of every state that can come about, in `reach.rs`.
- `src/client/` — routing, retries, and what each operation sends.
- `src/shell.rs` — splitting lines and reading commands.
- `app/` — files, threads, clocks and the terminal.
- `tests/` — the library on concrete values.

## What is trusted

Five things are believed rather than proved: the skip map and the checksum of two crates (see
`src/engine/memtable.rs` and `src/engine/checksum.rs`), that whether a transport takes a URI depends
on the URI alone (`src/client/endpoint.rs`), text operations of the standard library
(`src/text.rs`), and the system clock (`src/pd/clock.rs`), of which nothing is claimed.
