# lightgraph

An in-memory graph store with MVCC snapshot reads, buffered transactions,
append-only store logs, snapshots and a CJK tokenizer, verified with Verus.

- `src/` is the verified library: the node, edge and property stores and
  their adjacency chains, the transaction manager and transactions, the
  log record formats and their readers, the log writers' batching rules,
  snapshot bookkeeping, the consistency levels, the tokenizer, and how
  property predicates combine their index lookups.
  Outside crates (`dashmap`, `crossbeam`, `roaring`) are reached through a
  few trusted wrappers in `src/storage/backing.rs` and
  `src/index/property.rs`, each with the contract it is
  believed to meet; `std` character and UTF-8 conversions likewise in
  `src/index/fulltext/analyzer.rs` and `src/storage/column_record.rs`.
- `app/` is the runtime around it: files, the log writer thread,
  serialization (`serde`, `bincode`, `serde_json`), persistent stores and
  snapshots, and the ranking layers that work in floating point
  (full-text BM25, property index lookups, hybrid search), and the
  transaction manager shared between threads.
- `tests/` exercises the library.
