# seerdb

The core of a key-value storage engine (an LSM tree with a B-tree index,
key-value separation and learned indexes), written in Verus: each function
of the library carries a contract, and Verus proves the code against it.

## Layout

- `src/` — the verified library.
  - `btree/` — byte-string order, B-tree nodes, and the B-tree itself
    (insert with node splits, lookup, delete, range scans), with its laws
    (a read gives back the last insert, scans come out in key order).
  - `memtable.rs` — the write buffer: versioned entries in a skip list,
    snapshot reads, merge operands, range scans.
  - `compaction/` — LSM levels, the adaptive compaction strategy, the merge
    of SSTable entries (newest version wins) and the compaction filter hook.
  - `blob/` — blob files and the blob manager (key-value separation).
  - `bloom/` — bloom filters (plain, bit-packed, cache-line blocked, SIMD
    layout) and their byte formats.
  - `buffer/` — buffer pool frames, guards, CLOCK and CLOCK-Pro eviction.
  - `alex/` — the integer parts of the learned index: gapped arrays,
    searches and routing.
  - `concurrency/` — latch state transitions and transaction bookkeeping.
  - `health.rs`, `db.rs` — health reports and the rules of the database
    front end: key partitioning, the read path across memtables and
    SSTables, write admission under memory and disk limits, the choice of
    compaction inputs, and the disk-space helpers.
  - `flush.rs` — the sorted run a memtable flush writes: the partitions'
    entries merged by key, every pair kept.
  - `hashing.rs`, `paths.rs` — the calls into hash crates and std paths,
    each behind a trusted wrapper: CRC-32C is stated in full, XXH64 and
    std's path operations by name; foldhash, whose output differs between
    platforms, has no contract.
  - `group_commit.rs` — the WAL writer's group-commit decisions, one event
    at a time, with their laws (no durable record lost or acknowledged
    before its flush; a barrier after the pending batch).
  - `batch.rs`, `sstable_names.rs` — write batches, and the SSTable
    counter a reopened database continues from.
- `tests/` — tests of the library.
- `app/` — ordinary Rust around the library: floating-point models (linear
  models of the learned index, false-positive rates, the learned bloom
  filter), `Display` impls and error types with outside derives.
