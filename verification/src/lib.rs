//! seerdb: an out-of-place B-tree storage engine with key-value separation.
//!
//! The verified core holds the engine's data structures and rules: blob
//! files, bloom filters, the in-memory B-tree, the buffer pool, the LSM
//! level bookkeeping and compaction strategy, latches and transactions,
//! health reporting, the sorted run a memtable flush writes, the WAL
//! writer's group-commit decisions, write batches, and the rules of the
//! database front end: key partitioning, the read path, write admission,
//! the choice of compaction inputs and the SSTable counter on reopening.

pub mod alex;
pub mod hashing;
pub mod codec;
pub mod blob;
pub mod btree;
pub mod bloom;
pub mod concurrency;
pub mod paths;
pub mod compaction;
pub mod buffer;
pub mod health;
pub mod text;
pub mod db;
pub mod memtable;
pub mod flush;
pub mod group_commit;
pub mod batch;
pub mod sstable_names;
