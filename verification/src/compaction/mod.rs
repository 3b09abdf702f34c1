//! LSM-tree compaction: levels, size ratios and compaction hooks.

pub mod filter;
pub mod strategy;
pub mod lsm;
pub mod merge;

pub use filter::{CompactionFilter, FilterDecision};
pub use strategy::CompactionStrategy;

pub use lsm::{CompactionError, Level, LSMTree};
pub use merge::MergeIterator;
