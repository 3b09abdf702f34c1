//! Concurrency control: latches and transactions.

pub mod latch;
pub mod txn;

pub use latch::HybridLatch;
pub use txn::{Transaction, TransactionId, TransactionManager, TransactionState};
