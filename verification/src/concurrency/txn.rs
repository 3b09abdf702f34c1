//! Transactions providing snapshot isolation, and the manager that numbers them.

use vstd::prelude::*;
use std::sync::atomic::{AtomicU64, Ordering};

verus! {

/// Transaction ID type.
pub type TransactionId = u64;

/// Transaction state.
#[derive(Debug, Clone, Copy, PartialEq, Eq, Structural)]
pub enum TransactionState {
    /// Transaction is active.
    Active,
    /// Transaction has been committed.
    Committed,
    /// Transaction has been aborted.
    Aborted,
}

/// Abstract state of a transaction.
pub struct TransactionView {
    /// Unique transaction ID.
    pub id: u64,
    /// Latest committed transaction ID at start time.
    pub snapshot_id: u64,
    /// Current state.
    pub state: TransactionState,
    /// Pages read, in order.
    pub read_set: Seq<u64>,
    /// Pages written, in order.
    pub write_set: Seq<u64>,
}

/// A transaction providing snapshot isolation.
pub struct Transaction {
    id: TransactionId,
    snapshot_id: TransactionId,
    state: TransactionState,
    read_set: Vec<u64>,
    write_set: Vec<u64>,
}

impl View for Transaction {
    type V = TransactionView;

    closed spec fn view(&self) -> TransactionView {
        TransactionView {
            id: self.id,
            snapshot_id: self.snapshot_id,
            state: self.state,
            read_set: self.read_set@,
            write_set: self.write_set@,
        }
    }
}

impl Transaction {
    /// Create a new active transaction with empty read and write sets.
    pub fn new(id: TransactionId, snapshot_id: TransactionId) -> (r: Self)
        ensures
            r@.id == id,
            r@.snapshot_id == snapshot_id,
            r@.state == TransactionState::Active,
            r@.read_set == Seq::<u64>::empty(),
            r@.write_set == Seq::<u64>::empty(),
    {
        Self {
            id,
            snapshot_id,
            state: TransactionState::Active,
            read_set: Vec::new(),
            write_set: Vec::new(),
        }
    }

    /// Get the transaction ID.
    pub fn id(&self) -> (r: TransactionId)
        ensures
            r == self@.id,
    {
        self.id
    }

    /// Get the snapshot ID.
    pub fn snapshot_id(&self) -> (r: TransactionId)
        ensures
            r == self@.snapshot_id,
    {
        self.snapshot_id
    }

    /// Get the transaction state.
    pub fn state(&self) -> (r: TransactionState)
        ensures
            r == self@.state,
    {
        self.state
    }

    /// Whether the transaction is active.
    pub fn is_active(&self) -> (r: bool)
        ensures
            r == (self@.state == TransactionState::Active),
    {
        self.state == TransactionState::Active
    }

    /// Record a page read; only an active transaction records it.
    pub fn record_read(&mut self, page_id: u64)
        ensures
            final(self)@.read_set == if old(self)@.state == TransactionState::Active {
                old(self)@.read_set.push(page_id)
            } else {
                old(self)@.read_set
            },
            final(self)@.write_set == old(self)@.write_set,
            final(self)@.id == old(self)@.id,
            final(self)@.snapshot_id == old(self)@.snapshot_id,
            final(self)@.state == old(self)@.state,
    {
        if self.state == TransactionState::Active {
            self.read_set.push(page_id);
        }
    }

    /// Record a page write; only an active transaction records it.
    pub fn record_write(&mut self, page_id: u64)
        ensures
            final(self)@.write_set == if old(self)@.state == TransactionState::Active {
                old(self)@.write_set.push(page_id)
            } else {
                old(self)@.write_set
            },
            final(self)@.read_set == old(self)@.read_set,
            final(self)@.id == old(self)@.id,
            final(self)@.snapshot_id == old(self)@.snapshot_id,
            final(self)@.state == old(self)@.state,
    {
        if self.state == TransactionState::Active {
            self.write_set.push(page_id);
        }
    }

    /// Get the read set.
    pub fn read_set(&self) -> (r: &[u64])
        ensures
            r@ == self@.read_set,
    {
        self.read_set.as_slice()
    }

    /// Get the write set.
    pub fn write_set(&self) -> (r: &[u64])
        ensures
            r@ == self@.write_set,
    {
        self.write_set.as_slice()
    }

    /// Commit the transaction.
    pub fn commit(&mut self)
        ensures
            final(self)@ == (TransactionView { state: TransactionState::Committed, ..old(self)@ }),
    {
        self.state = TransactionState::Committed;
    }

    /// Abort the transaction.
    pub fn abort(&mut self)
        ensures
            final(self)@ == (TransactionView { state: TransactionState::Aborted, ..old(self)@ }),
    {
        self.state = TransactionState::Aborted;
    }
}

/// Transaction manager: allocates transaction IDs and tracks the latest commit.
///
/// Its counters are atomic and may be shared between threads, so its
/// contracts state only what holds of every interleaving.
pub struct TransactionManager {
    next_id: AtomicU64,
    latest_committed: AtomicU64,
}

impl TransactionManager {
    /// Create a new transaction manager (first ID 1, nothing committed).
    pub fn new() -> (r: Self) {
        Self { next_id: AtomicU64::new(1), latest_committed: AtomicU64::new(0) }
    }

    /// Begin a new transaction with the next ID and the latest committed
    /// ID as its snapshot.
    pub fn begin(&self) -> (r: Transaction)
        ensures
            r@.state == TransactionState::Active,
            r@.read_set == Seq::<u64>::empty(),
            r@.write_set == Seq::<u64>::empty(),
    {
        let id = self.next_id.fetch_add(1, Ordering::Relaxed);
        let snapshot_id = self.latest_committed.load(Ordering::Acquire);
        Transaction::new(id, snapshot_id)
    }

    /// Commit a transaction and publish its ID as the latest committed.
    pub fn commit(&self, txn: &mut Transaction)
        ensures
            final(txn)@ == (TransactionView { state: TransactionState::Committed, ..old(txn)@ }),
    {
        txn.commit();
        self.latest_committed.store(txn.id(), Ordering::Release);
    }

    /// Abort a transaction.
    pub fn abort(&self, txn: &mut Transaction)
        ensures
            final(txn)@ == (TransactionView { state: TransactionState::Aborted, ..old(txn)@ }),
    {
        txn.abort();
    }

    /// Get the latest committed transaction ID.
    pub fn latest_committed(&self) -> (r: TransactionId) {
        self.latest_committed.load(Ordering::Acquire)
    }
}

impl Default for TransactionManager {
    fn default() -> (r: Self) {
        Self::new()
    }
}

} // verus!
