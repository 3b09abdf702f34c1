//! Hybrid latch: supports shared (read) and exclusive (write) locking.
//!
//! The latch word is `UNLOCKED` (0), a reader count (1, 2, ...), or
//! `WRITE_LOCKED` (`u32::MAX`). The state transitions are plain functions
//! of the observed word; the latch applies them with atomic exchanges.

use vstd::prelude::*;
use std::sync::atomic::{AtomicU32, Ordering};

verus! {

/// Latch word of an unlocked latch.
pub const UNLOCKED: u32 = 0;

/// Latch word of a latch held by one reader.
pub const READ_LOCKED: u32 = 1;

/// Latch word of a write-locked latch.
pub const WRITE_LOCKED: u32 = 0xffff_ffff;

/// Limit on failed exchanges before a lock attempt or release gives up:
/// far beyond what any run reaches, it gives the retry loops a measure that
/// decreases.
pub const MAX_EXCHANGE_RETRIES: u64 = 0xffff_ffff_ffff_ffff;

/// The latch word after one more reader joins, or `None` if write-locked.
pub open spec fn spec_read_acquire(state: u32) -> Option<u32> {
    if state == WRITE_LOCKED {
        None
    } else if state == UNLOCKED {
        Some(READ_LOCKED)
    } else {
        Some((state + 1) as u32)
    }
}

/// The latch word after one reader leaves, or `None` if not read-locked.
pub open spec fn spec_read_release(state: u32) -> Option<u32> {
    if state == UNLOCKED || state == WRITE_LOCKED {
        None
    } else if state == READ_LOCKED {
        Some(UNLOCKED)
    } else {
        Some((state - 1) as u32)
    }
}

/// The number of readers a latch word records.
pub open spec fn spec_readers(state: u32) -> u32 {
    if state == WRITE_LOCKED {
        0
    } else {
        state
    }
}

/// Computes the latch word after one more reader joins, or `None` if the
/// latch is write-locked.
pub fn read_acquire(state: u32) -> (r: Option<u32>)
    ensures
        r == spec_read_acquire(state),
{
    if state == WRITE_LOCKED {
        None
    } else if state == UNLOCKED {
        Some(READ_LOCKED)
    } else {
        Some(state + 1)
    }
}

/// Computes the latch word after one reader leaves, or `None` if the latch
/// is not read-locked.
pub fn read_release(state: u32) -> (r: Option<u32>)
    ensures
        r == spec_read_release(state),
{
    if state == UNLOCKED || state == WRITE_LOCKED {
        None
    } else if state == READ_LOCKED {
        Some(UNLOCKED)
    } else {
        Some(state - 1)
    }
}

/// Computes the number of readers a latch word records.
pub fn readers(state: u32) -> (r: u32)
    ensures
        r == spec_readers(state),
{
    if state == WRITE_LOCKED {
        0
    } else {
        state
    }
}

/// Law: a reader that joins and then leaves restores the latch word (for
/// words below the last reader count, which would collide with the write lock).
pub proof fn law_read_acquire_release(state: u32)
    requires
        state < WRITE_LOCKED - 1,
    ensures
        spec_read_acquire(state) is Some,
        spec_read_release(spec_read_acquire(state).unwrap()) == Some(state),
        spec_readers(spec_read_acquire(state).unwrap()) == spec_readers(state) + 1,
{
}

/// Law: a write-locked latch admits no reader and releases no reader.
pub proof fn law_write_lock_excludes_readers()
    ensures
        spec_read_acquire(WRITE_LOCKED) is None,
        spec_read_release(WRITE_LOCKED) is None,
        spec_readers(WRITE_LOCKED) == 0,
{
}

/// The latch word after a writer takes the latch, or `None` unless it is
/// free: only an unlocked latch can be write-locked.
pub open spec fn spec_write_acquire(state: u32) -> Option<u32> {
    if state == UNLOCKED {
        Some(WRITE_LOCKED)
    } else {
        None
    }
}

/// The latch word after the writer leaves: unlocked.
pub open spec fn spec_write_release(state: u32) -> u32 {
    UNLOCKED
}

/// Whether a latch word records a reader or a writer.
pub open spec fn spec_is_locked(state: u32) -> bool {
    state != UNLOCKED
}

/// Computes the latch word after a writer takes the latch, or `None` unless
/// it is free.
pub fn write_acquire(state: u32) -> (r: Option<u32>)
    ensures
        r == spec_write_acquire(state),
{
    if state == UNLOCKED {
        Some(WRITE_LOCKED)
    } else {
        None
    }
}

/// Computes the latch word after the writer leaves.
pub fn write_release(state: u32) -> (r: u32)
    ensures
        r == spec_write_release(state),
{
    UNLOCKED
}

/// Computes whether a latch word records a reader or a writer.
pub fn word_is_locked(state: u32) -> (r: bool)
    ensures
        r == spec_is_locked(state),
{
    state != UNLOCKED
}

/// Law: a writer gets the latch only when no reader and no writer holds
/// it; once it has it, no reader gets in and the latch counts as locked;
/// when it leaves, the latch is free again with no readers.
pub proof fn law_write_lock_exclusive(state: u32)
    ensures
        spec_write_acquire(state) is Some <==> spec_readers(state) == 0 && state != WRITE_LOCKED,
        spec_write_acquire(state) matches Some(w) ==> spec_read_acquire(w) is None && spec_write_acquire(w) is None
            && spec_is_locked(w),
        spec_write_acquire(state) matches Some(w) ==> spec_write_release(w) == state,
        !spec_is_locked(spec_write_release(state)),
        spec_readers(spec_write_release(state)) == 0,
        spec_read_acquire(spec_write_release(state)) is Some,
{
}

/// A hybrid latch supporting shared and exclusive locking.
pub struct HybridLatch {
    state: AtomicU32,
}

impl HybridLatch {
    /// Create a new unlocked latch.
    pub fn new() -> (r: Self) {
        Self { state: AtomicU32::new(UNLOCKED) }
    }

    /// Try to acquire a shared (read) lock.
    ///
    /// Returns true if the lock was acquired, false if the latch was seen
    /// write-locked. An exchange that loses a race is retried with the word
    /// it observed (up to `MAX_EXCHANGE_RETRIES` times).
    pub fn try_read_lock(&self) -> (r: bool) {
        let mut current = self.state.load(Ordering::Acquire);
        let mut attempts: u64 = 0;
        while attempts < MAX_EXCHANGE_RETRIES
            decreases MAX_EXCHANGE_RETRIES - attempts,
        {
            let new_state = match read_acquire(current) {
                None => {
                    return false;
                },
                Some(s) => s,
            };
            match self.state.compare_exchange_weak(
                current,
                new_state,
                Ordering::AcqRel,
                Ordering::Acquire,
            ) {
                Ok(_) => {
                    return true;
                },
                Err(actual) => {
                    current = actual;
                },
            }
            attempts = attempts + 1;
        }
        false
    }

    /// Release a shared (read) lock; does nothing if the latch is not read-locked.
    pub fn read_unlock(&self) {
        let mut current = self.state.load(Ordering::Acquire);
        let mut attempts: u64 = 0;
        while attempts < MAX_EXCHANGE_RETRIES
            decreases MAX_EXCHANGE_RETRIES - attempts,
        {
            let new_state = match read_release(current) {
                None => {
                    return;
                },
                Some(s) => s,
            };
            match self.state.compare_exchange_weak(
                current,
                new_state,
                Ordering::AcqRel,
                Ordering::Acquire,
            ) {
                Ok(_) => {
                    return;
                },
                Err(actual) => {
                    current = actual;
                },
            }
            attempts = attempts + 1;
        }
    }

    /// Try to acquire an exclusive (write) lock.
    ///
    /// Returns true if the lock was acquired, false if the latch is already locked.
    /// The exchange succeeds only from the free word to the word
    /// `write_acquire` gives for it.
    pub fn try_write_lock(&self) -> (r: bool) {
        match write_acquire(UNLOCKED) {
            Some(locked) => self.state.compare_exchange(UNLOCKED, locked, Ordering::AcqRel, Ordering::Acquire).is_ok(),
            None => false,
        }
    }

    /// Release an exclusive (write) lock: the word `write_release` gives.
    pub fn write_unlock(&self) {
        self.state.store(write_release(WRITE_LOCKED), Ordering::Release);
    }

    /// Check if the latch is currently locked (for optimistic validation).
    pub fn is_locked(&self) -> (r: bool) {
        word_is_locked(self.state.load(Ordering::Acquire))
    }

    /// Get the current reader count (0 when write-locked).
    pub fn reader_count(&self) -> (r: u32)
        ensures
            r != WRITE_LOCKED,
    {
        let state = self.state.load(Ordering::Acquire);
        readers(state)
    }
}

impl Default for HybridLatch {
    fn default() -> (r: Self) {
        Self::new()
    }
}

} // verus!
