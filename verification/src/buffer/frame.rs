//! Buffer frame: a slot in the buffer pool that holds one page.

use vstd::prelude::*;
use std::time::Instant;
use crate::btree::node::PAGE_SIZE;

verus! {

/// std's monotonic clock reading.
#[verifier::external_type_specification]
#[verifier::external_body]
pub struct ExInstant(Instant);

/// Reads the clock with `Instant::now()`; nothing is claimed of the reading.
#[verifier::external_body]
pub(crate) fn now() -> (r: Instant) {
    Instant::now()
}

/// State of a buffer frame.
#[derive(Debug, Clone, Copy, PartialEq, Eq, Structural)]
pub enum FrameState {
    /// Frame is empty and available for use.
    Free,
    /// Frame contains a page as read from disk.
    Clean,
    /// Frame contains a page modified in memory.
    Dirty,
}

/// A buffer frame holding a single page, with the metadata the buffer
/// manager uses for state, pinning and eviction.
pub struct Frame {
    /// The page data buffer.
    pub data: Box<[u8; PAGE_SIZE]>,
    /// Page ID currently stored in this frame (None if free).
    pub page_id: Option<u64>,
    /// Current state of the frame.
    pub state: FrameState,
    /// Number of active pins.
    pub pin_count: u32,
    /// Whether this frame is pinned (cannot be evicted).
    pub pinned: bool,
    /// Last access time.
    pub last_access: Instant,
    /// Whether the frame has been accessed since the last eviction sweep.
    pub referenced: bool,
}

/// Whether every byte of a page buffer is zero.
pub open spec fn all_zero(data: Seq<u8>) -> bool {
    forall|i: int| 0 <= i < data.len() ==> data[i] == 0u8
}

impl Frame {
    /// Create a new empty frame.
    pub fn new_empty() -> (r: Self)
        ensures
            r.data@.len() == PAGE_SIZE,
            all_zero(r.data@),
            r.page_id is None,
            r.state == FrameState::Free,
            r.pin_count == 0,
            !r.pinned,
            !r.referenced,
    {
        Self {
            data: Box::new([0u8; 4096]),
            page_id: None,
            state: FrameState::Free,
            pin_count: 0,
            pinned: false,
            last_access: now(),
            referenced: false,
        }
    }

    /// Whether this frame is free (available for use).
    pub fn is_free(&self) -> (r: bool)
        ensures
            r == (self.state == FrameState::Free),
    {
        self.state == FrameState::Free
    }

    /// Whether this frame contains a dirty page.
    pub fn is_dirty(&self) -> (r: bool)
        ensures
            r == (self.state == FrameState::Dirty),
    {
        self.state == FrameState::Dirty
    }

    /// Mark the frame as containing a clean page.
    pub fn mark_clean(&mut self)
        ensures
            final(self).state == FrameState::Clean,
            final(self).data == old(self).data,
            final(self).page_id == old(self).page_id,
            final(self).pin_count == old(self).pin_count,
            final(self).pinned == old(self).pinned,
            final(self).referenced == old(self).referenced,
    {
        self.state = FrameState::Clean;
    }

    /// Mark the frame as containing a dirty page.
    pub fn mark_dirty(&mut self)
        ensures
            final(self).state == FrameState::Dirty,
            final(self).data == old(self).data,
            final(self).page_id == old(self).page_id,
            final(self).pin_count == old(self).pin_count,
            final(self).pinned == old(self).pinned,
            final(self).referenced == old(self).referenced,
    {
        self.state = FrameState::Dirty;
    }

    /// Pin the frame (prevent eviction) and mark it referenced.
    pub fn pin(&mut self)
        requires
            old(self).pin_count < u32::MAX,
        ensures
            final(self).pin_count == old(self).pin_count + 1,
            final(self).pinned,
            final(self).referenced,
            final(self).state == old(self).state,
            final(self).data == old(self).data,
            final(self).page_id == old(self).page_id,
    {
        self.pin_count = self.pin_count + 1;
        self.pinned = true;
        self.last_access = now();
        self.referenced = true;
    }

    /// Unpin the frame; it becomes evictable when no pins remain.
    pub fn unpin(&mut self)
        ensures
            final(self).pin_count == if old(self).pin_count > 0 {
                old(self).pin_count - 1
            } else {
                0
            },
            final(self).pinned == (old(self).pinned && final(self).pin_count != 0),
            final(self).referenced == old(self).referenced,
            final(self).state == old(self).state,
            final(self).data == old(self).data,
            final(self).page_id == old(self).page_id,
    {
        if self.pin_count > 0 {
            self.pin_count = self.pin_count - 1;
        }
        if self.pin_count == 0 {
            self.pinned = false;
        }
    }

    /// Load page data into this frame: it now holds a clean copy of the page.
    pub fn load(&mut self, page_id: u64, data: &[u8; PAGE_SIZE])
        ensures
            final(self).page_id == Some(page_id),
            final(self).data@ == data@,
            final(self).state == FrameState::Clean,
            final(self).referenced,
            final(self).pin_count == old(self).pin_count,
            final(self).pinned == old(self).pinned,
    {
        self.page_id = Some(page_id);
        self.data = Box::new(*data);
        self.state = FrameState::Clean;
        self.last_access = now();
        self.referenced = true;
    }

    /// Clear the frame (make it free, unpinned and zeroed).
    pub fn clear(&mut self)
        ensures
            final(self).page_id is None,
            final(self).state == FrameState::Free,
            final(self).pin_count == 0,
            !final(self).pinned,
            final(self).data@.len() == PAGE_SIZE,
            all_zero(final(self).data@),
            final(self).referenced == old(self).referenced,
    {
        self.page_id = None;
        self.state = FrameState::Free;
        self.pin_count = 0;
        self.pinned = false;
        self.data = Box::new([0u8; 4096]);
    }
}

} // verus!
