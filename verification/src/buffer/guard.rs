//! Page guards: access handles for buffer frames.

use vstd::prelude::*;

verus! {

/// Access level for a page guard.
#[derive(Debug, Clone, Copy, PartialEq, Eq, Structural)]
pub enum GuardAccess {
    /// Read-only access (shared).
    Read,
    /// Read-write access (exclusive).
    Write,
}

/// Handle to a page in the buffer pool: a frame index and an access level.
///
/// It does not borrow the buffer manager, so several guards can coexist;
/// unpinning is done through `BufferManager::unpin`.
pub struct PageGuard {
    frame_index: usize,
    page_id: u64,
    access: GuardAccess,
}

impl PageGuard {
    /// The guarded frame index.
    pub closed spec fn spec_frame_index(&self) -> usize {
        self.frame_index
    }

    /// The guarded page ID.
    pub closed spec fn spec_page_id(&self) -> u64 {
        self.page_id
    }

    /// The guard's access level.
    pub closed spec fn spec_access(&self) -> GuardAccess {
        self.access
    }

    /// Create a new page guard.
    pub(crate) fn new(frame_index: usize, page_id: u64, access: GuardAccess) -> (r: Self)
        ensures
            r.spec_frame_index() == frame_index,
            r.spec_page_id() == page_id,
            r.spec_access() == access,
    {
        Self { frame_index, page_id, access }
    }

    /// Get the frame index.
    pub fn frame_index(&self) -> (r: usize)
        ensures
            r == self.spec_frame_index(),
    {
        self.frame_index
    }

    /// Get the page ID.
    pub fn page_id(&self) -> (r: u64)
        ensures
            r == self.spec_page_id(),
    {
        self.page_id
    }

    /// Get the access level.
    pub fn access(&self) -> (r: GuardAccess)
        ensures
            r == self.spec_access(),
    {
        self.access
    }

    /// Whether this guard has write access.
    pub fn is_writable(&self) -> (r: bool)
        ensures
            r == (self.spec_access() == GuardAccess::Write),
    {
        self.access == GuardAccess::Write
    }
}

} // verus!
