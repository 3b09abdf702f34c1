//! Buffer pool management: page frames, guards, eviction policies and the
//! buffer manager that ties them together.

pub mod eviction;
pub mod frame;
pub mod guard;
pub mod manager;


pub use frame::{Frame, FrameState};
pub use manager::{BufferManager, BufferStats};
pub use guard::{PageGuard, GuardAccess};
