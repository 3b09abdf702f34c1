//! Page replacement policies: Clock and Clock-Pro.
//!
//! Each frame's replacement state lives in an atomic so that a policy can be
//! shared between threads. The decisions are plain functions of the state
//! a policy observes; the policies apply them to their atomics.

use vstd::prelude::*;
use std::sync::atomic::{AtomicBool, AtomicU8, AtomicUsize, Ordering};

verus! {

/// Index of a frame in the buffer pool.
pub type FrameId = usize;

/// A page replacement policy over `capacity` frames.
pub trait EvictionPolicy: Send + Sync {
    /// Whether the policy's state is consistent and it covers at least one frame.
    spec fn ready(&self) -> bool;

    /// Record an access to a frame.
    fn access(&self, frame_id: FrameId)
        requires
            self.ready(),
    ;

    /// Choose a frame to evict, if one can be found.
    fn evict(&self) -> Option<FrameId>
        requires
            self.ready(),
    ;

    /// Forget a frame's history.
    fn remove(&self, frame_id: FrameId)
        requires
            self.ready(),
    ;
}

/// Reference bit of a Clock-Pro state.
pub const REF_BIT: u8 = 1;

/// Hot bit of a Clock-Pro state.
pub const HOT_BIT: u8 = 2;

/// Whether a Clock-Pro state has the reference bit.
pub open spec fn is_ref(s: u8) -> bool {
    s & REF_BIT != 0
}

/// Whether a Clock-Pro state has the hot bit.
pub open spec fn is_hot(s: u8) -> bool {
    s & HOT_BIT != 0
}

/// What the Clock-Pro hand does at a frame.
#[derive(Debug, Clone, Copy, PartialEq, Eq, Structural)]
pub enum SweepAction {
    /// Hot and referenced, or cold and referenced: clear the reference bit.
    ClearReference,
    /// Hot but not referenced: demote to cold.
    Demote,
    /// Cold and not referenced: evict the frame.
    Evict,
}

/// The Clock-Pro state after an access: a referenced cold page becomes hot
/// (and stays referenced); any other page gets its reference bit set.
pub open spec fn spec_clock_pro_access(s: u8) -> u8 {
    if !is_hot(s) && is_ref(s) {
        HOT_BIT | REF_BIT
    } else {
        s | REF_BIT
    }
}

/// What the Clock-Pro hand does at a frame in state `s`.
pub open spec fn spec_clock_pro_sweep(s: u8) -> SweepAction {
    if is_ref(s) {
        SweepAction::ClearReference
    } else if is_hot(s) {
        SweepAction::Demote
    } else {
        SweepAction::Evict
    }
}

/// Computes the Clock-Pro state after an access.
pub fn clock_pro_access(s: u8) -> (r: u8)
    ensures
        r == spec_clock_pro_access(s),
{
    if (s & HOT_BIT) == 0 && (s & REF_BIT) != 0 {
        HOT_BIT | REF_BIT
    } else {
        s | REF_BIT
    }
}

/// Computes what the Clock-Pro hand does at a frame in state `s`.
pub fn clock_pro_sweep(s: u8) -> (r: SweepAction)
    ensures
        r == spec_clock_pro_sweep(s),
{
    if (s & REF_BIT) != 0 {
        SweepAction::ClearReference
    } else if (s & HOT_BIT) != 0 {
        SweepAction::Demote
    } else {
        SweepAction::Evict
    }
}

/// Law: right after an access, the hand never evicts the frame; it first
/// clears the reference bit.
pub proof fn law_accessed_frame_is_spared(s: u8)
    ensures
        is_ref(spec_clock_pro_access(s)),
        spec_clock_pro_sweep(spec_clock_pro_access(s)) == SweepAction::ClearReference,
{
    assert((s | 1u8) & 1u8 != 0) by (bit_vector);
    assert((2u8 | 1u8) & 1u8 != 0) by (bit_vector);
}

/// Law: a page accessed twice in a row (with no sweep between) is hot.
pub proof fn law_second_access_makes_hot(s: u8)
    ensures
        is_hot(spec_clock_pro_access(spec_clock_pro_access(s))),
{
    assert((s | 1u8) & 1u8 != 0) by (bit_vector);
    assert((2u8 | 1u8) & 2u8 != 0) by (bit_vector);
    assert((2u8 | 1u8) & 1u8 != 0) by (bit_vector);
    assert(((2u8 | 1u8) | 1u8) & 2u8 != 0) by (bit_vector);
    assert((s & 2u8 != 0) ==> ((s | 1u8) & 2u8 != 0)) by (bit_vector);
    assert(((s | 1u8) & 2u8 != 0) ==> (((s | 1u8) | 1u8) & 2u8 != 0)) by (bit_vector);
}

/// Clock-Pro replacement policy: distinguishes hot pages (accessed
/// repeatedly) from cold ones, so that scans do not evict the working set.
pub struct ClockProPolicy {
    hand: AtomicUsize,
    capacity: usize,
    state: Vec<AtomicU8>,
}

impl ClockProPolicy {
    /// The number of frames the policy covers.
    pub closed spec fn spec_capacity(&self) -> usize {
        self.capacity
    }

    /// Create a policy over `capacity` frames, all cold and unreferenced.
    pub fn new(capacity: usize) -> (r: Self)
        ensures
            r.spec_capacity() == capacity,
            capacity > 0 && capacity <= usize::MAX / 3 ==> r.ready(),
    {
        let mut state: Vec<AtomicU8> = Vec::new();
        let mut i: usize = 0;
        while i < capacity
            invariant
                i <= capacity,
                state@.len() == i,
            decreases capacity - i,
        {
            state.push(AtomicU8::new(0));
            i = i + 1;
        }
        Self { hand: AtomicUsize::new(0), capacity, state }
    }
}

impl EvictionPolicy for ClockProPolicy {
    closed spec fn ready(&self) -> bool {
        &&& self.capacity > 0
        &&& self.capacity <= usize::MAX / 3
        &&& self.state@.len() == self.capacity
    }

    /// Record an access: set the reference bit, or promote a referenced cold page to hot.
    fn access(&self, frame_id: FrameId) {
        if frame_id >= self.capacity {
            return;
        }
        let old = self.state[frame_id].load(Ordering::Relaxed);
        if (old & HOT_BIT) != 0 {
            self.state[frame_id].fetch_or(REF_BIT, Ordering::Relaxed);
        } else if (old & REF_BIT) != 0 {
            self.state[frame_id].store(HOT_BIT | REF_BIT, Ordering::Relaxed);
        } else {
            self.state[frame_id].fetch_or(REF_BIT, Ordering::Relaxed);
        }
    }

    /// Sweep the hand for at most three rounds: referenced pages lose their
    /// reference bit, unreferenced hot pages are demoted, and the first cold
    /// unreferenced page is evicted. Returns `None` if none is found.
    fn evict(&self) -> (r: Option<FrameId>)
        ensures
            match r {
                Some(i) => i < self.spec_capacity(),
                None => true,
            },
    {
        let max_iterations = self.capacity * 3;
        let mut iterations: usize = 0;
        while iterations < max_iterations
            invariant
                self.ready(),
                max_iterations == self.capacity * 3,
            decreases max_iterations - iterations,
        {
            let current = self.hand.fetch_add(1, Ordering::Relaxed) % self.capacity;
            iterations = iterations + 1;
            let state = self.state[current].load(Ordering::Relaxed);
            match clock_pro_sweep(state) {
                SweepAction::ClearReference => {
                    self.state[current].fetch_and(!REF_BIT, Ordering::Relaxed);
                },
                SweepAction::Demote => {
                    self.state[current].fetch_and(!HOT_BIT, Ordering::Relaxed);
                },
                SweepAction::Evict => {
                    return Some(current);
                },
            }
        }
        None
    }

    /// Forget a frame's history: make it cold and unreferenced.
    fn remove(&self, frame_id: FrameId) {
        if frame_id < self.capacity {
            self.state[frame_id].store(0, Ordering::Relaxed);
        }
    }
}

/// What the Clock hand does at a frame.
#[derive(Debug, Clone, Copy, PartialEq, Eq, Structural)]
pub enum ClockAction {
    /// The frame is not referenced: evict it.
    Evict,
    /// The frame gets a second chance (its bit is cleared) and the hand moves on.
    Continue,
    /// The frame gets a second chance, and the hand has passed its starting
    /// position twice: give up.
    Stop,
}

/// What the Clock hand does at a frame whose reference bit is `referenced`,
/// whether the frame is where the hand started, and how often it has passed
/// there; with the new pass count.
pub open spec fn spec_clock_decide(referenced: bool, at_start: bool, loops: u32) -> (ClockAction, u32) {
    if !referenced {
        (ClockAction::Evict, loops)
    } else if at_start {
        if loops + 1 >= 2 {
            (ClockAction::Stop, (loops + 1) as u32)
        } else {
            (ClockAction::Continue, (loops + 1) as u32)
        }
    } else {
        (ClockAction::Continue, loops)
    }
}

/// Decides what the Clock hand does at a frame.
pub fn clock_decide(referenced: bool, at_start: bool, loops: u32) -> (r: (ClockAction, u32))
    requires
        loops < 2,
    ensures
        r == spec_clock_decide(referenced, at_start, loops),
{
    if !referenced {
        (ClockAction::Evict, loops)
    } else if at_start {
        if loops + 1 >= 2 {
            (ClockAction::Stop, loops + 1)
        } else {
            (ClockAction::Continue, loops + 1)
        }
    } else {
        (ClockAction::Continue, loops)
    }
}

/// Limit on the frames the Clock hand inspects in one eviction: far beyond
/// what any run reaches, it gives the sweep a measure that decreases.
pub const MAX_CLOCK_STEPS: u64 = 0xffff_ffff_ffff_ffff;

/// Clock (second chance) replacement policy.
pub struct ClockPolicy {
    hand: AtomicUsize,
    capacity: usize,
    reference_bits: Vec<AtomicBool>,
}

impl ClockPolicy {
    /// The number of frames the policy covers.
    pub closed spec fn spec_capacity(&self) -> usize {
        self.capacity
    }

    /// Create a policy over `capacity` frames, none referenced.
    pub fn new(capacity: usize) -> (r: Self)
        ensures
            r.spec_capacity() == capacity,
            capacity > 0 ==> r.ready(),
    {
        let mut bits: Vec<AtomicBool> = Vec::new();
        let mut i: usize = 0;
        while i < capacity
            invariant
                i <= capacity,
                bits@.len() == i,
            decreases capacity - i,
        {
            bits.push(AtomicBool::new(false));
            i = i + 1;
        }
        Self { hand: AtomicUsize::new(0), capacity, reference_bits: bits }
    }
}

impl EvictionPolicy for ClockPolicy {
    closed spec fn ready(&self) -> bool {
        &&& self.capacity > 0
        &&& self.reference_bits@.len() == self.capacity
    }

    /// Record an access: set the frame's reference bit.
    fn access(&self, frame_id: FrameId) {
        if frame_id < self.capacity {
            self.reference_bits[frame_id].store(true, Ordering::Relaxed);
        }
    }

    /// Sweep the hand: a referenced frame gets a second chance (its bit is
    /// cleared), the first unreferenced frame is evicted. Returns `None` when
    /// the hand passes its starting position twice, or after
    /// `MAX_CLOCK_STEPS` frames.
    fn evict(&self) -> (r: Option<FrameId>)
        ensures
            match r {
                Some(i) => i < self.spec_capacity(),
                None => true,
            },
    {
        let start_hand = self.hand.load(Ordering::Relaxed);
        let mut loops: u32 = 0;
        let mut steps: u64 = 0;
        while steps < MAX_CLOCK_STEPS
            invariant
                self.ready(),
                loops < 2,
            decreases MAX_CLOCK_STEPS - steps,
        {
            steps = steps + 1;
            let current_hand = self.hand.fetch_add(1, Ordering::Relaxed) % self.capacity;
            let referenced = self.reference_bits[current_hand].load(Ordering::Relaxed);
            let (action, next_loops) = clock_decide(referenced, current_hand == start_hand, loops);
            match action {
                ClockAction::Evict => {
                    return Some(current_hand);
                },
                ClockAction::Continue => {
                    self.reference_bits[current_hand].store(false, Ordering::Relaxed);
                },
                ClockAction::Stop => {
                    self.reference_bits[current_hand].store(false, Ordering::Relaxed);
                    return None;
                },
            }
            loops = next_loops;
        }
        None
    }

    /// Forget a frame's history: clear its reference bit.
    fn remove(&self, frame_id: FrameId) {
        if frame_id < self.capacity {
            self.reference_bits[frame_id].store(false, Ordering::Relaxed);
        }
    }
}

/// The default replacement policy.
pub type LruPolicy = ClockPolicy;

} // verus!
