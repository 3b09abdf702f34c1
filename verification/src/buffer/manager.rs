//! Buffer pool manager.
//!
//! Allocates a fixed pool of page frames and provides methods to fetch, pin
//! and evict pages, with a clock algorithm choosing eviction victims.

use vstd::prelude::*;
use std::collections::HashMap;
use crate::btree::node::PAGE_SIZE;
use crate::buffer::frame::{Frame, FrameState, all_zero};
use crate::buffer::guard::{GuardAccess, PageGuard};

verus! {

broadcast use vstd::std_specs::hash::group_hash_axioms;

/// Statistics about the buffer pool.
#[derive(Debug, Clone)]
pub struct BufferStats {
    /// Total number of frames.
    pub total_frames: usize,
    /// Number of free frames.
    pub free_frames: usize,
    /// Number of pinned frames.
    pub pinned_frames: usize,
    /// Number of dirty frames.
    pub dirty_frames: usize,
    /// Total page reads (cache misses).
    pub reads: u64,
    /// Total page writes (flushes of dirty pages).
    pub writes: u64,
    /// Cache hits.
    pub hits: u64,
}

impl Default for BufferStats {
    fn default() -> (r: Self)
        ensures
            r == (BufferStats {
                total_frames: 0,
                free_frames: 0,
                pinned_frames: 0,
                dirty_frames: 0,
                reads: 0,
                writes: 0,
                hits: 0,
            }),
    {
        BufferStats {
            total_frames: 0,
            free_frames: 0,
            pinned_frames: 0,
            dirty_frames: 0,
            reads: 0,
            writes: 0,
            hits: 0,
        }
    }
}

/// Abstract state of a frame.
pub struct FrameView {
    /// Page bytes.
    pub data: Seq<u8>,
    /// Page held, if any.
    pub page_id: Option<u64>,
    /// Frame state.
    pub state: FrameState,
    /// Active pins.
    pub pin_count: u32,
    /// Whether the frame is pinned.
    pub pinned: bool,
    /// Whether the frame was referenced since the last sweep.
    pub referenced: bool,
}

/// The abstract state of a frame.
pub open spec fn frame_view(f: Frame) -> FrameView {
    FrameView {
        data: f.data@,
        page_id: f.page_id,
        state: f.state,
        pin_count: f.pin_count,
        pinned: f.pinned,
        referenced: f.referenced,
    }
}

/// Abstract state of a buffer manager.
pub struct BufferView {
    /// The frames.
    pub frames: Seq<FrameView>,
    /// Which frame holds each resident page.
    pub page_map: Map<u64, usize>,
    /// Clock hand.
    pub clock_hand: usize,
    /// Statistics.
    pub stats: BufferStats,
}

/// Number of free frames.
pub open spec fn free_count(frames: Seq<FrameView>) -> nat
    decreases frames.len(),
{
    if frames.len() == 0 {
        0
    } else {
        free_count(frames.drop_last()) + if frames.last().state == FrameState::Free {
            1nat
        } else {
            0nat
        }
    }
}

/// The dirty pages of the frames, in frame order, as (page, bytes).
pub open spec fn dirty_pages(frames: Seq<FrameView>) -> Seq<(u64, Seq<u8>)>
    decreases frames.len(),
{
    if frames.len() == 0 {
        Seq::empty()
    } else if frames.last().state == FrameState::Dirty {
        dirty_pages(frames.drop_last()).push((frames.last().page_id.unwrap(), frames.last().data))
    } else {
        dirty_pages(frames.drop_last())
    }
}

/// Whether the frames and the page map agree: each resident page maps to the
/// non-free frame holding it, each non-free frame holds a mapped page, free
/// frames are empty and unpinned, and the free count is exact.
pub open spec fn pool_consistent(v: BufferView) -> bool {
    &&& v.stats.total_frames == v.frames.len()
    &&& v.stats.free_frames == free_count(v.frames)
    &&& v.frames.len() == 0 || v.clock_hand < v.frames.len()
    &&& forall|p: u64|
        #[trigger] v.page_map.contains_key(p) ==> {
            &&& v.page_map[p] < v.frames.len()
            &&& v.frames[v.page_map[p] as int].page_id == Some(p)
            &&& v.frames[v.page_map[p] as int].state != FrameState::Free
        }
    &&& forall|i: int|
        0 <= i < v.frames.len() ==> {
            &&& (#[trigger] v.frames[i]).data.len() == PAGE_SIZE
            &&& v.frames[i].state == FrameState::Free ==> {
                &&& v.frames[i].page_id is None
                &&& !v.frames[i].pinned
                &&& v.frames[i].pin_count == 0
            }
            &&& v.frames[i].state != FrameState::Free ==> {
                &&& v.frames[i].page_id is Some
                &&& v.page_map.contains_key(v.frames[i].page_id.unwrap())
                &&& v.page_map[v.frames[i].page_id.unwrap()] == i
            }
        }
}

/// Lemma: updating one frame changes the free count by that frame's change.
pub proof fn lemma_free_count_update(frames: Seq<FrameView>, i: int, f: FrameView)
    requires
        0 <= i < frames.len(),
    ensures
        free_count(frames.update(i, f)) + (if frames[i].state == FrameState::Free {
            1int
        } else {
            0int
        }) == free_count(frames) + (if f.state == FrameState::Free {
            1int
        } else {
            0int
        }),
    decreases frames.len(),
{
    let u = frames.update(i, f);
    if i == frames.len() - 1 {
        assert(u.drop_last() =~= frames.drop_last());
    } else {
        lemma_free_count_update(frames.drop_last(), i, f);
        assert(u.drop_last() =~= frames.drop_last().update(i, f));
    }
}

/// Lemma: with no free frame, the free count is zero; a free frame makes it positive.
pub proof fn lemma_free_count_zero(frames: Seq<FrameView>)
    ensures
        (free_count(frames) == 0) <==> (forall|i: int| 0 <= i < frames.len() ==> #[trigger] frames[i].state != FrameState::Free),
    decreases frames.len(),
{
    if frames.len() > 0 {
        lemma_free_count_zero(frames.drop_last());
        if free_count(frames) == 0 {
            assert forall|i: int| 0 <= i < frames.len() implies #[trigger] frames[i].state != FrameState::Free by {
                if i < frames.len() - 1 {
                    assert(frames.drop_last()[i] == frames[i]);
                }
            }
        } else {
            if frames.last().state != FrameState::Free {
                let j = choose|j: int| 0 <= j < frames.drop_last().len() && #[trigger] frames.drop_last()[j].state == FrameState::Free;
                assert(frames[j] == frames.drop_last()[j]);
            }
        }
    }
}

/// Buffer pool manager.
pub struct BufferManager {
    frames: Vec<Frame>,
    page_map: HashMap<u64, usize>,
    clock_hand: usize,
    stats: BufferStats,
}

impl View for BufferManager {
    type V = BufferView;

    closed spec fn view(&self) -> BufferView {
        BufferView {
            frames: self.frames@.map_values(|f: Frame| frame_view(f)),
            page_map: self.page_map@,
            clock_hand: self.clock_hand,
            stats: self.stats,
        }
    }
}

/// How far the clock hand at `hand` travels to reach frame `j` among `len`
/// frames (0 for the frame under the hand).
pub open spec fn clock_dist(hand: int, j: int, len: int) -> int {
    if j >= hand {
        j - hand
    } else {
        j + len - hand
    }
}

/// Whether the clock may evict a frame as soon as it reaches it: unpinned
/// and not referenced since the last sweep.
pub open spec fn evictable(f: FrameView) -> bool {
    !f.pinned && !f.referenced
}

/// Whether frame `r` is the clock's victim when the hand starts at `hand`:
/// the first evictable frame from the hand on; or, when no frame is
/// evictable (so the first lap clears every unpinned frame's bit), the
/// first unpinned frame from the hand on.
pub open spec fn clock_choice(frames: Seq<FrameView>, hand: int, r: int) -> bool {
    let len = frames.len() as int;
    &&& 0 <= r < len
    &&& !frames[r].pinned
    &&& {
        ||| (!frames[r].referenced && forall|j: int|
            0 <= j < len && clock_dist(hand, j, len) < clock_dist(hand, r, len) ==> !evictable(#[trigger] frames[j]))
        ||| ((forall|j: int| 0 <= j < len ==> !evictable(#[trigger] frames[j])) && forall|j: int|
            0 <= j < len && clock_dist(hand, j, len) < clock_dist(hand, r, len) ==> (#[trigger] frames[j]).pinned)
    }
}

/// The reference bit frame `j` keeps after the clock, starting at `hand`,
/// evicts frame `r`: the sweep clears the bit of every unpinned frame it
/// passes before the victim (every unpinned frame when it went round).
pub open spec fn bit_after_sweep(frames: Seq<FrameView>, hand: int, r: int, j: int) -> bool {
    let len = frames.len() as int;
    frames[j].referenced && (frames[j].pinned || (!frames[r].referenced && clock_dist(hand, j, len) >= clock_dist(
        hand,
        r,
        len,
    )))
}

/// Lemma: after `steps` moves (fewer than two laps) from `start`, the hand
/// is `steps` (first lap) or `steps - len` (second lap) away from `start`.
proof fn lemma_hand_dist(start: int, steps: int, len: int)
    requires
        0 <= start < len,
        0 <= steps < 2 * len,
    ensures
        0 <= (start + steps) % len < len,
        clock_dist(start, (start + steps) % len, len) == if steps < len { steps } else { steps - len },
{
    let x = start + steps;
    if x < len {
        vstd::arithmetic::div_mod::lemma_fundamental_div_mod_converse(x, len, 0, x);
    } else if x < 2 * len {
        vstd::arithmetic::div_mod::lemma_fundamental_div_mod_converse(x, len, 1, x - len);
    } else {
        vstd::arithmetic::div_mod::lemma_fundamental_div_mod_converse(x, len, 2, x - 2 * len);
    }
}

impl BufferManager {
    /// Internal consistency of the pool.
    pub open spec fn inv(&self) -> bool {
        pool_consistent(self@)
    }

    /// Whether a fetch of `page_id` can run: counters stay within range and,
    /// if the page must be loaded into a full pool, some frame is unpinned.
    pub open spec fn can_fetch(&self, page_id: u64) -> bool {
        &&& self@.stats.hits < u64::MAX
        &&& self@.stats.reads < u64::MAX
        &&& forall|i: int| 0 <= i < self@.frames.len() ==> #[trigger] self@.frames[i].pin_count < u32::MAX
        &&& !self@.page_map.contains_key(page_id) ==> {
            ||| self@.stats.free_frames > 0
            ||| exists|i: int| 0 <= i < self@.frames.len() && !#[trigger] self@.frames[i].pinned
        }
    }

    /// Create a buffer manager with `capacity_bytes / PAGE_SIZE` empty frames.
    pub fn new(capacity_bytes: usize) -> (r: Self)
        ensures
            r.inv(),
            r@.frames.len() == capacity_bytes / PAGE_SIZE,
            forall|i: int| 0 <= i < r@.frames.len() ==> (#[trigger] r@.frames[i]).state == FrameState::Free && all_zero(r@.frames[i].data),
            r@.page_map == Map::<u64, usize>::empty(),
            r@.stats == (BufferStats {
                total_frames: capacity_bytes / PAGE_SIZE,
                free_frames: capacity_bytes / PAGE_SIZE,
                pinned_frames: 0,
                dirty_frames: 0,
                reads: 0,
                writes: 0,
                hits: 0,
            }),
    {
        let num_frames = capacity_bytes / PAGE_SIZE;
        let mut frames: Vec<Frame> = Vec::new();
        let mut i: usize = 0;
        while i < num_frames
            invariant
                i <= num_frames,
                frames@.len() == i,
                forall|j: int| 0 <= j < i ==> {
                    &&& (#[trigger] frames@[j]).state == FrameState::Free
                    &&& frames@[j].data@.len() == PAGE_SIZE
                    &&& all_zero(frames@[j].data@)
                    &&& frames@[j].page_id is None
                    &&& !frames@[j].pinned
                    &&& frames@[j].pin_count == 0
                },
                free_count(frames@.map_values(|f: Frame| frame_view(f))) == i,
            decreases num_frames - i,
        {
            let ghost prev = frames@.map_values(|f: Frame| frame_view(f));
            let f = Frame::new_empty();
            frames.push(f);
            proof {
                let cur = frames@.map_values(|f: Frame| frame_view(f));
                assert(cur.drop_last() =~= prev);
            }
            i = i + 1;
        }
        let r = Self {
            frames,
            page_map: HashMap::new(),
            clock_hand: 0,
            stats: BufferStats {
                total_frames: num_frames,
                free_frames: num_frames,
                pinned_frames: 0,
                dirty_frames: 0,
                reads: 0,
                writes: 0,
                hits: 0,
            },
        };
        proof {
            assert(r@.page_map =~= Map::<u64, usize>::empty());
        }
        r
    }

    /// Number of frames in the buffer pool.
    pub fn capacity(&self) -> (r: usize)
        ensures
            r == self@.frames.len(),
    {
        self.frames.len()
    }

    /// Get buffer pool statistics.
    pub fn stats(&self) -> (r: &BufferStats)
        ensures
            *r == self@.stats,
    {
        &self.stats
    }

    /// Fetch a page into the buffer pool and return a pinned guard to it.
    ///
    /// A resident page is a cache hit. Otherwise the page is loaded from
    /// `data` into the first free frame, or into a frame the clock algorithm
    /// evicts. A write guard marks the page dirty.
    pub fn fetch(&mut self, page_id: u64, data: &[u8; PAGE_SIZE], access: GuardAccess) -> (r: PageGuard)
        requires
            old(self).inv(),
            old(self).can_fetch(page_id),
        ensures
            final(self).inv(),
            r.spec_page_id() == page_id,
            r.spec_access() == access,
            r.spec_frame_index() < final(self)@.frames.len(),
            final(self)@.frames.len() == old(self)@.frames.len(),
            final(self)@.page_map.contains_key(page_id),
            final(self)@.page_map[page_id] == r.spec_frame_index(),
            final(self)@.frames[r.spec_frame_index() as int].pinned,
            final(self)@.frames[r.spec_frame_index() as int].referenced,
            access == GuardAccess::Write ==> final(self)@.frames[r.spec_frame_index() as int].state == FrameState::Dirty,
            final(self)@.stats.writes == old(self)@.stats.writes,
            if old(self)@.page_map.contains_key(page_id) {
                let i = old(self)@.page_map[page_id];
                let f = old(self)@.frames[i as int];
                &&& r.spec_frame_index() == i
                &&& final(self)@.stats.hits == old(self)@.stats.hits + 1
                &&& final(self)@.stats.reads == old(self)@.stats.reads
                &&& final(self)@.page_map == old(self)@.page_map
                &&& final(self)@.frames == old(self)@.frames.update(i as int, FrameView {
                    pin_count: (f.pin_count + 1) as u32,
                    pinned: true,
                    referenced: true,
                    state: if access == GuardAccess::Write { FrameState::Dirty } else { f.state },
                    ..f
                })
            } else {
                let i = r.spec_frame_index();
                &&& final(self)@.stats.hits == old(self)@.stats.hits
                &&& final(self)@.stats.reads == old(self)@.stats.reads + 1
                &&& final(self)@.frames[i as int].data == data@
                &&& final(self)@.frames[i as int].pin_count == 1
                &&& access == GuardAccess::Read ==> final(self)@.frames[i as int].state == FrameState::Clean
                &&& (old(self)@.frames[i as int].state == FrameState::Free || !old(self)@.frames[i as int].pinned)
                &&& (old(self)@.stats.free_frames > 0 ==> {
                    &&& old(self)@.frames[i as int].state == FrameState::Free
                    &&& forall|j: int| 0 <= j < i ==> old(self)@.frames[j].state != FrameState::Free
                    &&& final(self)@.page_map == old(self)@.page_map.insert(page_id, i)
                    &&& forall|j: int| 0 <= j < final(self)@.frames.len() && j != i ==> #[trigger] final(self)@.frames[j] == old(self)@.frames[j]
                })
                &&& (old(self)@.stats.free_frames == 0 ==> {
                    &&& clock_choice(old(self)@.frames, old(self)@.clock_hand as int, i as int)
                    &&& final(self)@.clock_hand == (i + 1) % (final(self)@.frames.len() as int)
                    &&& forall|j: int| 0 <= j < final(self)@.frames.len() && j != i ==> (#[trigger] final(self)@.frames[j]).referenced
                        == bit_after_sweep(old(self)@.frames, old(self)@.clock_hand as int, i as int, j)
                    &&& final(self)@.page_map == old(self)@.page_map.remove(old(self)@.frames[i as int].page_id.unwrap()).insert(page_id, i)
                    &&& forall|j: int| 0 <= j < final(self)@.frames.len() && j != i ==> {
                        &&& (#[trigger] final(self)@.frames[j]).data == old(self)@.frames[j].data
                        &&& final(self)@.frames[j].page_id == old(self)@.frames[j].page_id
                        &&& final(self)@.frames[j].state == old(self)@.frames[j].state
                        &&& final(self)@.frames[j].pinned == old(self)@.frames[j].pinned
                        &&& final(self)@.frames[j].pin_count == old(self)@.frames[j].pin_count
                    }
                })
            },
    {
        if let Some(frame_idx) = self.page_map.get(&page_id) {
            let frame_idx = *frame_idx;
            if !self.frames[frame_idx].is_free() {
                let ghost before = self@;
                self.frames[frame_idx].pin();
                self.stats.hits = self.stats.hits + 1;
                if access == GuardAccess::Write {
                    self.frames[frame_idx].mark_dirty();
                }
                proof {
                    let f = before.frames[frame_idx as int];
                    let nf = FrameView {
                        pin_count: (f.pin_count + 1) as u32,
                        pinned: true,
                        referenced: true,
                        state: if access == GuardAccess::Write { FrameState::Dirty } else { f.state },
                        ..f
                    };
                    assert(self@.frames =~= before.frames.update(frame_idx as int, nf));
                    lemma_free_count_update(before.frames, frame_idx as int, nf);
                }
                return PageGuard::new(frame_idx, page_id, access);
            }
        }
        self.stats.reads = self.stats.reads + 1;
        let ghost mid = self@;
        let frame_idx = self.find_free_frame();
        let ghost chosen = self@;
        self.frames[frame_idx].load(page_id, data);
        self.frames[frame_idx].pin();
        if access == GuardAccess::Write {
            self.frames[frame_idx].mark_dirty();
        }
        self.page_map.insert(page_id, frame_idx);
        self.stats.free_frames = self.stats.free_frames - 1;
        proof {
            let nf = self@.frames[frame_idx as int];
            assert(self@.frames =~= chosen.frames.update(frame_idx as int, nf));
            lemma_free_count_update(chosen.frames, frame_idx as int, nf);
        }
        PageGuard::new(frame_idx, page_id, access)
    }

    /// Find a free frame, or evict one with the clock algorithm; the frame
    /// returned is free.
    fn find_free_frame(&mut self) -> (r: usize)
        requires
            old(self).inv(),
            old(self)@.stats.free_frames > 0 || exists|i: int| 0 <= i < old(self)@.frames.len() && !#[trigger] old(self)@.frames[i].pinned,
        ensures
            final(self).inv(),
            r < final(self)@.frames.len(),
            final(self)@.frames.len() == old(self)@.frames.len(),
            final(self)@.frames[r as int].state == FrameState::Free,
            final(self)@.stats == (BufferStats { free_frames: final(self)@.stats.free_frames, ..old(self)@.stats }),
            final(self)@.stats.free_frames > 0,
            old(self)@.frames[r as int].state == FrameState::Free || !old(self)@.frames[r as int].pinned,
            old(self)@.stats.free_frames > 0 ==> {
                &&& final(self)@ == old(self)@
                &&& forall|j: int| 0 <= j < r ==> old(self)@.frames[j].state != FrameState::Free
            },
            old(self)@.stats.free_frames == 0 ==> {
                &&& old(self)@.frames[r as int].page_id is Some
                &&& clock_choice(old(self)@.frames, old(self)@.clock_hand as int, r as int)
                &&& final(self)@.clock_hand == (r + 1) % (final(self)@.frames.len() as int)
                &&& forall|j: int| 0 <= j < final(self)@.frames.len() && j != r ==> (#[trigger] final(self)@.frames[j]).referenced
                    == bit_after_sweep(old(self)@.frames, old(self)@.clock_hand as int, r as int, j)
                &&& final(self)@.page_map == old(self)@.page_map.remove(old(self)@.frames[r as int].page_id.unwrap())
                &&& forall|j: int| 0 <= j < final(self)@.frames.len() && j != r ==> {
                    &&& (#[trigger] final(self)@.frames[j]).data == old(self)@.frames[j].data
                    &&& final(self)@.frames[j].page_id == old(self)@.frames[j].page_id
                    &&& final(self)@.frames[j].state == old(self)@.frames[j].state
                    &&& final(self)@.frames[j].pinned == old(self)@.frames[j].pinned
                    &&& final(self)@.frames[j].pin_count == old(self)@.frames[j].pin_count
                }
            },
    {
        let n = self.frames.len();
        let mut i: usize = 0;
        while i < n
            invariant
                self.inv(),
                self@ == old(self)@,
                n == self@.frames.len(),
                i <= n,
                forall|j: int| 0 <= j < i ==> self@.frames[j].state != FrameState::Free,
            decreases n - i,
        {
            if self.frames[i].is_free() {
                proof {
                    lemma_free_count_zero(self@.frames);
                }
                return i;
            }
            i = i + 1;
        }
        proof {
            lemma_free_count_zero(self@.frames);
        }
        self.clock_evict()
    }

    /// Clock algorithm: scan frames circularly, skipping pinned ones; a
    /// referenced frame has its bit cleared, the first unreferenced one is
    /// cleared and returned.
    fn clock_evict(&mut self) -> (r: usize)
        requires
            old(self).inv(),
            old(self)@.stats.free_frames == 0,
            exists|i: int| 0 <= i < old(self)@.frames.len() && !#[trigger] old(self)@.frames[i].pinned,
        ensures
            final(self).inv(),
            r < final(self)@.frames.len(),
            final(self)@.frames.len() == old(self)@.frames.len(),
            final(self)@.frames[r as int].state == FrameState::Free,
            !old(self)@.frames[r as int].pinned,
            old(self)@.frames[r as int].page_id is Some,
            final(self)@.stats == (BufferStats { free_frames: 1, ..old(self)@.stats }),
            final(self)@.page_map == old(self)@.page_map.remove(old(self)@.frames[r as int].page_id.unwrap()),
            forall|j: int| 0 <= j < final(self)@.frames.len() && j != r ==> {
                &&& (#[trigger] final(self)@.frames[j]).data == old(self)@.frames[j].data
                &&& final(self)@.frames[j].page_id == old(self)@.frames[j].page_id
                &&& final(self)@.frames[j].state == old(self)@.frames[j].state
                &&& final(self)@.frames[j].pinned == old(self)@.frames[j].pinned
                &&& final(self)@.frames[j].pin_count == old(self)@.frames[j].pin_count
            },
            clock_choice(old(self)@.frames, old(self)@.clock_hand as int, r as int),
            final(self)@.clock_hand == (r + 1) % (final(self)@.frames.len() as int),
            forall|j: int| 0 <= j < final(self)@.frames.len() && j != r ==> (#[trigger] final(self)@.frames[j]).referenced
                == bit_after_sweep(old(self)@.frames, old(self)@.clock_hand as int, r as int, j),
    {
        let len = self.frames.len();
        let ghost start = self.clock_hand as int;
        let ghost u = choose|i: int| 0 <= i < old(self)@.frames.len() && !#[trigger] old(self)@.frames[i].pinned;
        let ghost du = if u >= start { u - start } else { u + len - start };
        let ghost mut steps: int = 0;
        proof {
            lemma_free_count_zero(self@.frames);
            assert(self@.frames[u].pinned == old(self)@.frames[u].pinned);
            assert(len > 0);
            assert(self.clock_hand < len);
            assert((start + du) % (len as int) == u) by {
                if u >= start {
                    vstd::arithmetic::div_mod::lemma_small_mod(u as nat, len as nat);
                } else {
                    vstd::arithmetic::div_mod::lemma_mod_add_multiples_vanish(u, len as int);
                    vstd::arithmetic::div_mod::lemma_small_mod(u as nat, len as nat);
                }
            }
            vstd::arithmetic::div_mod::lemma_small_mod(start as nat, len as nat);
        }
        loop
            invariant
                len == self@.frames.len(),
                len == old(self)@.frames.len(),
                self@.stats.free_frames == 0,
                len > 0,
                0 <= start < len,
                0 <= u < len,
                !old(self)@.frames[u].pinned,
                0 <= du < len,
                (start + du) % (len as int) == u,
                0 <= steps <= len + du,
                self.clock_hand as int == (start + steps) % (len as int),
                self@.page_map == old(self)@.page_map,
                self@.stats == old(self)@.stats,
                forall|j: int| 0 <= j < len ==> {
                    &&& (#[trigger] self@.frames[j]).data == old(self)@.frames[j].data
                    &&& self@.frames[j].page_id == old(self)@.frames[j].page_id
                    &&& self@.frames[j].state == old(self)@.frames[j].state
                    &&& self@.frames[j].pinned == old(self)@.frames[j].pinned
                    &&& self@.frames[j].pin_count == old(self)@.frames[j].pin_count
                    &&& self@.frames[j].state != FrameState::Free
                },
                forall|k: int|
                    0 <= k < steps ==> !self@.frames[(start + k) % (len as int)].pinned ==> !#[trigger] self@.frames[(start + k) % (len as int)].referenced,
                pool_consistent(self@),
                start == old(self)@.clock_hand,
                forall|j: int| 0 <= j < len && clock_dist(start, j, len as int) < steps
                    ==> !evictable(#[trigger] old(self)@.frames[j]),
                forall|j: int| 0 <= j < len && clock_dist(start, j, len as int) < steps - len
                    ==> (#[trigger] old(self)@.frames[j]).pinned,
                forall|j: int| 0 <= j < len ==> (#[trigger] self@.frames[j]).referenced == (old(self)@.frames[j].referenced
                    && (old(self)@.frames[j].pinned || clock_dist(start, j, len as int) >= steps)),
            decreases len + du - steps,
        {
            let idx = self.clock_hand;
            self.clock_hand = (self.clock_hand + 1) % len;
            proof {
                lemma_mod_succ(start + steps, len as int);
                assert(self@.frames[idx as int].state != FrameState::Free);
                assert(pool_consistent(self@));
                lemma_hand_dist(start, steps, len as int);
            }
            let ghost d = clock_dist(start, idx as int, len as int);
            if self.frames[idx].pinned {
                proof {
                    if steps == len + du {
                        assert((start + steps) % (len as int) == u) by {
                            vstd::arithmetic::div_mod::lemma_mod_add_multiples_vanish(start + du, len as int);
                        }
                    }
                    assert(steps < len + du);
                    assert(old(self)@.frames[idx as int].pinned);
                    assert forall|j: int| 0 <= j < len && clock_dist(start, j, len as int) < steps + 1
                        implies !evictable(#[trigger] old(self)@.frames[j]) by {
                        if clock_dist(start, j, len as int) == steps {
                            assert(j == idx);
                        }
                    }
                    assert forall|j: int| 0 <= j < len && clock_dist(start, j, len as int) < steps + 1 - len
                        implies (#[trigger] old(self)@.frames[j]).pinned by {
                        if clock_dist(start, j, len as int) == steps - len {
                            assert(j == idx);
                        }
                    }
                }
                proof {
                    steps = steps + 1;
                }
                continue;
            }
            if self.frames[idx].referenced {
                let ghost before = self@;
                self.frames[idx].referenced = false;
                proof {
                    if steps == len + du {
                        assert((start + steps) % (len as int) == u) by {
                            vstd::arithmetic::div_mod::lemma_mod_add_multiples_vanish(start + du, len as int);
                        }
                        assert(!before.frames[(start + du) % (len as int)].referenced);
                    }
                    assert(steps < len + du);
                    assert(self@.frames =~= before.frames.update(idx as int, FrameView { referenced: false, ..before.frames[idx as int] }));
                    assert forall|p: u64| #[trigger] self@.page_map.contains_key(p) implies {
                        &&& self@.page_map[p] < self@.frames.len()
                        &&& self@.frames[self@.page_map[p] as int].page_id == Some(p)
                        &&& self@.frames[self@.page_map[p] as int].state != FrameState::Free
                    } by {
                        assert(before.page_map.contains_key(p));
                    }
                    lemma_free_count_update(before.frames, idx as int, FrameView { referenced: false, ..before.frames[idx as int] });
                    assert(steps < len);
                    assert(d == steps);
                    assert(old(self)@.frames[idx as int].referenced);
                    assert forall|j: int| 0 <= j < len && clock_dist(start, j, len as int) < steps + 1
                        implies !evictable(#[trigger] old(self)@.frames[j]) by {
                        if clock_dist(start, j, len as int) == steps {
                            assert(j == idx);
                        }
                    }
                    assert forall|j: int| 0 <= j < len implies (#[trigger] self@.frames[j]).referenced == (old(self)@.frames[j].referenced
                        && (old(self)@.frames[j].pinned || clock_dist(start, j, len as int) >= steps + 1)) by {
                        if j != idx {
                            assert(self@.frames[j] == before.frames[j]);
                            if clock_dist(start, j, len as int) == steps {
                                assert(j == idx);
                            }
                        }
                    }
                }
                proof {
                    steps = steps + 1;
                }
                continue;
            }
            let ghost before = self@;
            let old_page = self.frames[idx].page_id.unwrap();
            self.page_map.remove(&old_page);
            self.frames[idx].clear();
            self.stats.free_frames = self.stats.free_frames + 1;
            proof {
                let nf = self@.frames[idx as int];
                assert(self@.frames =~= before.frames.update(idx as int, nf));
                lemma_free_count_update(before.frames, idx as int, nf);
                let of = old(self)@.frames;
                if steps < len {
                    assert(d == steps);
                    assert(!of[idx as int].referenced);
                } else {
                    assert(d == steps - len);
                    assert(!evictable(of[idx as int]));
                    assert(of[idx as int].referenced);
                }
                assert(clock_choice(of, start, idx as int));
                assert forall|j: int| 0 <= j < len && j != idx implies (#[trigger] self@.frames[j]).referenced
                    == bit_after_sweep(of, start, idx as int, j) by {
                    assert(self@.frames[j] == before.frames[j]);
                }
            }
            return idx;
        }
    }

    /// Get a reference to the data in a frame.
    pub fn frame_data(&self, guard: &PageGuard) -> (r: &[u8; PAGE_SIZE])
        requires
            guard.spec_frame_index() < self@.frames.len(),
        ensures
            r@ == self@.frames[guard.spec_frame_index() as int].data,
    {
        &*self.frames[guard.frame_index()].data
    }

    /// Get a mutable reference to the data in a frame.
    pub fn frame_data_mut(&mut self, guard: &PageGuard) -> (r: &mut [u8; PAGE_SIZE])
        requires
            guard.spec_frame_index() < old(self)@.frames.len(),
        ensures
            r@ == old(self)@.frames[guard.spec_frame_index() as int].data,
    {
        &mut *self.frames[guard.frame_index()].data
    }

    /// Mark a resident page as dirty; does nothing for other pages.
    pub fn mark_dirty(&mut self, page_id: u64)
        requires
            old(self).inv(),
        ensures
            final(self).inv(),
            final(self)@.page_map == old(self)@.page_map,
            final(self)@.stats == old(self)@.stats,
            final(self)@.frames == if old(self)@.page_map.contains_key(page_id) {
                let i = old(self)@.page_map[page_id] as int;
                old(self)@.frames.update(i, FrameView { state: FrameState::Dirty, ..old(self)@.frames[i] })
            } else {
                old(self)@.frames
            },
    {
        if let Some(frame_idx) = self.page_map.get(&page_id) {
            let frame_idx = *frame_idx;
            let ghost before = self@;
            self.frames[frame_idx].mark_dirty();
            proof {
                let nf = FrameView { state: FrameState::Dirty, ..before.frames[frame_idx as int] };
                assert(self@.frames =~= before.frames.update(frame_idx as int, nf));
                lemma_free_count_update(before.frames, frame_idx as int, nf);
            }
        }
    }

    /// Unpin a resident page (it may be evicted once unpinned); does nothing
    /// for other pages.
    pub fn unpin(&mut self, page_id: u64)
        requires
            old(self).inv(),
        ensures
            final(self).inv(),
            final(self)@.page_map == old(self)@.page_map,
            final(self)@.stats == old(self)@.stats,
            final(self)@.frames == if old(self)@.page_map.contains_key(page_id) {
                let i = old(self)@.page_map[page_id] as int;
                let f = old(self)@.frames[i];
                let pins = if f.pin_count > 0 { (f.pin_count - 1) as u32 } else { 0u32 };
                old(self)@.frames.update(i, FrameView { pin_count: pins, pinned: f.pinned && pins != 0, ..f })
            } else {
                old(self)@.frames
            },
    {
        if let Some(frame_idx) = self.page_map.get(&page_id) {
            let frame_idx = *frame_idx;
            let ghost before = self@;
            self.frames[frame_idx].unpin();
            proof {
                let nf = self@.frames[frame_idx as int];
                assert(self@.frames =~= before.frames.update(frame_idx as int, nf));
                lemma_free_count_update(before.frames, frame_idx as int, nf);
            }
        }
    }

    /// Flush a resident dirty page: mark it clean and return its data.
    /// Returns `None` if the page is not resident or not dirty.
    pub fn flush(&mut self, page_id: u64) -> (r: Option<Box<[u8; PAGE_SIZE]>>)
        requires
            old(self).inv(),
            old(self)@.stats.writes < u64::MAX,
        ensures
            final(self).inv(),
            final(self)@.page_map == old(self)@.page_map,
            if old(self)@.page_map.contains_key(page_id) && old(self)@.frames[old(self)@.page_map[page_id] as int].state == FrameState::Dirty {
                let i = old(self)@.page_map[page_id] as int;
                &&& r is Some
                &&& r.unwrap()@ == old(self)@.frames[i].data
                &&& final(self)@.frames == old(self)@.frames.update(i, FrameView { state: FrameState::Clean, ..old(self)@.frames[i] })
                &&& final(self)@.stats == (BufferStats { writes: (old(self)@.stats.writes + 1) as u64, ..old(self)@.stats })
            } else {
                &&& r is None
                &&& final(self)@ == old(self)@
            },
    {
        if let Some(frame_idx) = self.page_map.get(&page_id) {
            let frame_idx = *frame_idx;
            if self.frames[frame_idx].is_dirty() {
                let ghost before = self@;
                let data = Box::new(*self.frames[frame_idx].data);
                self.frames[frame_idx].mark_clean();
                self.stats.writes = self.stats.writes + 1;
                proof {
                    let nf = FrameView { state: FrameState::Clean, ..before.frames[frame_idx as int] };
                    assert(self@.frames =~= before.frames.update(frame_idx as int, nf));
                    lemma_free_count_update(before.frames, frame_idx as int, nf);
                }
                return Some(data);
            }
        }
        None
    }

    /// Flush all dirty pages, marking them clean; returns each flushed page
    /// with its data, in frame order.
    pub fn flush_all(&mut self) -> (r: Vec<(u64, Box<[u8; PAGE_SIZE]>)>)
        requires
            old(self).inv(),
            old(self)@.stats.writes + old(self)@.frames.len() <= u64::MAX,
        ensures
            final(self).inv(),
            final(self)@.page_map == old(self)@.page_map,
            r@.map_values(|p: (u64, Box<[u8; PAGE_SIZE]>)| (p.0, p.1@)) == dirty_pages(old(self)@.frames),
            final(self)@.stats == (BufferStats { writes: (old(self)@.stats.writes + r@.len()) as u64, ..old(self)@.stats }),
            final(self)@.frames.len() == old(self)@.frames.len(),
            forall|i: int| 0 <= i < final(self)@.frames.len() ==> (#[trigger] final(self)@.frames[i]) == if old(self)@.frames[i].state == FrameState::Dirty {
                FrameView { state: FrameState::Clean, ..old(self)@.frames[i] }
            } else {
                old(self)@.frames[i]
            },
    {
        let ghost old_frames = self@.frames;
        let mut flushed: Vec<(u64, Box<[u8; PAGE_SIZE]>)> = Vec::new();
        let n = self.frames.len();
        let mut i: usize = 0;
        proof {
            assert(old_frames.take(0) =~= Seq::<FrameView>::empty());
            assert(flushed@.map_values(|p: (u64, Box<[u8; PAGE_SIZE]>)| (p.0, p.1@)) =~= Seq::<(u64, Seq<u8>)>::empty());
        }
        while i < n
            invariant
                self.inv(),
                n == self@.frames.len(),
                old_frames == old(self)@.frames,
                n == old_frames.len(),
                i <= n,
                self@.page_map == old(self)@.page_map,
                flushed@.len() <= i,
                self@.stats == (BufferStats { writes: (old(self)@.stats.writes + flushed@.len()) as u64, ..old(self)@.stats }),
                old(self)@.stats.writes + n <= u64::MAX,
                flushed@.map_values(|p: (u64, Box<[u8; PAGE_SIZE]>)| (p.0, p.1@)) == dirty_pages(old_frames.take(i as int)),
                forall|j: int| 0 <= j < i ==> (#[trigger] self@.frames[j]) == if old_frames[j].state == FrameState::Dirty {
                    FrameView { state: FrameState::Clean, ..old_frames[j] }
                } else {
                    old_frames[j]
                },
                forall|j: int| i <= j < n ==> #[trigger] self@.frames[j] == old_frames[j],
            decreases n - i,
        {
            let ghost before = self@;
            let ghost fl_before = flushed@.map_values(|p: (u64, Box<[u8; PAGE_SIZE]>)| (p.0, p.1@));
            proof {
                assert(old_frames.take(i + 1).drop_last() =~= old_frames.take(i as int));
                assert(old_frames.take(i + 1).last() == old_frames[i as int]);
            }
            if self.frames[i].is_dirty() {
                let page_id = self.frames[i].page_id.unwrap();
                let data = Box::new(*self.frames[i].data);
                self.frames[i].mark_clean();
                self.stats.writes = self.stats.writes + 1;
                flushed.push((page_id, data));
                proof {
                    let nf = FrameView { state: FrameState::Clean, ..before.frames[i as int] };
                    assert(self@.frames =~= before.frames.update(i as int, nf));
                    lemma_free_count_update(before.frames, i as int, nf);
                    assert(flushed@.map_values(|p: (u64, Box<[u8; PAGE_SIZE]>)| (p.0, p.1@)) =~= fl_before.push((page_id, old_frames[i as int].data)));
                }
            }
            i = i + 1;
        }
        proof {
            assert(old_frames.take(n as int) =~= old_frames);
            assert(flushed@.map_values(|p: (u64, Box<[u8; PAGE_SIZE]>)| (p.0, p.1@)).len() == flushed@.len());
        }
        flushed
    }

    /// Remove a resident page from the buffer pool, freeing and zeroing its
    /// frame; does nothing for other pages.
    pub fn evict(&mut self, page_id: u64)
        requires
            old(self).inv(),
        ensures
            final(self).inv(),
            final(self)@.page_map == old(self)@.page_map.remove(page_id),
            old(self)@.page_map.contains_key(page_id) ==> {
                let i = old(self)@.page_map[page_id] as int;
                &&& final(self)@.frames[i].state == FrameState::Free
                &&& all_zero(final(self)@.frames[i].data)
                &&& forall|j: int| 0 <= j < final(self)@.frames.len() && j != i ==> #[trigger] final(self)@.frames[j] == old(self)@.frames[j]
                &&& final(self)@.stats == (BufferStats { free_frames: (old(self)@.stats.free_frames + 1) as usize, ..old(self)@.stats })
            },
            !old(self)@.page_map.contains_key(page_id) ==> final(self)@ == old(self)@,
            final(self)@.frames.len() == old(self)@.frames.len(),
    {
        let ghost before = self@;
        if let Some(frame_idx) = self.page_map.remove(&page_id) {
            self.frames[frame_idx].clear();
            proof {
                let nf = self@.frames[frame_idx as int];
                assert(self@.frames =~= before.frames.update(frame_idx as int, nf));
                lemma_free_count_update(before.frames, frame_idx as int, nf);
                lemma_free_count_bound(self@.frames);
            }
            self.stats.free_frames = self.stats.free_frames + 1;
        } else {
            proof {
                assert(self@.page_map =~= before.page_map.remove(page_id));
                assert(self@.page_map =~= before.page_map);
                assert(self@ == before);
            }
        }
    }
}

/// Lemma: the free count never exceeds the number of frames.
pub proof fn lemma_free_count_bound(frames: Seq<FrameView>)
    ensures
        free_count(frames) <= frames.len(),
    decreases frames.len(),
{
    if frames.len() > 0 {
        lemma_free_count_bound(frames.drop_last());
    }
}

/// Lemma: stepping a position modulo `len` is stepping its residue.
pub proof fn lemma_mod_succ(s: int, len: int)
    requires
        len > 0,
        s >= 0,
    ensures
        (s + 1) % len == ((s % len) + 1) % len,
{
    vstd::arithmetic::div_mod::lemma_add_mod_noop(s, 1, len);
    if len > 1 {
        vstd::arithmetic::div_mod::lemma_small_mod(1, len as nat);
    }
}

} // verus!
