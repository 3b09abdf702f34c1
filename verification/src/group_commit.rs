//! The decisions of the WAL writer's group commit.
//!
//! Writers that need durability hand their record to the writer and wait
//! for an acknowledgement. The writer collects such records into a batch,
//! from the first one until a deadline passes or the batch is full, and
//! then writes and syncs the whole batch once and acknowledges every record
//! in it. Records that need no durability are written at once and never
//! acknowledged. A barrier flushes the pending batch and is acknowledged
//! after it.
//!
//! The writer's loop (receiving messages, the clock, the file) runs outside
//! the library; each message, or the deadline passing, is an event, and
//! `group_commit_step` decides the next state and what to do. Records are
//! named by the tickets their writers were given.

use vstd::prelude::*;

verus! {

/// What the writer is told, or what happened while it waited.
#[derive(Debug, Clone, Copy, PartialEq, Eq, Structural)]
pub enum WalEvent {
    /// A record to write with no acknowledgement.
    Record(u64),
    /// A record to write durably; its writer waits for an acknowledgement.
    WriteAndAck(u64),
    /// A barrier: everything received before it must be flushed first.
    Barrier(u64),
    /// The batch's deadline passed.
    Deadline,
    /// No more messages will come.
    Closed,
}

/// What the writer does after an event.
#[derive(Debug, Clone, PartialEq)]
pub enum WalAction {
    /// Write this record now, without a sync or an acknowledgement.
    WriteNow(u64),
    /// A batch was started: set its deadline, then wait for more records.
    StartBatch,
    /// Wait for more records until the deadline.
    Wait,
    /// Write and sync these records as one batch, then acknowledge each.
    Flush(Vec<u64>),
    /// Flush these records as `Flush` does (nothing when empty), then
    /// acknowledge the barrier.
    FlushThenAck(Vec<u64>, u64),
    /// Flush these records as `Flush` does and stop.
    FlushAndStop(Vec<u64>),
    /// Sync the log one last time and stop.
    SyncAndStop,
}

/// A `WalAction` with its tickets as sequences.
pub enum WalActionView {
    /// See `WalAction::WriteNow`.
    WriteNow(u64),
    /// See `WalAction::StartBatch`.
    StartBatch,
    /// See `WalAction::Wait`.
    Wait,
    /// See `WalAction::Flush`.
    Flush(Seq<u64>),
    /// See `WalAction::FlushThenAck`.
    FlushThenAck(Seq<u64>, u64),
    /// See `WalAction::FlushAndStop`.
    FlushAndStop(Seq<u64>),
    /// See `WalAction::SyncAndStop`.
    SyncAndStop,
}

/// The view of an action.
pub open spec fn action_view(a: WalAction) -> WalActionView {
    match a {
        WalAction::WriteNow(id) => WalActionView::WriteNow(id),
        WalAction::StartBatch => WalActionView::StartBatch,
        WalAction::Wait => WalActionView::Wait,
        WalAction::Flush(b) => WalActionView::Flush(b@),
        WalAction::FlushThenAck(b, id) => WalActionView::FlushThenAck(b@, id),
        WalAction::FlushAndStop(b) => WalActionView::FlushAndStop(b@),
        WalAction::SyncAndStop => WalActionView::SyncAndStop,
    }
}

/// The writer's state: whether a batch is being collected, and the tickets
/// of the durable records in it, in arrival order.
pub struct GroupCommitState {
    /// Whether a batch is being collected (its deadline is running).
    pub collecting: bool,
    /// The durable records waiting in the batch.
    pub batch: Vec<u64>,
}

/// The writer's state as a value.
pub struct GroupCommitView {
    /// Whether a batch is being collected.
    pub collecting: bool,
    /// The durable records waiting in the batch.
    pub batch: Seq<u64>,
}

impl View for GroupCommitState {
    type V = GroupCommitView;

    open spec fn view(&self) -> GroupCommitView {
        GroupCommitView { collecting: self.collecting, batch: self.batch@ }
    }
}

/// The state with no batch.
pub open spec fn idle() -> GroupCommitView {
    GroupCommitView { collecting: false, batch: Seq::empty() }
}

/// One step of the writer: a record with no acknowledgement is written at
/// once; a durable record joins the batch, which is flushed as soon as it
/// holds `max_batch` records (the first record of a batch starts its
/// deadline); a barrier flushes the batch and is acknowledged after it; the
/// deadline flushes the batch; when messages end, a pending batch is
/// flushed and the writer stops, and an idle writer syncs the log and stops.
pub open spec fn spec_group_commit_step(
    s: GroupCommitView,
    e: WalEvent,
    max_batch: usize,
) -> (GroupCommitView, WalActionView) {
    match e {
        WalEvent::Record(id) => (s, WalActionView::WriteNow(id)),
        WalEvent::WriteAndAck(id) => {
            let b = s.batch.push(id);
            if b.len() >= max_batch {
                (idle(), WalActionView::Flush(b))
            } else if s.collecting {
                (GroupCommitView { collecting: true, batch: b }, WalActionView::Wait)
            } else {
                (GroupCommitView { collecting: true, batch: b }, WalActionView::StartBatch)
            }
        },
        WalEvent::Barrier(id) => (idle(), WalActionView::FlushThenAck(s.batch, id)),
        WalEvent::Deadline => if s.collecting {
            (idle(), WalActionView::Flush(s.batch))
        } else {
            (s, WalActionView::Wait)
        },
        WalEvent::Closed => if s.collecting {
            (idle(), WalActionView::FlushAndStop(s.batch))
        } else {
            (idle(), WalActionView::SyncAndStop)
        },
    }
}

/// Whether a state is one the writer can be in: an idle writer holds no
/// records, a collecting one holds at least one and fewer than a full batch.
pub open spec fn state_wf(s: GroupCommitView, max_batch: usize) -> bool {
    &&& !s.collecting ==> s.batch.len() == 0
    &&& s.collecting ==> 0 < s.batch.len() < max_batch
}

/// The durable records an action writes, syncs and acknowledges.
pub open spec fn flushed(a: WalActionView) -> Seq<u64> {
    match a {
        WalActionView::Flush(b) => b,
        WalActionView::FlushThenAck(b, _) => b,
        WalActionView::FlushAndStop(b) => b,
        _ => Seq::empty(),
    }
}

/// The durable record an event brings, if any.
pub open spec fn arriving(e: WalEvent) -> Seq<u64> {
    match e {
        WalEvent::WriteAndAck(id) => seq![id],
        _ => Seq::empty(),
    }
}

impl GroupCommitState {
    /// An idle writer.
    pub fn new() -> (r: Self)
        ensures
            r@ == idle(),
    {
        GroupCommitState { collecting: false, batch: Vec::new() }
    }
}

/// Decides one step of the writer, as `spec_group_commit_step` states.
pub fn group_commit_step(s: GroupCommitState, e: WalEvent, max_batch: usize) -> (r: (GroupCommitState, WalAction))
    ensures
        (r.0@, action_view(r.1)) == spec_group_commit_step(s@, e, max_batch),
{
    let mut s = s;
    match e {
        WalEvent::Record(id) => (s, WalAction::WriteNow(id)),
        WalEvent::WriteAndAck(id) => {
            let was_collecting = s.collecting;
            s.batch.push(id);
            if s.batch.len() >= max_batch {
                (GroupCommitState::new(), WalAction::Flush(s.batch))
            } else if was_collecting {
                (GroupCommitState { collecting: true, batch: s.batch }, WalAction::Wait)
            } else {
                (GroupCommitState { collecting: true, batch: s.batch }, WalAction::StartBatch)
            }
        },
        WalEvent::Barrier(id) => (GroupCommitState::new(), WalAction::FlushThenAck(s.batch, id)),
        WalEvent::Deadline => if s.collecting {
            (GroupCommitState::new(), WalAction::Flush(s.batch))
        } else {
            (s, WalAction::Wait)
        },
        WalEvent::Closed => if s.collecting {
            (GroupCommitState::new(), WalAction::FlushAndStop(s.batch))
        } else {
            (GroupCommitState::new(), WalAction::SyncAndStop)
        },
    }
}

/// Law: every step keeps the writer in a state it can be in.
pub proof fn law_step_keeps_state_wf(s: GroupCommitView, e: WalEvent, max_batch: usize)
    requires
        state_wf(s, max_batch),
    ensures
        state_wf(spec_group_commit_step(s, e, max_batch).0, max_batch),
{
}

/// Law: no durable record is lost, acknowledged twice or reordered: the
/// records pending before a step, with the one the event brings, are those
/// the step flushes (and so acknowledges) followed by those still pending.
pub proof fn law_durable_records_kept(s: GroupCommitView, e: WalEvent, max_batch: usize)
    requires
        state_wf(s, max_batch),
    ensures
        ({
            let r = spec_group_commit_step(s, e, max_batch);
            s.batch + arriving(e) == flushed(r.1) + r.0.batch
        }),
{
    let r = spec_group_commit_step(s, e, max_batch);
    assert(s.batch + arriving(e) =~= flushed(r.1) + r.0.batch);
}

/// Law: a durable record is acknowledged only by a flush that holds it:
/// whenever a step acknowledges records, they are exactly the records it
/// writes and syncs, all of them received before or with the event.
pub proof fn law_ack_only_after_flush(s: GroupCommitView, e: WalEvent, max_batch: usize, id: u64)
    requires
        state_wf(s, max_batch),
        flushed(spec_group_commit_step(s, e, max_batch).1).contains(id),
    ensures
        (s.batch + arriving(e)).contains(id),
{
    let r = spec_group_commit_step(s, e, max_batch);
    law_durable_records_kept(s, e, max_batch);
    let i = choose|i: int| 0 <= i < flushed(r.1).len() && flushed(r.1)[i] == id;
    assert((flushed(r.1) + r.0.batch)[i] == id);
}

/// Law: a barrier is acknowledged only after the whole pending batch is
/// flushed, and leaves nothing pending.
pub proof fn law_barrier_after_batch(s: GroupCommitView, id: u64, max_batch: usize)
    ensures
        spec_group_commit_step(s, WalEvent::Barrier(id), max_batch) == (idle(), WalActionView::FlushThenAck(s.batch, id)),
{
}

} // verus!
