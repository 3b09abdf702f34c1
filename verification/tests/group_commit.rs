use seerdb::group_commit::{group_commit_step, GroupCommitState, WalAction, WalEvent};

fn run(events: &[WalEvent], max_batch: usize) -> (GroupCommitState, Vec<WalAction>) {
    let mut state = GroupCommitState::new();
    let mut actions = Vec::new();
    for e in events {
        let (next, action) = group_commit_step(state, *e, max_batch);
        state = next;
        actions.push(action);
    }
    (state, actions)
}

#[test]
fn group_commit_batches_until_deadline() {
    let (state, actions) = run(
        &[WalEvent::WriteAndAck(1), WalEvent::WriteAndAck(2), WalEvent::Record(3), WalEvent::Deadline],
        100,
    );
    assert_eq!(
        actions,
        vec![WalAction::StartBatch, WalAction::Wait, WalAction::WriteNow(3), WalAction::Flush(vec![1, 2])]
    );
    assert!(!state.collecting);
    assert!(state.batch.is_empty());
}

#[test]
fn group_commit_flushes_a_full_batch_at_once() {
    let (state, actions) = run(&[WalEvent::WriteAndAck(1), WalEvent::WriteAndAck(2), WalEvent::WriteAndAck(3)], 2);
    assert_eq!(actions, vec![WalAction::StartBatch, WalAction::Flush(vec![1, 2]), WalAction::StartBatch]);
    assert!(state.collecting);
    assert_eq!(state.batch, vec![3]);
}

#[test]
fn group_commit_batch_of_one_flushes_each_write() {
    let (_, actions) = run(&[WalEvent::WriteAndAck(7)], 1);
    assert_eq!(actions, vec![WalAction::Flush(vec![7])]);
}

#[test]
fn group_commit_barrier_flushes_pending_batch_first() {
    let (state, actions) = run(&[WalEvent::WriteAndAck(1), WalEvent::Barrier(9), WalEvent::Barrier(10)], 100);
    assert_eq!(
        actions,
        vec![
            WalAction::StartBatch,
            WalAction::FlushThenAck(vec![1], 9),
            WalAction::FlushThenAck(vec![], 10),
        ]
    );
    assert!(!state.collecting);
}

#[test]
fn group_commit_close_flushes_or_syncs() {
    let (_, actions) = run(&[WalEvent::WriteAndAck(4), WalEvent::Closed], 100);
    assert_eq!(actions, vec![WalAction::StartBatch, WalAction::FlushAndStop(vec![4])]);
    let (_, actions) = run(&[WalEvent::Record(5), WalEvent::Closed], 100);
    assert_eq!(actions, vec![WalAction::WriteNow(5), WalAction::SyncAndStop]);
}
