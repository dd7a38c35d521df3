use little_raft::state_machine::{Snapshot, TransitionAbandonedReason, TransitionState};

#[test]
fn snapshot_clone_keeps_index_term_and_data() {
    let s = Snapshot {
        last_included_index: 3,
        last_included_term: 2,
        data: bytes::Bytes::from_static(b"calculator"),
    };
    let c = s.clone();
    assert_eq!((c.last_included_index, c.last_included_term), (3, 2));
    assert_eq!(&c.data[..], b"calculator");
}

#[test]
fn transition_states_compare_by_variant_and_reason() {
    assert_eq!(TransitionState::Applied, TransitionState::Applied);
    assert_ne!(TransitionState::Queued, TransitionState::Committed);
    assert_eq!(
        TransitionState::Abandoned(TransitionAbandonedReason::NotLeader),
        TransitionState::Abandoned(TransitionAbandonedReason::NotLeader)
    );
    assert_ne!(
        TransitionState::Abandoned(TransitionAbandonedReason::NotLeader),
        TransitionState::Abandoned(TransitionAbandonedReason::ConflictWithLeader)
    );
}
