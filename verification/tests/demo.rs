use little_raft::demo::consensus_module::ConsensusModule;
use little_raft::demo::replicas::Replica;
use little_raft::demo::status::{log_segments, state_colour, Colour, LogSegment, ReplicaStatus};
use little_raft::demo::types::{find_peer, ControlMessage, Log, Message, State};

#[test]
fn demo_replica_starts_as_follower() {
    let r = Replica::new(2, vec![1, 3]);
    assert_eq!(r.id(), 2);
    assert_eq!(r.state(), State::Follower);
    assert_eq!(r.value(), 0);
    assert_eq!(r.current_term(), 0);
    assert_eq!(r.peers(), &vec![1, 3]);
}

#[test]
fn demo_down_and_up() {
    let mut r = Replica::new(2, vec![1, 3]);
    let mut out = Vec::new();
    r.become_candidate(&mut out);
    r.process_control_message(ControlMessage::Down);
    assert_eq!(r.state(), State::Dead);
    r.process_control_message(ControlMessage::Up);
    assert_eq!(r.state(), State::Candidate);
    assert_eq!(r.current_term(), 1);
    // Down twice forgets the role: the replica comes back a follower of
    // term 0.
    r.process_control_message(ControlMessage::Down);
    r.process_control_message(ControlMessage::Down);
    r.process_control_message(ControlMessage::Up);
    assert_eq!(r.state(), State::Follower);
    assert_eq!(r.current_term(), 0);
    // A change to apply is ignored.
    r.process_control_message(ControlMessage::Apply(4));
    assert_eq!(r.value(), 0);
}

#[test]
fn demo_election_needs_a_majority() {
    let mut r = Replica::new(1, vec![2, 3, 4, 5]);
    let mut out = Vec::new();
    r.become_candidate(&mut out);
    assert_eq!(out.len(), 4);
    match &out[0].message {
        Message::RequestVoteRequest { from_id, term, last_log_index, last_log_term } => {
            assert_eq!((out[0].to_id, *from_id, *term, *last_log_index, *last_log_term), (2, 1, 1, 0, 0));
        }
        _ => panic!("expected a vote request"),
    }
    out.clear();
    r.process_message_as_candidate(Message::RequestVoteResponse { from_id: 2, term: 1, vote_granted: true }, &mut out);
    assert_eq!(r.state(), State::Candidate);
    assert!(out.is_empty());
    r.process_message_as_candidate(Message::RequestVoteResponse { from_id: 3, term: 1, vote_granted: true }, &mut out);
    assert_eq!(r.state(), State::Leader);
    assert_eq!(out.len(), 4);
    match &out[3].message {
        Message::AppendEntryRequest { from_id, term, prev_log_index, prev_log_term, entries, commit_index } => {
            assert_eq!((out[3].to_id, *from_id, *term, *prev_log_index, *prev_log_term, *commit_index), (5, 1, 1, 0, 0, 0));
            assert!(entries.is_empty());
        }
        _ => panic!("expected a heartbeat"),
    }
}

#[test]
fn demo_follower_applies_committed_changes() {
    let mut r = Replica::new(2, vec![1]);
    let mut out = Vec::new();
    let m = Message::AppendEntryRequest {
        from_id: 1,
        term: 1,
        prev_log_index: 0,
        prev_log_term: 0,
        entries: vec![Log { index: 1, delta: 5, term: 1 }, Log { index: 2, delta: -2, term: 1 }],
        commit_index: 1,
    };
    assert!(r.can_process_as_follower(&m));
    r.process_message_as_follower(m, &mut out);
    assert_eq!(r.value(), 5);
    assert!(matches!(out[0].message, Message::AppendEntryResponse { from_id: 2, term: 0, success: true }));
    let m = Message::AppendEntryRequest {
        from_id: 1,
        term: 1,
        prev_log_index: 2,
        prev_log_term: 1,
        entries: vec![],
        commit_index: 9,
    };
    r.process_message_as_follower(m, &mut out);
    assert_eq!(r.value(), 3);
}

#[test]
fn demo_follower_refusing_changes_nothing() {
    let mut r = Replica::new(2, vec![1]);
    let mut out = Vec::new();
    let m = Message::AppendEntryRequest {
        from_id: 1,
        term: 1,
        prev_log_index: 4,
        prev_log_term: 1,
        entries: vec![Log { index: 1, delta: 5, term: 1 }],
        commit_index: 1,
    };
    r.process_message_as_follower(m, &mut out);
    assert!(matches!(out[0].message, Message::AppendEntryResponse { success: false, .. }));
    assert_eq!(r.value(), 0);
    // The log still ends at index 0: a request that follows index 1 is
    // refused too.
    out.clear();
    let m = Message::AppendEntryRequest {
        from_id: 1,
        term: 1,
        prev_log_index: 1,
        prev_log_term: 1,
        entries: vec![],
        commit_index: 1,
    };
    r.process_message_as_follower(m, &mut out);
    assert!(matches!(out[0].message, Message::AppendEntryResponse { success: false, .. }));
    assert_eq!(r.value(), 0);
}

#[test]
fn demo_follower_cuts_at_the_conflicting_entry() {
    let mut r = Replica::new(1, vec![2]);
    let mut out = Vec::new();
    // A term-1 entry of change 7 at index 1, not committed.
    r.process_message_as_follower(
        Message::AppendEntryRequest {
            from_id: 2,
            term: 1,
            prev_log_index: 0,
            prev_log_term: 0,
            entries: vec![Log { index: 1, delta: 7, term: 1 }],
            commit_index: 0,
        },
        &mut out,
    );
    assert_eq!(r.value(), 0);
    out.clear();
    // The leader of term 2 sends a change of 5 for index 1 and commits it.
    r.process_message_as_follower(
        Message::AppendEntryRequest {
            from_id: 2,
            term: 2,
            prev_log_index: 0,
            prev_log_term: 0,
            entries: vec![Log { index: 1, delta: 5, term: 2 }],
            commit_index: 1,
        },
        &mut out,
    );
    assert_eq!(r.value(), 5);
    assert_eq!(out.len(), 1);
    assert!(matches!(out[0].message, Message::AppendEntryResponse { from_id: 1, success: true, .. }));
    // The log holds two entries: a request that follows index 2 is refused.
    out.clear();
    r.process_message_as_follower(
        Message::AppendEntryRequest {
            from_id: 2,
            term: 2,
            prev_log_index: 2,
            prev_log_term: 2,
            entries: vec![],
            commit_index: 1,
        },
        &mut out,
    );
    assert!(matches!(out[0].message, Message::AppendEntryResponse { success: false, .. }));
}

#[test]
fn demo_follower_does_not_append_held_entries_twice() {
    let mut r = Replica::new(1, vec![2]);
    let mut out = Vec::new();
    let m = || Message::AppendEntryRequest {
        from_id: 2,
        term: 1,
        prev_log_index: 0,
        prev_log_term: 0,
        entries: vec![Log { index: 1, delta: 3, term: 1 }],
        commit_index: 0,
    };
    r.process_message_as_follower(m(), &mut out);
    r.process_message_as_follower(m(), &mut out);
    // The entry of index 2 follows the single entry of index 1.
    r.process_message_as_follower(
        Message::AppendEntryRequest {
            from_id: 2,
            term: 1,
            prev_log_index: 1,
            prev_log_term: 1,
            entries: vec![Log { index: 2, delta: 4, term: 1 }],
            commit_index: 2,
        },
        &mut out,
    );
    assert_eq!(r.value(), 7);
    assert!(out.iter().all(|o| matches!(o.message, Message::AppendEntryResponse { success: true, .. })));
}

#[test]
fn demo_follower_refuses_overflowing_changes() {
    let r = Replica::new(2, vec![1]);
    let m = Message::AppendEntryRequest {
        from_id: 1,
        term: 1,
        prev_log_index: 0,
        prev_log_term: 0,
        entries: vec![Log { index: 1, delta: i32::MAX, term: 1 }, Log { index: 2, delta: 1, term: 1 }],
        commit_index: 2,
    };
    assert!(!r.can_process_as_follower(&m));
    assert!(!r.can_process_as_candidate(&m));
}

#[test]
fn demo_vote_requests() {
    let mut r = Replica::new(2, vec![1, 3]);
    let mut out = Vec::new();
    r.process_message_as_follower(
        Message::RequestVoteRequest { from_id: 1, term: 3, last_log_index: 0, last_log_term: 0 },
        &mut out,
    );
    assert_eq!(r.current_term(), 3);
    assert_eq!(out.len(), 1);
    assert!(matches!(out[0].message, Message::RequestVoteResponse { from_id: 2, term: 3, vote_granted: true }));
    out.clear();
    r.process_message_as_follower(
        Message::RequestVoteRequest { from_id: 3, term: 1, last_log_index: 0, last_log_term: 0 },
        &mut out,
    );
    assert!(matches!(out[0].message, Message::RequestVoteResponse { term: 3, vote_granted: false, .. }));
    assert_eq!(out.len(), 1);
    // The vote of term 3 went to replica 1: replica 3 is refused in term 3.
    out.clear();
    r.process_message_as_follower(
        Message::RequestVoteRequest { from_id: 3, term: 3, last_log_index: 0, last_log_term: 0 },
        &mut out,
    );
    assert!(matches!(out[0].message, Message::RequestVoteResponse { term: 3, vote_granted: false, .. }));
    out.clear();
    r.process_message_as_follower(
        Message::RequestVoteRequest { from_id: 1, term: 3, last_log_index: 0, last_log_term: 0 },
        &mut out,
    );
    assert!(matches!(out[0].message, Message::RequestVoteResponse { term: 3, vote_granted: true, .. }));
}

#[test]
fn demo_vote_goes_to_an_up_to_date_log() {
    let mut r = Replica::new(2, vec![1, 3]);
    let mut out = Vec::new();
    let m = Message::AppendEntryRequest {
        from_id: 1,
        term: 2,
        prev_log_index: 0,
        prev_log_term: 0,
        entries: vec![Log { index: 1, delta: 5, term: 2 }],
        commit_index: 0,
    };
    r.process_message_as_follower(m, &mut out);
    out.clear();
    // The last entry is of term 2 at index 1: a log ending in term 1 is
    // behind, however long.
    r.process_message_as_follower(
        Message::RequestVoteRequest { from_id: 3, term: 4, last_log_index: 7, last_log_term: 1 },
        &mut out,
    );
    assert!(matches!(out[0].message, Message::RequestVoteResponse { term: 4, vote_granted: false, .. }));
    out.clear();
    r.process_message_as_follower(
        Message::RequestVoteRequest { from_id: 3, term: 4, last_log_index: 1, last_log_term: 2 },
        &mut out,
    );
    assert!(matches!(out[0].message, Message::RequestVoteResponse { term: 4, vote_granted: true, .. }));
}

#[test]
fn demo_vote_request_names_the_last_entry() {
    let mut r = Replica::new(2, vec![1, 3]);
    let mut out = Vec::new();
    let m = Message::AppendEntryRequest {
        from_id: 1,
        term: 2,
        prev_log_index: 0,
        prev_log_term: 0,
        entries: vec![Log { index: 1, delta: 5, term: 2 }],
        commit_index: 0,
    };
    r.process_message_as_follower(m, &mut out);
    assert!(matches!(
        r.new_request_vote_message(),
        Message::RequestVoteRequest { from_id: 2, last_log_index: 1, last_log_term: 2, .. }
    ));
}

#[test]
fn demo_new_sorts_peers() {
    let r = Replica::new(2, vec![3, 1, 3]);
    assert_eq!(r.peers(), &vec![1, 3, 3]);
    let m = ConsensusModule::new(2, vec![9, 4]);
    assert_eq!(m.peers(), &vec![4, 9]);
    assert_eq!(find_peer(r.peers(), 3).map(|i| r.peers()[i]), Some(3));
}

#[test]
fn demo_timeout_starts_an_election_or_sends_a_heartbeat() {
    let mut r = Replica::new(1, vec![2, 3]);
    let mut out = Vec::new();
    assert!(r.can_handle_event(&None));
    r.on_event(None, &mut out);
    assert_eq!((r.state(), r.current_term()), (State::Candidate, 1));
    assert_eq!(out.len(), 2);
    out.clear();
    let vote = Some(Message::RequestVoteResponse { from_id: 2, term: 1, vote_granted: true });
    assert!(r.can_handle_event(&vote));
    r.on_event(vote, &mut out);
    assert_eq!(r.state(), State::Leader);
    out.clear();
    r.on_event(None, &mut out);
    assert_eq!(r.state(), State::Leader);
    assert_eq!(out.len(), 2);
    assert!(matches!(out[0].message, Message::AppendEntryRequest { term: 1, .. }));
    // A dead replica does nothing on a timeout.
    r.process_control_message(ControlMessage::Down);
    out.clear();
    r.on_event(None, &mut out);
    assert_eq!(r.state(), State::Dead);
    assert!(out.is_empty());
}

#[test]
fn consensus_timeout_starts_an_election_or_sends_a_heartbeat() {
    let mut m = ConsensusModule::new(1, vec![2, 3]);
    let mut out = Vec::new();
    assert!(m.can_handle_event(&None));
    m.on_event(None, &mut out);
    assert_eq!((m.state(), m.current_term()), (State::Candidate, 1));
    assert!(matches!(
        out[0].message,
        Message::RequestVoteRequest { from_id: 1, term: 1, last_log_index: 0, last_log_term: 0 }
    ));
    out.clear();
    m.on_event(Some(Message::RequestVoteResponse { from_id: 3, term: 1, vote_granted: true }), &mut out);
    assert_eq!(m.state(), State::Leader);
    assert!(out.is_empty());
    m.on_event(Some(Message::RequestVoteResponse { from_id: 2, term: 1, vote_granted: true }), &mut out);
    assert!(out.is_empty());
    m.on_event(None, &mut out);
    assert_eq!(out.len(), 2);
    assert!(matches!(out[1].message, Message::AppendEntryRequest { term: 1, from_id: 1, .. }));
}

#[test]
fn demo_leader_follows_newer_term() {
    let mut r = Replica::new(1, vec![2]);
    let mut out = Vec::new();
    r.become_candidate(&mut out);
    r.process_message_as_candidate(Message::RequestVoteResponse { from_id: 2, term: 1, vote_granted: true }, &mut out);
    assert_eq!(r.state(), State::Leader);
    r.process_message_as_leader(Message::AppendEntryResponse { from_id: 2, term: 1, success: false });
    assert_eq!(r.state(), State::Leader);
    r.process_message_as_leader(Message::AppendEntryResponse { from_id: 2, term: 7, success: false });
    assert_eq!(r.state(), State::Follower);
    assert_eq!(r.current_term(), 7);
}

#[test]
fn find_peer_by_binary_search() {
    let peers = vec![1, 3, 4, 9];
    assert_eq!(find_peer(&peers, 4), Some(2));
    assert_eq!(find_peer(&peers, 1), Some(0));
    assert_eq!(find_peer(&peers, 9), Some(3));
    assert_eq!(find_peer(&peers, 5), None);
    assert_eq!(find_peer(&vec![], 5), None);
}

#[test]
fn consensus_module_starts_with_empty_log() {
    let mut m = ConsensusModule::new(1, vec![2, 3]);
    let mut out = Vec::new();
    m.broadcast_heartbeat(&mut out);
    match &out[0].message {
        Message::AppendEntryRequest { prev_log_index, prev_log_term, entries, .. } => {
            assert_eq!((*prev_log_index, *prev_log_term, entries.len()), (0, 0, 0));
        }
        _ => panic!("expected a heartbeat"),
    }
    out.clear();
    // With an empty log it grants any vote.
    m.process_message_as_follower(
        Message::RequestVoteRequest { from_id: 2, term: 1, last_log_index: 0, last_log_term: 0 },
        &mut out,
    );
    assert!(matches!(out[0].message, Message::RequestVoteResponse { vote_granted: true, term: 1, .. }));
}

#[test]
fn consensus_module_refuses_with_empty_log_and_wins_without_heartbeat() {
    let mut m = ConsensusModule::new(1, vec![2, 3]);
    let mut out = Vec::new();
    let append = Message::AppendEntryRequest {
        from_id: 2,
        term: 1,
        prev_log_index: 0,
        prev_log_term: 0,
        entries: vec![Log { index: 0, delta: 4, term: 1 }, Log { index: 1, delta: 6, term: 1 }],
        commit_index: 1,
    };
    assert!(m.can_process_as_follower(&append));
    m.process_message_as_follower(append, &mut out);
    // The log is empty, so the request is refused and nothing changes.
    assert!(matches!(out[0].message, Message::AppendEntryResponse { success: false, .. }));
    assert_eq!(m.value(), 0);
    m.become_candidate(&mut out);
    out.clear();
    m.process_message_as_candidate(Message::RequestVoteResponse { from_id: 2, term: 1, vote_granted: true }, &mut out);
    assert_eq!(m.state(), State::Leader);
    assert!(out.is_empty());
}


#[test]
fn demo_vote_is_kept_through_other_steps_of_the_term() {
    let mut r = Replica::new(2, vec![1, 3]);
    let mut out = Vec::new();
    r.process_message_as_follower(
        Message::RequestVoteRequest { from_id: 1, term: 3, last_log_index: 0, last_log_term: 0 },
        &mut out,
    );
    assert!(matches!(out[0].message, Message::RequestVoteResponse { term: 3, vote_granted: true, .. }));
    // A heartbeat of the term's leader leaves the vote as it was.
    out.clear();
    r.process_message_as_follower(
        Message::AppendEntryRequest { from_id: 1, term: 3, prev_log_index: 0, prev_log_term: 0, entries: vec![], commit_index: 0 },
        &mut out,
    );
    assert!(matches!(out[0].message, Message::AppendEntryResponse { term: 3, success: true, .. }));
    assert_eq!(r.current_term(), 3);
    // So another candidate of the term is still refused.
    out.clear();
    r.process_message_as_follower(
        Message::RequestVoteRequest { from_id: 3, term: 3, last_log_index: 5, last_log_term: 3 },
        &mut out,
    );
    assert!(matches!(out[0].message, Message::RequestVoteResponse { term: 3, vote_granted: false, .. }));
}

#[test]
fn status_shows_the_changes_of_the_log_by_how_far_they_went() {
    let mut status = ReplicaStatus {
        id: 1,
        state: State::Leader,
        connected: true,
        value: 2,
        term: 2,
        log: vec![
            Log { index: 0, delta: 0, term: 0 },
            Log { index: 1, delta: 5, term: 1 },
            Log { index: 2, delta: -3, term: 1 },
            Log { index: 3, delta: 0, term: 2 },
            Log { index: 4, delta: 7, term: 2 },
        ],
        last_applied: 1,
        commit_index: 2,
    };
    assert_eq!(state_colour(&status), Colour::Cyan);
    let segments = log_segments(&status);
    assert_eq!(
        segments,
        vec![
            LogSegment { plus_sign: true, delta: 5, term: 1, colour: Colour::Green },
            LogSegment { plus_sign: false, delta: -3, term: 1, colour: Colour::Magenta },
            LogSegment { plus_sign: true, delta: 7, term: 2, colour: Colour::Yellow },
        ]
    );
    status.connected = false;
    assert_eq!(state_colour(&status), Colour::Yellow);
    status.connected = true;
    status.state = State::Candidate;
    assert_eq!(state_colour(&status), Colour::Blue);
}
