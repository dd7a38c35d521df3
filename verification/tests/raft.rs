use little_raft::message::{Effect, Entry, Message};
use little_raft::replica::{Event, Replica, State};
use little_raft::state_machine::{StateMachineTransition, TransitionAbandonedReason, TransitionState};

#[derive(Clone, Copy, Debug)]
struct ArithmeticOperation {
    delta: i32,
    id: usize,
}

impl StateMachineTransition for ArithmeticOperation {
    type TransitionID = usize;
    fn get_id(&self) -> Self::TransitionID {
        self.id
    }
}

/// One replica of a simulated cluster: the replica, its inbox, the value of
/// its calculator, and what its hooks were told.
struct Node {
    replica: Replica<ArithmeticOperation>,
    inbox: Vec<Message<ArithmeticOperation>>,
    value: i32,
    leader: bool,
    pending_transitions: Vec<ArithmeticOperation>,
}

struct Sim {
    nodes: Vec<Node>,
    applied: Vec<(usize, usize)>,
}

impl Sim {
    fn new(n: usize) -> Sim {
        let mut nodes = Vec::new();
        for i in 0..n {
            let peer_ids: Vec<usize> = (0..n).filter(|p| *p != i).collect();
            nodes.push(Node {
                replica: Replica::new(i, peer_ids, ArithmeticOperation { delta: 0, id: 0 }),
                inbox: Vec::new(),
                value: 0,
                leader: false,
                pending_transitions: Vec::new(),
            });
        }
        Sim { nodes, applied: Vec::new() }
    }

    fn carry_out(&mut self, from: usize, effects: Vec<Effect<ArithmeticOperation>>) {
        for e in effects {
            match e {
                Effect::Send { to_id, message } => self.nodes[to_id].inbox.push(message),
                Effect::RegisterLeader(l) => self.nodes[from].leader = l == Some(from),
                Effect::RegisterTransitionState(t, s) => {
                    if s == TransitionState::Applied {
                        self.applied.push((from, t.get_id()));
                    }
                }
                Effect::ApplyTransition(t) => self.nodes[from].value += t.delta,
            }
        }
    }

    /// One poll of a replica: it handles each message of its inbox, then
    /// the pending transitions, then, when asked, the heartbeat.
    fn poll(&mut self, i: usize, heartbeat: bool) {
        let mut out = Vec::new();
        let messages = std::mem::take(&mut self.nodes[i].inbox);
        for m in messages {
            let r = &mut self.nodes[i].replica;
            if r.state() == State::Leader {
                assert!(r.can_process_as_leader(&m));
            }
            r.handle_event(Event::Messages(vec![m]), &mut out);
        }
        let transitions = std::mem::take(&mut self.nodes[i].pending_transitions);
        self.nodes[i].replica.handle_event(Event::Transitions(transitions), &mut out);
        if heartbeat {
            if self.nodes[i].replica.state() == State::Leader {
                assert!(self.nodes[i].replica.is_heartbeat_ready());
            }
            self.nodes[i].replica.handle_event(Event::HeartbeatDue, &mut out);
        }
        self.carry_out(i, out);
    }

    fn rounds(&mut self, k: usize) {
        for _ in 0..k {
            for i in 0..self.nodes.len() {
                self.poll(i, true);
            }
        }
    }

    fn submit(&mut self, t: ArithmeticOperation) {
        for n in self.nodes.iter_mut() {
            if n.leader {
                n.pending_transitions.push(t);
                break;
            }
        }
    }

    fn applied_by(&self, id: usize) -> Vec<usize> {
        self.applied.iter().filter(|x| x.0 == id).map(|x| x.1).collect()
    }
}

#[test]
fn run_replicas() {
    let mut sim = Sim::new(3);
    let mut out = Vec::new();
    sim.nodes[0].replica.handle_event(Event::ElectionTimeout, &mut out);
    sim.carry_out(0, out);
    sim.rounds(4);
    sim.submit(ArithmeticOperation { delta: 5, id: 1 });
    sim.rounds(4);
    sim.submit(ArithmeticOperation { delta: -51, id: 2 });
    sim.rounds(4);
    sim.submit(ArithmeticOperation { delta: -511, id: 3 });
    sim.rounds(4);
    sim.submit(ArithmeticOperation { delta: 3, id: 4 });
    sim.rounds(4);

    let expected_vec: Vec<usize> = vec![0, 1, 2, 3, 4];
    assert_eq!(expected_vec, sim.applied_by(0));
    assert_eq!(expected_vec, sim.applied_by(1));
    assert_eq!(expected_vec, sim.applied_by(2));
    for n in sim.nodes.iter() {
        assert_eq!(n.value, 5 - 51 - 511 + 3);
    }
}

#[test]
fn new_replica_is_follower_with_one_entry() {
    let r = Replica::new(3, vec![1, 2], ArithmeticOperation { delta: 0, id: 9 });
    assert_eq!(r.id(), 3);
    assert_eq!(r.state(), State::Follower);
    assert_eq!(r.current_term(), 0);
    assert_eq!(r.commit_index(), 0);
    assert_eq!(r.last_applied(), 0);
    assert_eq!(r.log_len(), 1);
    let e = r.entry(0);
    assert_eq!((e.term, e.index, e.transition.id), (0, 0, 9));
}

#[test]
fn candidate_asks_each_peer_for_its_vote() {
    let mut r = Replica::new(0, vec![1, 2], 0u64);
    let mut out = Vec::new();
    r.become_candidate(&mut out);
    assert_eq!(r.state(), State::Candidate);
    assert_eq!(r.current_term(), 1);
    assert_eq!(out.len(), 2);
    for (k, e) in out.iter().enumerate() {
        match e {
            Effect::Send { to_id, message: Message::VoteRequest { from_id, term, last_log_index, last_log_term } } => {
                assert_eq!((*to_id, *from_id, *term, *last_log_index, *last_log_term), (k + 1, 0, 1, 0, 0));
            }
            _ => panic!("expected a vote request"),
        }
    }
}

#[test]
fn one_vote_makes_leader_with_noop_entry() {
    let mut r = Replica::new(0, vec![1, 2], 7u64);
    let mut out = Vec::new();
    r.become_candidate(&mut out);
    out.clear();
    r.process_message_as_candidate(Message::VoteResponse { from_id: 1, term: 1, vote_granted: true }, &mut out);
    assert_eq!(r.state(), State::Leader);
    assert_eq!(r.log_len(), 2);
    let e = r.entry(1);
    assert_eq!((e.term, e.index, e.transition), (1, 1, 7));
    assert!(matches!(out[0], Effect::RegisterLeader(Some(0))));
    assert_eq!(out.len(), 1);
}

#[test]
fn refused_vote_keeps_candidate() {
    let mut r = Replica::new(0, vec![1, 2, 3, 4], 7u64);
    let mut out = Vec::new();
    r.become_candidate(&mut out);
    out.clear();
    r.process_message_as_candidate(Message::VoteResponse { from_id: 1, term: 1, vote_granted: false }, &mut out);
    assert_eq!(r.state(), State::Candidate);
    assert!(out.is_empty());
}

#[test]
fn newer_term_in_vote_response_makes_follower_with_leader_unknown() {
    let mut r = Replica::new(0, vec![1, 2], 7u64);
    let mut out = Vec::new();
    r.become_candidate(&mut out);
    out.clear();
    r.process_message_as_candidate(Message::VoteResponse { from_id: 2, term: 5, vote_granted: false }, &mut out);
    assert_eq!(r.state(), State::Follower);
    assert_eq!(r.current_term(), 5);
    assert_eq!(out.len(), 1);
    assert!(matches!(out[0], Effect::RegisterLeader(None)));
}

#[test]
fn stale_vote_is_not_counted() {
    let mut r = Replica::new(0, vec![1, 2], 7u64);
    let mut out = Vec::new();
    r.become_candidate(&mut out);
    r.become_candidate(&mut out);
    out.clear();
    r.process_message_as_candidate(Message::VoteResponse { from_id: 1, term: 1, vote_granted: true }, &mut out);
    assert_eq!(r.state(), State::Candidate);
    assert!(out.is_empty());
    r.process_message_as_candidate(Message::VoteResponse { from_id: 1, term: 2, vote_granted: true }, &mut out);
    assert_eq!(r.state(), State::Leader);
}

#[test]
fn two_votes_of_five_do_not_make_leader() {
    let mut r = Replica::new(0, vec![1, 2, 3, 4], 7u64);
    let mut out = Vec::new();
    r.become_candidate(&mut out);
    r.process_message_as_candidate(Message::VoteResponse { from_id: 1, term: 1, vote_granted: true }, &mut out);
    assert_eq!(r.state(), State::Candidate);
    r.process_message_as_candidate(Message::VoteResponse { from_id: 2, term: 1, vote_granted: true }, &mut out);
    assert_eq!(r.state(), State::Leader);
}

#[test]
fn follower_grants_vote_to_up_to_date_candidate() {
    let mut r = Replica::new(1, vec![0, 2], 0u64);
    let mut out = Vec::new();
    r.process_message_as_follower(
        Message::VoteRequest { from_id: 0, term: 1, last_log_index: 0, last_log_term: 0 },
        &mut out,
    );
    assert_eq!(r.current_term(), 1);
    assert_eq!(out.len(), 1);
    assert!(matches!(
        out[0],
        Effect::Send { to_id: 0, message: Message::VoteResponse { from_id: 1, term: 1, vote_granted: true } }
    ));
}

#[test]
fn follower_refuses_stale_vote_request() {
    let mut r = Replica::new(1, vec![0, 2], 0u64);
    r.become_follower(3);
    let mut out = Vec::new();
    r.process_message_as_follower(
        Message::VoteRequest { from_id: 0, term: 2, last_log_index: 5, last_log_term: 5 },
        &mut out,
    );
    assert_eq!(r.current_term(), 3);
    assert_eq!(out.len(), 1);
    assert!(matches!(
        out[0],
        Effect::Send { to_id: 0, message: Message::VoteResponse { from_id: 1, term: 3, vote_granted: false } }
    ));
}

/// A follower whose log ends with an entry of term 1 at index 2.
fn follower_with_two_entries_of_term_1() -> Replica<u64> {
    let mut r = Replica::new(1, vec![0, 2], 0u64);
    let mut out = Vec::new();
    let entries = vec![
        Entry { term: 1, index: 1, transition: 10u64 },
        Entry { term: 1, index: 2, transition: 20u64 },
    ];
    r.process_message_as_follower(
        Message::AppendEntryRequest { from_id: 0, term: 1, prev_log_index: 0, prev_log_term: 0, entries, commit_index: 0 },
        &mut out,
    );
    r
}

#[test]
fn vote_goes_to_a_log_at_least_as_up_to_date() {
    let granted = |r: &mut Replica<u64>, from_id: usize, last_log_index: usize, last_log_term: usize| {
        let mut out = Vec::new();
        r.process_message_as_follower(
            Message::VoteRequest { from_id, term: 5, last_log_index, last_log_term },
            &mut out,
        );
        matches!(out[out.len() - 1], Effect::Send { message: Message::VoteResponse { vote_granted: true, .. }, .. })
    };
    // A shorter log of a later term is more up to date.
    assert!(granted(&mut follower_with_two_entries_of_term_1(), 0, 1, 2));
    // A log of the same last term must be at least as long.
    assert!(granted(&mut follower_with_two_entries_of_term_1(), 0, 2, 1));
    assert!(!granted(&mut follower_with_two_entries_of_term_1(), 0, 1, 1));
    // A longer log of an earlier term is not.
    assert!(!granted(&mut follower_with_two_entries_of_term_1(), 0, 9, 0));
}

#[test]
fn a_follower_votes_once_per_term() {
    let mut a = Replica::new(0, vec![1, 2], 0u64);
    let mut b = Replica::new(1, vec![0, 2], 0u64);
    let mut c = Replica::new(2, vec![0, 1], 0u64);
    let mut out = Vec::new();
    a.become_candidate(&mut out);
    b.become_candidate(&mut out);
    out.clear();
    c.process_message_as_follower(Message::VoteRequest { from_id: 0, term: 1, last_log_index: 0, last_log_term: 0 }, &mut out);
    c.process_message_as_follower(Message::VoteRequest { from_id: 1, term: 1, last_log_index: 0, last_log_term: 0 }, &mut out);
    // The candidate voted for may ask again and is granted again.
    c.process_message_as_follower(Message::VoteRequest { from_id: 0, term: 1, last_log_index: 0, last_log_term: 0 }, &mut out);
    let grants: Vec<(usize, bool)> = out
        .iter()
        .filter_map(|e| match e {
            Effect::Send { to_id, message: Message::VoteResponse { vote_granted, term: 1, .. } } => Some((*to_id, *vote_granted)),
            _ => None,
        })
        .collect();
    assert_eq!(grants, vec![(0, true), (1, false), (0, true)]);
    a.process_message_as_candidate(Message::VoteResponse { from_id: 2, term: 1, vote_granted: true }, &mut out);
    b.process_message_as_candidate(Message::VoteResponse { from_id: 2, term: 1, vote_granted: false }, &mut out);
    assert_eq!((a.state(), a.current_term()), (State::Leader, 1));
    assert_eq!((b.state(), b.current_term()), (State::Candidate, 1));
}

#[test]
fn vote_is_kept_when_following_the_same_term() {
    let mut r = Replica::new(2, vec![0, 1], 0u64);
    let mut out = Vec::new();
    r.process_message_as_follower(Message::VoteRequest { from_id: 0, term: 1, last_log_index: 0, last_log_term: 0 }, &mut out);
    r.become_follower(1);
    out.clear();
    r.process_message_as_follower(Message::VoteRequest { from_id: 1, term: 1, last_log_index: 0, last_log_term: 0 }, &mut out);
    assert!(matches!(out[0], Effect::Send { to_id: 1, message: Message::VoteResponse { vote_granted: false, .. } }));
    // A newer term frees the vote.
    r.become_follower(2);
    out.clear();
    r.process_message_as_follower(Message::VoteRequest { from_id: 1, term: 2, last_log_index: 0, last_log_term: 0 }, &mut out);
    assert!(matches!(out[0], Effect::Send { to_id: 1, message: Message::VoteResponse { vote_granted: true, .. } }));
}

#[test]
fn follower_appends_entries_and_adopts_commit_index() {
    let mut r = Replica::new(1, vec![0], 0u64);
    let mut out = Vec::new();
    let entries = vec![
        Entry { term: 1, index: 1, transition: 10u64 },
        Entry { term: 1, index: 2, transition: 20u64 },
    ];
    r.process_message_as_follower(
        Message::AppendEntryRequest { from_id: 0, term: 1, prev_log_index: 0, prev_log_term: 0, entries, commit_index: 5 },
        &mut out,
    );
    assert_eq!(r.log_len(), 3);
    assert_eq!(r.entry(2).transition, 20);
    // The follower adopts the leader's term.
    assert_eq!(r.current_term(), 1);
    // The commit index stops at the last entry of the log, and the newly
    // committed entries are announced.
    assert_eq!(r.commit_index(), 2);
    assert_eq!(out.len(), 4);
    assert!(matches!(out[0], Effect::RegisterTransitionState(10, TransitionState::Committed)));
    assert!(matches!(out[1], Effect::RegisterTransitionState(20, TransitionState::Committed)));
    assert!(matches!(out[2], Effect::RegisterLeader(Some(0))));
    assert!(matches!(
        out[3],
        Effect::Send { to_id: 0, message: Message::AppendEntryResponse { from_id: 1, term: 1, success: true, last_index: 2 } }
    ));
    out.clear();
    r.apply_ready_entries(&mut out);
    assert_eq!(r.last_applied(), 2);
    assert_eq!(out.len(), 4);
    assert!(matches!(out[0], Effect::ApplyTransition(10)));
    assert!(matches!(out[1], Effect::RegisterTransitionState(10, TransitionState::Applied)));
    assert!(matches!(out[2], Effect::ApplyTransition(20)));
}

#[test]
fn follower_refuses_append_without_previous_entry() {
    let mut r = Replica::new(1, vec![0], 0u64);
    let mut out = Vec::new();
    r.process_message_as_follower(
        Message::AppendEntryRequest { from_id: 0, term: 1, prev_log_index: 3, prev_log_term: 1, entries: vec![], commit_index: 0 },
        &mut out,
    );
    assert_eq!(out.len(), 1);
    assert_eq!(r.current_term(), 1);
    assert!(matches!(
        out[0],
        Effect::Send { to_id: 0, message: Message::AppendEntryResponse { success: false, last_index: 0, term: 1, .. } }
    ));
}

#[test]
fn follower_refuses_stale_append() {
    let mut r = Replica::new(1, vec![0], 0u64);
    r.become_follower(3);
    let mut out = Vec::new();
    r.process_message_as_follower(
        Message::AppendEntryRequest { from_id: 0, term: 2, prev_log_index: 0, prev_log_term: 0, entries: vec![], commit_index: 0 },
        &mut out,
    );
    assert_eq!(out.len(), 1);
    assert!(matches!(
        out[0],
        Effect::Send { to_id: 0, message: Message::AppendEntryResponse { success: false, term: 3, .. } }
    ));
}

#[test]
fn conflicting_entry_cuts_the_log_and_abandons_the_cut_entries() {
    let mut r = Replica::new(1, vec![0], 0u64);
    let mut out = Vec::new();
    let entries = vec![
        Entry { term: 1, index: 1, transition: 10u64 },
        Entry { term: 1, index: 2, transition: 20u64 },
        Entry { term: 1, index: 3, transition: 30u64 },
    ];
    r.process_message_as_follower(
        Message::AppendEntryRequest { from_id: 0, term: 1, prev_log_index: 0, prev_log_term: 0, entries, commit_index: 0 },
        &mut out,
    );
    assert_eq!(r.log_len(), 4);
    out.clear();
    let entries = vec![Entry { term: 2, index: 2, transition: 99u64 }];
    r.process_message_as_follower(
        Message::AppendEntryRequest { from_id: 0, term: 2, prev_log_index: 1, prev_log_term: 1, entries, commit_index: 0 },
        &mut out,
    );
    assert_eq!(r.log_len(), 3);
    assert_eq!(r.entry(2).transition, 99);
    assert_eq!(r.entry(2).term, 2);
    assert!(matches!(
        out[0],
        Effect::RegisterTransitionState(20, TransitionState::Abandoned(TransitionAbandonedReason::ConflictWithLeader))
    ));
    assert!(matches!(
        out[1],
        Effect::RegisterTransitionState(30, TransitionState::Abandoned(TransitionAbandonedReason::ConflictWithLeader))
    ));
    assert!(matches!(out[2], Effect::RegisterLeader(Some(0))));
    assert_eq!(out.len(), 4);
}

#[test]
fn only_leader_loads_transitions() {
    let mut r = Replica::new(0, vec![1, 2], 0u64);
    let mut out = Vec::new();
    r.load_new_entries(vec![5, 6], &mut out);
    assert_eq!(r.log_len(), 1);
    assert_eq!(out.len(), 2);
    assert!(matches!(
        out[0],
        Effect::RegisterTransitionState(5, TransitionState::Abandoned(TransitionAbandonedReason::NotLeader))
    ));
    assert!(matches!(
        out[1],
        Effect::RegisterTransitionState(6, TransitionState::Abandoned(TransitionAbandonedReason::NotLeader))
    ));

    r.become_candidate(&mut out);
    r.process_message_as_candidate(Message::VoteResponse { from_id: 1, term: 1, vote_granted: true }, &mut out);
    out.clear();
    r.load_new_entries(vec![5, 6], &mut out);
    assert_eq!(r.log_len(), 4);
    assert_eq!((r.entry(2).index, r.entry(2).term, r.entry(2).transition), (2, 1, 5));
    assert_eq!((r.entry(3).index, r.entry(3).term, r.entry(3).transition), (3, 1, 6));
    assert!(matches!(out[0], Effect::RegisterTransitionState(5, TransitionState::Queued)));
    assert!(matches!(out[1], Effect::RegisterTransitionState(6, TransitionState::Queued)));
}

#[test]
fn leader_commits_on_half_of_peers_and_announces() {
    let mut r = Replica::new(0, vec![1, 2], 0u64);
    let mut out = Vec::new();
    r.become_candidate(&mut out);
    r.process_message_as_candidate(Message::VoteResponse { from_id: 1, term: 1, vote_granted: true }, &mut out);
    r.load_new_entries(vec![5], &mut out);
    out.clear();
    // The leader's heartbeat carries the noop and the new entry to each peer.
    r.broadcast_append_entries(&mut out);
    assert_eq!(out.len(), 2);
    match &out[0] {
        Effect::Send { to_id, message: Message::AppendEntryRequest { prev_log_index, prev_log_term, entries, commit_index, term, from_id } } => {
            assert_eq!((*to_id, *prev_log_index, *prev_log_term, *commit_index, *term, *from_id), (1, 0, 0, 0, 1, 0));
            assert_eq!(entries.len(), 2);
        }
        _ => panic!("expected an append request"),
    }
    out.clear();
    assert!(r.can_process_as_leader(&Message::AppendEntryResponse { from_id: 1, term: 1, success: true, last_index: 2 }));
    r.process_message_as_leader(Message::AppendEntryResponse { from_id: 1, term: 1, success: true, last_index: 2 }, &mut out);
    r.apply_ready_entries(&mut out);
    assert_eq!(r.commit_index(), 2);
    assert_eq!(r.last_applied(), 2);
    assert!(matches!(out[0], Effect::RegisterTransitionState(0, TransitionState::Committed)));
    assert!(matches!(out[1], Effect::RegisterTransitionState(5, TransitionState::Committed)));
    assert!(matches!(out[2], Effect::ApplyTransition(0)));
    assert!(matches!(out[4], Effect::ApplyTransition(5)));
    assert_eq!(out.len(), 6);
}

#[test]
fn late_append_response_keeps_the_highest_match_index() {
    let mut r = Replica::new(0, vec![1, 2], 0u64);
    let mut out = Vec::new();
    r.become_candidate(&mut out);
    r.process_message_as_candidate(Message::VoteResponse { from_id: 1, term: 1, vote_granted: true }, &mut out);
    r.load_new_entries(vec![5], &mut out);
    r.process_message_as_leader(Message::AppendEntryResponse { from_id: 1, term: 1, success: true, last_index: 2 }, &mut out);
    // A late answer to an older request names an earlier last index.
    r.process_message_as_leader(Message::AppendEntryResponse { from_id: 1, term: 1, success: true, last_index: 1 }, &mut out);
    out.clear();
    r.apply_ready_entries(&mut out);
    // Entry 2 is still known to be on peer 1, so it is committed.
    assert_eq!(r.commit_index(), 2);
}

#[test]
fn refused_append_moves_next_index_back() {
    let mut r = Replica::new(0, vec![1], 0u64);
    let mut out = Vec::new();
    r.become_candidate(&mut out);
    r.process_message_as_candidate(Message::VoteResponse { from_id: 1, term: 1, vote_granted: true }, &mut out);
    // next index of peer 1 is 1 after the election.
    let refusal = Message::AppendEntryResponse { from_id: 1, term: 1, success: false, last_index: 0 };
    assert!(r.can_process_as_leader(&refusal));
    r.process_message_as_leader(refusal, &mut out);
    let refusal = Message::AppendEntryResponse { from_id: 1, term: 1, success: false, last_index: 0 };
    // Its next index is now 0, which cannot move back any further.
    assert!(!r.can_process_as_leader(&refusal));
    assert!(!r.is_heartbeat_ready());
    let unknown = Message::AppendEntryResponse { from_id: 9, term: 1, success: false, last_index: 0 };
    assert!(!r.can_process_as_leader(&unknown));
}

#[test]
fn newer_term_in_append_response_makes_leader_follow() {
    let mut r = Replica::new(0, vec![1], 0u64);
    let mut out = Vec::new();
    r.become_candidate(&mut out);
    r.process_message_as_candidate(Message::VoteResponse { from_id: 1, term: 1, vote_granted: true }, &mut out);
    out.clear();
    r.process_message_as_leader(Message::AppendEntryResponse { from_id: 1, term: 4, success: false, last_index: 0 }, &mut out);
    assert_eq!(r.state(), State::Follower);
    assert_eq!(r.current_term(), 4);
    assert!(matches!(out[0], Effect::RegisterLeader(None)));
}

#[test]
fn simple_design_appends_no_noop_and_takes_one_action() {
    let mut r = Replica::new_without_noop(0, vec![1], 0u64);
    let mut out = Vec::new();
    r.become_candidate(&mut out);
    r.process_message_as_candidate(Message::VoteResponse { from_id: 1, term: 1, vote_granted: true }, &mut out);
    assert_eq!(r.state(), State::Leader);
    assert_eq!(r.log_len(), 1);
    r.process_action(Some(42), &mut out);
    r.process_action(None, &mut out);
    assert_eq!(r.log_len(), 2);
    assert_eq!(r.entry(1).transition, 42);
}

#[test]
fn candidate_follows_append_request_of_its_term() {
    let mut r = Replica::new(1, vec![0, 2], 0u64);
    let mut out = Vec::new();
    r.become_candidate(&mut out);
    out.clear();
    r.process_message_as_candidate(
        Message::AppendEntryRequest { from_id: 2, term: 1, prev_log_index: 0, prev_log_term: 0, entries: vec![], commit_index: 0 },
        &mut out,
    );
    assert_eq!(r.state(), State::Follower);
    assert!(matches!(out[0], Effect::RegisterLeader(Some(2))));
    assert!(matches!(
        out[2],
        Effect::Send { to_id: 2, message: Message::AppendEntryResponse { success: true, .. } }
    ));
}

#[test]
fn candidate_refuses_stale_requests() {
    let mut r = Replica::new(1, vec![0, 2], 0u64);
    let mut out = Vec::new();
    r.become_candidate(&mut out);
    r.become_candidate(&mut out);
    out.clear();
    r.process_message_as_candidate(
        Message::AppendEntryRequest { from_id: 2, term: 1, prev_log_index: 0, prev_log_term: 0, entries: vec![], commit_index: 0 },
        &mut out,
    );
    r.process_message_as_candidate(Message::VoteRequest { from_id: 0, term: 2, last_log_index: 0, last_log_term: 0 }, &mut out);
    assert_eq!(r.state(), State::Candidate);
    assert!(matches!(out[0], Effect::Send { to_id: 2, message: Message::AppendEntryResponse { success: false, term: 2, .. } }));
    assert!(matches!(out[1], Effect::Send { to_id: 0, message: Message::VoteResponse { vote_granted: false, term: 2, .. } }));
}

#[test]
fn candidate_answers_newer_vote_request_as_follower() {
    let mut r = Replica::new(1, vec![0, 2], 0u64);
    let mut out = Vec::new();
    r.become_candidate(&mut out);
    out.clear();
    r.process_message_as_candidate(Message::VoteRequest { from_id: 0, term: 3, last_log_index: 0, last_log_term: 0 }, &mut out);
    assert_eq!((r.state(), r.current_term()), (State::Follower, 3));
    assert_eq!(out.len(), 1);
    assert!(matches!(out[0], Effect::Send { to_id: 0, message: Message::VoteResponse { vote_granted: true, term: 3, .. } }));
}

#[test]
fn entries_for_peer_start_at_its_next_index() {
    let mut r = Replica::new(0, vec![1], 0u64);
    let mut out = Vec::new();
    r.become_candidate(&mut out);
    r.process_message_as_candidate(Message::VoteResponse { from_id: 1, term: 1, vote_granted: true }, &mut out);
    r.load_new_entries(vec![3, 4], &mut out);
    let es = r.get_entries_for_peer(1);
    assert_eq!(es.len(), 3);
    assert_eq!(es[0].index, 1);
    assert_eq!(es[2].transition, 4);
}

#[test]
fn terms_never_decrease() {
    let mut r = Replica::new(0, vec![1], 0u64);
    r.become_follower(4);
    let mut out = Vec::new();
    r.process_message_as_follower(Message::VoteRequest { from_id: 1, term: 2, last_log_index: 0, last_log_term: 0 }, &mut out);
    assert_eq!(r.current_term(), 4);
    r.process_message_as_follower(
        Message::AppendEntryRequest { from_id: 1, term: 9, prev_log_index: 0, prev_log_term: 0, entries: vec![], commit_index: 0 },
        &mut out,
    );
    assert_eq!(r.current_term(), 9);
    r.process_message_as_follower(
        Message::AppendEntryRequest { from_id: 1, term: 3, prev_log_index: 0, prev_log_term: 0, entries: vec![], commit_index: 0 },
        &mut out,
    );
    assert_eq!(r.current_term(), 9);
    r.become_candidate(&mut out);
    assert_eq!(r.current_term(), 10);
}

#[test]
fn leader_log_is_append_only() {
    let mut r = Replica::new(0, vec![1, 2], 0u64);
    let mut out = Vec::new();
    r.become_candidate(&mut out);
    r.process_message_as_candidate(Message::VoteResponse { from_id: 1, term: 1, vote_granted: true }, &mut out);
    r.load_new_entries(vec![8], &mut out);
    let before: Vec<u64> = (0..r.log_len()).map(|i| r.entry(i).transition).collect();
    r.process_message_as_leader(Message::AppendEntryResponse { from_id: 2, term: 1, success: true, last_index: 1 }, &mut out);
    r.apply_ready_entries(&mut out);
    r.load_new_entries(vec![9], &mut out);
    let after: Vec<u64> = (0..r.log_len()).map(|i| r.entry(i).transition).collect();
    assert_eq!(&after[..before.len()], &before[..]);
    assert_eq!(after.len(), before.len() + 1);
}

#[test]
fn follower_commit_index_can_move_back_after_a_cut() {
    let mut r = Replica::new(1, vec![0], 0u64);
    let mut out = Vec::new();
    let entries = vec![
        Entry { term: 1, index: 1, transition: 1u64 },
        Entry { term: 1, index: 2, transition: 2u64 },
        Entry { term: 1, index: 3, transition: 3u64 },
    ];
    r.process_message_as_follower(
        Message::AppendEntryRequest { from_id: 0, term: 1, prev_log_index: 0, prev_log_term: 0, entries, commit_index: 3 },
        &mut out,
    );
    r.apply_ready_entries(&mut out);
    assert_eq!((r.commit_index(), r.last_applied()), (3, 3));
    let entries = vec![Entry { term: 2, index: 1, transition: 9u64 }];
    r.process_message_as_follower(
        Message::AppendEntryRequest { from_id: 0, term: 2, prev_log_index: 0, prev_log_term: 0, entries, commit_index: 5 },
        &mut out,
    );
    assert_eq!(r.log_len(), 2);
    assert_eq!(r.commit_index(), 1);
    out.clear();
    r.apply_ready_entries(&mut out);
    assert_eq!(r.last_applied(), 3);
    assert!(out.is_empty());
}

#[test]
fn commit_index_past_the_log_applies_nothing() {
    let mut r = Replica::new(1, vec![0], 0u64);
    let mut out = Vec::new();
    let entries = vec![
        Entry { term: 1, index: 1, transition: 1u64 },
        Entry { term: 1, index: 2, transition: 2u64 },
        Entry { term: 1, index: 3, transition: 3u64 },
    ];
    r.process_message_as_follower(
        Message::AppendEntryRequest { from_id: 0, term: 1, prev_log_index: 0, prev_log_term: 0, entries, commit_index: 3 },
        &mut out,
    );
    assert!(r.is_commit_index_in_log());
    let entries = vec![Entry { term: 2, index: 1, transition: 9u64 }];
    r.process_message_as_follower(
        Message::AppendEntryRequest { from_id: 0, term: 2, prev_log_index: 0, prev_log_term: 0, entries, commit_index: 2 },
        &mut out,
    );
    assert_eq!((r.log_len(), r.commit_index()), (2, 3));
    assert!(!r.is_commit_index_in_log());
    out.clear();
    r.apply_ready_entries(&mut out);
    assert!(out.is_empty());
    assert_eq!((r.commit_index(), r.last_applied()), (3, 0));
}

#[test]
fn election_timeout_starts_an_election_unless_leading() {
    let mut r = Replica::new(0, vec![1, 2], 0u64);
    let mut out = Vec::new();
    r.handle_event(Event::ElectionTimeout, &mut out);
    assert_eq!((r.state(), r.current_term()), (State::Candidate, 1));
    assert_eq!(out.len(), 2);
    r.handle_event(Event::ElectionTimeout, &mut out);
    assert_eq!((r.state(), r.current_term()), (State::Candidate, 2));
    r.handle_event(
        Event::Messages(vec![Message::VoteResponse { from_id: 2, term: 2, vote_granted: true }]),
        &mut out,
    );
    assert_eq!(r.state(), State::Leader);
    out.clear();
    r.handle_event(Event::ElectionTimeout, &mut out);
    assert_eq!((r.state(), r.current_term()), (State::Leader, 2));
    assert!(out.is_empty());
}

#[test]
fn heartbeat_is_sent_by_a_leader_only() {
    let mut r = Replica::new(0, vec![1, 2], 0u64);
    let mut out = Vec::new();
    r.handle_event(Event::HeartbeatDue, &mut out);
    assert!(out.is_empty());
    r.handle_event(Event::ElectionTimeout, &mut out);
    r.handle_event(
        Event::Messages(vec![Message::VoteResponse { from_id: 1, term: 1, vote_granted: true }]),
        &mut out,
    );
    out.clear();
    assert!(r.is_heartbeat_ready());
    r.handle_event(Event::HeartbeatDue, &mut out);
    assert_eq!(out.len(), 2);
    assert!(matches!(out[0], Effect::Send { to_id: 1, message: Message::AppendEntryRequest { term: 1, .. } }));
    assert!(matches!(out[1], Effect::Send { to_id: 2, message: Message::AppendEntryRequest { term: 1, .. } }));
}

#[test]
fn messages_of_one_event_follow_the_role_as_it_changes() {
    // The second vote comes to a leader, which ignores it; the append
    // response then moves the leader's indexes.
    let mut r = Replica::new(0, vec![1, 2], 0u64);
    let mut out = Vec::new();
    r.handle_event(Event::ElectionTimeout, &mut out);
    out.clear();
    r.handle_event(
        Event::Messages(vec![
            Message::VoteResponse { from_id: 1, term: 1, vote_granted: true },
            Message::VoteResponse { from_id: 2, term: 1, vote_granted: true },
            Message::AppendEntryResponse { from_id: 1, term: 1, success: true, last_index: 1 },
        ]),
        &mut out,
    );
    assert_eq!(r.state(), State::Leader);
    assert_eq!(r.commit_index(), 1);
    assert!(matches!(out[0], Effect::RegisterLeader(Some(0))));
    assert!(matches!(out[1], Effect::RegisterTransitionState(0, TransitionState::Committed)));
}

#[test]
fn two_candidates_of_one_term_never_both_lead() {
    // Three replicas; replicas 0 and 1 both start an election for term 1,
    // and every vote request reaches every replica, in either order.
    for first in 0..2usize {
        let mut rs: Vec<Replica<u64>> = (0..3)
            .map(|i| Replica::new(i, (0..3).filter(|p| *p != i).collect(), 0u64))
            .collect();
        let mut requests = Vec::new();
        for c in [first, 1 - first] {
            let mut out = Vec::new();
            rs[c].handle_event(Event::ElectionTimeout, &mut out);
            requests.push(out);
        }
        let mut responses: Vec<(usize, Message<u64>)> = Vec::new();
        for out in requests {
            for e in out {
                if let Effect::Send { to_id, message } = e {
                    let mut answer = Vec::new();
                    rs[to_id].handle_event(Event::Messages(vec![message]), &mut answer);
                    for a in answer {
                        if let Effect::Send { to_id, message } = a {
                            responses.push((to_id, message));
                        }
                    }
                }
            }
        }
        for (to_id, message) in responses {
            let mut out = Vec::new();
            if rs[to_id].state() == State::Leader && !rs[to_id].can_process_as_leader(&message) {
                continue;
            }
            rs[to_id].handle_event(Event::Messages(vec![message]), &mut out);
        }
        let leaders: Vec<usize> = (0..3)
            .filter(|i| rs[*i].state() == State::Leader && rs[*i].current_term() == 1)
            .collect();
        assert_eq!(leaders, vec![first]);
    }
}

#[test]
fn followers_hold_the_leaders_entries_of_its_term() {
    // Replica 0 leads term 1 and logs two transitions; each follower gets
    // the heartbeat at a different time and so a different part of the log.
    let mut rs: Vec<Replica<u64>> = (0..3)
        .map(|i| Replica::new(i, (0..3).filter(|p| *p != i).collect(), 0u64))
        .collect();
    let mut out = Vec::new();
    rs[0].handle_event(Event::ElectionTimeout, &mut out);
    rs[0].handle_event(
        Event::Messages(vec![Message::VoteResponse { from_id: 1, term: 1, vote_granted: true }]),
        &mut out,
    );
    rs[0].handle_event(Event::Transitions(vec![7]), &mut out);
    out.clear();
    rs[0].handle_event(Event::HeartbeatDue, &mut out);
    let first: Vec<Effect<u64>> = std::mem::take(&mut out);
    rs[0].handle_event(Event::Transitions(vec![8]), &mut out);
    out.clear();
    rs[0].handle_event(Event::HeartbeatDue, &mut out);
    let second: Vec<Effect<u64>> = std::mem::take(&mut out);
    for (batch, to) in [(first, 1usize), (second, 2usize)] {
        for e in batch {
            if let Effect::Send { to_id, message } = e {
                if to_id == to {
                    rs[to].handle_event(Event::Messages(vec![message]), &mut out);
                }
            }
        }
    }
    assert_eq!((rs[1].log_len(), rs[2].log_len()), (3, 4));
    for i in 0..3 {
        let (a, b, l) = (rs[1].entry(i), rs[2].entry(i), rs[0].entry(i));
        assert_eq!((a.index, a.term, a.transition), (b.index, b.term, b.transition));
        assert_eq!((a.index, a.term, a.transition), (l.index, l.term, l.transition));
    }
    assert_eq!(rs[2].entry(3).transition, 8);
}

#[test]
fn each_applied_transition_was_registered_committed_first() {
    let mut r = Replica::new(1, vec![0], 0u64);
    let mut out = Vec::new();
    let entries = vec![
        Entry { term: 1, index: 1, transition: 10u64 },
        Entry { term: 1, index: 2, transition: 20u64 },
    ];
    r.handle_event(
        Event::Messages(vec![Message::AppendEntryRequest {
            from_id: 0,
            term: 1,
            prev_log_index: 0,
            prev_log_term: 0,
            entries,
            commit_index: 2,
        }]),
        &mut out,
    );
    for (p, e) in out.iter().enumerate() {
        if let Effect::RegisterTransitionState(t, TransitionState::Applied) = e {
            assert!(out[..p]
                .iter()
                .any(|f| matches!(f, Effect::RegisterTransitionState(u, TransitionState::Committed) if u == t)));
        }
    }
    assert_eq!(r.last_applied(), 2);
}

#[test]
fn accepted_append_names_the_matched_index_not_the_end_of_the_log() {
    // The follower's log runs to index 2; the request only vouches for
    // index 1, so that is what the answer names.
    let mut r = follower_with_two_entries_of_term_1();
    let mut out = Vec::new();
    r.process_message_as_follower(
        Message::AppendEntryRequest { from_id: 0, term: 1, prev_log_index: 1, prev_log_term: 1, entries: vec![], commit_index: 0 },
        &mut out,
    );
    assert_eq!(r.log_len(), 3);
    assert!(matches!(
        out[out.len() - 1],
        Effect::Send { to_id: 0, message: Message::AppendEntryResponse { from_id: 1, term: 1, success: true, last_index: 1 } }
    ));
    out.clear();
    // With one new entry after index 1, the answer names that entry.
    r.process_message_as_follower(
        Message::AppendEntryRequest {
            from_id: 0,
            term: 1,
            prev_log_index: 0,
            prev_log_term: 0,
            entries: vec![Entry { term: 1, index: 1, transition: 10u64 }],
            commit_index: 0,
        },
        &mut out,
    );
    assert!(matches!(
        out[out.len() - 1],
        Effect::Send { message: Message::AppendEntryResponse { success: true, last_index: 1, .. }, .. }
    ));
}

#[test]
fn leader_ignores_append_answers_of_an_older_term() {
    // A leader of term 2 whose log holds one entry past the first.
    let mut r = Replica::new_without_noop(0, vec![1, 2], 0u64);
    let mut out = Vec::new();
    r.become_candidate(&mut out);
    r.become_candidate(&mut out);
    assert_eq!(r.current_term(), 2);
    r.process_message_as_candidate(Message::VoteResponse { from_id: 1, term: 2, vote_granted: true }, &mut out);
    assert_eq!(r.state(), State::Leader);
    r.load_new_entries(vec![7], &mut out);
    assert_eq!(r.log_len(), 2);
    // An answer of term 1 says nothing of the leader's log of term 2.
    let stale = Message::AppendEntryResponse { from_id: 1, term: 1, success: true, last_index: 1 };
    assert!(r.can_process_as_leader(&stale));
    r.process_message_as_leader(stale, &mut out);
    out.clear();
    r.apply_ready_entries(&mut out);
    assert_eq!(r.commit_index(), 0);
    assert!(out.is_empty());
    // The same answer of term 2 commits the entry.
    r.process_message_as_leader(Message::AppendEntryResponse { from_id: 1, term: 2, success: true, last_index: 1 }, &mut out);
    r.apply_ready_entries(&mut out);
    assert_eq!(r.commit_index(), 1);
}

#[test]
fn a_new_leader_holds_the_committed_entries() {
    let mut sim = Sim::new(3);
    let mut out = Vec::new();
    sim.nodes[0].replica.handle_event(Event::ElectionTimeout, &mut out);
    sim.carry_out(0, out);
    sim.rounds(4);
    sim.submit(ArithmeticOperation { delta: 5, id: 1 });
    sim.submit(ArithmeticOperation { delta: 7, id: 2 });
    sim.rounds(4);
    let committed = sim.nodes[0].replica.commit_index();
    assert_eq!(committed, 3);
    // The leader goes away; replica 1 wins the next election with the vote
    // of replica 2.
    sim.nodes[0].inbox.clear();
    let mut out = Vec::new();
    sim.nodes[1].replica.handle_event(Event::ElectionTimeout, &mut out);
    sim.carry_out(1, out);
    for _ in 0..4 {
        sim.nodes[0].inbox.clear();
        sim.poll(1, true);
        sim.poll(2, true);
    }
    assert_eq!(sim.nodes[1].replica.state(), State::Leader);
    assert_eq!(sim.nodes[1].replica.current_term(), 2);
    for i in 0..=committed {
        assert_eq!(sim.nodes[1].replica.entry(i).term, sim.nodes[0].replica.entry(i).term);
        assert_eq!(sim.nodes[1].replica.entry(i).transition.id, sim.nodes[0].replica.entry(i).transition.id);
    }
    // What the new leader commits next, the remaining replicas apply in the
    // same order after what the old leader applied.
    sim.nodes[1].pending_transitions.push(ArithmeticOperation { delta: 11, id: 3 });
    for _ in 0..4 {
        sim.nodes[0].inbox.clear();
        sim.poll(1, true);
        sim.poll(2, true);
    }
    let applied_by_1 = sim.applied_by(1);
    let applied_by_2 = sim.applied_by(2);
    assert_eq!(applied_by_1, applied_by_2);
    assert_eq!(&applied_by_1[..3], &sim.applied_by(0)[..]);
    assert_eq!(*applied_by_1.last().unwrap(), 3);
    assert_eq!(sim.nodes[1].value, 5 + 7 + 11);
    assert_eq!(sim.nodes[2].value, 5 + 7 + 11);
}

#[test]
fn a_batch_registers_each_transition_committed_before_applied() {
    let mut r = Replica::new(1, vec![0], 0u64);
    let mut out = Vec::new();
    let first = Message::AppendEntryRequest {
        from_id: 0,
        term: 1,
        prev_log_index: 0,
        prev_log_term: 0,
        entries: vec![Entry { term: 1, index: 1, transition: 10u64 }],
        commit_index: 1,
    };
    let second = Message::AppendEntryRequest {
        from_id: 0,
        term: 1,
        prev_log_index: 1,
        prev_log_term: 1,
        entries: vec![Entry { term: 1, index: 2, transition: 20u64 }],
        commit_index: 2,
    };
    r.handle_event(Event::Messages(vec![first, second]), &mut out);
    assert_eq!(r.commit_index(), 2);
    assert_eq!(r.last_applied(), 2);
    let position = |wanted: &dyn Fn(&Effect<u64>) -> bool| out.iter().position(|e| wanted(e)).unwrap();
    for t in [10u64, 20u64] {
        let committed = position(&|e| matches!(e, Effect::RegisterTransitionState(x, TransitionState::Committed) if *x == t));
        let applied = position(&|e| matches!(e, Effect::RegisterTransitionState(x, TransitionState::Applied) if *x == t));
        assert!(committed < applied);
    }
}
