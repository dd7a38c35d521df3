//! The first consensus module of the demo cluster: a replica without
//! control messages, whose log starts empty.
use crate::demo::model::{
    applied_up_to, become_candidate, become_follower, changes_fit,
    consensus_become_leader, consensus_candidate_can_process,
    consensus_follower_can_process, consensus_heartbeat, consensus_process_message_as_candidate,
    consensus_process_message_as_follower, consensus_wf, delta_sum,
    initial_consensus, process_vote_request, broadcast, request_vote_message, DemoView,
    consensus_on_event, consensus_event_ok,
};
use crate::demo::replicas::{changes_fit_exec, lemma_delta_sum_step, merge_log, repeat};
use crate::demo::types::{outgoing_view, option_view, push_outgoing, sorted_ids, Log, Message, Outgoing, State};
use std::collections::BTreeSet;
use vstd::prelude::*;

verus! {

broadcast use vstd::std_specs::btree::group_btree_axioms, vstd::laws_cmp::group_laws_cmp;

/// A consensus module of the demo cluster.
pub struct ConsensusModule {
    // This is simply the value the consistency of which the consensus
    // maintains.
    value: i32,
    // ID of this replica.
    id: usize,
    // Current term.
    current_term: usize,
    // ID of peers with votes for self.
    current_votes: Option<BTreeSet<usize>>,
    // State of this replica.
    state: State,
    // IDs of the peers, sorted.
    peers: Vec<usize>,
    // Who the last vote was cast for.
    voted_for: Option<usize>,
    // Logs are simply the terms when the corresponding command was received
    // by the then-leader.
    log: Vec<Log>,
    // Index of highest log entry known to be committed.
    commit_index: usize,
    // Index of highest log entry applied to the state machine.
    last_applied: usize,
    // For each server, index of the next log entry to send to that server.
    // Only present on leaders.
    next_index: Option<Vec<usize>>,
    // For each server, index of highest log entry known to be replicated on
    // that server. Only present on leaders.
    match_index: Option<Vec<usize>>,
}

impl View for ConsensusModule {
    type V = DemoView;

    closed spec fn view(&self) -> DemoView {
        DemoView {
            value: self.value,
            id: self.id,
            current_term: self.current_term,
            current_votes: match self.current_votes {
                Some(v) => Some(v@),
                None => None,
            },
            state: self.state,
            prev_state: State::Dead,
            peers: self.peers@,
            voted_for: self.voted_for,
            log: self.log@,
            commit_index: self.commit_index,
            last_applied: self.last_applied,
            next_index: match self.next_index {
                Some(v) => Some(v@),
                None => None,
            },
            match_index: match self.match_index {
                Some(v) => Some(v@),
                None => None,
            },
        }
    }
}

impl ConsensusModule {
    /// Creates a consensus module that starts as a follower of term 0, with
    /// the value 0 and an empty log. It keeps its peers sorted by ID.
    pub fn new(id: usize, peers: Vec<usize>) -> (r: Self)
        ensures
            consensus_wf(r@),
            r@ == initial_consensus(id, r@.peers),
            r@.peers.to_multiset() == peers@.to_multiset(),
    {
        let peers = sorted_ids(peers);
        let r = ConsensusModule {
            value: 0,
            id,
            current_term: 0,
            current_votes: None,
            state: State::Follower,
            peers,
            voted_for: None,
            log: Vec::new(),
            commit_index: 0,
            last_applied: 0,
            next_index: None,
            match_index: None,
        };
        assert(r@.log =~= seq![]);
        r
    }

    /// The ID of this module.
    pub fn id(&self) -> (r: usize)
        ensures
            r == self@.id,
    {
        self.id
    }

    /// The role this module plays.
    pub fn state(&self) -> (r: State)
        ensures
            r == self@.state,
    {
        self.state
    }

    /// The replicated value as this module has it.
    pub fn value(&self) -> (r: i32)
        ensures
            r == self@.value,
    {
        self.value
    }

    /// The current term of this module.
    pub fn current_term(&self) -> (r: usize)
        ensures
            r == self@.current_term,
    {
        self.current_term
    }

    /// The IDs of the peers of this module, sorted.
    pub fn peers(&self) -> (r: &Vec<usize>)
        ensures
            r@ == self@.peers,
    {
        &self.peers
    }

    /// Sends the heartbeat of a leader to each peer.
    pub fn broadcast_heartbeat(&self, out: &mut Vec<Outgoing>)
        ensures
            outgoing_view(final(out)@) == outgoing_view(old(out)@) + broadcast(
                self@.peers,
                consensus_heartbeat(self@),
            ),
    {
        let ghost out0 = outgoing_view(out@);
        let n = self.peers.len();
        let mut i: usize = 0;
        while i < n
            invariant
                n == self.peers.len(),
                i <= n,
                outgoing_view(out@) == out0 + broadcast(
                    self@.peers.take(i as int),
                    consensus_heartbeat(self@),
                ),
            decreases n - i,
        {
            let len = self.log.len();
            let e = Vec::new();
            let m = Message::AppendEntryRequest {
                term: self.current_term,
                from_id: self.id,
                prev_log_index: if len > 0 {
                    len - 1
                } else {
                    0
                },
                prev_log_term: if len > 0 {
                    self.log[len - 1].term
                } else {
                    0
                },
                entries: e,
                commit_index: self.commit_index,
            };
            assert(e@ =~= Seq::<Log>::empty());
            let p = self.peers[i];
            push_outgoing(out, p, m);
            assert(self@.peers.take(i + 1) =~= self@.peers.take(i as int).push(p));
            assert(broadcast(self@.peers.take(i + 1), consensus_heartbeat(self@)) =~= broadcast(
                self@.peers.take(i as int),
                consensus_heartbeat(self@),
            ).push((p, consensus_heartbeat(self@))));
            i = i + 1;
        }
        assert(self@.peers.take(n as int) =~= self@.peers);
    }

    /// A module follows a term: it keeps the vote it cast if the term is its
    /// own, and has cast none in a newer term.
    pub fn become_follower(&mut self, term: usize)
        requires
            consensus_wf(old(self)@),
        ensures
            consensus_wf(final(self)@),
            final(self)@ == become_follower(old(self)@, term),
    {
        if term != self.current_term {
            self.voted_for = None;
        }
        self.current_term = term;
        self.state = State::Follower;
        self.current_votes = None;
        self.next_index = None;
        self.match_index = None;
    }

    /// A module starts an election: it moves to the next term, votes for
    /// itself and asks each peer for its vote.
    pub fn become_candidate(&mut self, out: &mut Vec<Outgoing>)
        requires
            consensus_wf(old(self)@),
            old(self)@.current_term < usize::MAX,
        ensures
            consensus_wf(final(self)@),
            final(self)@ == become_candidate(old(self)@).0,
            outgoing_view(final(out)@) == outgoing_view(old(out)@) + become_candidate(
                old(self)@,
            ).1,
    {
        self.next_index = None;
        self.match_index = None;
        self.current_term = self.current_term + 1;
        self.state = State::Candidate;
        let mut votes = BTreeSet::new();
        votes.insert(self.id);
        self.current_votes = Some(votes);
        self.voted_for = Some(self.id);
        assert(self@.current_votes->0 =~= set![self.id]);
        assert(self@.peers == old(self)@.peers);
        let ghost out0 = outgoing_view(out@);
        let ghost m = request_vote_message(self@);
        let n = self.peers.len();
        let mut i: usize = 0;
        while i < n
            invariant
                n == self.peers.len(),
                i <= n,
                m == request_vote_message(self@),
                outgoing_view(out@) == out0 + broadcast(self@.peers.take(i as int), m),
            decreases n - i,
        {
            let p = self.peers[i];
            let len = self.log.len();
            push_outgoing(
                out,
                p,
                Message::RequestVoteRequest {
                    from_id: self.id,
                    term: self.current_term,
                    last_log_index: if len > 0 {
                        len - 1
                    } else {
                        0
                    },
                    last_log_term: if len > 0 {
                        self.log[len - 1].term
                    } else {
                        0
                    },
                },
            );
            assert(self@.peers.take(i + 1) =~= self@.peers.take(i as int).push(p));
            assert(broadcast(self@.peers.take(i + 1), m) =~= broadcast(
                self@.peers.take(i as int),
                m,
            ).push((p, m)));
            i = i + 1;
        }
        assert(self@.peers.take(n as int) =~= self@.peers);
    }

    /// A module that won an election leads and tracks each peer from the end
    /// of its log.
    pub fn become_leader(&mut self)
        requires
            consensus_wf(old(self)@),
        ensures
            consensus_wf(final(self)@),
            final(self)@ == consensus_become_leader(old(self)@),
    {
        self.state = State::Leader;
        self.current_votes = None;
        let n = self.peers.len();
        let len = self.log.len();
        self.next_index = Some(repeat(len, n));
        self.match_index = Some(repeat(0, n));
    }

    /// A leader ignores every message.
    pub fn process_message_as_leader(&mut self, message: Message)
        ensures
            final(self)@ == old(self)@,
    {
        match message {
            _ => {},
        }
    }

    /// A module answers a vote request as a follower.
    fn process_vote_request(
        &mut self,
        from_id: usize,
        term: usize,
        last_log_index: usize,
        last_log_term: usize,
        out: &mut Vec<Outgoing>,
    )
        requires
            consensus_wf(old(self)@),
        ensures
            consensus_wf(final(self)@),
            final(self)@ == process_vote_request(
                old(self)@,
                from_id,
                term,
                last_log_index,
                last_log_term,
            ).0,
            outgoing_view(final(out)@) == outgoing_view(old(out)@) + process_vote_request(
                old(self)@,
                from_id,
                term,
                last_log_index,
                last_log_term,
            ).1,
    {
        if self.current_term > term {
            push_outgoing(
                out,
                from_id,
                Message::RequestVoteResponse {
                    from_id: self.id,
                    term: self.current_term,
                    vote_granted: false,
                },
            );
            return ;
        }
        if self.current_term < term {
            self.become_follower(term);
        }
        let len = self.log.len();
        let up_to_date = if len == 0 {
            true
        } else {
            let last_term = self.log[len - 1].term;
            last_log_term > last_term || (last_log_term == last_term && last_log_index >= len - 1)
        };
        let free = match self.voted_for {
            Some(v) => v == from_id,
            None => true,
        };
        let granted = free && up_to_date;
        if granted {
            self.voted_for = Some(from_id);
        }
        push_outgoing(
            out,
            from_id,
            Message::RequestVoteResponse {
                from_id: self.id,
                term: self.current_term,
                vote_granted: granted,
            },
        );
    }

    /// Whether this replica, as a follower, can process the message: see
    /// consensus_follower_can_process.
    pub fn can_process_as_follower(&self, message: &Message) -> (b: bool)
        requires
            consensus_wf(self@),
        ensures
            b == consensus_follower_can_process(self@, message@),
    {
        assert((DemoView { current_term: self.current_term, ..self@ }) == self@);
        self.can_process_at(self.current_term, message)
    }

    /// Whether this module, as a follower of the term current_term, can process
    /// the message.
    fn can_process_at(&self, current_term: usize, message: &Message) -> (b: bool)
        requires
            consensus_wf(self@),
        ensures
            b == consensus_follower_can_process(DemoView { current_term, ..self@ }, message@),
    {
        match message {
            Message::AppendEntryRequest {
                term,
                prev_log_index,
                prev_log_term,
                entries,
                commit_index,
                ..
            } => {
                if current_term > *term || *prev_log_index >= self.log.len()
                    || self.log[*prev_log_index].term != *prev_log_term {
                    return true;
                }
                let mut log = Vec::new();
                let mut k: usize = 0;
                while k < self.log.len()
                    invariant
                        k <= self.log.len(),
                        log@ == self@.log.take(k as int),
                    decreases self.log.len() - k,
                {
                    log.push(self.log[k]);
                    k = k + 1;
                    assert(log@ =~= self@.log.take(k as int));
                }
                assert(log@ =~= self@.log);
                merge_log(&mut log, entries);
                changes_fit_exec(self.value, &log, self.last_applied, *commit_index)
            },
            _ => true,
        }
    }

    /// A module answers a request as a follower and ignores responses: see
    /// consensus_process_message_as_follower.
    pub fn process_message_as_follower(&mut self, message: Message, out: &mut Vec<Outgoing>)
        requires
            consensus_wf(old(self)@),
            consensus_follower_can_process(old(self)@, message@),
        ensures
            consensus_wf(final(self)@),
            final(self)@ == consensus_process_message_as_follower(old(self)@, message@).0,
            outgoing_view(final(out)@) == outgoing_view(old(out)@)
                + consensus_process_message_as_follower(old(self)@, message@).1,
    {
        match message {
            Message::RequestVoteRequest { from_id, term, last_log_index, last_log_term } => {
                self.process_vote_request(from_id, term, last_log_index, last_log_term, out);
            },
            Message::AppendEntryRequest {
                term,
                from_id,
                prev_log_index,
                prev_log_term,
                entries,
                commit_index,
            } => {
                let ghost s0 = self@;
                // Check that the leader's term is at least as large as ours,
                // and that our log holds its previous entry.
                let success = !(self.current_term > term || prev_log_index >= self.log.len()
                    || self.log[prev_log_index].term != prev_log_term);
                push_outgoing(
                    out,
                    from_id,
                    Message::AppendEntryResponse {
                        from_id: self.id,
                        term: self.current_term,
                        success,
                    },
                );
                if !success {
                    return ;
                }
                merge_log(&mut self.log, &entries);
                if commit_index > self.commit_index && self.log.len() != 0 {
                    let last = self.log[self.log.len() - 1].index;
                    self.commit_index = if commit_index < last {
                        commit_index
                    } else {
                        last
                    };
                }
                let ghost s1 = self@;
                assert(s1.peers == s0.peers);
                let ghost log = self@.log;
                let ghost la0 = s0.last_applied as int;
                let ghost target = applied_up_to(s0.last_applied, log.len() as int, commit_index);
                let ghost v0 = s0.value;
                while self.last_applied < commit_index && self.last_applied < self.log.len() - 1
                    invariant
                        self@ == (DemoView {
                            value: self.value,
                            last_applied: self.last_applied,
                            ..s1
                        }),
                        log == s1.log,
                        log.len() >= 1,
                        la0 <= self.last_applied,
                        self.last_applied <= target || self.last_applied == la0,
                        target == applied_up_to(s0.last_applied, log.len() as int, commit_index),
                        changes_fit(v0, log, la0, target),
                        self.value == v0 + delta_sum(log, la0, self.last_applied as int),
                    decreases log.len() - self.last_applied,
                {
                    proof {
                        lemma_delta_sum_step(log, la0, self.last_applied as int);
                        assert(la0 < self.last_applied + 1 <= target);
                    }
                    self.value = self.value + self.log[self.last_applied + 1].delta;
                    self.last_applied = self.last_applied + 1;
                }
                proof {
                    if target <= la0 {
                        assert(self.last_applied == la0);
                    }
                }
            },
            Message::AppendEntryResponse { .. } => {
                assert(outgoing_view(out@) =~= outgoing_view(old(out)@) + seq![]);
            },
            Message::RequestVoteResponse { .. } => {
                assert(outgoing_view(out@) =~= outgoing_view(old(out)@) + seq![]);
            },
        }
    }

    /// A module as a candidate: see consensus_process_message_as_candidate.
    pub fn process_message_as_candidate(&mut self, message: Message, out: &mut Vec<Outgoing>)
        requires
            consensus_wf(old(self)@),
            consensus_candidate_can_process(old(self)@, message@),
        ensures
            consensus_wf(final(self)@),
            final(self)@ == consensus_process_message_as_candidate(old(self)@, message@).0,
            outgoing_view(final(out)@) == outgoing_view(old(out)@)
                + consensus_process_message_as_candidate(old(self)@, message@).1,
    {
        match message {
            Message::AppendEntryRequest { term, from_id, .. } => {
                if term >= self.current_term {
                    self.become_follower(term);
                    self.process_message_as_follower(message, out);
                } else {
                    push_outgoing(
                        out,
                        from_id,
                        Message::AppendEntryResponse {
                            from_id: self.id,
                            term: self.current_term,
                            success: false,
                        },
                    );
                }
            },
            Message::RequestVoteRequest { term, from_id, .. } => {
                if term > self.current_term {
                    self.become_follower(term);
                    self.process_message_as_follower(message, out);
                } else {
                    push_outgoing(
                        out,
                        from_id,
                        Message::RequestVoteResponse {
                            from_id: self.id,
                            term: self.current_term,
                            vote_granted: false,
                        },
                    );
                }
            },
            Message::RequestVoteResponse { from_id, term, vote_granted } => {
                if term > self.current_term {
                    self.become_follower(term);
                } else if term == self.current_term && vote_granted {
                    match &self.current_votes {
                        Some(cur_votes) => {
                            let mut votes = cur_votes.clone();
                            votes.insert(from_id);
                            let count = votes.len();
                            self.current_votes = Some(votes);
                            if (count as u128) * 2 > (self.peers.len() as u128) + 1 {
                                self.become_leader();
                            }
                        },
                        None => {},
                    }
                }
                assert(outgoing_view(out@) =~= outgoing_view(old(out)@) + seq![]);
            },
            Message::AppendEntryResponse { .. } => {
                assert(outgoing_view(out@) =~= outgoing_view(old(out)@) + seq![]);
            },
        }
    }

    /// The module reacts to a message, or, with none, to its timer running
    /// out: as follower or candidate it starts an election, and as leader it
    /// sends its heartbeat. A leader ignores every message.
    pub fn on_event(&mut self, msg: Option<Message>, out: &mut Vec<Outgoing>)
        requires
            consensus_wf(old(self)@),
            consensus_event_ok(old(self)@, option_view(msg)),
        ensures
            consensus_wf(final(self)@),
            final(self)@ == consensus_on_event(old(self)@, option_view(msg)).0,
            outgoing_view(final(out)@) == outgoing_view(old(out)@) + consensus_on_event(
                old(self)@,
                option_view(msg),
            ).1,
    {
        match msg {
            None => match self.state {
                State::Follower | State::Candidate => self.become_candidate(out),
                State::Leader => self.broadcast_heartbeat(out),
                State::Dead => {
                    assert(outgoing_view(out@) =~= outgoing_view(old(out)@) + seq![]);
                },
            },
            Some(m) => match self.state {
                State::Follower => self.process_message_as_follower(m, out),
                State::Candidate => self.process_message_as_candidate(m, out),
                _ => {
                    assert(outgoing_view(out@) =~= outgoing_view(old(out)@) + seq![]);
                },
            },
        }
    }

    /// Whether this module can handle the event: see consensus_event_ok.
    pub fn can_handle_event(&self, msg: &Option<Message>) -> (b: bool)
        requires
            consensus_wf(self@),
        ensures
            b == consensus_event_ok(self@, option_view(*msg)),
    {
        match msg {
            None => match self.state {
                State::Follower | State::Candidate => self.current_term < usize::MAX,
                _ => true,
            },
            Some(m) => match self.state {
                State::Follower => self.can_process_as_follower(m),
                State::Candidate => self.can_process_as_candidate(m),
                _ => true,
            },
        }
    }

    /// Whether this module, as a candidate, can process the message: see
    /// consensus_candidate_can_process.
    pub fn can_process_as_candidate(&self, message: &Message) -> (b: bool)
        requires
            consensus_wf(self@),
        ensures
            b == consensus_candidate_can_process(self@, message@),
    {
        match message {
            Message::AppendEntryRequest { term, .. } => {
                if *term >= self.current_term {
                    self.can_process_at(*term, message)
                } else {
                    true
                }
            },
            _ => true,
        }
    }
}

} // verus!
