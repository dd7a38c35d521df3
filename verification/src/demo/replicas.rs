//! A replica of the demo cluster, as a verified state machine: its steps
//! return the messages that its driver must send.
use crate::demo::model::{
    append_entry_message, applied_up_to, become_alive, log_indexed, merge_log_entries,
    lemma_merge_log_entries_indexed,
    become_candidate, become_dead, become_follower, become_leader, broadcast,
    candidate_can_process, changes_fit, delta_sum, follower_can_process,
    initial_demo, process_control_message,
    process_message_as_candidate, process_message_as_follower, process_message_as_leader,
    process_vote_request, request_vote_message, DemoView, on_event, event_ok,
};
use crate::demo::types::{outgoing_view, option_view, push_outgoing, sorted_ids, ControlMessage, Log, Message, Outgoing, State};
use std::collections::BTreeSet;
use vstd::prelude::*;

verus! {

broadcast use vstd::std_specs::btree::group_btree_axioms, vstd::laws_cmp::group_laws_cmp;

/// A replica of the demo cluster.
pub struct Replica {
    // This is simply the value the consistency of which the consensus
    // maintains.
    value: i32,
    // ID of this replica.
    id: usize,
    // Current term.
    current_term: usize,
    // ID of peers with votes for self.
    current_votes: Option<BTreeSet<usize>>,
    // State of this replica.
    state: State,
    // State before dying.
    prev_state: State,
    // IDs of the peers, sorted.
    peers: Vec<usize>,
    // Who the last vote was cast for.
    voted_for: Option<usize>,
    // Logs are simply the terms when the corresponding command was received
    // by the then-leader.
    log: Vec<Log>,
    // Index of highest log entry known to be committed.
    commit_index: usize,
    // Index of highest log entry applied to the state machine.
    last_applied: usize,
    // For each server, index of the next log entry to send to that server.
    // Only present on leaders.
    next_index: Option<Vec<usize>>,
    // For each server, index of highest log entry known to be replicated on
    // that server. Only present on leaders.
    match_index: Option<Vec<usize>>,
}

impl View for Replica {
    type V = DemoView;

    closed spec fn view(&self) -> DemoView {
        DemoView {
            value: self.value,
            id: self.id,
            current_term: self.current_term,
            current_votes: match self.current_votes {
                Some(v) => Some(v@),
                None => None,
            },
            state: self.state,
            prev_state: self.prev_state,
            peers: self.peers@,
            voted_for: self.voted_for,
            log: self.log@,
            commit_index: self.commit_index,
            last_applied: self.last_applied,
            next_index: match self.next_index {
                Some(v) => Some(v@),
                None => None,
            },
            match_index: match self.match_index {
                Some(v) => Some(v@),
                None => None,
            },
        }
    }
}

/// The sum of the changes of the entries in (from, to] grows by the change
/// of the entry at to + 1.
pub(crate) proof fn lemma_delta_sum_step(log: Seq<Log>, from: int, to: int)
    requires
        from <= to,
    ensures
        delta_sum(log, from, to + 1) == delta_sum(log, from, to) + log[to + 1].delta,
{
}

impl Replica {
    /// Creates a replica that starts as an alive follower of term 0, with
    /// the value 0 and a log that holds one empty change. It keeps its peers
    /// sorted by ID.
    pub fn new(id: usize, peers: Vec<usize>) -> (r: Self)
        ensures
            r@.wf(),
            r@ == initial_demo(id, r@.peers),
            r@.peers.to_multiset() == peers@.to_multiset(),
    {
        let peers = sorted_ids(peers);
        let mut log = Vec::new();
        log.push(Log { index: 0, delta: 0, term: 0 });
        let r = Replica {
            value: 0,
            id,
            current_term: 0,
            current_votes: None,
            state: State::Follower,
            prev_state: State::Dead,
            peers,
            voted_for: None,
            log,
            commit_index: 0,
            last_applied: 0,
            next_index: None,
            match_index: None,
        };
        assert(r@.log =~= seq![Log { index: 0, delta: 0, term: 0 }]);
        r
    }

    /// The ID of this replica.
    pub fn id(&self) -> (r: usize)
        ensures
            r == self@.id,
    {
        self.id
    }

    /// The role this replica plays.
    pub fn state(&self) -> (r: State)
        ensures
            r == self@.state,
    {
        self.state
    }

    /// The replicated value as this replica has it.
    pub fn value(&self) -> (r: i32)
        ensures
            r == self@.value,
    {
        self.value
    }

    /// The current term of this replica.
    pub fn current_term(&self) -> (r: usize)
        ensures
            r == self@.current_term,
    {
        self.current_term
    }

    /// The IDs of the peers of this replica, sorted.
    pub fn peers(&self) -> (r: &Vec<usize>)
        ensures
            r@ == self@.peers,
    {
        &self.peers
    }

    /// Sends the same message to each peer.
    fn broadcast_message(&self, message: &Message, out: &mut Vec<Outgoing>)
        requires
            message matches Message::AppendEntryRequest { entries, .. } ==> entries@.len() == 0,
        ensures
            outgoing_view(final(out)@) == outgoing_view(old(out)@) + broadcast(
                self@.peers,
                message@,
            ),
    {
        let ghost out0 = outgoing_view(out@);
        let n = self.peers.len();
        let mut i: usize = 0;
        while i < n
            invariant
                n == self.peers.len(),
                i <= n,
                message matches Message::AppendEntryRequest { entries, .. } ==> entries@.len()
                    == 0,
                outgoing_view(out@) == out0 + broadcast(self@.peers.take(i as int), message@),
            decreases n - i,
        {
            let copy = match message {
                Message::AppendEntryRequest {
                    from_id,
                    term,
                    prev_log_index,
                    prev_log_term,
                    entries,
                    commit_index,
                } => {
                    let e = Vec::new();
                    assert(e@ =~= entries@);
                    Message::AppendEntryRequest {
                        from_id: *from_id,
                        term: *term,
                        prev_log_index: *prev_log_index,
                        prev_log_term: *prev_log_term,
                        entries: e,
                        commit_index: *commit_index,
                    }
                },
                Message::AppendEntryResponse { from_id, term, success } => {
                    Message::AppendEntryResponse { from_id: *from_id, term: *term, success: *success }
                },
                Message::RequestVoteRequest { from_id, term, last_log_index, last_log_term } => {
                    Message::RequestVoteRequest {
                        from_id: *from_id,
                        term: *term,
                        last_log_index: *last_log_index,
                        last_log_term: *last_log_term,
                    }
                },
                Message::RequestVoteResponse { from_id, term, vote_granted } => {
                    Message::RequestVoteResponse {
                        from_id: *from_id,
                        term: *term,
                        vote_granted: *vote_granted,
                    }
                },
            };
            let p = self.peers[i];
            push_outgoing(out, p, copy);
            assert(self@.peers.take(i + 1) =~= self@.peers.take(i as int).push(p));
            assert(broadcast(self@.peers.take(i + 1), message@) =~= broadcast(
                self@.peers.take(i as int),
                message@,
            ).push((p, message@)));
            i = i + 1;
        }
        assert(self@.peers.take(n as int) =~= self@.peers);
    }

    /// The heartbeat of a leader: an append request with no entries that
    /// follows its last entry.
    pub fn new_append_entry_message(&self) -> (m: Message)
        requires
            self@.wf(),
        ensures
            m@ == append_entry_message(self@),
            m matches Message::AppendEntryRequest { entries, .. } && entries@.len() == 0,
    {
        let e = Vec::new();
        let m = Message::AppendEntryRequest {
            term: self.current_term,
            from_id: self.id,
            prev_log_index: self.log.len() - 1,
            prev_log_term: self.log[self.log.len() - 1].term,
            entries: e,
            commit_index: self.commit_index,
        };
        assert(e@ =~= Seq::<Log>::empty());
        m
    }

    /// A vote request of this replica.
    pub fn new_request_vote_message(&self) -> (m: Message)
        ensures
            m@ == request_vote_message(self@),
    {
        let len = self.log.len();
        Message::RequestVoteRequest {
            from_id: self.id,
            term: self.current_term,
            last_log_index: if len > 0 {
                len - 1
            } else {
                0
            },
            last_log_term: if len > 0 {
                self.log[len - 1].term
            } else {
                0
            },
        }
    }

    /// Sends the heartbeat of a leader to each peer.
    pub fn broadcast_append_entries(&self, out: &mut Vec<Outgoing>)
        requires
            self@.wf(),
        ensures
            outgoing_view(final(out)@) == outgoing_view(old(out)@) + broadcast(
                self@.peers,
                append_entry_message(self@),
            ),
    {
        let m = self.new_append_entry_message();
        self.broadcast_message(&m, out);
    }

    /// A replica follows a term: it keeps the vote it cast if the term is its
    /// own, and has cast none in a newer term.
    pub fn become_follower(&mut self, term: usize)
        requires
            old(self)@.wf(),
        ensures
            final(self)@.wf(),
            final(self)@ == become_follower(old(self)@, term),
    {
        if term != self.current_term {
            self.voted_for = None;
        }
        self.current_term = term;
        self.state = State::Follower;
        self.current_votes = None;
        self.next_index = None;
        self.match_index = None;
    }

    /// A replica starts an election.
    pub fn become_candidate(&mut self, out: &mut Vec<Outgoing>)
        requires
            old(self)@.wf(),
            old(self)@.current_term < usize::MAX,
        ensures
            final(self)@.wf(),
            final(self)@ == become_candidate(old(self)@).0,
            outgoing_view(final(out)@) == outgoing_view(old(out)@) + become_candidate(
                old(self)@,
            ).1,
    {
        self.next_index = None;
        self.match_index = None;
        // Increase current term.
        self.current_term = self.current_term + 1;
        // Claim yourself a candidate.
        self.state = State::Candidate;
        // Initialize votes. Vote for yourself.
        let mut votes = BTreeSet::new();
        votes.insert(self.id);
        self.current_votes = Some(votes);
        self.voted_for = Some(self.id);
        assert(self@.current_votes->0 =~= set![self.id]);
        assert(self@.log == old(self)@.log);
        assert(self@.peers == old(self)@.peers);
        assert(self@.wf());
        // Fan out vote requests.
        let m = self.new_request_vote_message();
        self.broadcast_message(&m, out);
    }

    /// A replica that won an election leads and sends its heartbeat.
    pub fn become_leader(&mut self, out: &mut Vec<Outgoing>)
        requires
            old(self)@.wf(),
        ensures
            final(self)@.wf(),
            final(self)@ == become_leader(old(self)@).0,
            outgoing_view(final(out)@) == outgoing_view(old(out)@) + become_leader(old(self)@).1,
    {
        self.state = State::Leader;
        self.current_votes = None;
        let n = self.peers.len();
        let len = self.log.len();
        let next = repeat(len, n);
        let matched = repeat(0, n);
        self.next_index = Some(next);
        self.match_index = Some(matched);
        assert(self@.peers == old(self)@.peers);
        assert(self@.log == old(self)@.log);
        self.broadcast_append_entries(out);
    }

    /// A replica comes back up in the role it had before going down, or as a
    /// follower of term 0 if it had none.
    pub fn become_alive(&mut self)
        requires
            old(self)@.wf(),
        ensures
            final(self)@.wf(),
            final(self)@ == become_alive(old(self)@),
    {
        if self.prev_state == State::Dead {
            self.become_follower(0);
        } else {
            self.state = self.prev_state;
        }
        self.prev_state = State::Dead;
    }

    /// A replica goes down, remembering its role.
    pub fn become_dead(&mut self)
        requires
            old(self)@.wf(),
        ensures
            final(self)@.wf(),
            final(self)@ == become_dead(old(self)@),
    {
        self.prev_state = self.state;
        self.state = State::Dead;
    }

    /// A replica obeys a control message: up or down; a change to apply is
    /// ignored.
    pub fn process_control_message(&mut self, message: ControlMessage)
        requires
            old(self)@.wf(),
        ensures
            final(self)@.wf(),
            final(self)@ == process_control_message(old(self)@, message),
    {
        match message {
            ControlMessage::Up => self.become_alive(),
            ControlMessage::Down => self.become_dead(),
            ControlMessage::Apply(_) => {},
        }
    }

    /// A leader only reacts to a newer term in an append response.
    pub fn process_message_as_leader(&mut self, message: Message)
        requires
            old(self)@.wf(),
        ensures
            final(self)@.wf(),
            final(self)@ == process_message_as_leader(old(self)@, message@),
    {
        match message {
            Message::AppendEntryResponse { term, .. } => {
                if term > self.current_term {
                    self.become_follower(term);
                }
            },
            _ => {},
        }
    }

    /// A follower answers a vote request.
    fn process_vote_request(
        &mut self,
        from_id: usize,
        term: usize,
        last_log_index: usize,
        last_log_term: usize,
        out: &mut Vec<Outgoing>,
    )
        requires
            old(self)@.wf(),
        ensures
            final(self)@.wf(),
            final(self)@ == process_vote_request(
                old(self)@,
                from_id,
                term,
                last_log_index,
                last_log_term,
            ).0,
            outgoing_view(final(out)@) == outgoing_view(old(out)@) + process_vote_request(
                old(self)@,
                from_id,
                term,
                last_log_index,
                last_log_term,
            ).1,
    {
        if self.current_term > term {
            push_outgoing(
                out,
                from_id,
                Message::RequestVoteResponse {
                    from_id: self.id,
                    term: self.current_term,
                    vote_granted: false,
                },
            );
            return ;
        }
        if self.current_term < term {
            self.become_follower(term);
        }
        let len = self.log.len();
        let last_term = self.log[len - 1].term;
        let up_to_date = last_log_term > last_term || (last_log_term == last_term
            && last_log_index >= len - 1);
        let free = match self.voted_for {
            Some(v) => v == from_id,
            None => true,
        };
        let granted = free && up_to_date;
        if granted {
            self.voted_for = Some(from_id);
        }
        push_outgoing(
            out,
            from_id,
            Message::RequestVoteResponse {
                from_id: self.id,
                term: self.current_term,
                vote_granted: granted,
            },
        );
    }

    /// Whether this replica, as a follower, can process the message: see
    /// follower_can_process.
    pub fn can_process_as_follower(&self, message: &Message) -> (b: bool)
        requires
            self@.wf(),
        ensures
            b == follower_can_process(self@, message@),
    {
        assert((DemoView { current_term: self.current_term, ..self@ }) == self@);
        self.can_process_at(self.current_term, message)
    }

    /// Whether this replica, as a follower of the term current_term, can process
    /// the message.
    fn can_process_at(&self, current_term: usize, message: &Message) -> (b: bool)
        requires
            self@.wf(),
        ensures
            b == follower_can_process(DemoView { current_term, ..self@ }, message@),
    {
        match message {
            Message::AppendEntryRequest {
                term,
                prev_log_index,
                prev_log_term,
                entries,
                commit_index,
                ..
            } => {
                if current_term > *term || *prev_log_index >= self.log.len()
                    || self.log[*prev_log_index].term != *prev_log_term {
                    return true;
                }
                let mut log = Vec::new();
                let mut k: usize = 0;
                while k < self.log.len()
                    invariant
                        k <= self.log.len(),
                        log@ == self@.log.take(k as int),
                    decreases self.log.len() - k,
                {
                    log.push(self.log[k]);
                    k = k + 1;
                    assert(log@ =~= self@.log.take(k as int));
                }
                assert(log@ =~= self@.log);
                merge_log(&mut log, entries);
                changes_fit_exec(self.value, &log, self.last_applied, *commit_index)
            },
            _ => true,
        }
    }

    /// A follower answers a request and ignores responses: see the model's
    /// process_message_as_follower.
    pub fn process_message_as_follower(&mut self, message: Message, out: &mut Vec<Outgoing>)
        requires
            old(self)@.wf(),
            follower_can_process(old(self)@, message@),
        ensures
            final(self)@.wf(),
            final(self)@ == process_message_as_follower(old(self)@, message@).0,
            outgoing_view(final(out)@) == outgoing_view(old(out)@) + process_message_as_follower(
                old(self)@,
                message@,
            ).1,
    {
        match message {
            Message::RequestVoteRequest { from_id, term, last_log_index, last_log_term } => {
                self.process_vote_request(from_id, term, last_log_index, last_log_term, out);
                assert(self@.wf());
            },
            Message::AppendEntryRequest {
                term,
                from_id,
                prev_log_index,
                prev_log_term,
                entries,
                commit_index,
            } => {
                let ghost s0 = self@;
                // Check that the leader's term is at least as large as ours,
                // and that our log holds its previous entry.
                let success = !(self.current_term > term || prev_log_index >= self.log.len()
                    || self.log[prev_log_index].term != prev_log_term);
                push_outgoing(
                    out,
                    from_id,
                    Message::AppendEntryResponse {
                        from_id: self.id,
                        term: self.current_term,
                        success,
                    },
                );
                if !success {
                    return ;
                }
                merge_log(&mut self.log, &entries);
                if commit_index > self.commit_index && self.log.len() != 0 {
                    let last = self.log[self.log.len() - 1].index;
                    self.commit_index = if commit_index < last {
                        commit_index
                    } else {
                        last
                    };
                }
                let ghost s1 = self@;
                assert(s1.peers == s0.peers);
                assert(s1.wf());
                let ghost log = self@.log;
                let ghost la0 = s0.last_applied as int;
                let ghost target = applied_up_to(s0.last_applied, log.len() as int, commit_index);
                let ghost v0 = s0.value;
                assert(s1.last_applied == s0.last_applied && s1.value == s0.value);
                while self.last_applied < commit_index && self.last_applied < self.log.len() - 1
                    invariant
                        self@ == (DemoView {
                            value: self.value,
                            last_applied: self.last_applied,
                            ..s1
                        }),
                        log == s1.log,
                        log.len() >= 1,
                        la0 <= self.last_applied,
                        self.last_applied <= target || self.last_applied == la0,
                        target == applied_up_to(s0.last_applied, log.len() as int, commit_index),
                        changes_fit(v0, log, la0, target),
                        self.value == v0 + delta_sum(log, la0, self.last_applied as int),
                    decreases log.len() - self.last_applied,
                {
                    proof {
                        lemma_delta_sum_step(log, la0, self.last_applied as int);
                        assert(la0 < self.last_applied + 1 <= target);
                    }
                    self.value = self.value + self.log[self.last_applied + 1].delta;
                    self.last_applied = self.last_applied + 1;
                }
                proof {
                    if target <= la0 {
                        assert(self.last_applied == la0);
                    }
                }
            },
            Message::AppendEntryResponse { .. } => {
                assert(outgoing_view(out@) =~= outgoing_view(old(out)@) + seq![]);
            },
            Message::RequestVoteResponse { .. } => {
                assert(outgoing_view(out@) =~= outgoing_view(old(out)@) + seq![]);
            },
        }
    }

    /// A candidate reacts to requests of its term or a newer one by
    /// following their sender, refuses older ones, and counts the granted
    /// votes of its term: with the votes of more than half of the cluster it
    /// leads.
    pub fn process_message_as_candidate(&mut self, message: Message, out: &mut Vec<Outgoing>)
        requires
            old(self)@.wf(),
            candidate_can_process(old(self)@, message@),
        ensures
            final(self)@.wf(),
            final(self)@ == process_message_as_candidate(old(self)@, message@).0,
            outgoing_view(final(out)@) == outgoing_view(old(out)@) + process_message_as_candidate(
                old(self)@,
                message@,
            ).1,
    {
        match message {
            Message::AppendEntryRequest { term, from_id, .. } => {
                if term >= self.current_term {
                    self.become_follower(term);
                    self.process_message_as_follower(message, out);
                } else {
                    push_outgoing(
                        out,
                        from_id,
                        Message::AppendEntryResponse {
                            from_id: self.id,
                            term: self.current_term,
                            success: false,
                        },
                    );
                }
            },
            Message::RequestVoteRequest { term, from_id, .. } => {
                if term > self.current_term {
                    self.become_follower(term);
                    self.process_message_as_follower(message, out);
                } else {
                    push_outgoing(
                        out,
                        from_id,
                        Message::RequestVoteResponse {
                            from_id: self.id,
                            term: self.current_term,
                            vote_granted: false,
                        },
                    );
                }
            },
            Message::RequestVoteResponse { from_id, term, vote_granted } => {
                if term > self.current_term {
                    self.become_follower(term);
                    assert(outgoing_view(out@) =~= outgoing_view(old(out)@) + seq![]);
                } else if term == self.current_term && vote_granted {
                    match &self.current_votes {
                        Some(cur_votes) => {
                            let mut votes = cur_votes.clone();
                            votes.insert(from_id);
                            let count = votes.len();
                            self.current_votes = Some(votes);
                            if (count as u128) * 2 > (self.peers.len() as u128) + 1 {
                                self.become_leader(out);
                            } else {
                                assert(outgoing_view(out@) =~= outgoing_view(old(out)@) + seq![]);
                            }
                        },
                        None => {
                            assert(outgoing_view(out@) =~= outgoing_view(old(out)@) + seq![]);
                        },
                    }
                } else {
                    assert(outgoing_view(out@) =~= outgoing_view(old(out)@) + seq![]);
                }
            },
            Message::AppendEntryResponse { .. } => {
                assert(outgoing_view(out@) =~= outgoing_view(old(out)@) + seq![]);
            },
        }
    }

    /// The replica reacts to a message, or, with none, to its timer running
    /// out: as follower or candidate it starts an election, and as leader it
    /// sends its heartbeat. A dead replica does neither.
    pub fn on_event(&mut self, msg: Option<Message>, out: &mut Vec<Outgoing>)
        requires
            old(self)@.wf(),
            event_ok(old(self)@, option_view(msg)),
        ensures
            final(self)@.wf(),
            final(self)@ == on_event(old(self)@, option_view(msg)).0,
            outgoing_view(final(out)@) == outgoing_view(old(out)@) + on_event(old(self)@, option_view(msg)).1,
    {
        match msg {
            None => match self.state {
                State::Follower | State::Candidate => self.become_candidate(out),
                State::Leader => self.broadcast_append_entries(out),
                State::Dead => {
                    assert(outgoing_view(out@) =~= outgoing_view(old(out)@) + seq![]);
                },
            },
            Some(m) => match self.state {
                State::Leader => {
                    self.process_message_as_leader(m);
                    assert(outgoing_view(out@) =~= outgoing_view(old(out)@) + seq![]);
                },
                State::Follower => self.process_message_as_follower(m, out),
                State::Candidate => self.process_message_as_candidate(m, out),
                State::Dead => {
                    assert(outgoing_view(out@) =~= outgoing_view(old(out)@) + seq![]);
                },
            },
        }
    }

    /// Whether this replica can handle the event: see event_ok.
    pub fn can_handle_event(&self, msg: &Option<Message>) -> (b: bool)
        requires
            self@.wf(),
        ensures
            b == event_ok(self@, option_view(*msg)),
    {
        match msg {
            None => match self.state {
                State::Follower | State::Candidate => self.current_term < usize::MAX,
                _ => true,
            },
            Some(m) => match self.state {
                State::Follower => self.can_process_as_follower(m),
                State::Candidate => self.can_process_as_candidate(m),
                _ => true,
            },
        }
    }

    /// Whether this replica, as a candidate, can process the message: see
    /// candidate_can_process.
    pub fn can_process_as_candidate(&self, message: &Message) -> (b: bool)
        requires
            self@.wf(),
        ensures
            b == candidate_can_process(self@, message@),
    {
        match message {
            Message::AppendEntryRequest { term, .. } => {
                if *term >= self.current_term {
                    self.can_process_at(*term, message)
                } else {
                    true
                }
            },
            _ => true,
        }
    }
}

/// A vector of n copies of value.
pub(crate) fn repeat(value: usize, n: usize) -> (v: Vec<usize>)
    ensures
        v@ == Seq::new(n as nat, |k: int| value),
{
    let mut v = Vec::new();
    let mut i: usize = 0;
    while i < n
        invariant
            i <= n,
            v@ =~= Seq::new(i as nat, |k: int| value),
        decreases n - i,
    {
        v.push(value);
        i = i + 1;
    }
    v
}

/// Merges the entries sent by a leader into the log, one after the other:
/// an entry that conflicts with the one at its position cuts the log there,
/// and an entry that falls right after the end of the log is appended.
pub(crate) fn merge_log(log: &mut Vec<Log>, entries: &Vec<Log>)
    requires
        log_indexed(old(log)@),
    ensures
        final(log)@ == merge_log_entries(old(log)@, entries@),
        log_indexed(final(log)@),
        old(log)@.len() > 0 ==> final(log)@.len() > 0,
{
    let ghost l0 = log@;
    let n = entries.len();
    let mut i: usize = 0;
    assert(entries@.take(0) =~= seq![]);
    while i < n
        invariant
            n == entries.len(),
            i <= n,
            log_indexed(l0),
            log@ == merge_log_entries(l0, entries@.take(i as int)),
        decreases n - i,
    {
        let entry = entries[i];
        proof {
            assert(entries@.take(i + 1).drop_last() =~= entries@.take(i as int));
            lemma_merge_log_entries_indexed(l0, entries@.take(i as int));
        }
        if entry.index < log.len() && entry.term != log[entry.index].term {
            log.truncate(entry.index);
        }
        if entry.index == log.len() {
            log.push(entry);
        }
        i = i + 1;
    }
    assert(entries@.take(n as int) =~= entries@);
    proof {
        lemma_merge_log_entries_indexed(l0, entries@);
    }
}

/// Whether applying the changes of the log after last_applied, up to the
/// leader's commit index and no further than the log, keeps value an i32.
pub(crate) fn changes_fit_exec(value: i32, log: &Vec<Log>, last_applied: usize, commit_index: usize) -> (b: bool)
    requires
        log@.len() >= 1,
    ensures
        b == changes_fit(
            value,
            log@,
            last_applied as int,
            applied_up_to(last_applied, log@.len() as int, commit_index),
        ),
{
    let ghost target = applied_up_to(last_applied, log@.len() as int, commit_index);
    let bound = if commit_index < log.len() - 1 {
        commit_index
    } else {
        log.len() - 1
    };
    let mut sum: i64 = value as i64;
    let mut k = last_applied;
    assert(target == (if last_applied < bound {
        bound as int
    } else {
        last_applied as int
    }));
    while k < bound
        invariant
            last_applied <= k,
            k <= bound || k == last_applied,
            bound < log@.len(),
            target == applied_up_to(last_applied, log@.len() as int, commit_index),
            target == (if last_applied < bound {
                bound as int
            } else {
                last_applied as int
            }),
            sum == value + delta_sum(log@, last_applied as int, k as int),
            i32::MIN <= sum <= i32::MAX,
            forall|j: int|
                last_applied < j <= k ==> i32::MIN <= value + #[trigger] delta_sum(
                    log@,
                    last_applied as int,
                    j,
                ) <= i32::MAX,
        decreases bound - k,
    {
        proof {
            lemma_delta_sum_step(log@, last_applied as int, k as int);
        }
        sum = sum + log[k + 1].delta as i64;
        k = k + 1;
        if sum < i32::MIN as i64 || sum > i32::MAX as i64 {
            proof {
                assert(!(i32::MIN <= value + delta_sum(log@, last_applied as int, k as int) <= i32::MAX));
                assert(last_applied < k <= target);
                assert(!changes_fit(value, log@, last_applied as int, target));
            }
            return false;
        }
    }
    true
}

} // verus!
