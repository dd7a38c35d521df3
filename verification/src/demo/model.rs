//! The mathematical model of a demo replica and of its steps.
use crate::demo::types::{ControlMessage, Log, MessageView, State};
use vstd::prelude::*;

verus! {

/// The state of a demo replica as mathematical values.
pub struct DemoView {
    pub value: i32,
    pub id: usize,
    pub current_term: usize,
    pub current_votes: Option<Set<usize>>,
    pub state: State,
    pub prev_state: State,
    pub peers: Seq<usize>,
    pub voted_for: Option<usize>,
    pub log: Seq<Log>,
    pub commit_index: usize,
    pub last_applied: usize,
    pub next_index: Option<Seq<usize>>,
    pub match_index: Option<Seq<usize>>,
}

/// The next state of a demo replica and the messages it sends, in order.
pub type DemoStep = (DemoView, Seq<(usize, MessageView)>);

impl DemoView {
    /// What holds of every demo replica between two steps: its log is not
    /// empty and its peers are sorted by ID.
    pub open spec fn wf(self) -> bool {
        &&& self.log.len() >= 1
        &&& log_indexed(self.log)
        &&& ids_sorted(self.peers)
    }

    /// The last entry of the log.
    pub open spec fn last_log(self) -> Log {
        self.log.last()
    }
}

/// Each entry of the log knows its own position.
pub open spec fn log_indexed(log: Seq<Log>) -> bool {
    forall|i: int| 0 <= i < log.len() ==> #[trigger] log[i].index == i
}

/// IDs in increasing order, the same ID possibly more than once.
pub open spec fn ids_sorted(ids: Seq<usize>) -> bool {
    forall|i: int, j: int| 0 <= i < j < ids.len() ==> ids[i] <= ids[j]
}

/// A demo replica as it starts: an alive follower of term 0 with the value 0
/// and a log that holds one empty change.
pub open spec fn initial_demo(id: usize, peers: Seq<usize>) -> DemoView {
    DemoView {
        value: 0,
        id,
        current_term: 0,
        current_votes: None,
        state: State::Follower,
        prev_state: State::Dead,
        peers,
        voted_for: None,
        log: seq![Log { index: 0, delta: 0, term: 0 }],
        commit_index: 0,
        last_applied: 0,
        next_index: None,
        match_index: None,
    }
}

/// The same message to each peer, in order.
pub open spec fn broadcast(peers: Seq<usize>, m: MessageView) -> Seq<(usize, MessageView)> {
    peers.map_values(|p: usize| (p, m))
}

/// The heartbeat of a leader: an append request with no entries that follows
/// its last entry.
pub open spec fn append_entry_message(s: DemoView) -> MessageView {
    MessageView::AppendEntryRequest {
        term: s.current_term,
        from_id: s.id,
        prev_log_index: (s.log.len() - 1) as usize,
        prev_log_term: s.last_log().term,
        entries: seq![],
        commit_index: s.commit_index,
    }
}

/// A vote request, which names the index and the term of the last entry of
/// the log, or 0 for both when the log is empty.
pub open spec fn request_vote_message(s: DemoView) -> MessageView {
    MessageView::RequestVoteRequest {
        from_id: s.id,
        term: s.current_term,
        last_log_index: if s.log.len() > 0 {
            (s.log.len() - 1) as usize
        } else {
            0
        },
        last_log_term: if s.log.len() > 0 {
            s.last_log().term
        } else {
            0
        },
    }
}

/// A replica follows a term and forgets its followers' progress; it keeps
/// the vote it cast if the term is its own, and has cast none in a newer
/// term.
pub open spec fn become_follower(s: DemoView, term: usize) -> DemoView {
    DemoView {
        current_term: term,
        state: State::Follower,
        current_votes: None,
        voted_for: if term == s.current_term {
            s.voted_for
        } else {
            None
        },
        next_index: None,
        match_index: None,
        ..s
    }
}

/// A replica starts an election: it moves to the next term, votes for itself
/// and asks each peer for its vote.
pub open spec fn become_candidate(s: DemoView) -> DemoStep {
    let s2 = DemoView {
        next_index: None,
        match_index: None,
        current_term: (s.current_term + 1) as usize,
        state: State::Candidate,
        current_votes: Some(set![s.id]),
        voted_for: Some(s.id),
        ..s
    };
    (s2, broadcast(s.peers, request_vote_message(s2)))
}

/// A replica that won an election leads: it tracks each peer from the end of
/// its log and sends a heartbeat to each. It keeps the vote it cast for
/// itself in the term.
pub open spec fn become_leader(s: DemoView) -> DemoStep {
    let s2 = DemoView {
        state: State::Leader,
        current_votes: None,
        next_index: Some(Seq::new(s.peers.len(), |i: int| s.log.len() as usize)),
        match_index: Some(Seq::new(s.peers.len(), |i: int| 0usize)),
        ..s
    };
    (s2, broadcast(s.peers, append_entry_message(s2)))
}

/// A replica comes back up in the role it had before going down, or as a
/// follower of term 0 if it had none.
pub open spec fn become_alive(s: DemoView) -> DemoView {
    let s1 = if s.prev_state == State::Dead {
        become_follower(s, 0)
    } else {
        DemoView { state: s.prev_state, ..s }
    };
    DemoView { prev_state: State::Dead, ..s1 }
}

/// A replica goes down, remembering its role.
pub open spec fn become_dead(s: DemoView) -> DemoView {
    DemoView { prev_state: s.state, state: State::Dead, ..s }
}

/// A replica obeys a control message: up, down, or a change to apply, which
/// it ignores.
pub open spec fn process_control_message(s: DemoView, c: ControlMessage) -> DemoView {
    match c {
        ControlMessage::Up => become_alive(s),
        ControlMessage::Down => become_dead(s),
        ControlMessage::Apply(_) => s,
    }
}

/// A leader only reacts to a newer term in an append response, which makes
/// it follow.
pub open spec fn process_message_as_leader(s: DemoView, m: MessageView) -> DemoView {
    match m {
        MessageView::AppendEntryResponse { term, .. } => if term > s.current_term {
            become_follower(s, term)
        } else {
            s
        },
        _ => s,
    }
}

/// The answer of a replica to a vote request.
pub open spec fn vote_response(s: DemoView, vote_granted: bool) -> MessageView {
    MessageView::RequestVoteResponse { from_id: s.id, term: s.current_term, vote_granted }
}

/// The answer of a replica to an append request.
pub open spec fn append_response(s: DemoView, success: bool) -> MessageView {
    MessageView::AppendEntryResponse { from_id: s.id, term: s.current_term, success }
}

/// A candidate's log is at least as up to date as the replica's when the
/// replica's log is empty, or the candidate's last entry is of a later term,
/// or of the same term and at least as far.
pub open spec fn log_up_to_date(s: DemoView, last_log_index: usize, last_log_term: usize) -> bool {
    s.log.len() == 0 || last_log_term > s.last_log().term || (last_log_term == s.last_log().term
        && last_log_index >= s.log.len() - 1)
}

/// A follower answers a vote request: one of an older term is refused; a
/// newer term is followed; the vote is granted, and recorded, when the
/// replica has not voted for another candidate in the term and the
/// candidate's log is at least as up to date as its own.
pub open spec fn process_vote_request(
    s: DemoView,
    from_id: usize,
    term: usize,
    last_log_index: usize,
    last_log_term: usize,
) -> DemoStep {
    if s.current_term > term {
        (s, seq![(from_id, vote_response(s, false))])
    } else {
        let s1 = if s.current_term < term {
            become_follower(s, term)
        } else {
            s
        };
        if (s1.voted_for is None || s1.voted_for == Some(from_id)) && log_up_to_date(
            s1,
            last_log_index,
            last_log_term,
        ) {
            let s2 = DemoView { voted_for: Some(from_id), ..s1 };
            (s2, seq![(from_id, vote_response(s2, true))])
        } else {
            (s1, seq![(from_id, vote_response(s1, false))])
        }
    }
}

/// One entry sent by the leader, merged into the log: an entry that
/// conflicts with the one at its position cuts the log there, and an entry
/// that falls right after the end of the log is appended.
pub open spec fn merge_log_entry(log: Seq<Log>, e: Log) -> Seq<Log> {
    let log1 = if e.index < log.len() && e.term != log[e.index as int].term {
        log.take(e.index as int)
    } else {
        log
    };
    if e.index == log1.len() {
        log1.push(e)
    } else {
        log1
    }
}

/// The entries sent by the leader, merged into the log one after the other.
pub open spec fn merge_log_entries(log: Seq<Log>, es: Seq<Log>) -> Seq<Log>
    decreases es.len(),
{
    if es.len() == 0 {
        log
    } else {
        merge_log_entry(merge_log_entries(log, es.drop_last()), es.last())
    }
}

/// The sum of the changes of the entries in (from, to] of the log.
pub open spec fn delta_sum(log: Seq<Log>, from: int, to: int) -> int
    decreases to - from,
{
    if to <= from {
        0
    } else {
        delta_sum(log, from, to - 1) + log[to].delta
    }
}

/// The last entry that a follower applies after an append request: up to
/// the leader's commit index, but not past its own log.
pub open spec fn applied_up_to(last_applied: usize, log_len: int, leader_commit: usize) -> int {
    let bound = if leader_commit < log_len - 1 {
        leader_commit as int
    } else {
        log_len - 1
    };
    if last_applied < bound {
        bound
    } else {
        last_applied as int
    }
}

/// Whether a replica accepts an append request: its sender's term is not
/// older than its own, and its log holds the previous entry with its term.
pub open spec fn append_accepted(
    s: DemoView,
    term: usize,
    prev_log_index: usize,
    prev_log_term: usize,
) -> bool {
    !(s.current_term > term || prev_log_index >= s.log.len() || s.log[prev_log_index as int].term
        != prev_log_term)
}

/// Applying the changes of the entries in (from, to] to value never leaves
/// the range of an i32.
pub open spec fn changes_fit(value: i32, log: Seq<Log>, from: int, to: int) -> bool {
    forall|k: int| from < k <= to ==> i32::MIN <= value + #[trigger] delta_sum(log, from, k) <= i32::MAX
}

/// The inputs on which a follower can process a message: the changes it
/// applies after an accepted append request must keep the value an i32.
pub open spec fn follower_can_process(s: DemoView, m: MessageView) -> bool {
    match m {
        MessageView::AppendEntryRequest {
            term,
            prev_log_index,
            prev_log_term,
            entries,
            commit_index,
            ..
        } => append_accepted(s, term, prev_log_index, prev_log_term) ==> {
            let log = merge_log_entries(s.log, entries);
            changes_fit(
                s.value,
                log,
                s.last_applied as int,
                applied_up_to(s.last_applied, log.len() as int, commit_index),
            )
        },
        _ => true,
    }
}

/// A follower answers an append request. When it accepts it, it merges the
/// sent entries into its log, adopts the leader's commit index as far as its
/// log goes, and applies the changes up to that index; when it refuses it,
/// it stays as it was.
pub open spec fn process_append_entry_request(
    s: DemoView,
    from_id: usize,
    term: usize,
    prev_log_index: usize,
    prev_log_term: usize,
    entries: Seq<Log>,
    commit_index: usize,
) -> DemoStep {
    if !append_accepted(s, term, prev_log_index, prev_log_term) {
        (s, seq![(from_id, append_response(s, false))])
    } else {
        let log = merge_log_entries(s.log, entries);
        let c = if commit_index > s.commit_index && log.len() != 0 {
            if commit_index < log.last().index {
                commit_index
            } else {
                log.last().index
            }
        } else {
            s.commit_index
        };
        let la = applied_up_to(s.last_applied, log.len() as int, commit_index);
        (
            DemoView {
                log,
                commit_index: c,
                last_applied: la as usize,
                value: (s.value + delta_sum(log, s.last_applied as int, la)) as i32,
                ..s
            },
            seq![(from_id, append_response(s, true))],
        )
    }
}

/// A follower answers requests and ignores responses.
pub open spec fn process_message_as_follower(s: DemoView, m: MessageView) -> DemoStep {
    match m {
        MessageView::RequestVoteRequest { from_id, term, last_log_index, last_log_term } =>
            process_vote_request(s, from_id, term, last_log_index, last_log_term),
        MessageView::AppendEntryRequest {
            from_id,
            term,
            prev_log_index,
            prev_log_term,
            entries,
            commit_index,
        } => process_append_entry_request(
            s,
            from_id,
            term,
            prev_log_index,
            prev_log_term,
            entries,
            commit_index,
        ),
        _ => (s, seq![]),
    }
}

/// A candidate reacts to requests of its term or a newer one by following
/// their sender, refuses older ones, and counts the granted votes of its
/// term: with the votes of more than half of the cluster it leads.
pub open spec fn process_message_as_candidate(s: DemoView, m: MessageView) -> DemoStep {
    match m {
        MessageView::AppendEntryRequest { term, from_id, .. } => {
            if term >= s.current_term {
                process_message_as_follower(become_follower(s, term), m)
            } else {
                (s, seq![(from_id, append_response(s, false))])
            }
        },
        MessageView::RequestVoteRequest { term, from_id, .. } => {
            if term > s.current_term {
                process_message_as_follower(become_follower(s, term), m)
            } else {
                (s, seq![(from_id, vote_response(s, false))])
            }
        },
        MessageView::RequestVoteResponse { from_id, term, vote_granted } => {
            if term > s.current_term {
                (become_follower(s, term), seq![])
            } else if term == s.current_term && vote_granted {
                match s.current_votes {
                    Some(votes) => {
                        let v2 = votes.insert(from_id);
                        let s1 = DemoView { current_votes: Some(v2), ..s };
                        if 2 * v2.len() > s.peers.len() + 1 {
                            become_leader(s1)
                        } else {
                            (s1, seq![])
                        }
                    },
                    None => (s, seq![]),
                }
            } else {
                (s, seq![])
            }
        },
        MessageView::AppendEntryResponse { .. } => (s, seq![]),
    }
}

/// The inputs on which a candidate can process a message: those on which it
/// can process it as a follower after following a newer term.
pub open spec fn candidate_can_process(s: DemoView, m: MessageView) -> bool {
    match m {
        MessageView::AppendEntryRequest { term, .. } => term >= s.current_term
            ==> follower_can_process(become_follower(s, term), m),
        _ => true,
    }
}

/// What holds of every consensus module between two steps: each entry of
/// its log knows its position, and its peers are sorted by ID. Its log may
/// be empty.
pub open spec fn consensus_wf(s: DemoView) -> bool {
    &&& log_indexed(s.log)
    &&& ids_sorted(s.peers)
}

/// A consensus module as it starts: a follower of term 0 with the value 0
/// and an empty log. It never goes down, so it has no earlier role.
pub open spec fn initial_consensus(id: usize, peers: Seq<usize>) -> DemoView {
    DemoView {
        value: 0,
        id,
        current_term: 0,
        current_votes: None,
        state: State::Follower,
        prev_state: State::Dead,
        peers,
        voted_for: None,
        log: seq![],
        commit_index: 0,
        last_applied: 0,
        next_index: None,
        match_index: None,
    }
}

/// The heartbeat of a consensus module that leads: an append request with no
/// entries that follows its last entry, or names entry 0 of term 0 when its
/// log is empty.
pub open spec fn consensus_heartbeat(s: DemoView) -> MessageView {
    MessageView::AppendEntryRequest {
        term: s.current_term,
        from_id: s.id,
        prev_log_index: if s.log.len() > 0 {
            (s.log.len() - 1) as usize
        } else {
            0
        },
        prev_log_term: if s.log.len() > 0 {
            s.last_log().term
        } else {
            0
        },
        entries: seq![],
        commit_index: s.commit_index,
    }
}

/// A consensus module that won an election leads and tracks each peer from
/// the end of its log; it sends nothing until its next heartbeat.
pub open spec fn consensus_become_leader(s: DemoView) -> DemoView {
    DemoView {
        state: State::Leader,
        current_votes: None,
        next_index: Some(Seq::new(s.peers.len(), |i: int| s.log.len() as usize)),
        match_index: Some(Seq::new(s.peers.len(), |i: int| 0usize)),
        ..s
    }
}

/// The inputs on which a consensus module can process a message as a
/// follower: those on which a demo replica can.
pub open spec fn consensus_follower_can_process(s: DemoView, m: MessageView) -> bool {
    follower_can_process(s, m)
}

/// A consensus module answers requests as a follower and ignores responses.
pub open spec fn consensus_process_message_as_follower(s: DemoView, m: MessageView) -> DemoStep {
    match m {
        MessageView::RequestVoteRequest { from_id, term, last_log_index, last_log_term } =>
            process_vote_request(s, from_id, term, last_log_index, last_log_term),
        MessageView::AppendEntryRequest {
            from_id,
            term,
            prev_log_index,
            prev_log_term,
            entries,
            commit_index,
        } => process_append_entry_request(
            s,
            from_id,
            term,
            prev_log_index,
            prev_log_term,
            entries,
            commit_index,
        ),
        _ => (s, seq![]),
    }
}

/// A consensus module as a candidate: as a demo replica, except that it
/// answers as a consensus module's follower and sends nothing when it wins.
pub open spec fn consensus_process_message_as_candidate(s: DemoView, m: MessageView) -> DemoStep {
    match m {
        MessageView::AppendEntryRequest { term, from_id, .. } => {
            if term >= s.current_term {
                consensus_process_message_as_follower(become_follower(s, term), m)
            } else {
                (s, seq![(from_id, append_response(s, false))])
            }
        },
        MessageView::RequestVoteRequest { term, from_id, .. } => {
            if term > s.current_term {
                consensus_process_message_as_follower(become_follower(s, term), m)
            } else {
                (s, seq![(from_id, vote_response(s, false))])
            }
        },
        MessageView::RequestVoteResponse { from_id, term, vote_granted } => {
            if term > s.current_term {
                (become_follower(s, term), seq![])
            } else if term == s.current_term && vote_granted {
                match s.current_votes {
                    Some(votes) => {
                        let v2 = votes.insert(from_id);
                        let s1 = DemoView { current_votes: Some(v2), ..s };
                        if 2 * v2.len() > s.peers.len() + 1 {
                            (consensus_become_leader(s1), seq![])
                        } else {
                            (s1, seq![])
                        }
                    },
                    None => (s, seq![]),
                }
            } else {
                (s, seq![])
            }
        },
        MessageView::AppendEntryResponse { .. } => (s, seq![]),
    }
}

/// The inputs on which a consensus module can process a message as a
/// candidate.
pub open spec fn consensus_candidate_can_process(s: DemoView, m: MessageView) -> bool {
    match m {
        MessageView::AppendEntryRequest { term, .. } => term >= s.current_term
            ==> consensus_follower_can_process(become_follower(s, term), m),
        _ => true,
    }
}

/// A demo replica reacts to a message, or, with none, to its timer running
/// out: a follower or a candidate starts an election and a leader sends its
/// heartbeat. A dead replica does neither.
pub open spec fn on_event(s: DemoView, msg: Option<MessageView>) -> DemoStep {
    match msg {
        None => match s.state {
            State::Follower | State::Candidate => become_candidate(s),
            State::Leader => (s, broadcast(s.peers, append_entry_message(s))),
            State::Dead => (s, seq![]),
        },
        Some(m) => match s.state {
            State::Leader => (process_message_as_leader(s, m), seq![]),
            State::Follower => process_message_as_follower(s, m),
            State::Candidate => process_message_as_candidate(s, m),
            State::Dead => (s, seq![]),
        },
    }
}

/// The events a demo replica can handle: a message it can process in its
/// role, and a timeout that leaves room for a next term.
pub open spec fn event_ok(s: DemoView, msg: Option<MessageView>) -> bool {
    match msg {
        None => (s.state == State::Follower || s.state == State::Candidate) ==> s.current_term
            < usize::MAX,
        Some(m) => match s.state {
            State::Follower => follower_can_process(s, m),
            State::Candidate => candidate_can_process(s, m),
            _ => true,
        },
    }
}

/// A consensus module reacts to a message, or, with none, to its timer
/// running out: a follower or a candidate starts an election and a leader
/// sends its heartbeat. A leader ignores every message.
pub open spec fn consensus_on_event(s: DemoView, msg: Option<MessageView>) -> DemoStep {
    match msg {
        None => match s.state {
            State::Follower | State::Candidate => become_candidate(s),
            State::Leader => (s, broadcast(s.peers, consensus_heartbeat(s))),
            State::Dead => (s, seq![]),
        },
        Some(m) => match s.state {
            State::Follower => consensus_process_message_as_follower(s, m),
            State::Candidate => consensus_process_message_as_candidate(s, m),
            _ => (s, seq![]),
        },
    }
}

/// The events a consensus module can handle: a message it can process in
/// its role, and a timeout that leaves room for a next term.
pub open spec fn consensus_event_ok(s: DemoView, msg: Option<MessageView>) -> bool {
    match msg {
        None => (s.state == State::Follower || s.state == State::Candidate) ==> s.current_term
            < usize::MAX,
        Some(m) => match s.state {
            State::Follower => consensus_follower_can_process(s, m),
            State::Candidate => consensus_candidate_can_process(s, m),
            _ => true,
        },
    }
}

/// Merging an entry keeps each entry of the log at its position, and a log
/// that is not empty not empty.
pub proof fn lemma_merge_log_entry_indexed(log: Seq<Log>, e: Log)
    requires
        log_indexed(log),
    ensures
        log_indexed(merge_log_entry(log, e)),
        log.len() > 0 ==> merge_log_entry(log, e).len() > 0,
{
    let log1 = if e.index < log.len() && e.term != log[e.index as int].term {
        log.take(e.index as int)
    } else {
        log
    };
    let r = merge_log_entry(log, e);
    assert forall|i: int| 0 <= i < log1.len() implies #[trigger] log1[i].index == i by {
        assert(log1[i] == log[i]);
    }
    assert forall|i: int| 0 <= i < r.len() implies #[trigger] r[i].index == i by {
        if i < log1.len() {
            assert(r[i] == log1[i]);
        }
    }
}

/// Merging entries keeps each entry of the log at its position, and a log
/// that is not empty not empty.
pub proof fn lemma_merge_log_entries_indexed(log: Seq<Log>, es: Seq<Log>)
    requires
        log_indexed(log),
    ensures
        log_indexed(merge_log_entries(log, es)),
        log.len() > 0 ==> merge_log_entries(log, es).len() > 0,
    decreases es.len(),
{
    if es.len() > 0 {
        lemma_merge_log_entries_indexed(log, es.drop_last());
        lemma_merge_log_entry_indexed(merge_log_entries(log, es.drop_last()), es.last());
    }
}

} // verus!
