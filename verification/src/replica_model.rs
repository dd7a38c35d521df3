//! The mathematical model of a replica: its state as plain values, and what
//! each step of the protocol does to that state and which effects it emits.
use crate::message::{Entry, EffectView, MessageView};
use crate::replica::State;
use crate::state_machine::{TransitionAbandonedReason, TransitionState};
use vstd::prelude::*;

verus! {

/// The state of a replica as mathematical values.
pub struct ReplicaView<T> {
    pub id: usize,
    pub peer_ids: Seq<usize>,
    pub current_term: usize,
    pub current_votes: Option<Set<usize>>,
    pub state: State,
    pub voted_for: Option<usize>,
    pub entries: Seq<Entry<T>>,
    pub commit_index: usize,
    pub last_applied: usize,
    pub next_index: Map<usize, usize>,
    pub match_index: Map<usize, usize>,
    pub noop_transition: Option<T>,
}

/// The next state of a replica and the effects it emits, in order.
pub type Step<T> = (ReplicaView<T>, Seq<EffectView<T>>);

/// A log is well formed when it is not empty and each entry knows its own
/// position.
pub open spec fn log_well_formed<T>(log: Seq<Entry<T>>) -> bool {
    &&& log.len() >= 1
    &&& forall|i: int| 0 <= i < log.len() ==> #[trigger] log[i].index == i
}

impl<T> ReplicaView<T> {
    /// What holds of every replica between two steps.
    pub open spec fn wf(self) -> bool {
        &&& log_well_formed(self.entries)
        &&& self.entries.len() <= usize::MAX
        &&& (self.state == State::Candidate) == (self.current_votes is Some)
        &&& (self.current_votes matches Some(v) ==> v.finite() && v.contains(self.id))
        &&& self.state == State::Candidate ==> self.voted_for == Some(self.id)
        &&& self.state == State::Leader ==> forall|p: usize| #[trigger]
            self.peer_ids.contains(p) ==> self.next_index.contains_key(p)
                && self.match_index.contains_key(p)
    }

    /// The last entry of the log.
    pub open spec fn last_entry(self) -> Entry<T> {
        self.entries.last()
    }

    /// The index of the last entry of the log.
    pub open spec fn last_index(self) -> usize {
        (self.entries.len() - 1) as usize
    }
}

/// A replica as it starts: a follower of term 0 whose log holds one entry
/// of term 0.
pub open spec fn initial_replica<T>(
    id: usize,
    peer_ids: Seq<usize>,
    first: T,
    noop_transition: Option<T>,
) -> ReplicaView<T> {
    ReplicaView {
        id,
        peer_ids,
        current_term: 0,
        current_votes: None,
        state: State::Follower,
        voted_for: None,
        entries: seq![Entry { term: 0, index: 0, transition: first }],
        commit_index: 0,
        last_applied: 0,
        next_index: Map::empty(),
        match_index: Map::empty(),
        noop_transition,
    }
}

/// Sending a message to a replica.
pub open spec fn send<T>(to_id: usize, message: MessageView<T>) -> EffectView<T> {
    EffectView::Send { to_id, message }
}

/// Sending one message to each of the peers, in order.
pub open spec fn broadcast<T>(peers: Seq<usize>, message: MessageView<T>) -> Seq<EffectView<T>> {
    peers.map_values(|p: usize| send(p, message))
}

/// The answer of a replica to a vote request.
pub open spec fn vote_response<T>(s: ReplicaView<T>, vote_granted: bool) -> MessageView<T> {
    MessageView::VoteResponse { from_id: s.id, term: s.current_term, vote_granted }
}

/// The index up to which an accepted append request made the log match the
/// leader's: that of the last entry it carries, or its previous entry when it
/// carries none.
pub open spec fn matched_index<T>(prev_log_index: usize, entries: Seq<Entry<T>>) -> usize {
    if entries.len() == 0 {
        prev_log_index
    } else {
        entries.last().index
    }
}

/// The answer of a replica that accepts an append request: the index up to
/// which its log now matches the leader's.
pub open spec fn append_ack<T>(s: ReplicaView<T>, matched: usize) -> MessageView<T> {
    MessageView::AppendEntryResponse {
        from_id: s.id,
        term: s.current_term,
        success: true,
        last_index: matched,
    }
}

/// The answer of a replica that refuses an append request, with the index
/// of the last entry of its log.
pub open spec fn append_response<T>(s: ReplicaView<T>, success: bool) -> MessageView<T> {
    MessageView::AppendEntryResponse {
        from_id: s.id,
        term: s.current_term,
        success,
        last_index: s.last_index(),
    }
}

/// A replica follows a term: it keeps the vote it cast if the term is its
/// own, and has cast none in a newer term.
pub open spec fn become_follower<T>(s: ReplicaView<T>, term: usize) -> ReplicaView<T> {
    ReplicaView {
        current_term: term,
        state: State::Follower,
        current_votes: None,
        voted_for: if term == s.current_term {
            s.voted_for
        } else {
            None
        },
        ..s
    }
}

/// A replica starts an election: it moves to the next term, votes for itself
/// and asks each peer for its vote.
pub open spec fn become_candidate<T>(s: ReplicaView<T>) -> Step<T> {
    let term = (s.current_term + 1) as usize;
    let s2 = ReplicaView {
        current_term: term,
        state: State::Candidate,
        current_votes: Some(set![s.id]),
        voted_for: Some(s.id),
        ..s
    };
    (
        s2,
        broadcast(
            s.peer_ids,
            MessageView::VoteRequest {
                from_id: s.id,
                term,
                last_log_index: s.last_index(),
                last_log_term: s.last_entry().term,
            },
        ),
    )
}

/// A replica that won an election leads: it announces itself, starts to
/// track each peer's log from its own log's end, and, when it was given a
/// no-op transition for that, appends a no-op entry of its term. It keeps
/// the vote it cast for itself in the term.
pub open spec fn become_leader<T>(s: ReplicaView<T>) -> Step<T> {
    let len = s.entries.len() as usize;
    (
        ReplicaView {
            state: State::Leader,
            current_votes: None,
            next_index: Map::new(|p: usize| s.peer_ids.contains(p), |p: usize| len),
            match_index: Map::new(|p: usize| s.peer_ids.contains(p), |p: usize| 0usize),
            entries: match s.noop_transition {
                Some(noop) => s.entries.push(
                    Entry { index: len, transition: noop, term: s.current_term },
                ),
                None => s.entries,
            },
            ..s
        },
        seq![EffectView::RegisterLeader(Some(s.id))],
    )
}

/// The inputs on which a leader can process a message: a refused append
/// must come from a peer whose next index it tracks and is positive, and an
/// accepted one must name a last index that can be followed.
pub open spec fn leader_can_process<T>(s: ReplicaView<T>, m: MessageView<T>) -> bool {
    match m {
        MessageView::AppendEntryResponse { from_id, term, success, last_index } => term
            == s.current_term ==> if success {
            last_index < usize::MAX
        } else {
            s.next_index.contains_key(from_id) && s.next_index[from_id] >= 1
        },
        _ => true,
    }
}

/// A leader only reacts to the answers to its append requests of its own
/// term; a newer term makes it follow that term, with the leader unknown,
/// and an answer of an older term is ignored.
pub open spec fn process_message_as_leader<T>(s: ReplicaView<T>, m: MessageView<T>) -> Step<T> {
    match m {
        MessageView::AppendEntryResponse { from_id, term, success, last_index } => {
            if term > s.current_term {
                (become_follower(s, term), seq![EffectView::RegisterLeader(None)])
            } else if term < s.current_term {
                (s, seq![])
            } else if success {
                (
                    ReplicaView {
                        next_index: s.next_index.insert(from_id, (last_index + 1) as usize),
                        match_index: s.match_index.insert(
                            from_id,
                            raised_match_index(s.match_index, from_id, last_index),
                        ),
                        ..s
                    },
                    seq![],
                )
            } else {
                (
                    ReplicaView {
                        next_index: s.next_index.insert(
                            from_id,
                            (s.next_index[from_id] - 1) as usize,
                        ),
                        ..s
                    },
                    seq![],
                )
            }
        },
        _ => (s, seq![]),
    }
}

/// The highest index known to be replicated on a peer once it reports
/// last_index: the larger of the two.
pub open spec fn raised_match_index(match_index: Map<usize, usize>, peer: usize, last_index: usize) -> usize {
    if match_index.contains_key(peer) && match_index[peer] > last_index {
        match_index[peer]
    } else {
        last_index
    }
}

/// A candidate's log is at least as up to date as a replica's when its last
/// entry is of a later term, or of the same term and at least as far.
pub open spec fn up_to_date(
    candidate_term: usize,
    candidate_index: usize,
    own_term: usize,
    own_index: usize,
) -> bool {
    candidate_term > own_term || (candidate_term == own_term && candidate_index >= own_index)
}

/// A follower answers a vote request. A request of an older term is
/// refused; a newer term is followed; the vote is granted, and recorded, when
/// the replica has not voted for another candidate in the term and the
/// candidate's log is at least as up to date as its own.
pub open spec fn process_vote_request_as_follower<T>(
    s: ReplicaView<T>,
    from_id: usize,
    term: usize,
    last_log_index: usize,
    last_log_term: usize,
) -> Step<T> {
    if s.current_term > term {
        (s, seq![send(from_id, vote_response(s, false))])
    } else {
        let s1 = if s.current_term < term {
            become_follower(s, term)
        } else {
            s
        };
        if (s1.voted_for is None || s1.voted_for == Some(from_id)) && up_to_date(
            last_log_term,
            last_log_index,
            s1.last_entry().term,
            s1.last_entry().index,
        ) {
            let s2 = ReplicaView { voted_for: Some(from_id), ..s1 };
            (s2, seq![send(from_id, vote_response(s2, true))])
        } else {
            (s1, seq![send(from_id, vote_response(s1, false))])
        }
    }
}

/// One entry sent by the leader, merged into the log: an entry that
/// conflicts with the one at its position cuts the log there, and an entry
/// that falls right after the end of the log is appended.
pub open spec fn merge_entry<T>(log: Seq<Entry<T>>, e: Entry<T>) -> Seq<Entry<T>> {
    let log1 = if e.index < log.len() && e.term != log[e.index as int].term {
        log.take(e.index as int)
    } else {
        log
    };
    if e.index == log1.len() {
        log1.push(e)
    } else {
        log1
    }
}

/// The entries sent by the leader, merged into the log one after the other.
pub open spec fn merge_entries<T>(log: Seq<Entry<T>>, es: Seq<Entry<T>>) -> Seq<Entry<T>>
    decreases es.len(),
{
    if es.len() == 0 {
        log
    } else {
        merge_entry(merge_entries(log, es.drop_last()), es.last())
    }
}

/// The entries that merging e into the log cuts away: those from e's
/// position on, when the entry there conflicts with e.
pub open spec fn cut_by_entry<T>(log: Seq<Entry<T>>, e: Entry<T>) -> Seq<Entry<T>> {
    if e.index < log.len() && e.term != log[e.index as int].term {
        log.subrange(e.index as int, log.len() as int)
    } else {
        seq![]
    }
}

/// The entries that merging the leader's entries cuts away, in the order in
/// which they are cut.
pub open spec fn cut_by_entries<T>(log: Seq<Entry<T>>, es: Seq<Entry<T>>) -> Seq<Entry<T>>
    decreases es.len(),
{
    if es.len() == 0 {
        seq![]
    } else {
        cut_by_entries(log, es.drop_last()) + cut_by_entry(
            merge_entries(log, es.drop_last()),
            es.last(),
        )
    }
}

/// The registrations of cut entries as abandoned for a conflict with the
/// leader.
pub open spec fn abandoned_effects<T>(cut: Seq<Entry<T>>) -> Seq<EffectView<T>> {
    cut.map_values(
        |e: Entry<T>|
            EffectView::RegisterTransitionState(
                e.transition,
                TransitionState::Abandoned(TransitionAbandonedReason::ConflictWithLeader),
            ),
    )
}

/// The commit index a follower adopts from a leader whose commit index is
/// higher than its own: the leader's, but no further than the last entry of
/// its log.
pub open spec fn follower_commit_index<T>(
    own: usize,
    log: Seq<Entry<T>>,
    leader_commit: usize,
) -> usize {
    if leader_commit > own && log.len() != 0 {
        if leader_commit < log.last().index {
            leader_commit
        } else {
            log.last().index
        }
    } else {
        own
    }
}

/// A follower answers an append request. It follows a newer term first.
/// It refuses a request of an older term, and one whose previous entry it
/// does not hold; otherwise it merges the entries into its log, registering
/// the entries it cuts as abandoned, adopts the leader's commit index and
/// registers the newly committed entries, registers the sender as leader and
/// accepts, naming the index up to which its log matches the leader's.
pub open spec fn process_append_entry_request_as_follower<T>(
    s: ReplicaView<T>,
    from_id: usize,
    term: usize,
    prev_log_index: usize,
    prev_log_term: usize,
    entries: Seq<Entry<T>>,
    commit_index: usize,
) -> Step<T> {
    let s1 = if term > s.current_term {
        become_follower(s, term)
    } else {
        s
    };
    if s.current_term > term || prev_log_index >= s.entries.len() || s.entries[prev_log_index as int].term
        != prev_log_term {
        (s1, seq![send(from_id, append_response(s1, false))])
    } else {
        let log = merge_entries(s.entries, entries);
        let c = follower_commit_index(s.commit_index, log, commit_index);
        let s2 = ReplicaView { entries: log, commit_index: c, ..s1 };
        (
            s2,
            abandoned_effects(cut_by_entries(s.entries, entries)) + committed_effects(
                log,
                s.commit_index as int,
                c as int,
            ) + seq![
                EffectView::RegisterLeader(Some(from_id)),
                send(from_id, append_ack(s2, matched_index(prev_log_index, entries))),
            ],
        )
    }
}

/// A follower answers requests and ignores responses.
pub open spec fn process_message_as_follower<T>(s: ReplicaView<T>, m: MessageView<T>) -> Step<T> {
    match m {
        MessageView::VoteRequest { from_id, term, last_log_index, last_log_term } =>
            process_vote_request_as_follower(s, from_id, term, last_log_index, last_log_term),
        MessageView::AppendEntryRequest {
            from_id,
            term,
            prev_log_index,
            prev_log_term,
            entries,
            commit_index,
        } => process_append_entry_request_as_follower(
            s,
            from_id,
            term,
            prev_log_index,
            prev_log_term,
            entries,
            commit_index,
        ),
        _ => (s, seq![]),
    }
}

/// The number of votes that make a candidate leader: more than half of the
/// cluster, the candidate and its peers.
pub open spec fn is_majority(votes: nat, peers: nat) -> bool {
    2 * votes > peers + 1
}

/// A candidate counts a granted vote of its own term; with the votes of a
/// majority of the cluster it becomes leader. A newer term makes it follow
/// that term, with the leader unknown.
pub open spec fn process_vote_response_as_candidate<T>(
    s: ReplicaView<T>,
    from_id: usize,
    term: usize,
    vote_granted: bool,
) -> Step<T> {
    if term > s.current_term {
        (become_follower(s, term), seq![EffectView::RegisterLeader(None)])
    } else if term == s.current_term && vote_granted {
        match s.current_votes {
            Some(votes) => {
                let v2 = votes.insert(from_id);
                let s1 = ReplicaView { current_votes: Some(v2), ..s };
                if is_majority(v2.len(), s.peer_ids.len()) {
                    become_leader(s1)
                } else {
                    (s1, seq![])
                }
            },
            None => (s, seq![]),
        }
    } else {
        (s, seq![])
    }
}

/// A candidate that receives a vote request of a newer term follows it and
/// answers as a follower; otherwise it refuses its vote.
pub open spec fn process_vote_request_as_candidate<T>(
    s: ReplicaView<T>,
    term: usize,
    from_id: usize,
    m: MessageView<T>,
) -> Step<T> {
    if term > s.current_term {
        process_message_as_follower(become_follower(s, term), m)
    } else {
        (s, seq![send(from_id, vote_response(s, false))])
    }
}

/// A candidate that receives an append request of its term or a newer one
/// follows its sender and answers as a follower; otherwise it refuses it.
pub open spec fn process_transition_request_as_candidate<T>(
    s: ReplicaView<T>,
    term: usize,
    from_id: usize,
    m: MessageView<T>,
) -> Step<T> {
    if term >= s.current_term {
        let (s1, e1) = process_message_as_follower(become_follower(s, term), m);
        (s1, seq![EffectView::RegisterLeader(Some(from_id))] + e1)
    } else {
        (s, seq![send(from_id, append_response(s, false))])
    }
}

/// A candidate reacts to requests, to votes, and ignores append responses.
pub open spec fn process_message_as_candidate<T>(s: ReplicaView<T>, m: MessageView<T>) -> Step<T> {
    match m {
        MessageView::AppendEntryRequest { term, from_id, .. } =>
            process_transition_request_as_candidate(s, term, from_id, m),
        MessageView::VoteRequest { term, from_id, .. } => process_vote_request_as_candidate(
            s,
            term,
            from_id,
            m,
        ),
        MessageView::VoteResponse { from_id, term, vote_granted } =>
            process_vote_response_as_candidate(s, from_id, term, vote_granted),
        MessageView::AppendEntryResponse { .. } => (s, seq![]),
    }
}

/// A leader appends the new transitions to its log, in order, with its term,
/// and registers each as queued; any other replica discards them and
/// registers each as abandoned, as it is not the leader.
pub open spec fn load_new_entries<T>(s: ReplicaView<T>, transitions: Seq<T>) -> Step<T> {
    if s.state == State::Leader {
        (
            ReplicaView {
                entries: s.entries + Seq::new(
                    transitions.len(),
                    |i: int|
                        Entry {
                            index: (s.entries.len() + i) as usize,
                            transition: transitions[i],
                            term: s.current_term,
                        },
                ),
                ..s
            },
            transitions.map_values(
                |t: T| EffectView::RegisterTransitionState(t, TransitionState::Queued),
            ),
        )
    } else {
        (
            s,
            transitions.map_values(
                |t: T|
                    EffectView::RegisterTransitionState(
                        t,
                        TransitionState::Abandoned(TransitionAbandonedReason::NotLeader),
                    ),
            ),
        )
    }
}

/// The number of replicas that the leader knows to hold the entry at index n.
pub open spec fn replication_count(match_index: Map<usize, usize>, n: usize) -> nat {
    match_index.dom().filter(|k: usize| match_index[k] >= n).len()
}

/// A leader may commit the entry at index n when half of its peers or more
/// hold it, which with the leader itself is a majority of the cluster, and
/// it is of the leader's term.
pub open spec fn can_commit<T>(s: ReplicaView<T>, n: int) -> bool {
    &&& 2 * replication_count(s.match_index, n as usize) >= s.peer_ids.len()
    &&& s.entries[n].term == s.current_term
}

/// The entry at index n is the last one past the commit index that the
/// leader may commit.
pub open spec fn is_highest_committable<T>(s: ReplicaView<T>, n: int) -> bool {
    &&& s.commit_index < n < s.entries.len()
    &&& can_commit(s, n)
    &&& forall|m: int| n < m < s.entries.len() ==> !can_commit(s, m)
}

/// The commit index after a leader's check: the last entry that it may
/// commit, if there is one past its commit index.
pub open spec fn leader_commit_index<T>(s: ReplicaView<T>) -> usize {
    if s.state == State::Leader && exists|n: int| is_highest_committable(s, n) {
        (choose|n: int| is_highest_committable(s, n)) as usize
    } else {
        s.commit_index
    }
}

/// The effects that announce the entries in (from, to] as committed, in
/// order; none when to is not past from.
pub open spec fn committed_effects<T>(entries: Seq<Entry<T>>, from: int, to: int) -> Seq<
    EffectView<T>,
> {
    if to <= from {
        seq![]
    } else {
        Seq::new(
            (to - from) as nat,
            |i: int|
                EffectView::RegisterTransitionState(
                    entries[from + 1 + i].transition,
                    TransitionState::Committed,
                ),
        )
    }
}

/// The effects that apply the entries in (from, to], in order, each one
/// followed by its registration as applied.
pub open spec fn applied_effects<T>(entries: Seq<Entry<T>>, from: int, to: int) -> Seq<
    EffectView<T>,
>
    decreases to - from,
{
    if to <= from {
        seq![]
    } else {
        applied_effects(entries, from, to - 1) + seq![
            EffectView::ApplyTransition(entries[to].transition),
            EffectView::RegisterTransitionState(entries[to].transition, TransitionState::Applied),
        ]
    }
}

/// A leader first moves its commit index to the last entry replicated on
/// enough replicas, and announces the newly committed entries; then every
/// replica applies the committed entries it has not applied yet. A replica
/// whose commit index lies past the end of its log does nothing.
pub open spec fn apply_ready_entries<T>(s: ReplicaView<T>) -> Step<T> {
    if s.commit_index >= s.entries.len() {
        (s, seq![])
    } else {
        apply_committed_entries(s)
    }
}

/// The step of apply_ready_entries on a commit index inside the log.
pub open spec fn apply_committed_entries<T>(s: ReplicaView<T>) -> Step<T> {
    let c = leader_commit_index(s);
    let la = if c > s.last_applied {
        c
    } else {
        s.last_applied
    };
    (
        ReplicaView { commit_index: c, last_applied: la, ..s },
        committed_effects(s.entries, s.commit_index as int, c as int) + applied_effects(
            s.entries,
            s.last_applied as int,
            c as int,
        ),
    )
}

/// The inputs on which a heartbeat can be built: the leader tracks each peer
/// with a next index inside its log.
pub open spec fn heartbeat_ready<T>(s: ReplicaView<T>) -> bool {
    forall|p: usize| #[trigger]
        s.peer_ids.contains(p) ==> s.next_index.contains_key(p) && 1 <= s.next_index[p]
            <= s.entries.len()
}

/// The entries a leader sends to a peer: those from the peer's next index on.
pub open spec fn entries_for_peer<T>(s: ReplicaView<T>, peer_id: usize) -> Seq<Entry<T>> {
    s.entries.subrange(s.next_index[peer_id] as int, s.entries.len() as int)
}

/// The append request a leader sends to a peer.
pub open spec fn append_request_for<T>(s: ReplicaView<T>, peer_id: usize) -> MessageView<T> {
    MessageView::AppendEntryRequest {
        from_id: s.id,
        term: s.current_term,
        prev_log_index: (s.next_index[peer_id] - 1) as usize,
        prev_log_term: s.entries[s.next_index[peer_id] - 1].term,
        entries: entries_for_peer(s, peer_id),
        commit_index: s.commit_index,
    }
}

/// A leader's heartbeat: one append request to each peer, in order.
pub open spec fn heartbeat<T>(s: ReplicaView<T>) -> Seq<EffectView<T>> {
    s.peer_ids.map_values(|p: usize| send(p, append_request_for(s, p)))
}

/// What can happen to a replica: messages arrive, the user submits
/// transitions, the heartbeat timer fires, or the election timer runs out.
pub enum EventView<T> {
    Messages(Seq<MessageView<T>>),
    Transitions(Seq<T>),
    HeartbeatDue,
    ElectionTimeout,
}

/// A replica processes one message in the role it plays.
pub open spec fn step_message<T>(s: ReplicaView<T>, m: MessageView<T>) -> Step<T> {
    match s.state {
        State::Leader => process_message_as_leader(s, m),
        State::Follower => process_message_as_follower(s, m),
        State::Candidate => process_message_as_candidate(s, m),
    }
}

/// A replica processes messages one after the other, each in the role it
/// plays when the message comes.
pub open spec fn step_messages<T>(s: ReplicaView<T>, ms: Seq<MessageView<T>>) -> Step<T>
    decreases ms.len(),
{
    if ms.len() == 0 {
        (s, seq![])
    } else {
        let (s1, e1) = step_messages(s, ms.drop_last());
        let (s2, e2) = step_message(s1, ms.last());
        (s2, e1 + e2)
    }
}

/// The messages can be processed one after the other: each one that comes
/// to a leader is one it can process.
pub open spec fn messages_ok<T>(s: ReplicaView<T>, ms: Seq<MessageView<T>>) -> bool
    decreases ms.len(),
{
    if ms.len() == 0 {
        true
    } else {
        let s1 = step_messages(s, ms.drop_last()).0;
        messages_ok(s, ms.drop_last()) && (s1.state == State::Leader ==> leader_can_process(
            s1,
            ms.last(),
        ))
    }
}

/// The events a replica can handle: messages it can process, a heartbeat
/// that a leader can build, and an election timeout that leaves room for a
/// next term.
pub open spec fn event_ok<T>(s: ReplicaView<T>, e: EventView<T>) -> bool {
    match e {
        EventView::Messages(ms) => messages_ok(s, ms),
        EventView::Transitions(_) => true,
        EventView::HeartbeatDue => s.state == State::Leader ==> heartbeat_ready(s),
        EventView::ElectionTimeout => s.state != State::Leader ==> s.current_term < usize::MAX,
    }
}

/// The reaction to an event before the committed entries are applied:
/// messages are processed in order; a leader logs new transitions and any
/// other replica abandons them; a leader sends its heartbeat; a follower or
/// a candidate whose election timer runs out starts an election.
pub open spec fn react<T>(s: ReplicaView<T>, e: EventView<T>) -> Step<T> {
    match e {
        EventView::Messages(ms) => step_messages(s, ms),
        EventView::Transitions(ts) => load_new_entries(s, ts),
        EventView::HeartbeatDue => if s.state == State::Leader {
            (s, heartbeat(s))
        } else {
            (s, seq![])
        },
        EventView::ElectionTimeout => if s.state != State::Leader {
            become_candidate(s)
        } else {
            (s, seq![])
        },
    }
}

/// A replica handles an event: it reacts to it, then applies the entries
/// that are ready.
pub open spec fn step_event<T>(s: ReplicaView<T>, e: EventView<T>) -> Step<T> {
    let (s1, e1) = react(s, e);
    let (s2, e2) = apply_ready_entries(s1);
    (s2, e1 + e2)
}

/// Messages that can be processed one after the other can be so up to any
/// point.
pub proof fn lemma_messages_ok_prefix<T>(s: ReplicaView<T>, ms: Seq<MessageView<T>>, k: int)
    requires
        messages_ok(s, ms),
        0 <= k <= ms.len(),
    ensures
        messages_ok(s, ms.take(k)),
    decreases ms.len(),
{
    if k == ms.len() {
        assert(ms.take(k) =~= ms);
    } else {
        lemma_messages_ok_prefix(s, ms.drop_last(), k);
        assert(ms.drop_last().take(k) =~= ms.take(k));
    }
}

/// Merging an entry keeps a log well formed.
pub proof fn lemma_merge_entry_well_formed<T>(log: Seq<Entry<T>>, e: Entry<T>)
    requires
        log_well_formed(log),
    ensures
        log_well_formed(merge_entry(log, e)),
{
    let log1 = if e.index < log.len() && e.term != log[e.index as int].term {
        log.take(e.index as int)
    } else {
        log
    };
    let r = merge_entry(log, e);
    assert forall|i: int| 0 <= i < log1.len() implies #[trigger] log1[i].index == i by {
        assert(log1[i] == log[i]);
    }
    if e.index == log1.len() {
        assert forall|i: int| 0 <= i < r.len() implies #[trigger] r[i].index == i by {
            if i < log1.len() {
                assert(r[i] == log1[i]);
            }
        }
    }
}

/// Merging entries keeps a log well formed.
pub proof fn lemma_merge_entries_well_formed<T>(log: Seq<Entry<T>>, es: Seq<Entry<T>>)
    requires
        log_well_formed(log),
    ensures
        log_well_formed(merge_entries(log, es)),
    decreases es.len(),
{
    if es.len() > 0 {
        lemma_merge_entries_well_formed(log, es.drop_last());
        lemma_merge_entry_well_formed(merge_entries(log, es.drop_last()), es.last());
    }
}

} // verus!
