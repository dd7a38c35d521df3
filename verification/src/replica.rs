//! A single replica running the Raft algorithm, as a verified state machine.
use crate::message::{effects_view, push_effect, Effect, EffectView, Entry, Message};
use crate::replica_model::{
    apply_ready_entries, become_candidate, become_follower, become_leader, broadcast,
    heartbeat, heartbeat_ready, leader_can_process, load_new_entries, merge_entries,
    process_append_entry_request_as_follower, process_message_as_candidate,
    process_message_as_follower, process_message_as_leader, process_vote_request_as_candidate,
    process_vote_request_as_follower, process_vote_response_as_candidate,
    process_transition_request_as_candidate, replication_count, send, ReplicaView, can_commit,
    is_highest_committable, leader_commit_index, committed_effects, applied_effects,
    log_well_formed, lemma_merge_entry_well_formed,
    entries_for_peer, append_request_for, initial_replica, is_majority, abandoned_effects,
    cut_by_entries, cut_by_entry, matched_index, EventView, step_message, step_messages, messages_ok, event_ok,
    react, step_event, lemma_messages_ok_prefix,
};
use crate::state_machine::{TransitionAbandonedReason, TransitionState};
use std::collections::{BTreeMap, BTreeSet};
use vstd::std_specs::btree::spec_btree_map_iter;
use vstd::std_specs::iter::IteratorSpec;
use vstd::prelude::*;

verus! {

broadcast use vstd::std_specs::btree::group_btree_axioms, vstd::laws_cmp::group_laws_cmp;

/// The role a replica plays in the cluster.
#[derive(Clone, Copy, PartialEq, Eq, Debug, Structural)]
pub enum State {
    Follower,
    Candidate,
    Leader,
}

pub type ReplicaID = usize;

/// What can happen to a replica: messages arrive, the user submits
/// transitions, the heartbeat timer fires, or the election timer runs out.
pub enum Event<T> {
    Messages(Vec<Message<T>>),
    Transitions(Vec<T>),
    HeartbeatDue,
    ElectionTimeout,
}

impl<T> View for Event<T> {
    type V = EventView<T>;

    open spec fn view(&self) -> EventView<T> {
        match self {
            Event::Messages(ms) => EventView::Messages(ms@.map_values(|m: Message<T>| m@)),
            Event::Transitions(ts) => EventView::Transitions(ts@),
            Event::HeartbeatDue => EventView::HeartbeatDue,
            Event::ElectionTimeout => EventView::ElectionTimeout,
        }
    }
}

/// Replica describes a single state machine running the Raft algorithm.
/// Instances of replicas communicate with each other to achieve consensus on
/// the state of the user-defined state machine. A replica does no I/O itself:
/// each of its steps returns the effects that its driver must carry out.
pub struct Replica<T: Copy> {
    // ID of this replica.
    id: ReplicaID,
    // IDs of other replicas in the cluster.
    peer_ids: Vec<ReplicaID>,
    // Current term.
    current_term: usize,
    // ID of peers with votes for self.
    current_votes: Option<BTreeSet<usize>>,
    // State of this replica.
    state: State,
    // Who the last vote was cast for.
    voted_for: Option<usize>,
    // Entries this replica is aware of.
    entries: Vec<Entry<T>>,
    // Index of the highest transition known to be committed.
    commit_index: usize,
    // Index of the highest transition applied to the state machine.
    last_applied: usize,
    // For each server, index of the next log entry to send to that server.
    // Only present on leaders.
    next_index: BTreeMap<usize, usize>,
    // For each server, index of highest log entry known to be replicated on
    // that server. Only present on leaders.
    match_index: BTreeMap<usize, usize>,
    // No-op transition used to force a faster replica update when a cluster
    // Leader changes, if the replica appends one on election.
    noop_transition: Option<T>,
}

impl<T: Copy> View for Replica<T> {
    type V = ReplicaView<T>;

    closed spec fn view(&self) -> ReplicaView<T> {
        ReplicaView {
            id: self.id,
            peer_ids: self.peer_ids@,
            current_term: self.current_term,
            current_votes: match self.current_votes {
                Some(v) => Some(v@),
                None => None,
            },
            state: self.state,
            voted_for: self.voted_for,
            entries: self.entries@,
            commit_index: self.commit_index,
            last_applied: self.last_applied,
            next_index: self.next_index@,
            match_index: self.match_index@,
            noop_transition: self.noop_transition,
        }
    }
}

/// The number of pairs of a sequence whose value is at least n.
spec fn count_at_least(s: Seq<(usize, usize)>, n: usize) -> nat
    decreases s.len(),
{
    if s.len() == 0 {
        0
    } else {
        count_at_least(s.drop_last(), n) + if s.last().1 >= n {
            1nat
        } else {
            0nat
        }
    }
}

/// The keys of the pairs of a sequence.
spec fn key_set(s: Seq<(usize, usize)>) -> Set<usize> {
    Set::new(|k: usize| exists|i: int| 0 <= i < s.len() && #[trigger] s[i].0 == k)
}

/// Counting the pairs of a sequence of distinct keys, each paired with its
/// value in a map, counts the keys of the map whose value is at least n.
proof fn lemma_count_at_least(s: Seq<(usize, usize)>, m: Map<usize, usize>, n: usize)
    requires
        forall|i: int, j: int| 0 <= i < j < s.len() ==> s[i].0 != s[j].0,
        forall|i: int| 0 <= i < s.len() ==> m.contains_key(#[trigger] s[i].0) && m[s[i].0] == s[i].1,
    ensures
        key_set(s).finite(),
        count_at_least(s, n) == key_set(s).filter(|k: usize| m[k] >= n).len(),
    decreases s.len(),
{
    let f = |k: usize| m[k] >= n;
    if s.len() == 0 {
        assert(key_set(s) =~= Set::empty());
        assert(key_set(s).filter(f) =~= Set::empty());
    } else {
        let s0 = s.drop_last();
        let (k, v) = s.last();
        lemma_count_at_least(s0, m, n);
        assert(key_set(s) =~= key_set(s0).insert(k)) by {
            assert forall|q: usize| key_set(s).contains(q) implies key_set(s0).insert(q).contains(q) by {}
            assert forall|q: usize| key_set(s).contains(q) implies #[trigger] key_set(s0).insert(k).contains(q) by {
                let i = choose|i: int| 0 <= i < s.len() && #[trigger] s[i].0 == q;
                if i < s.len() - 1 {
                    assert(s0[i].0 == q);
                }
            }
            assert forall|q: usize| key_set(s0).insert(k).contains(q) implies #[trigger] key_set(s).contains(q) by {
                if q == k {
                    assert(s[s.len() - 1].0 == q);
                } else {
                    let i = choose|i: int| 0 <= i < s0.len() && #[trigger] s0[i].0 == q;
                    assert(s[i].0 == q);
                }
            }
        }
        assert(!key_set(s0).contains(k)) by {
            if key_set(s0).contains(k) {
                let i = choose|i: int| 0 <= i < s0.len() && #[trigger] s0[i].0 == k;
                assert(s[i].0 == s[s.len() - 1].0);
            }
        }
        assert(m[k] == v) by {
            assert(s[s.len() - 1].0 == k);
        }
        if v >= n {
            assert(key_set(s).filter(f) =~= key_set(s0).filter(f).insert(k));
        } else {
            assert(key_set(s).filter(f) =~= key_set(s0).filter(f));
        }
    }
}

/// Whether votes, counted with the candidate's own, make a majority of a
/// cluster of the candidate and peers other replicas.
fn is_majority_of(votes: usize, peers: usize) -> (b: bool)
    ensures
        b == is_majority(votes as nat, peers as nat),
{
    2 * (votes as u128) > (peers as u128) + 1
}

/// Whether count is at least half of total.
fn is_half_or_more(count: usize, total: usize) -> (b: bool)
    ensures
        b == (2 * count >= total),
{
    count >= total || count >= total - count
}

impl<T: Copy> Replica<T> {
    /// The number of replicas that this replica knows to hold the entry at
    /// index n.
    fn count_replications(&self, n: usize) -> (c: usize)
        ensures
            c == replication_count(self@.match_index, n),
    {
        let mut count: usize = 0;
        let ghost m = self.match_index@;
        let total = self.match_index.len();
        let iter = self.match_index.iter();
        let ghost rem = iter.remaining();
        let ghost full = rem.unref();
        proof {
            assert(rem == spec_btree_map_iter(&self.match_index).remaining());
            assert(full.len() == m.dom().len());
            assert forall|i: int, j: int| 0 <= i < j < full.len() implies full[i].0 != full[j].0 by {
                if full[i].0 == full[j].0 {
                    assert(m.contains_key(*rem[i].0) && m[*rem[i].0] == *rem[i].1);
                    assert(m.contains_key(*rem[j].0) && m[*rem[j].0] == *rem[j].1);
                    assert(rem[i] == rem[j]);
                }
            }
            assert forall|i: int| 0 <= i < full.len() implies m.contains_key(#[trigger] full[i].0)
                && m[full[i].0] == full[i].1 by {
                assert(m.contains_key(*rem[i].0) && m[*rem[i].0] == *rem[i].1);
            }
            assert forall|k: usize| #[trigger] m.contains_key(k) implies key_set(full).contains(k) by {
                assert(rem.contains((&k, &m[k])));
                let i = choose|i: int| 0 <= i < rem.len() && rem[i] == (&k, &m[k]);
                assert(full[i].0 == k);
            }
            assert(key_set(full) =~= m.dom());
            lemma_count_at_least(full, m, n);
            assert(m.dom().filter(|k: usize| m[k] >= n) =~= key_set(full).filter(
                |k: usize| m[k] >= n,
            ));
            assert(full.take(full.len() as int) =~= full);
        }
        for kv in it: iter
            invariant
                it.seq() == rem,
                full == rem.unref(),
                full.len() == total,
                full.take(full.len() as int) == full,
                count == count_at_least(full.take(it.index()), n),
                count <= it.index(),
                count_at_least(full, n) == replication_count(m, n),
        {
            proof {
                assert(full.take(it.index() + 1).drop_last() =~= full.take(it.index()));
            }
            if *kv.1 >= n {
                count = count + 1;
            }
        }
        count
    }

    /// Create a new Replica. Provide its unique identifier within the
    /// cluster, a vector of its peers identifiers (all other replicas in the
    /// cluster), and an instance of a no-op transition used for faster forced
    /// updates. The replica starts as a follower of term 0, with a log that
    /// holds the no-op transition alone, and appends a no-op entry each time
    /// it becomes leader.
    pub fn new(id: ReplicaID, peer_ids: Vec<ReplicaID>, noop_transition: T) -> (r: Self)
        ensures
            r@.wf(),
            r@ == initial_replica(id, peer_ids@, noop_transition, Some(noop_transition)),
    {
        Self::new_with_noop(id, peer_ids, noop_transition, Some(noop_transition))
    }

    /// Create a new Replica that starts with null_action alone in its log and
    /// appends nothing when it becomes leader.
    pub fn new_without_noop(id: ReplicaID, peer_ids: Vec<ReplicaID>, null_action: T) -> (r: Self)
        ensures
            r@.wf(),
            r@ == initial_replica(id, peer_ids@, null_action, None),
    {
        Self::new_with_noop(id, peer_ids, null_action, None)
    }

    fn new_with_noop(
        id: ReplicaID,
        peer_ids: Vec<ReplicaID>,
        first: T,
        noop_transition: Option<T>,
    ) -> (r: Self)
        ensures
            r@.wf(),
            r@ == initial_replica(id, peer_ids@, first, noop_transition),
    {
        let mut entries = Vec::new();
        entries.push(Entry { term: 0, index: 0, transition: first });
        let r = Replica {
            id,
            peer_ids,
            current_term: 0,
            current_votes: None,
            state: State::Follower,
            voted_for: None,
            entries,
            commit_index: 0,
            last_applied: 0,
            next_index: BTreeMap::new(),
            match_index: BTreeMap::new(),
            noop_transition,
        };
        assert(r@.entries =~= seq![Entry { term: 0, index: 0, transition: first }]);
        r
    }

    /// The ID of this replica.
    pub fn id(&self) -> (r: ReplicaID)
        ensures
            r == self@.id,
    {
        self.id
    }

    /// The role this replica plays.
    pub fn state(&self) -> (r: State)
        ensures
            r == self@.state,
    {
        self.state
    }

    /// The current term of this replica.
    pub fn current_term(&self) -> (r: usize)
        ensures
            r == self@.current_term,
    {
        self.current_term
    }

    /// The index of the highest entry known to be committed.
    pub fn commit_index(&self) -> (r: usize)
        ensures
            r == self@.commit_index,
    {
        self.commit_index
    }

    /// The index of the highest entry applied to the state machine.
    pub fn last_applied(&self) -> (r: usize)
        ensures
            r == self@.last_applied,
    {
        self.last_applied
    }

    /// The number of entries in the log.
    pub fn log_len(&self) -> (r: usize)
        ensures
            r == self@.entries.len(),
    {
        self.entries.len()
    }

    /// The entry at position i of the log.
    pub fn entry(&self, i: usize) -> (r: Entry<T>)
        requires
            i < self@.entries.len(),
        ensures
            r == self@.entries[i as int],
    {
        self.entries[i]
    }

    /// A replica follows a term: it keeps the vote it cast if the term is its
    /// own, and has cast none in a newer term.
    pub fn become_follower(&mut self, term: usize)
        requires
            old(self)@.wf(),
        ensures
            final(self)@.wf(),
            final(self)@ == become_follower(old(self)@, term),
    {
        if term != self.current_term {
            self.voted_for = None;
        }
        self.current_term = term;
        self.state = State::Follower;
        self.current_votes = None;
    }

    /// A replica starts an election: it moves to the next term, votes for
    /// itself and asks each peer for its vote.
    pub fn become_candidate(&mut self, out: &mut Vec<Effect<T>>)
        requires
            old(self)@.wf(),
            old(self)@.current_term < usize::MAX,
        ensures
            final(self)@.wf(),
            final(self)@ == become_candidate(old(self)@).0,
            effects_view(final(out)@) == effects_view(old(out)@) + become_candidate(old(self)@).1,
    {
        // Increase current term.
        self.current_term = self.current_term + 1;
        // Claim yourself a candidate.
        self.state = State::Candidate;
        // Initialize votes. Vote for yourself.
        let mut votes = BTreeSet::new();
        votes.insert(self.id);
        self.current_votes = Some(votes);
        self.voted_for = Some(self.id);
        // Fan out vote requests.
        let last = self.entries.len() - 1;
        let last_term = self.entries[last].term;
        let ghost out0 = effects_view(out@);
        let ghost msg = crate::message::MessageView::VoteRequest {
            from_id: self.id,
            term: self.current_term,
            last_log_index: last,
            last_log_term: last_term,
        };
        let n = self.peer_ids.len();
        let mut i: usize = 0;
        while i < n
            invariant
                n == self.peer_ids.len(),
                i <= n,
                effects_view(out@) == out0 + broadcast(self.peer_ids@.take(i as int), msg),
                msg == (crate::message::MessageView::VoteRequest::<T> {
                    from_id: self.id,
                    term: self.current_term,
                    last_log_index: last,
                    last_log_term: last_term,
                }),
            decreases n - i,
        {
            let p = self.peer_ids[i];
            push_effect(
                out,
                Effect::Send {
                    to_id: p,
                    message: Message::VoteRequest {
                        from_id: self.id,
                        term: self.current_term,
                        last_log_index: last,
                        last_log_term: last_term,
                    },
                },
            );
            assert(self.peer_ids@.take(i + 1) =~= self.peer_ids@.take(i as int).push(p));
            assert(broadcast(self.peer_ids@.take(i + 1), msg) =~= broadcast(
                self.peer_ids@.take(i as int),
                msg,
            ).push(send(p, msg)));
            i = i + 1;
        }
        assert(self.peer_ids@.take(n as int) =~= self.peer_ids@);
        assert(self@.current_votes->0 =~= set![self.id]);
    }

    /// A replica that won an election leads: it announces itself, starts to
    /// track each peer's log from its own log's end, and appends a no-op
    /// entry of its term.
    pub fn become_leader(&mut self, out: &mut Vec<Effect<T>>)
        requires
            old(self)@.wf(),
        ensures
            final(self)@.wf(),
            final(self)@ == become_leader(old(self)@).0,
            effects_view(final(out)@) == effects_view(old(out)@) + become_leader(old(self)@).1,
    {
        push_effect(out, Effect::RegisterLeader(Some(self.id)));
        self.state = State::Leader;
        self.current_votes = None;
        let len = self.entries.len();
        let mut next_index = BTreeMap::new();
        let mut match_index = BTreeMap::new();
        let n = self.peer_ids.len();
        let mut i: usize = 0;
        while i < n
            invariant
                n == self.peer_ids.len(),
                i <= n,
                next_index@ =~= Map::new(
                    |p: usize| self.peer_ids@.take(i as int).contains(p),
                    |p: usize| len,
                ),
                match_index@ =~= Map::new(
                    |p: usize| self.peer_ids@.take(i as int).contains(p),
                    |p: usize| 0usize,
                ),
            decreases n - i,
        {
            let p = self.peer_ids[i];
            next_index.insert(p, len);
            match_index.insert(p, 0);
            proof {
                let prefix = self.peer_ids@.take(i as int);
                assert(self.peer_ids@.take(i + 1) =~= prefix.push(p));
                assert forall|q: usize| #[trigger]
                    prefix.push(p).contains(q) == (prefix.contains(q) || q == p) by {
                    if prefix.push(p).contains(q) && q != p {
                        let k = choose|k: int| 0 <= k < prefix.len() + 1 && prefix.push(p)[k] == q;
                        assert(prefix[k] == q);
                    }
                    if q == p {
                        assert(prefix.push(p)[prefix.len() as int] == p);
                    }
                    if prefix.contains(q) {
                        let k = choose|k: int| 0 <= k < prefix.len() && prefix[k] == q;
                        assert(prefix.push(p)[k] == q);
                    }
                }
            }
            i = i + 1;
        }
        assert(self.peer_ids@.take(n as int) =~= self.peer_ids@);
        self.next_index = next_index;
        self.match_index = match_index;
        // If the previous leader had some uncommitted entries that were
        // replicated to this now-leader server, this replica will not commit
        // them until its commit index advances to a log entry appended in
        // this leader's term. To carry out this operation as soon as the new
        // leader emerges, append a no-op entry.
        match self.noop_transition {
            Some(noop) => {
                self.entries.push(Entry { index: len, transition: noop, term: self.current_term });
                let _len = self.entries.len();
            },
            None => {},
        }
        assert(effects_view(out@) =~= effects_view(old(out)@) + become_leader(old(self)@).1);
    }

    /// A leader first moves its commit index to the last entry replicated on
    /// enough replicas, and announces the newly committed entries; then the
    /// replica applies the committed entries it has not applied yet, in order.
    /// A replica whose commit index lies past the end of its log does nothing.
    pub fn apply_ready_entries(&mut self, out: &mut Vec<Effect<T>>)
        requires
            old(self)@.wf(),
        ensures
            final(self)@.wf(),
            final(self)@ == apply_ready_entries(old(self)@).0,
            effects_view(final(out)@) == effects_view(old(out)@) + apply_ready_entries(
                old(self)@,
            ).1,
    {
        let ghost s0 = self@;
        let ghost out0 = effects_view(out@);
        if self.commit_index >= self.entries.len() {
            // A commit index past the end of the log names no entry to apply.
            assert(effects_view(out@) =~= out0 + seq![]);
            return ;
        }
        let old_commit_index = self.commit_index;
        // Move the commit index to the latest log index that has been
        // replicated on the majority of the replicas.
        if self.state == State::Leader && self.commit_index < self.entries.len() - 1 {
            let mut n = self.entries.len() - 1;
            while n > self.commit_index
                invariant
                    self@ == (ReplicaView { commit_index: self.commit_index, ..s0 }),
                    s0.wf(),
                    s0.commit_index == old_commit_index,
                    old_commit_index <= n < s0.entries.len(),
                    (self.commit_index == old_commit_index && forall|m: int|
                        n < m < s0.entries.len() ==> !can_commit(s0, m)) || (is_highest_committable(
                        s0,
                        self.commit_index as int,
                    ) && n + 1 == self.commit_index),
                decreases n,
            {
                let num_replications = self.count_replications(n);
                if is_half_or_more(num_replications, self.peer_ids.len())
                    && self.entries[n].term == self.current_term {
                    self.commit_index = n;
                }
                n = n - 1;
            }
            proof {
                if self.commit_index == old_commit_index {
                    assert forall|k: int| !is_highest_committable(s0, k) by {
                        if is_highest_committable(s0, k) {
                            assert(!can_commit(s0, k));
                        }
                    }
                } else {
                    let k = choose|k: int| is_highest_committable(s0, k);
                    assert(k == self.commit_index) by {
                        if k < self.commit_index {
                            assert(!can_commit(s0, self.commit_index as int));
                        } else if k > self.commit_index {
                            assert(!can_commit(s0, k));
                        }
                    }
                }
            }
        } else {
            proof {
                assert forall|k: int| !(s0.state == State::Leader && is_highest_committable(s0, k)) by {}
            }
        }
        assert(self.commit_index == leader_commit_index(s0));
        let mut i = old_commit_index;
        while i < self.commit_index
            invariant
                self@ == (ReplicaView { commit_index: leader_commit_index(s0), ..s0 }),
                old_commit_index <= i <= self.commit_index < s0.entries.len(),
                s0.commit_index == old_commit_index,
                effects_view(out@) == out0 + committed_effects(
                    s0.entries,
                    old_commit_index as int,
                    i as int,
                ),
            decreases self.commit_index - i,
        {
            i = i + 1;
            push_effect(
                out,
                Effect::RegisterTransitionState(
                    self.entries[i].transition,
                    TransitionState::Committed,
                ),
            );
            assert(committed_effects(s0.entries, old_commit_index as int, i as int)
                =~= committed_effects(s0.entries, old_commit_index as int, i - 1).push(
                EffectView::RegisterTransitionState(
                    s0.entries[i as int].transition,
                    TransitionState::Committed,
                ),
            ));
        }
        let ghost out1 = effects_view(out@);
        let ghost la0 = self.last_applied;
        // Apply entries that are behind the currently committed index.
        while self.commit_index > self.last_applied
            invariant
                self@ == (ReplicaView {
                    commit_index: leader_commit_index(s0),
                    last_applied: self.last_applied,
                    ..s0
                }),
                la0 == s0.last_applied,
                self.commit_index < s0.entries.len(),
                la0 <= self.last_applied,
                self.last_applied == la0 || self.last_applied <= self.commit_index,
                effects_view(out@) == out1 + applied_effects(
                    s0.entries,
                    la0 as int,
                    self.last_applied as int,
                ),
            decreases self.commit_index - self.last_applied,
        {
            self.last_applied = self.last_applied + 1;
            let t = self.entries[self.last_applied].transition;
            push_effect(out, Effect::ApplyTransition(t));
            push_effect(out, Effect::RegisterTransitionState(t, TransitionState::Applied));
            assert(applied_effects(s0.entries, la0 as int, self.last_applied as int) =~= applied_effects(
                s0.entries,
                la0 as int,
                self.last_applied - 1,
            ) + seq![
                EffectView::ApplyTransition(t),
                EffectView::RegisterTransitionState(t, TransitionState::Applied),
            ]);
        }
        proof {
            assert(self.commit_index == leader_commit_index(s0));
            if self.commit_index < la0 {
                assert(self.last_applied == la0);
                assert(applied_effects(s0.entries, la0 as int, la0 as int) =~= seq![]);
                assert(applied_effects(s0.entries, la0 as int, self.commit_index as int) =~= seq![]);
            } else {
                assert(self.last_applied == self.commit_index);
            }
        }
    }

    /// A leader only reacts to the answers to its append requests of its own
    /// term, and ignores older ones: a newer term makes it follow that term;
    /// an accepted request moves the sender's next index past the index it
    /// matched and raises its match index to that index; a refused one moves
    /// its next index one entry back.
    pub fn process_message_as_leader(&mut self, message: Message<T>, out: &mut Vec<Effect<T>>)
        requires
            old(self)@.wf(),
            leader_can_process(old(self)@, message@),
        ensures
            final(self)@.wf(),
            final(self)@ == process_message_as_leader(old(self)@, message@).0,
            effects_view(final(out)@) == effects_view(old(out)@) + process_message_as_leader(
                old(self)@,
                message@,
            ).1,
    {
        match message {
            Message::AppendEntryResponse { from_id, success, term, last_index } => {
                if term > self.current_term {
                    push_effect(out, Effect::RegisterLeader(None));
                    self.become_follower(term);
                } else if term < self.current_term {
                    assert(effects_view(out@) =~= effects_view(old(out)@) + seq![]);
                } else if success {
                    let raised = match self.match_index.get(&from_id) {
                        Some(m) => if *m > last_index {
                            *m
                        } else {
                            last_index
                        },
                        None => last_index,
                    };
                    self.next_index.insert(from_id, last_index + 1);
                    self.match_index.insert(from_id, raised);
                } else {
                    let next = *self.next_index.get(&from_id).unwrap();
                    self.next_index.insert(from_id, next - 1);
                }
            },
            _ => {
                assert(effects_view(out@) =~= effects_view(old(out)@) + seq![]);
            },
        }
    }

    /// Whether this replica, as a leader, can process the message: see
    /// leader_can_process.
    pub fn can_process_as_leader(&self, message: &Message<T>) -> (b: bool)
        ensures
            b == leader_can_process(self@, message@),
    {
        match message {
            Message::AppendEntryResponse { from_id, success, term, last_index } => {
                if *term != self.current_term {
                    true
                } else if *success {
                    *last_index < usize::MAX
                } else {
                    match self.next_index.get(from_id) {
                        Some(next) => *next >= 1,
                        None => false,
                    }
                }
            },
            _ => true,
        }
    }

    /// A follower answers a vote request.
    fn process_vote_request_as_follower(
        &mut self,
        from_id: ReplicaID,
        term: usize,
        last_log_index: usize,
        last_log_term: usize,
        out: &mut Vec<Effect<T>>,
    )
        requires
            old(self)@.wf(),
        ensures
            final(self)@.wf(),
            final(self)@ == process_vote_request_as_follower(
                old(self)@,
                from_id,
                term,
                last_log_index,
                last_log_term,
            ).0,
            effects_view(final(out)@) == effects_view(old(out)@) + process_vote_request_as_follower(
                old(self)@,
                from_id,
                term,
                last_log_index,
                last_log_term,
            ).1,
    {
        if self.current_term > term {
            push_effect(
                out,
                Effect::Send {
                    to_id: from_id,
                    message: Message::VoteResponse {
                        from_id: self.id,
                        term: self.current_term,
                        vote_granted: false,
                    },
                },
            );
            return ;
        }
        if self.current_term < term {
            self.become_follower(term);
        }
        let last = self.entries[self.entries.len() - 1];
        let up_to_date = last_log_term > last.term || (last_log_term == last.term
            && last_log_index >= last.index);
        let free = match self.voted_for {
            Some(v) => v == from_id,
            None => true,
        };
        if free && up_to_date {
            self.voted_for = Some(from_id);
            push_effect(
                out,
                Effect::Send {
                    to_id: from_id,
                    message: Message::VoteResponse {
                        from_id: self.id,
                        term: self.current_term,
                        vote_granted: true,
                    },
                },
            );
        } else {
            push_effect(
                out,
                Effect::Send {
                    to_id: from_id,
                    message: Message::VoteResponse {
                        from_id: self.id,
                        term: self.current_term,
                        vote_granted: false,
                    },
                },
            );
        }
    }

    /// A follower answers an append request: see
    /// process_append_entry_request_as_follower in the model.
    fn process_append_entry_request_as_follower(
        &mut self,
        from_id: ReplicaID,
        term: usize,
        prev_log_index: usize,
        prev_log_term: usize,
        entries: Vec<Entry<T>>,
        commit_index: usize,
        out: &mut Vec<Effect<T>>,
    )
        requires
            old(self)@.wf(),
        ensures
            final(self)@.wf(),
            final(self)@ == process_append_entry_request_as_follower(
                old(self)@,
                from_id,
                term,
                prev_log_index,
                prev_log_term,
                entries@,
                commit_index,
            ).0,
            effects_view(final(out)@) == effects_view(old(out)@)
                + process_append_entry_request_as_follower(
                old(self)@,
                from_id,
                term,
                prev_log_index,
                prev_log_term,
                entries@,
                commit_index,
            ).1,
    {
        let ghost s0 = self@;
        let ghost out0 = effects_view(out@);
        // A request of an older term is refused; a newer term is followed.
        let stale = self.current_term > term;
        if term > self.current_term {
            self.become_follower(term);
        }
        // Check that our log contains an entry at prev_log_index with the
        // prev_log_term term; otherwise reply false.
        if stale || prev_log_index >= self.entries.len() || self.entries[prev_log_index].term
            != prev_log_term {
            push_effect(
                out,
                Effect::Send {
                    to_id: from_id,
                    message: Message::AppendEntryResponse {
                        from_id: self.id,
                        term: self.current_term,
                        success: false,
                        last_index: self.entries.len() - 1,
                    },
                },
            );
            return ;
        }
        let ghost s1 = self@;
        let n = entries.len();
        let mut i: usize = 0;
        assert(entries@.take(0) =~= seq![]);
        assert(abandoned_effects(cut_by_entries(s0.entries, seq![])) =~= seq![]);
        while i < n
            invariant
                n == entries.len(),
                i <= n,
                self@ == (ReplicaView { entries: self@.entries, ..s1 }),
                self@.entries == merge_entries(s0.entries, entries@.take(i as int)),
                log_well_formed(self@.entries),
                effects_view(out@) == out0 + abandoned_effects(
                    cut_by_entries(s0.entries, entries@.take(i as int)),
                ),
            decreases n - i,
        {
            let entry = entries[i];
            let ghost before = effects_view(out@);
            let ghost log0 = self@.entries;
            proof {
                assert(entries@.take(i + 1).drop_last() =~= entries@.take(i as int));
                assert(entries@.take(i + 1).last() == entry);
                lemma_merge_entry_well_formed(self@.entries, entry);
            }
            if entry.index < self.entries.len() && entry.term != self.entries[entry.index].term {
                // The entries from the conflict on are abandoned.
                let len = self.entries.len();
                let mut k = entry.index;
                while k < len
                    invariant
                        entry.index <= k <= len,
                        len == self.entries.len(),
                        self@.entries == log0,
                        effects_view(out@) == before + abandoned_effects(
                            log0.subrange(entry.index as int, k as int),
                        ),
                    decreases len - k,
                {
                    push_effect(
                        out,
                        Effect::RegisterTransitionState(
                            self.entries[k].transition,
                            TransitionState::Abandoned(TransitionAbandonedReason::ConflictWithLeader),
                        ),
                    );
                    assert(log0.subrange(entry.index as int, k + 1) =~= log0.subrange(
                        entry.index as int,
                        k as int,
                    ).push(log0[k as int]));
                    k = k + 1;
                }
                self.entries.truncate(entry.index);
            } else {
                assert(abandoned_effects(cut_by_entry(log0, entry)) =~= seq![]);
            }
            proof {
                assert(abandoned_effects(
                    cut_by_entries(s0.entries, entries@.take(i + 1)),
                ) =~= abandoned_effects(cut_by_entries(s0.entries, entries@.take(i as int)))
                    + abandoned_effects(cut_by_entry(log0, entry)));
            }
            if entry.index == self.entries.len() {
                self.entries.push(entry);
                let _len = self.entries.len();
            }
            i = i + 1;
        }
        assert(entries@.take(n as int) =~= entries@);
        let _len = self.entries.len();
        let ghost out1 = effects_view(out@);
        let old_commit = self.commit_index;
        if commit_index > self.commit_index && self.entries.len() != 0 {
            let last = self.entries[self.entries.len() - 1].index;
            assert(last == self@.entries.len() - 1);
            self.commit_index = if commit_index < last {
                commit_index
            } else {
                last
            };
        }
        // Announce the entries that are newly known to be committed.
        if self.commit_index > old_commit {
            let mut j = old_commit;
            assert(committed_effects(self@.entries, old_commit as int, old_commit as int)
                =~= seq![]);
            while j < self.commit_index
                invariant
                    old_commit <= j <= self.commit_index < self@.entries.len(),
                    effects_view(out@) == out1 + committed_effects(
                        self@.entries,
                        old_commit as int,
                        j as int,
                    ),
                decreases self.commit_index - j,
            {
                j = j + 1;
                push_effect(
                    out,
                    Effect::RegisterTransitionState(
                        self.entries[j].transition,
                        TransitionState::Committed,
                    ),
                );
                assert(committed_effects(self@.entries, old_commit as int, j as int)
                    =~= committed_effects(self@.entries, old_commit as int, j - 1).push(
                    EffectView::RegisterTransitionState(
                        self@.entries[j as int].transition,
                        TransitionState::Committed,
                    ),
                ));
            }
        } else {
            assert(committed_effects(
                self@.entries,
                old_commit as int,
                self.commit_index as int,
            ) =~= seq![]);
        }
        let matched = if n == 0 {
            prev_log_index
        } else {
            entries[n - 1].index
        };
        push_effect(out, Effect::RegisterLeader(Some(from_id)));
        push_effect(
            out,
            Effect::Send {
                to_id: from_id,
                message: Message::AppendEntryResponse {
                    from_id: self.id,
                    term: self.current_term,
                    success: true,
                    last_index: matched,
                },
            },
        );
        assert(effects_view(out@) =~= effects_view(old(out)@)
            + process_append_entry_request_as_follower(
            s0,
            from_id,
            term,
            prev_log_index,
            prev_log_term,
            entries@,
            commit_index,
        ).1);
    }

    /// A follower answers requests and ignores responses.
    pub fn process_message_as_follower(&mut self, message: Message<T>, out: &mut Vec<Effect<T>>)
        requires
            old(self)@.wf(),
        ensures
            final(self)@.wf(),
            final(self)@ == process_message_as_follower(old(self)@, message@).0,
            effects_view(final(out)@) == effects_view(old(out)@) + process_message_as_follower(
                old(self)@,
                message@,
            ).1,
    {
        match message {
            Message::VoteRequest { from_id, term, last_log_index, last_log_term } => {
                self.process_vote_request_as_follower(
                    from_id,
                    term,
                    last_log_index,
                    last_log_term,
                    out,
                )
            },
            Message::AppendEntryRequest {
                term,
                from_id,
                prev_log_index,
                prev_log_term,
                entries,
                commit_index,
            } => self.process_append_entry_request_as_follower(
                from_id,
                term,
                prev_log_index,
                prev_log_term,
                entries,
                commit_index,
                out,
            ),
            Message::AppendEntryResponse { .. } => {
                assert(effects_view(out@) =~= effects_view(old(out)@) + seq![]);
            },
            Message::VoteResponse { .. } => {
                assert(effects_view(out@) =~= effects_view(old(out)@) + seq![]);
            },
        }
    }

    /// A candidate counts a granted vote of its own term; with the votes of a
    /// majority of the cluster it becomes leader. A newer term makes it
    /// follow that term, with the leader unknown.
    fn process_vote_response_as_candidate(
        &mut self,
        from_id: ReplicaID,
        term: usize,
        vote_granted: bool,
        out: &mut Vec<Effect<T>>,
    )
        requires
            old(self)@.wf(),
        ensures
            final(self)@.wf(),
            final(self)@ == process_vote_response_as_candidate(
                old(self)@,
                from_id,
                term,
                vote_granted,
            ).0,
            effects_view(final(out)@) == effects_view(old(out)@)
                + process_vote_response_as_candidate(old(self)@, from_id, term, vote_granted).1,
    {
        if term > self.current_term {
            push_effect(out, Effect::RegisterLeader(None));
            self.become_follower(term);
        } else if term == self.current_term && vote_granted {
            match &self.current_votes {
                Some(cur_votes) => {
                    let mut votes = cur_votes.clone();
                    votes.insert(from_id);
                    let count = votes.len();
                    self.current_votes = Some(votes);
                    if is_majority_of(count, self.peer_ids.len()) {
                        self.become_leader(out);
                    } else {
                        assert(effects_view(out@) =~= effects_view(old(out)@) + seq![]);
                    }
                },
                None => {
                    assert(effects_view(out@) =~= effects_view(old(out)@) + seq![]);
                },
            }
        } else {
            assert(effects_view(out@) =~= effects_view(old(out)@) + seq![]);
        }
    }

    /// A candidate that receives a vote request of a newer term follows it
    /// and answers as a follower; otherwise it refuses its vote.
    fn process_vote_request_as_candidate(
        &mut self,
        term: usize,
        from_id: ReplicaID,
        message: Message<T>,
        out: &mut Vec<Effect<T>>,
    )
        requires
            old(self)@.wf(),
        ensures
            final(self)@.wf(),
            final(self)@ == process_vote_request_as_candidate(
                old(self)@,
                term,
                from_id,
                message@,
            ).0,
            effects_view(final(out)@) == effects_view(old(out)@)
                + process_vote_request_as_candidate(old(self)@, term, from_id, message@).1,
    {
        if term > self.current_term {
            self.become_follower(term);
            self.process_message_as_follower(message, out);
            assert(effects_view(out@) =~= effects_view(old(out)@)
                + process_vote_request_as_candidate(old(self)@, term, from_id, message@).1);
        } else {
            push_effect(
                out,
                Effect::Send {
                    to_id: from_id,
                    message: Message::VoteResponse {
                        from_id: self.id,
                        term: self.current_term,
                        vote_granted: false,
                    },
                },
            );
        }
    }

    /// A candidate that receives an append request of its term or a newer
    /// one follows its sender and answers as a follower; otherwise it
    /// refuses it.
    fn process_transition_request_as_candidate(
        &mut self,
        term: usize,
        from_id: ReplicaID,
        message: Message<T>,
        out: &mut Vec<Effect<T>>,
    )
        requires
            old(self)@.wf(),
        ensures
            final(self)@.wf(),
            final(self)@ == process_transition_request_as_candidate(
                old(self)@,
                term,
                from_id,
                message@,
            ).0,
            effects_view(final(out)@) == effects_view(old(out)@)
                + process_transition_request_as_candidate(old(self)@, term, from_id, message@).1,
    {
        if term >= self.current_term {
            push_effect(out, Effect::RegisterLeader(Some(from_id)));
            self.become_follower(term);
            self.process_message_as_follower(message, out);
            assert(effects_view(out@) =~= effects_view(old(out)@)
                + process_transition_request_as_candidate(old(self)@, term, from_id, message@).1);
        } else {
            push_effect(
                out,
                Effect::Send {
                    to_id: from_id,
                    message: Message::AppendEntryResponse {
                        from_id: self.id,
                        term: self.current_term,
                        success: false,
                        last_index: self.entries.len() - 1,
                    },
                },
            );
        }
    }

    /// A candidate reacts to requests and to votes, and ignores append
    /// responses.
    pub fn process_message_as_candidate(&mut self, message: Message<T>, out: &mut Vec<Effect<T>>)
        requires
            old(self)@.wf(),
        ensures
            final(self)@.wf(),
            final(self)@ == process_message_as_candidate(old(self)@, message@).0,
            effects_view(final(out)@) == effects_view(old(out)@) + process_message_as_candidate(
                old(self)@,
                message@,
            ).1,
    {
        match message {
            Message::AppendEntryRequest { term, from_id, .. } => {
                self.process_transition_request_as_candidate(term, from_id, message, out)
            },
            Message::VoteRequest { term, from_id, .. } => {
                self.process_vote_request_as_candidate(term, from_id, message, out)
            },
            Message::VoteResponse { from_id, term, vote_granted } => {
                self.process_vote_response_as_candidate(from_id, term, vote_granted, out)
            },
            Message::AppendEntryResponse { .. } => {
                assert(effects_view(out@) =~= effects_view(old(out)@) + seq![]);
            },
        }
    }

    /// A leader appends the new transitions to its log, in order, with its
    /// term, and registers each as queued; any other replica discards them
    /// and registers each as abandoned, as it is not the leader.
    pub fn load_new_entries(&mut self, transitions: Vec<T>, out: &mut Vec<Effect<T>>)
        requires
            old(self)@.wf(),
        ensures
            final(self)@.wf(),
            final(self)@ == load_new_entries(old(self)@, transitions@).0,
            effects_view(final(out)@) == effects_view(old(out)@) + load_new_entries(
                old(self)@,
                transitions@,
            ).1,
    {
        let ghost s0 = self@;
        let ghost out0 = effects_view(out@);
        let n = transitions.len();
        let mut i: usize = 0;
        while i < n
            invariant
                n == transitions.len(),
                i <= n,
                s0.wf(),
                self@.wf(),
                s0.state == State::Leader ==> self@ == load_new_entries(
                    s0,
                    transitions@.take(i as int),
                ).0 && effects_view(out@) == out0 + load_new_entries(
                    s0,
                    transitions@.take(i as int),
                ).1,
                s0.state != State::Leader ==> self@ == s0 && effects_view(out@) == out0
                    + load_new_entries(s0, transitions@.take(i as int)).1,
            decreases n - i,
        {
            let transition = transitions[i];
            proof {
                let ts = transitions@.take(i + 1);
                assert(ts.take(i as int) =~= transitions@.take(i as int));
                assert(ts =~= transitions@.take(i as int).push(transition));
            }
            if self.state == State::Leader {
                let ghost before = self@.entries;
                self.entries.push(
                    Entry { index: self.entries.len(), transition, term: self.current_term },
                );
                let _len = self.entries.len();
                push_effect(
                    out,
                    Effect::RegisterTransitionState(transition, TransitionState::Queued),
                );
                proof {
                    assert forall|k: int| 0 <= k < self@.entries.len() implies #[trigger] self@.entries[k].index == k by {
                        if k < before.len() {
                            assert(self@.entries[k] == before[k]);
                        }
                    }
                    let ts = transitions@.take(i + 1);
                    assert(ts.take(i as int) =~= transitions@.take(i as int));
                    assert(self@.entries =~= load_new_entries(s0, ts).0.entries);
                    assert(effects_view(out@) =~= out0 + load_new_entries(s0, ts).1);
                }
            } else {
                push_effect(
                    out,
                    Effect::RegisterTransitionState(
                        transition,
                        TransitionState::Abandoned(TransitionAbandonedReason::NotLeader),
                    ),
                );
                assert(effects_view(out@) =~= out0 + load_new_entries(
                    s0,
                    transitions@.take(i + 1),
                ).1);
            }
            i = i + 1;
        }
        proof {
            assert(transitions@.take(n as int) =~= transitions@);
        }
    }

    /// The entries a leader sends to a peer: those from the peer's next
    /// index to the end of its log.
    pub fn get_entries_for_peer(&self, peer_id: ReplicaID) -> (r: Vec<Entry<T>>)
        requires
            self@.next_index.contains_key(peer_id),
            self@.next_index[peer_id] <= self@.entries.len(),
        ensures
            r@ == entries_for_peer(self@, peer_id),
    {
        let start = *self.next_index.get(&peer_id).unwrap();
        let mut r = Vec::new();
        let mut i = start;
        while i < self.entries.len()
            invariant
                start <= i <= self.entries.len(),
                r@ == self@.entries.subrange(start as int, i as int),
            decreases self.entries.len() - i,
        {
            r.push(self.entries[i]);
            i = i + 1;
            assert(r@ =~= self@.entries.subrange(start as int, i as int));
        }
        r
    }

    /// Whether this replica can build a heartbeat: see heartbeat_ready.
    pub fn is_heartbeat_ready(&self) -> (b: bool)
        ensures
            b == heartbeat_ready(self@),
    {
        let n = self.peer_ids.len();
        let mut i: usize = 0;
        while i < n
            invariant
                n == self.peer_ids.len(),
                i <= n,
                forall|k: int|
                    0 <= k < i ==> self@.next_index.contains_key(#[trigger] self@.peer_ids[k])
                        && 1 <= self@.next_index[self@.peer_ids[k]] <= self@.entries.len(),
            decreases n - i,
        {
            let p = self.peer_ids[i];
            match self.next_index.get(&p) {
                Some(next) => {
                    if *next < 1 || *next > self.entries.len() {
                        assert(self@.peer_ids.contains(p) && self@.peer_ids[i as int] == p);
                        return false;
                    }
                },
                None => {
                    assert(self@.peer_ids[i as int] == p);
                    assert(self@.peer_ids.contains(p));
                    assert(!self@.next_index.contains_key(p));
                    return false;
                },
            }
            i = i + 1;
        }
        assert forall|p: usize| #[trigger] self@.peer_ids.contains(p) implies self@.next_index.contains_key(p) && 1 <= self@.next_index[p] <= self@.entries.len() by {
            let k = choose|k: int| 0 <= k < self@.peer_ids.len() && self@.peer_ids[k] == p;
        }
        true
    }

    /// A leader's heartbeat: one append request to each peer, in order, with
    /// the entries from the peer's next index on.
    pub fn broadcast_append_entries(&self, out: &mut Vec<Effect<T>>)
        requires
            heartbeat_ready(self@),
        ensures
            effects_view(final(out)@) == effects_view(old(out)@) + heartbeat(self@),
    {
        let ghost out0 = effects_view(out@);
        let n = self.peer_ids.len();
        let mut i: usize = 0;
        while i < n
            invariant
                n == self.peer_ids.len(),
                i <= n,
                heartbeat_ready(self@),
                effects_view(out@) == out0 + self@.peer_ids.take(i as int).map_values(
                    |p: usize| send(p, append_request_for(self@, p)),
                ),
            decreases n - i,
        {
            let peer_id = self.peer_ids[i];
            assert(self@.peer_ids.contains(peer_id) && self@.peer_ids[i as int] == peer_id);
            let next = *self.next_index.get(&peer_id).unwrap();
            let message = Message::AppendEntryRequest {
                term: self.current_term,
                from_id: self.id,
                prev_log_index: next - 1,
                prev_log_term: self.entries[next - 1].term,
                entries: self.get_entries_for_peer(peer_id),
                commit_index: self.commit_index,
            };
            push_effect(out, Effect::Send { to_id: peer_id, message });
            assert(self@.peer_ids.take(i + 1) =~= self@.peer_ids.take(i as int).push(peer_id));
            assert(self@.peer_ids.take(i + 1).map_values(
                |p: usize| send(p, append_request_for(self@, p)),
            ) =~= self@.peer_ids.take(i as int).map_values(
                |p: usize| send(p, append_request_for(self@, p)),
            ).push(send(peer_id, append_request_for(self@, peer_id))));
            i = i + 1;
        }
        assert(self@.peer_ids.take(n as int) =~= self@.peer_ids);
    }

    /// Whether the commit index of this replica falls inside its log, which
    /// applying the committed entries needs.
    pub fn is_commit_index_in_log(&self) -> (b: bool)
        ensures
            b == (self@.commit_index < self@.entries.len()),
    {
        self.commit_index < self.entries.len()
    }

    /// The replica processes one message in the role it plays.
    fn step_message(&mut self, message: Message<T>, out: &mut Vec<Effect<T>>)
        requires
            old(self)@.wf(),
            old(self)@.state == State::Leader ==> leader_can_process(old(self)@, message@),
        ensures
            final(self)@.wf(),
            final(self)@ == step_message(old(self)@, message@).0,
            effects_view(final(out)@) == effects_view(old(out)@) + step_message(
                old(self)@,
                message@,
            ).1,
    {
        match self.state {
            State::Leader => self.process_message_as_leader(message, out),
            State::Follower => self.process_message_as_follower(message, out),
            State::Candidate => self.process_message_as_candidate(message, out),
        }
    }

    /// The replica handles an event, as its driver's loop hands them over:
    /// it processes messages one after the other, each in the role it plays
    /// when the message comes; as leader it logs new transitions, which any
    /// other replica abandons; as leader it sends its heartbeat when the
    /// heartbeat timer fires; as follower or candidate it starts an election
    /// when its election timer runs out. Then it applies the entries that are
    /// ready.
    pub fn handle_event(&mut self, event: Event<T>, out: &mut Vec<Effect<T>>)
        requires
            old(self)@.wf(),
            event_ok(old(self)@, event@),
        ensures
            final(self)@.wf(),
            final(self)@ == step_event(old(self)@, event@).0,
            effects_view(final(out)@) == effects_view(old(out)@) + step_event(
                old(self)@,
                event@,
            ).1,
    {
        let ghost s0 = self@;
        let ghost out0 = effects_view(out@);
        let ghost e = event@;
        match event {
            Event::Messages(messages) => {
                let mut messages = messages;
                let ghost ms = e->Messages_0;
                let ghost orig = messages@;
                let n = messages.len();
                let mut i: usize = 0;
                assert(ms.take(0) =~= seq![]);
                while i < n
                    invariant
                        n == orig.len(),
                        ms == orig.map_values(|m: Message<T>| m@),
                        i <= n,
                        messages@ == orig.skip(i as int),
                        messages_ok(s0, ms),
                        self@.wf(),
                        self@ == step_messages(s0, ms.take(i as int)).0,
                        effects_view(out@) == out0 + step_messages(s0, ms.take(i as int)).1,
                    decreases n - i,
                {
                    let m = messages.remove(0);
                    proof {
                        assert(m == orig[i as int]);
                        assert(orig.skip(i as int).remove(0) =~= orig.skip(i + 1));
                        assert(ms.take(i + 1).drop_last() =~= ms.take(i as int));
                        assert(ms.take(i + 1).last() == m@);
                        lemma_messages_ok_prefix(s0, ms, i + 1);
                    }
                    let ghost before = effects_view(out@);
                    self.step_message(m, out);
                    proof {
                        assert(effects_view(out@) =~= out0 + step_messages(s0, ms.take(i + 1)).1);
                    }
                    i = i + 1;
                }
                assert(ms.take(n as int) =~= ms);
            },
            Event::Transitions(transitions) => {
                self.load_new_entries(transitions, out);
            },
            Event::HeartbeatDue => {
                if self.state == State::Leader {
                    self.broadcast_append_entries(out);
                } else {
                    assert(effects_view(out@) =~= out0 + seq![]);
                }
            },
            Event::ElectionTimeout => {
                if self.state != State::Leader {
                    self.become_candidate(out);
                } else {
                    assert(effects_view(out@) =~= out0 + seq![]);
                }
            },
        }
        assert(self@ == react(s0, e).0);
        assert(effects_view(out@) == out0 + react(s0, e).1);
        let ghost out1 = effects_view(out@);
        self.apply_ready_entries(out);
        assert(effects_view(out@) =~= out0 + step_event(s0, e).1);
    }

    /// A leader appends the user's action, if there is one, to its log with
    /// its term; any other replica discards it.
    pub fn process_action(&mut self, action: Option<T>, out: &mut Vec<Effect<T>>)
        requires
            old(self)@.wf(),
        ensures
            final(self)@.wf(),
            final(self)@ == load_new_entries(old(self)@, option_to_seq(action)).0,
            effects_view(final(out)@) == effects_view(old(out)@) + load_new_entries(
                old(self)@,
                option_to_seq(action),
            ).1,
    {
        let mut actions = Vec::new();
        match action {
            Some(a) => actions.push(a),
            None => {},
        }
        assert(actions@ =~= option_to_seq(action));
        self.load_new_entries(actions, out);
    }
}

/// The sequence of the value of an option: one element or none.
pub open spec fn option_to_seq<T>(o: Option<T>) -> Seq<T> {
    match o {
        Some(a) => seq![a],
        None => seq![],
    }
}

} // verus!
