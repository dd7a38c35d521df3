//! Election safety across a cluster: replicas that handle events one at a
//! time, and exchange messages through a network that may delay, reorder,
//! duplicate or drop them, never have two leaders of one term.
use crate::message::{EffectView, MessageView};
use crate::replica::State;
use crate::replica_model::{
    abandoned_effects, append_response, applied_effects, apply_committed_entries, apply_ready_entries,
    become_follower, committed_effects, cut_by_entries, event_ok, follower_commit_index,
    is_majority, merge_entries, process_message_as_follower, react, send, step_event, step_message,
    EventView,
    ReplicaView,
};
use vstd::prelude::*;
use vstd::set_lib::{lemma_len_subset, lemma_set_intersect_union_lens};

verus! {

/// Whether an effect sends a granted vote.
pub open spec fn is_grant<T>(e: EffectView<T>) -> bool {
    e matches EffectView::Send { message: MessageView::VoteResponse { vote_granted: true, .. }, .. }
}

/// None of the effects sends a granted vote.
pub open spec fn no_grants<T>(effs: Seq<EffectView<T>>) -> bool {
    forall|i: int| 0 <= i < effs.len() ==> !#[trigger] is_grant(effs[i])
}

/// The effects of applying committed entries send nothing.
proof fn lemma_applied_effects_no_grants<T>(entries: Seq<crate::message::Entry<T>>, from: int, to: int)
    ensures
        no_grants(applied_effects(entries, from, to)),
    decreases to - from,
{
    if to > from {
        lemma_applied_effects_no_grants(entries, from, to - 1);
        let a = applied_effects(entries, from, to - 1);
        let b = applied_effects(entries, from, to);
        assert forall|i: int| 0 <= i < b.len() implies !#[trigger] is_grant(b[i]) by {
            if i < a.len() {
                assert(b[i] == a[i]);
            }
        }
    }
}

/// Applying the ready entries leaves the election state of a replica as it
/// was and sends no granted vote.
proof fn lemma_apply_keeps_election_state<T>(s: ReplicaView<T>)
    ensures
        apply_ready_entries(s).0.id == s.id,
        apply_ready_entries(s).0.peer_ids == s.peer_ids,
        apply_ready_entries(s).0.current_term == s.current_term,
        apply_ready_entries(s).0.state == s.state,
        apply_ready_entries(s).0.voted_for == s.voted_for,
        apply_ready_entries(s).0.current_votes == s.current_votes,
        no_grants(apply_ready_entries(s).1),
{
    if s.commit_index < s.entries.len() {
        let c = crate::replica_model::leader_commit_index(s);
        let ce = committed_effects(s.entries, s.commit_index as int, c as int);
        let ae = applied_effects(s.entries, s.last_applied as int, c as int);
        lemma_applied_effects_no_grants(s.entries, s.last_applied as int, c as int);
        assert forall|i: int| 0 <= i < ce.len() implies !#[trigger] is_grant(ce[i]) by {}
        let e = apply_committed_entries(s).1;
        assert(e == ce + ae);
        assert forall|i: int| 0 <= i < e.len() implies !#[trigger] is_grant(e[i]) by {
            if i < ce.len() {
                assert(e[i] == ce[i]);
            } else {
                assert(e[i] == ae[i - ce.len()]);
            }
        }
    }
}

/// The part of a replica's well-formedness that elections rest on: a
/// replica counts votes exactly when it is a candidate, and a candidate has
/// voted for itself.
pub open spec fn election_wf<T>(s: ReplicaView<T>) -> bool {
    &&& (s.state == State::Candidate) == (s.current_votes is Some)
    &&& s.state == State::Candidate ==> s.voted_for == Some(s.id)
}

/// A granted vote among the effects is cast by the replica, in its term,
/// for the candidate it has recorded.
pub open spec fn grant_recorded<T>(s: ReplicaView<T>, e: EffectView<T>) -> bool {
    match e {
        EffectView::Send { to_id, message: MessageView::VoteResponse { from_id, term, .. } } =>
            from_id == s.id && term == s.current_term && s.voted_for == Some(to_id),
        _ => true,
    }
}

/// Every granted vote among the effects is recorded by the replica.
pub open spec fn grants_recorded<T>(s: ReplicaView<T>, effs: Seq<EffectView<T>>) -> bool {
    forall|i: int| 0 <= i < effs.len() && #[trigger] is_grant(effs[i]) ==> grant_recorded(s, effs[i])
}

/// The event is the delivery of a vote granted by the replica voter in the
/// term.
pub open spec fn delivers_grant<T>(ev: EventView<T>, voter: usize, term: usize) -> bool {
    ev == EventView::Messages(
        seq![MessageView::<T>::VoteResponse { from_id: voter, term, vote_granted: true }],
    )
}

/// What one step of a replica does to its part in elections.
pub open spec fn election_step<T>(s: ReplicaView<T>, ev: EventView<T>, s2: ReplicaView<T>, effs: Seq<EffectView<T>>) -> bool {
    &&& s2.id == s.id
    &&& s2.peer_ids == s.peer_ids
    &&& election_wf(s2)
    &&& s2.current_term >= s.current_term
    &&& (s2.current_term == s.current_term && s.voted_for is Some ==> s2.voted_for == s.voted_for)
    &&& grants_recorded(s2, effs)
    &&& (s2.state == State::Candidate ==> forall|v: usize| #[trigger] s2.current_votes->0.contains(v) ==> v == s2.id
        || (s.state == State::Candidate && s.current_term == s2.current_term
            && s.current_votes->0.contains(v)) || delivers_grant(ev, v, s2.current_term))
    &&& (s2.state == State::Leader ==> (s.state == State::Leader && s.current_term == s2.current_term)
        || (s.state == State::Candidate && s.current_term == s2.current_term && exists|v: usize|
        delivers_grant(ev, v, s2.current_term) && is_majority(
            #[trigger] s.current_votes->0.insert(v).len(),
            s.peer_ids.len(),
        )))
}

/// Concatenated effects without granted votes have none.
proof fn lemma_no_grants_concat<T>(a: Seq<EffectView<T>>, b: Seq<EffectView<T>>)
    requires
        no_grants(a),
        no_grants(b),
    ensures
        no_grants(a + b),
{
    assert forall|i: int| 0 <= i < (a + b).len() implies !#[trigger] is_grant((a + b)[i]) by {
        if i < a.len() {
            assert((a + b)[i] == a[i]);
        } else {
            assert((a + b)[i] == b[i - a.len()]);
        }
    }
}

/// The registrations of cut and of committed entries send nothing.
proof fn lemma_registrations_no_grants<T>(
    cut: Seq<crate::message::Entry<T>>,
    log: Seq<crate::message::Entry<T>>,
    from: int,
    to: int,
)
    ensures
        no_grants(abandoned_effects(cut)),
        no_grants(committed_effects(log, from, to)),
{
    let a = abandoned_effects(cut);
    assert forall|i: int| 0 <= i < a.len() implies !#[trigger] is_grant(a[i]) by {}
    let c = committed_effects(log, from, to);
    assert forall|i: int| 0 <= i < c.len() implies !#[trigger] is_grant(c[i]) by {}
}

/// A follower's step keeps it a follower that counts no votes, and records
/// every vote it grants.
proof fn lemma_follower_step<T>(s: ReplicaView<T>, m: MessageView<T>)
    requires
        s.state == State::Follower,
        s.current_votes is None,
    ensures
        ({
            let (s2, effs) = process_message_as_follower(s, m);
            &&& s2.id == s.id
            &&& s2.peer_ids == s.peer_ids
            &&& s2.state == State::Follower
            &&& s2.current_votes is None
            &&& s2.current_term >= s.current_term
            &&& (s2.current_term == s.current_term && s.voted_for is Some ==> s2.voted_for
                == s.voted_for)
            &&& grants_recorded(s2, effs)
        }),
{
    let (s2, effs) = process_message_as_follower(s, m);
    match m {
        MessageView::AppendEntryRequest {
            from_id,
            term,
            prev_log_index,
            prev_log_term,
            entries,
            commit_index,
        } => {
            let s1 = if term > s.current_term {
                become_follower(s, term)
            } else {
                s
            };
            if !(s.current_term > term || prev_log_index >= s.entries.len()
                || s.entries[prev_log_index as int].term != prev_log_term) {
                let log = merge_entries(s.entries, entries);
                let c = follower_commit_index(s.commit_index, log, commit_index);
                lemma_registrations_no_grants(cut_by_entries(s.entries, entries), log, s.commit_index as int, c as int);
                let a = abandoned_effects(cut_by_entries(s.entries, entries));
                let b = committed_effects(log, s.commit_index as int, c as int);
                let s2x = ReplicaView { entries: log, commit_index: c, ..s1 };
                let tail = seq![
                    EffectView::RegisterLeader(Some(from_id)),
                    send(from_id, crate::replica_model::append_ack(s2x, crate::replica_model::matched_index(prev_log_index, entries))),
                ];
                assert forall|i: int| 0 <= i < tail.len() implies !#[trigger] is_grant(tail[i]) by {}
                lemma_no_grants_concat(a, b);
                lemma_no_grants_concat(a + b, tail);
                assert(effs == a + b + tail);
            }
        },
        _ => {},
    }
}

/// One message handled in the role the replica plays keeps to the rules
/// of elections.
proof fn lemma_message_step<T>(s: ReplicaView<T>, m: MessageView<T>)
    requires
        election_wf(s),
    ensures
        election_step(
            s,
            EventView::Messages(seq![m]),
            step_message(s, m).0,
            step_message(s, m).1,
        ),
{
    let ev = EventView::Messages(seq![m]);
    let (s2, effs) = step_message(s, m);
    match s.state {
        State::Leader => {
            assert forall|i: int| 0 <= i < effs.len() implies !#[trigger] is_grant(effs[i]) by {}
        },
        State::Follower => {
            lemma_follower_step(s, m);
        },
        State::Candidate => {
            match m {
                MessageView::AppendEntryRequest { term, from_id, .. } => {
                    if term >= s.current_term {
                        let f = become_follower(s, term);
                        lemma_follower_step(f, m);
                        let (s1, e1) = process_message_as_follower(f, m);
                        let pre = seq![EffectView::<T>::RegisterLeader(Some(from_id))];
                        assert(effs == pre + e1);
                        assert forall|i: int| 0 <= i < effs.len() && #[trigger] is_grant(effs[i])
                            implies grant_recorded(s2, effs[i]) by {
                            assert(i >= 1);
                            assert(effs[i] == e1[i - 1]);
                        }
                    } else {
                        assert forall|i: int| 0 <= i < effs.len() implies !#[trigger] is_grant(effs[i]) by {}
                    }
                },
                MessageView::VoteRequest { term, from_id, .. } => {
                    if term > s.current_term {
                        lemma_follower_step(become_follower(s, term), m);
                    }
                },
                MessageView::VoteResponse { from_id, term, vote_granted } => {
                    if term > s.current_term {
                    } else if term == s.current_term && vote_granted {
                        let votes = s.current_votes->0;
                        let v2 = votes.insert(from_id);
                        if is_majority(v2.len(), s.peer_ids.len()) {
                            assert(delivers_grant(ev, from_id, s2.current_term));
                        } else {
                            assert forall|v: usize| #[trigger] s2.current_votes->0.contains(v) implies v
                                == s2.id || (s.state == State::Candidate && s.current_term
                                == s2.current_term && s.current_votes->0.contains(v))
                                || delivers_grant(ev, v, s2.current_term) by {
                                if v == from_id {
                                    assert(delivers_grant(ev, v, s2.current_term));
                                }
                            }
                        }
                    }
                },
                MessageView::AppendEntryResponse { .. } => {},
            }
        },
    }
}

/// One event that a replica can handle, with at most one message, keeps to
/// the rules of elections.
pub(crate) proof fn lemma_event_step<T>(s: ReplicaView<T>, ev: EventView<T>)
    requires
        election_wf(s),
        event_ok(s, ev),
        ev is Messages ==> ev->Messages_0.len() == 1,
    ensures
        election_step(s, ev, step_event(s, ev).0, step_event(s, ev).1),
{
    let (s1, e1) = react(s, ev);
    match ev {
        EventView::Messages(ms) => {
            let m = ms[0];
            assert(ms =~= seq![m]);
            assert(ms.drop_last() =~= Seq::<MessageView<T>>::empty());
            lemma_message_step(s, m);
            assert(e1 =~= step_message(s, m).1);
        },
        EventView::Transitions(ts) => {
            assert forall|i: int| 0 <= i < e1.len() implies !#[trigger] is_grant(e1[i]) by {}
        },
        EventView::HeartbeatDue => {
            assert forall|i: int| 0 <= i < e1.len() implies !#[trigger] is_grant(e1[i]) by {}
        },
        EventView::ElectionTimeout => {
            assert forall|i: int| 0 <= i < e1.len() implies !#[trigger] is_grant(e1[i]) by {}
        },
    }
    assert(election_step(s, ev, s1, e1));
    lemma_apply_keeps_election_state(s1);
    let (s2, e2) = apply_ready_entries(s1);
    let effs = step_event(s, ev).1;
    assert(effs == e1 + e2);
    assert forall|i: int| 0 <= i < effs.len() && #[trigger] is_grant(effs[i]) implies grant_recorded(
        s2,
        effs[i],
    ) by {
        if i < e1.len() {
            assert(effs[i] == e1[i]);
            assert(grant_recorded(s1, e1[i]));
        } else {
            assert(effs[i] == e2[i - e1.len()]);
        }
    }
}

/// A cluster of replicas as mathematical values: each replica by its ID;
/// every message ever sent, with its addressee, which the network may
/// deliver at any time, any number of times, or never; and each vote ever
/// cast, as the voter, the term and the candidate.
#[verifier::reject_recursive_types(T)]
pub struct ClusterView<T> {
    pub replicas: Map<usize, ReplicaView<T>>,
    pub network: Set<(usize, MessageView<T>)>,
    pub votes: Set<(usize, usize, usize)>,
}

/// What can happen in a cluster: a message reaches its addressee, the
/// election timer of a replica runs out, the heartbeat timer of a replica
/// fires, or the user submits transitions to a replica.
pub enum ClusterEvent<T> {
    Deliver(usize, MessageView<T>),
    Timeout(usize),
    Heartbeat(usize),
    Submit(usize, Seq<T>),
}

/// The replica an event happens to.
pub open spec fn target<T>(e: ClusterEvent<T>) -> usize {
    match e {
        ClusterEvent::Deliver(r, _) => r,
        ClusterEvent::Timeout(r) => r,
        ClusterEvent::Heartbeat(r) => r,
        ClusterEvent::Submit(r, _) => r,
    }
}

/// The event as the replica handles it.
pub open spec fn replica_event<T>(e: ClusterEvent<T>) -> EventView<T> {
    match e {
        ClusterEvent::Deliver(_, m) => EventView::Messages(seq![m]),
        ClusterEvent::Timeout(_) => EventView::ElectionTimeout,
        ClusterEvent::Heartbeat(_) => EventView::HeartbeatDue,
        ClusterEvent::Submit(_, ts) => EventView::Transitions(ts),
    }
}

/// An event can happen to a replica of the cluster that can handle it, and
/// whose log it leaves within what a vector holds; a message can only reach
/// its addressee once it has been sent.
pub open spec fn can_happen<T>(c: ClusterView<T>, e: ClusterEvent<T>) -> bool {
    &&& c.replicas.contains_key(target(e))
    &&& event_ok(c.replicas[target(e)], replica_event(e))
    &&& step_event(c.replicas[target(e)], replica_event(e)).0.entries.len() <= usize::MAX
    &&& (e matches ClusterEvent::Deliver(r, m) ==> c.network.contains((r, m)))
}

/// The messages that effects send, with their addressees.
pub open spec fn sent<T>(effs: Seq<EffectView<T>>) -> Set<(usize, MessageView<T>)> {
    Set::new(
        |p: (usize, MessageView<T>)|
            exists|i: int|
                0 <= i < effs.len() && effs[i] == (EffectView::Send { to_id: p.0, message: p.1 }),
    )
}

/// The vote a replica holds: its ID, its term and the candidate it voted
/// for, if it voted in its term.
pub open spec fn held_vote<T>(s: ReplicaView<T>) -> Set<(usize, usize, usize)> {
    match s.voted_for {
        Some(x) => set![(s.id, s.current_term, x)],
        None => Set::empty(),
    }
}

/// The cluster after an event: the replica it happens to takes its step,
/// the messages it sends join the network, and the vote it holds joins the
/// votes cast.
pub open spec fn cluster_step<T>(c: ClusterView<T>, e: ClusterEvent<T>) -> ClusterView<T> {
    let r = target(e);
    let (s2, effs) = step_event(c.replicas[r], replica_event(e));
    ClusterView {
        replicas: c.replicas.insert(r, s2),
        network: c.network.union(sent(effs)),
        votes: c.votes.union(held_vote(s2)),
    }
}

/// The cluster after events, one after the other.
pub open spec fn cluster_run<T>(c: ClusterView<T>, es: Seq<ClusterEvent<T>>) -> ClusterView<T>
    decreases es.len(),
{
    if es.len() == 0 {
        c
    } else {
        cluster_step(cluster_run(c, es.drop_last()), es.last())
    }
}

/// Each of the events can happen when it comes.
pub open spec fn run_can_happen<T>(c: ClusterView<T>, es: Seq<ClusterEvent<T>>) -> bool
    decreases es.len(),
{
    es.len() == 0 || (run_can_happen(c, es.drop_last()) && can_happen(
        cluster_run(c, es.drop_last()),
        es.last(),
    ))
}

/// A cluster as it starts: finitely many replicas, each a follower that has
/// cast no vote and counts none, whose peers are all the other replicas, each
/// once; no message sent and no vote cast.
pub open spec fn initial_cluster<T>(c: ClusterView<T>) -> bool {
    &&& c.replicas.dom().finite()
    &&& c.network == Set::<(usize, MessageView<T>)>::empty()
    &&& c.votes == Set::<(usize, usize, usize)>::empty()
    &&& forall|k: usize| #[trigger]
        c.replicas.contains_key(k) ==> {
            let s = c.replicas[k];
            &&& s.id == k
            &&& s.state == State::Follower
            &&& s.current_votes is None
            &&& s.voted_for is None
            &&& s.peer_ids.no_duplicates()
            &&& s.peer_ids.to_set() == c.replicas.dom().remove(k)
        }
}

/// A set of replicas that are a majority of the cluster and all voted for
/// the candidate k in the term.
pub open spec fn quorum_for<T>(c: ClusterView<T>, k: usize, term: usize, q: Set<usize>) -> bool {
    &&& q.subset_of(c.replicas.dom())
    &&& 2 * q.len() > c.replicas.dom().len()
    &&& forall|v: usize| #[trigger] q.contains(v) ==> c.votes.contains((v, term, k))
}

/// What holds of every cluster that its events lead to.
pub open spec fn cluster_inv<T>(c: ClusterView<T>) -> bool {
    &&& c.replicas.dom().finite()
    &&& forall|k: usize| #[trigger]
        c.replicas.contains_key(k) ==> {
            let s = c.replicas[k];
            &&& s.id == k
            &&& election_wf(s)
            &&& s.peer_ids.no_duplicates()
            &&& s.peer_ids.to_set() == c.replicas.dom().remove(k)
            &&& (s.voted_for matches Some(x) ==> c.votes.contains((k, s.current_term, x)))
            &&& (s.state == State::Candidate ==> forall|v: usize| #[trigger]
                s.current_votes->0.contains(v) ==> c.votes.contains((v, s.current_term, k)))
            &&& (s.state == State::Leader ==> exists|q: Set<usize>| quorum_for(c, k, s.current_term, q))
        }
    &&& forall|v: usize, t: usize, x: usize| #[trigger]
        c.votes.contains((v, t, x)) ==> c.replicas.contains_key(v) && t
            <= c.replicas[v].current_term && (t == c.replicas[v].current_term
            ==> c.replicas[v].voted_for == Some(x))
    &&& forall|v: usize, t: usize, x: usize, y: usize|
        #![trigger c.votes.contains((v, t, x)), c.votes.contains((v, t, y))]
        c.votes.contains((v, t, x)) && c.votes.contains((v, t, y)) ==> x == y
    &&& forall|to: usize, m: MessageView<T>| #[trigger]
        c.network.contains((to, m)) ==> (m matches MessageView::VoteResponse {
            from_id,
            term,
            vote_granted,
        } ==> vote_granted ==> c.votes.contains((from_id, term, to)))
}

/// A cluster as it starts keeps to the invariant.
pub(crate) proof fn lemma_initial_inv<T>(c: ClusterView<T>)
    requires
        initial_cluster(c),
    ensures
        cluster_inv(c),
{
}

/// An event that can happen keeps the invariant.
pub(crate) proof fn lemma_step_inv<T>(c: ClusterView<T>, e: ClusterEvent<T>)
    requires
        cluster_inv(c),
        can_happen(c, e),
    ensures
        cluster_inv(cluster_step(c, e)),
{
    let r = target(e);
    let ev = replica_event(e);
    let s = c.replicas[r];
    let (s2, effs) = step_event(s, ev);
    let c2 = cluster_step(c, e);
    lemma_event_step(s, ev);
    assert(c2.replicas.dom() =~= c.replicas.dom());
    // Votes cast: at most one candidate per voter and term.
    assert forall|v: usize, t: usize, x: usize, y: usize|
        c2.votes.contains((v, t, x)) && c2.votes.contains((v, t, y)) implies x == y by {
        if v == r && t == s2.current_term {
            if c.votes.contains((v, t, x)) {
                assert(s.voted_for == Some(x));
            }
            if c.votes.contains((v, t, y)) {
                assert(s.voted_for == Some(y));
            }
        }
    }
    assert forall|v: usize, t: usize, x: usize| #[trigger] c2.votes.contains((v, t, x)) implies c2.replicas.contains_key(v) && t
        <= c2.replicas[v].current_term && (t == c2.replicas[v].current_term
        ==> c2.replicas[v].voted_for == Some(x)) by {
        if v == r && c.votes.contains((v, t, x)) && t == s2.current_term {
            assert(s.voted_for == Some(x));
        }
    }
    // Messages sent: a granted vote is a vote cast.
    assert forall|to: usize, m: MessageView<T>| #[trigger] c2.network.contains((to, m)) implies (
    m matches MessageView::VoteResponse { from_id, term, vote_granted } ==> vote_granted
        ==> c2.votes.contains((from_id, term, to))) by {
        if !c.network.contains((to, m)) {
            let i = choose|i: int|
                0 <= i < effs.len() && effs[i] == (EffectView::Send { to_id: to, message: m });
            if is_grant(effs[i]) {
                assert(grant_recorded(s2, effs[i]));
            }
        }
    }
    // Replicas: the one that took the step, and the others, unchanged.
    assert forall|k: usize| #[trigger] c2.replicas.contains_key(k) implies {
        let sk = c2.replicas[k];
        &&& sk.id == k
        &&& election_wf(sk)
        &&& sk.peer_ids.no_duplicates()
        &&& sk.peer_ids.to_set() == c2.replicas.dom().remove(k)
        &&& (sk.voted_for matches Some(x) ==> c2.votes.contains((k, sk.current_term, x)))
        &&& (sk.state == State::Candidate ==> forall|v: usize| #[trigger]
            sk.current_votes->0.contains(v) ==> c2.votes.contains((v, sk.current_term, k)))
        &&& (sk.state == State::Leader ==> exists|q: Set<usize>| quorum_for(c2, k, sk.current_term, q))
    } by {
        let sk = c2.replicas[k];
        if k != r {
            assert(sk == c.replicas[k]);
            if sk.state == State::Leader {
                let q = choose|q: Set<usize>| quorum_for(c, k, sk.current_term, q);
                assert(quorum_for(c2, k, sk.current_term, q));
            }
        } else {
            assert(sk == s2);
            if s2.state == State::Candidate {
                assert forall|v: usize| #[trigger] s2.current_votes->0.contains(v) implies c2.votes.contains((v, s2.current_term, k)) by {
                    if v == s2.id {
                        assert(held_vote(s2).contains((v, s2.current_term, k)));
                    } else if s.state == State::Candidate && s.current_term == s2.current_term
                        && s.current_votes->0.contains(v) {
                    } else {
                        assert(delivers_grant(ev, v, s2.current_term));
                        let m = MessageView::<T>::VoteResponse { from_id: v, term: s2.current_term, vote_granted: true };
                        assert(ev->Messages_0[0] == m);
                        assert(c.network.contains((r, m)));
                    }
                }
            }
            if s2.state == State::Leader {
                if s.state == State::Leader && s.current_term == s2.current_term {
                    let q = choose|q: Set<usize>| quorum_for(c, k, s.current_term, q);
                    assert(quorum_for(c2, k, s2.current_term, q));
                } else {
                    let v = choose|v: usize| delivers_grant(ev, v, s2.current_term) && is_majority(
                        #[trigger] s.current_votes->0.insert(v).len(),
                        s.peer_ids.len(),
                    );
                    let m = MessageView::<T>::VoteResponse { from_id: v, term: s2.current_term, vote_granted: true };
                    assert(ev->Messages_0[0] == m);
                    assert(c.network.contains((r, m)));
                    let q = s.current_votes->0.insert(v);
                    assert(q.subset_of(c.replicas.dom())) by {
                        assert forall|u: usize| q.contains(u) implies c.replicas.dom().contains(u) by {
                            if u != v {
                                assert(c.votes.contains((u, s.current_term, r)));
                            }
                        }
                    }
                    s.peer_ids.unique_seq_to_set();
                    assert(c.replicas.dom().remove(r).len() == c.replicas.dom().len() - 1);
                    assert forall|u: usize| #[trigger] q.contains(u) implies c2.votes.contains((u, s2.current_term, k)) by {
                        if u != v {
                            assert(c.votes.contains((u, s.current_term, r)));
                        }
                    }
                    assert(quorum_for(c2, k, s2.current_term, q));
                }
            }
        }
    }
}

/// Two majorities of a finite set of replicas share a replica.
pub proof fn lemma_majorities_intersect(all: Set<usize>, a: Set<usize>, b: Set<usize>)
    requires
        all.finite(),
        a.subset_of(all),
        b.subset_of(all),
        2 * a.len() > all.len(),
        2 * b.len() > all.len(),
    ensures
        exists|v: usize| a.contains(v) && b.contains(v),
{
    lemma_len_subset(a, all);
    lemma_len_subset(b, all);
    lemma_set_intersect_union_lens(a, b);
    lemma_len_subset(a.union(b), all);
    let i = a.intersect(b);
    assert(i.len() > 0);
    assert(i.finite());
    assert(i.contains(i.choose()));
}

/// Events lead from a starting cluster to clusters that keep the invariant.
proof fn lemma_run_inv<T>(c: ClusterView<T>, es: Seq<ClusterEvent<T>>)
    requires
        initial_cluster(c),
        run_can_happen(c, es),
    ensures
        cluster_inv(cluster_run(c, es)),
    decreases es.len(),
{
    if es.len() == 0 {
        lemma_initial_inv(c);
    } else {
        lemma_run_inv(c, es.drop_last());
        lemma_step_inv(cluster_run(c, es.drop_last()), es.last());
    }
}

/// In a cluster that keeps the invariant, two leaders of one term are the
/// same replica.
pub(crate) proof fn lemma_unique_leader<T>(c: ClusterView<T>, a: usize, b: usize, t: usize)
    requires
        cluster_inv(c),
        exists|q: Set<usize>| quorum_for(c, a, t, q),
        exists|q: Set<usize>| quorum_for(c, b, t, q),
    ensures
        a == b,
{
    let qa = choose|q: Set<usize>| quorum_for(c, a, t, q);
    let qb = choose|q: Set<usize>| quorum_for(c, b, t, q);
    lemma_majorities_intersect(c.replicas.dom(), qa, qb);
    let v = choose|v: usize| qa.contains(v) && qb.contains(v);
    assert(c.votes.contains((v, t, a)));
    assert(c.votes.contains((v, t, b)));
}

/// Election safety: whatever events happen to a cluster that starts with
/// followers that know each other, with messages delayed, reordered,
/// duplicated or lost, no two replicas are ever leaders of the same term.
pub proof fn law_one_leader_per_term<T>(c: ClusterView<T>, es: Seq<ClusterEvent<T>>, a: usize, b: usize)
    requires
        initial_cluster(c),
        run_can_happen(c, es),
        cluster_run(c, es).replicas.contains_key(a),
        cluster_run(c, es).replicas.contains_key(b),
        cluster_run(c, es).replicas[a].state == State::Leader,
        cluster_run(c, es).replicas[b].state == State::Leader,
        cluster_run(c, es).replicas[a].current_term == cluster_run(c, es).replicas[b].current_term,
    ensures
        a == b,
{
    let c2 = cluster_run(c, es);
    lemma_run_inv(c, es);
    lemma_unique_leader(c2, a, b, c2.replicas[a].current_term);
}

/// One vote per term, across every step of every replica: whatever events
/// happen to a cluster that starts with followers that know each other,
/// with messages delayed, reordered, duplicated or lost, two granted votes
/// that a replica sent in one term went to the same candidate.
pub proof fn law_one_grant_per_term<T>(
    c: ClusterView<T>,
    es: Seq<ClusterEvent<T>>,
    voter: usize,
    term: usize,
    a: usize,
    b: usize,
)
    requires
        initial_cluster(c),
        run_can_happen(c, es),
        cluster_run(c, es).network.contains(
            (a, MessageView::VoteResponse { from_id: voter, term, vote_granted: true }),
        ),
        cluster_run(c, es).network.contains(
            (b, MessageView::VoteResponse { from_id: voter, term, vote_granted: true }),
        ),
    ensures
        a == b,
{
    let c2 = cluster_run(c, es);
    lemma_run_inv(c, es);
    assert(c2.votes.contains((voter, term, a)));
    assert(c2.votes.contains((voter, term, b)));
}

} // verus!
