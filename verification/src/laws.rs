//! Properties of the replica's steps that span several steps or hold of
//! every step, stated over the model that the steps' contracts use.
use crate::message::{EffectView, Entry, MessageView};
use crate::replica::State;
use crate::replica_model::{
    apply_ready_entries, become_candidate, can_commit, is_highest_committable,
    leader_can_process, leader_commit_index, lemma_merge_entries_well_formed, load_new_entries, log_well_formed, merge_entries, merge_entry,
    process_append_entry_request_as_follower, process_message_as_candidate,
    process_message_as_follower, process_message_as_leader, process_vote_request_as_follower,
    is_majority, send, vote_response, ReplicaView,
};
use crate::state_machine::{TransitionAbandonedReason, TransitionState};
use crate::demo::model::{
    become_alive as demo_become_alive, become_dead as demo_become_dead,
    process_vote_request as demo_process_vote_request, vote_response as demo_vote_response,
    process_message_as_candidate as demo_process_message_as_candidate, DemoView,
    process_message_as_follower as demo_process_message_as_follower, follower_can_process,
    append_accepted, delta_sum, log_indexed, merge_log_entry, merge_log_entries, applied_up_to,
};
use crate::demo::types::Log;
use crate::demo::model::{
    consensus_event_ok as demo_consensus_event_ok, consensus_on_event as demo_consensus_on_event,
    event_ok as demo_event_ok, on_event as demo_on_event,
    process_control_message as demo_process_control_message,
};
use crate::demo::types::ControlMessage;
use crate::demo::model::{
    consensus_process_message_as_candidate as demo_consensus_process_message_as_candidate,
    consensus_process_message_as_follower as demo_consensus_process_message_as_follower,
    process_message_as_leader as demo_process_message_as_leader,
};
use crate::demo::types::{MessageView as DemoMessageView, State as DemoState};
use vstd::prelude::*;

verus! {

/// A replica's term never decreases: whatever message a follower, a
/// candidate or a leader processes, its term afterwards is at least the one
/// it had, and starting an election moves it to the next term.
pub proof fn law_terms_never_decrease<T>(s: ReplicaView<T>, m: MessageView<T>)
    requires
        s.wf(),
        s.current_term < usize::MAX,
    ensures
        process_message_as_follower(s, m).0.current_term >= s.current_term,
        process_message_as_candidate(s, m).0.current_term >= s.current_term,
        process_message_as_leader(s, m).0.current_term >= s.current_term,
        become_candidate(s).0.current_term == s.current_term + 1,
{
}

/// A replica never takes back an application: whatever step it takes, the
/// index of its last applied entry does not decrease.
pub proof fn law_last_applied_never_decreases<T>(s: ReplicaView<T>, m: MessageView<T>, ts: Seq<T>)
    requires
        s.wf(),
    ensures
        process_message_as_follower(s, m).0.last_applied == s.last_applied,
        process_message_as_candidate(s, m).0.last_applied == s.last_applied,
        process_message_as_leader(s, m).0.last_applied == s.last_applied,
        become_candidate(s).0.last_applied == s.last_applied,
        load_new_entries(s, ts).0.last_applied == s.last_applied,
        apply_ready_entries(s).0.last_applied >= s.last_applied,
{
    law_commit_rule(s);
}

/// A leader never rewrites its log: processing the answers of its peers and
/// moving its commit index leave its log as it was, and loading new
/// transitions only appends after it.
pub proof fn law_leader_log_append_only<T>(s: ReplicaView<T>, m: MessageView<T>, ts: Seq<T>)
    requires
        s.wf(),
        s.state == State::Leader,
        leader_can_process(s, m),
    ensures
        process_message_as_leader(s, m).0.entries == s.entries,
        apply_ready_entries(s).0.entries == s.entries,
        load_new_entries(s, ts).0.entries.take(s.entries.len() as int) == s.entries,
        load_new_entries(s, ts).0.entries.len() == s.entries.len() + ts.len(),
{
    assert(load_new_entries(s, ts).0.entries.take(s.entries.len() as int) =~= s.entries);
}

/// Only a leader accepts new transitions: any other replica stays as it was
/// and registers each transition as abandoned, as it is not the leader.
pub proof fn law_only_leader_accepts_transitions<T>(s: ReplicaView<T>, ts: Seq<T>)
    requires
        s.state != State::Leader,
    ensures
        load_new_entries(s, ts).0 == s,
        load_new_entries(s, ts).1.len() == ts.len(),
        forall|i: int|
            0 <= i < ts.len() ==> #[trigger] load_new_entries(s, ts).1[i]
                == EffectView::RegisterTransitionState(
                ts[i],
                TransitionState::Abandoned(TransitionAbandonedReason::NotLeader),
            ),
{
}

/// The commit rule: the commit index only moves forward, and only a leader
/// moves it, to an entry of its own term that half of its peers or more
/// hold; after the step every committed entry inside the log has been
/// applied.
pub proof fn law_commit_rule<T>(s: ReplicaView<T>)
    requires
        s.wf(),
    ensures
        apply_ready_entries(s).0.commit_index >= s.commit_index,
        apply_ready_entries(s).0.commit_index > s.commit_index ==> s.state == State::Leader
            && can_commit(s, apply_ready_entries(s).0.commit_index as int)
            && apply_ready_entries(s).0.commit_index < s.entries.len(),
        s.commit_index < s.entries.len() ==> apply_ready_entries(s).0.last_applied
            >= apply_ready_entries(s).0.commit_index,
        apply_ready_entries(s).0.last_applied >= s.last_applied,
{
    if s.state == State::Leader && exists|n: int| is_highest_committable(s, n) {
        let n = choose|n: int| is_highest_committable(s, n);
        assert(leader_commit_index(s) == n);
    }
}

/// Applying the ready entries is idempotent: right after a replica has
/// applied its ready entries, doing it again changes nothing and emits
/// nothing.
pub proof fn law_apply_ready_entries_idempotent<T>(s: ReplicaView<T>)
    requires
        s.wf(),
    ensures
        apply_ready_entries(apply_ready_entries(s).0).0 == apply_ready_entries(s).0,
        apply_ready_entries(apply_ready_entries(s).0).1 == Seq::<
            EffectView<T>,
        >::empty(),
{
    let s1 = apply_ready_entries(s).0;
    law_commit_rule(s);
    if s.commit_index >= s.entries.len() {
        return;
    }
    if s.state == State::Leader && exists|n: int| is_highest_committable(s, n) {
        let n = choose|n: int| is_highest_committable(s, n);
        assert(leader_commit_index(s) == n);
        assert forall|k: int| !is_highest_committable(s1, k) by {
            if is_highest_committable(s1, k) {
                assert(can_commit(s, k));
            }
        }
    } else {
        assert forall|k: int| !(s1.state == State::Leader && is_highest_committable(s1, k)) by {
            if s1.state == State::Leader && is_highest_committable(s1, k) {
                lemma_highest_committable_exists(s, k);
            }
        }
    }
    let s2 = apply_ready_entries(s1);
    assert(leader_commit_index(s1) == s1.commit_index);
    assert(s2.1 =~= Seq::<EffectView<T>>::empty());
}

/// When some entry past the commit index may be committed, a last such
/// entry exists.
pub proof fn lemma_highest_committable_exists<T>(s: ReplicaView<T>, k: int)
    requires
        s.commit_index < k < s.entries.len(),
        can_commit(s, k),
    ensures
        exists|n: int| is_highest_committable(s, n),
    decreases s.entries.len() - k,
{
    if forall|m: int| k < m < s.entries.len() ==> !can_commit(s, m) {
        assert(is_highest_committable(s, k));
    } else {
        let m = choose|m: int| k < m < s.entries.len() && can_commit(s, m);
        lemma_highest_committable_exists(s, m);
    }
}

/// The entries of an append request that follow its previous entry one
/// after the other.
pub open spec fn consecutive_after<T>(es: Seq<Entry<T>>, prev_log_index: usize) -> bool {
    forall|k: int| 0 <= k < es.len() ==> #[trigger] es[k].index == prev_log_index + 1 + k
}

/// Merging consecutive entries that follow an entry of the log keeps the
/// log up to that entry, and leaves each merged entry's term at its index.
pub proof fn lemma_merge_consecutive<T>(
    log: Seq<Entry<T>>,
    es: Seq<Entry<T>>,
    prev_log_index: usize,
)
    requires
        log_well_formed(log),
        prev_log_index < log.len(),
        consecutive_after(es, prev_log_index),
    ensures
        merge_entries(log, es).len() >= prev_log_index + 1 + es.len(),
        merge_entries(log, es).take(prev_log_index + 1) == log.take(prev_log_index + 1),
        forall|k: int|
            0 <= k < es.len() ==> #[trigger] merge_entries(log, es)[es[k].index as int].term
                == es[k].term,
    decreases es.len(),
{
    if es.len() > 0 {
        let es0 = es.drop_last();
        let e = es.last();
        lemma_merge_consecutive(log, es0, prev_log_index);
        let l0 = merge_entries(log, es0);
        let l1 = merge_entry(l0, e);
        assert(e == es[es.len() - 1]);
        assert(e.index == prev_log_index + es.len());
        let cut = e.index < l0.len() && e.term != l0[e.index as int].term;
        let l0c = if cut {
            l0.take(e.index as int)
        } else {
            l0
        };
        assert(e.index <= l0c.len());
        assert forall|i: int| 0 <= i < l0c.len() implies l1[i] == l0[i] by {}
        assert(l1.take(prev_log_index + 1) =~= log.take(prev_log_index + 1)) by {
            assert forall|i: int| 0 <= i < prev_log_index + 1 implies l1[i] == log[i] by {
                assert(l0.take(prev_log_index + 1)[i] == log.take(prev_log_index + 1)[i]);
            }
        }
        assert forall|k: int| 0 <= k < es.len() implies #[trigger] l1[es[k].index as int].term
            == es[k].term by {
            if k < es.len() - 1 {
                assert(es0[k] == es[k]);
                assert(es[k].index < e.index);
                assert(l0[es0[k].index as int].term == es0[k].term);
            }
        }
    }
}

/// Log matching on acceptance: when a replica accepts an append request
/// whose entries follow its previous entry one after the other, its log
/// keeps every entry up to the previous one, holds each sent entry's term at
/// the entry's index, and extends at least to the last sent entry; the
/// commit index it adopts, if it adopts one, lies inside its log.
pub proof fn law_accepted_append_matches_leader<T>(
    s: ReplicaView<T>,
    from_id: usize,
    term: usize,
    prev_log_index: usize,
    prev_log_term: usize,
    es: Seq<Entry<T>>,
    commit_index: usize,
)
    requires
        s.wf(),
        term >= s.current_term,
        prev_log_index < s.entries.len(),
        s.entries[prev_log_index as int].term == prev_log_term,
        consecutive_after(es, prev_log_index),
    ensures
        ({
            let log = process_append_entry_request_as_follower(
                s,
                from_id,
                term,
                prev_log_index,
                prev_log_term,
                es,
                commit_index,
            ).0.entries;
            &&& log.len() >= prev_log_index + 1 + es.len()
            &&& log.take(prev_log_index + 1) == s.entries.take(prev_log_index + 1)
            &&& forall|k: int| 0 <= k < es.len() ==> #[trigger] log[es[k].index as int].term == es[k].term
        }),
        ({
            let s2 = process_append_entry_request_as_follower(
                s,
                from_id,
                term,
                prev_log_index,
                prev_log_term,
                es,
                commit_index,
            ).0;
            s2.commit_index == s.commit_index || s2.commit_index < s2.entries.len()
        }),
{
    lemma_merge_consecutive(s.entries, es, prev_log_index);
    lemma_merge_entries_well_formed(s.entries, es);
    let log = merge_entries(s.entries, es);
    assert(log.last() == log[log.len() - 1]);
}

/// A granted vote of the candidate's own term that brings its votes to a
/// majority of the cluster.
pub open spec fn winning_vote<T>(s: ReplicaView<T>, m: MessageView<T>) -> bool {
    match m {
        MessageView::VoteResponse { from_id, term, vote_granted } => vote_granted && term
            == s.current_term && match s.current_votes {
            Some(v) => is_majority(v.insert(from_id).len(), s.peer_ids.len()),
            None => false,
        },
        _ => false,
    }
}

/// A replica wins an election only with a granted vote of its own term, once
/// the votes it holds with that one are a majority of the cluster.
pub proof fn law_leader_needs_votes<T>(s: ReplicaView<T>, m: MessageView<T>)
    requires
        s.wf(),
        s.state == State::Candidate,
    ensures
        process_message_as_candidate(s, m).0.state == State::Leader <==> winning_vote(s, m),
{
}

/// One vote per term. A replica that grants its vote to a candidate records
/// the candidate in the candidate's term; while it stays in that term, no
/// step as a follower or a candidate changes the record; and with the
/// record it refuses every other candidate of that term or an older one.
/// So a replica grants its vote in a term to one candidate at most, and two
/// leaders of one term would each need a majority of the cluster.
pub proof fn law_one_vote_per_term<T>(
    s: ReplicaView<T>,
    c: usize,
    d: usize,
    term: usize,
    last_log_index: usize,
    last_log_term: usize,
    m: MessageView<T>,
)
    requires
        s.wf(),
        c != d,
    ensures
        ({
            let (s1, e1) = process_vote_request_as_follower(s, c, term, last_log_index, last_log_term);
            e1 == seq![send(c, MessageView::<T>::VoteResponse { from_id: s.id, term: s1.current_term, vote_granted: true })]
                ==> s1.voted_for == Some(c) && s1.current_term == term
        }),
        s.voted_for == Some(c) && process_message_as_follower(s, m).0.current_term == s.current_term
            ==> process_message_as_follower(s, m).0.voted_for == Some(c),
        s.voted_for == Some(c) && process_message_as_candidate(s, m).0.current_term == s.current_term
            ==> process_message_as_candidate(s, m).0.voted_for == Some(c),
        s.voted_for == Some(c) && term <= s.current_term ==> process_vote_request_as_follower(
            s,
            d,
            term,
            last_log_index,
            last_log_term,
        ).1 == seq![send(d, vote_response(s, false))],
{
    let (s1, e1) = process_vote_request_as_follower(s, c, term, last_log_index, last_log_term);
    let granted = seq![send(c, MessageView::<T>::VoteResponse { from_id: s.id, term: s1.current_term, vote_granted: true })];
    if e1 == granted {
        assert(e1[0] == granted[0]);
    }
    match m {
        MessageView::VoteRequest { from_id, term: t, last_log_index: li, last_log_term: lt } => {
            let r = process_vote_request_as_follower(s, from_id, t, li, lt);
            if s.voted_for == Some(c) && r.0.current_term == s.current_term && from_id != c {
                assert(r.0.voted_for == Some(c));
            }
        },
        MessageView::AppendEntryRequest { from_id, term: t, prev_log_index, prev_log_term, entries, commit_index } => {
            let r = process_append_entry_request_as_follower(s, from_id, t, prev_log_index, prev_log_term, entries, commit_index);
            if t > s.current_term {
                assert(r.0.current_term == t);
            } else {
                assert(r.0.voted_for == s.voted_for);
            }
        },
        _ => {},
    }
}

/// A demo replica that goes down and comes back up plays again the role it
/// played before.
pub proof fn law_demo_down_then_up_restores_role(s: DemoView)
    requires
        s.state != DemoState::Dead,
        s.prev_state == DemoState::Dead,
    ensures
        demo_become_alive(demo_become_dead(s)) == s,
{
}

/// A granted vote of the demo candidate's own term that brings its votes to
/// more than half of the cluster.
pub open spec fn demo_winning_vote(s: DemoView, m: DemoMessageView) -> bool {
    match m {
        DemoMessageView::RequestVoteResponse { from_id, term, vote_granted } => vote_granted
            && term == s.current_term && match s.current_votes {
            Some(v) => 2 * v.insert(from_id).len() > s.peers.len() + 1,
            None => false,
        },
        _ => false,
    }
}

/// A demo replica wins an election exactly with a granted vote of its own
/// term that brings the votes it holds to more than half of the cluster.
pub proof fn law_demo_leader_needs_majority(s: DemoView, m: DemoMessageView)
    requires
        s.wf(),
        s.state == DemoState::Candidate,
    ensures
        demo_process_message_as_candidate(s, m).0.state == DemoState::Leader <==> demo_winning_vote(
            s,
            m,
        ),
{
}

/// One vote per term in the demo cluster: a demo replica that grants its
/// vote records the candidate in the candidate's term, and with the record
/// refuses every other candidate of that term or an older one.
pub proof fn law_demo_one_vote_per_term(
    s: DemoView,
    c: usize,
    d: usize,
    term: usize,
    last_log_index: usize,
    last_log_term: usize,
)
    requires
        c != d,
    ensures
        ({
            let (s1, e1) = demo_process_vote_request(s, c, term, last_log_index, last_log_term);
            e1 == seq![(c, DemoMessageView::RequestVoteResponse { from_id: s.id, term: s1.current_term, vote_granted: true })]
                ==> s1.voted_for == Some(c) && s1.current_term == term
        }),
        s.voted_for == Some(c) && term <= s.current_term ==> demo_process_vote_request(
            s,
            d,
            term,
            last_log_index,
            last_log_term,
        ).1 == seq![(d, demo_vote_response(s, false))],
{
    let (s1, e1) = demo_process_vote_request(s, c, term, last_log_index, last_log_term);
    let granted = seq![(c, DemoMessageView::RequestVoteResponse { from_id: s.id, term: s1.current_term, vote_granted: true })];
    if e1 == granted {
        assert(e1[0] == granted[0]);
    }
}

/// The value of a demo replica as the consensus keeps it: each entry of its
/// log sits at its index, the entries up to the commit index are in the
/// log, the last applied one is committed, and the value is the sum of the
/// changes of the entries up to the last applied one.
pub open spec fn demo_consistent(s: DemoView) -> bool {
    &&& log_indexed(s.log)
    &&& s.last_applied <= s.commit_index < s.log.len()
    &&& s.value == delta_sum(s.log, 0, s.last_applied as int)
}

/// None of the sent entries conflicts with an entry of the log at index n
/// or below.
pub open spec fn agrees_up_to(log: Seq<Log>, es: Seq<Log>, n: int) -> bool {
    forall|k: int|
        0 <= k < es.len() && es[k].index <= n && es[k].index < log.len() ==> #[trigger] es[k].term
            == log[es[k].index as int].term
}

/// Merging entries that agree with the log up to index n keeps the log up
/// to n.
proof fn lemma_merge_keeps_prefix(log: Seq<Log>, es: Seq<Log>, n: int)
    requires
        0 <= n < log.len(),
        agrees_up_to(log, es, n),
    ensures
        merge_log_entries(log, es).len() > n,
        merge_log_entries(log, es).take(n + 1) == log.take(n + 1),
    decreases es.len(),
{
    if es.len() > 0 {
        let es0 = es.drop_last();
        assert(agrees_up_to(log, es0, n)) by {
            assert forall|k: int|
                0 <= k < es0.len() && es0[k].index <= n && es0[k].index < log.len() implies #[trigger] es0[k].term
                == log[es0[k].index as int].term by {
                assert(es0[k] == es[k]);
            }
        }
        lemma_merge_keeps_prefix(log, es0, n);
        let l0 = merge_log_entries(log, es0);
        let e = es.last();
        assert(e == es[es.len() - 1]);
        if e.index <= n {
            assert(l0[e.index as int] == l0.take(n + 1)[e.index as int]);
            assert(log[e.index as int] == log.take(n + 1)[e.index as int]);
        }
        let l1 = merge_log_entry(l0, e);
        assert(l1.take(n + 1) =~= log.take(n + 1)) by {
            assert forall|i: int| 0 <= i < n + 1 implies l1[i] == log[i] by {
                assert(l0.take(n + 1)[i] == log.take(n + 1)[i]);
            }
        }
    }
}

/// The sum of the changes up to b is the sum up to a and then from a to b.
proof fn lemma_delta_sum_split(log: Seq<Log>, a: int, b: int)
    requires
        0 <= a <= b,
    ensures
        delta_sum(log, 0, b) == delta_sum(log, 0, a) + delta_sum(log, a, b),
    decreases b - a,
{
    if a < b {
        lemma_delta_sum_split(log, a, b - 1);
    }
}

/// The sum of the changes up to a depends only on the log up to a.
proof fn lemma_delta_sum_prefix(l1: Seq<Log>, l2: Seq<Log>, a: int)
    requires
        0 <= a < l1.len(),
        a < l2.len(),
        l1.take(a + 1) == l2.take(a + 1),
    ensures
        delta_sum(l1, 0, a) == delta_sum(l2, 0, a),
    decreases a,
{
    if a > 0 {
        assert(l1.take(a) =~= l1.take(a + 1).take(a));
        assert(l2.take(a) =~= l2.take(a + 1).take(a));
        lemma_delta_sum_prefix(l1, l2, a - 1);
        assert(l1[a] == l1.take(a + 1)[a]);
        assert(l2[a] == l2.take(a + 1)[a]);
    }
}

/// A demo replica keeps its value consistent: whatever a follower
/// processes, each entry of its log stays at its index and it never takes
/// back an application; a refused append request changes nothing; and as
/// long as the entries a leader sends agree with its committed entries, its
/// value stays the sum of the changes it has applied.
pub proof fn law_demo_follower_keeps_value(s: DemoView, m: DemoMessageView)
    requires
        s.wf(),
        follower_can_process(s, m),
        demo_consistent(s),
        m matches DemoMessageView::AppendEntryRequest { entries, .. } ==> agrees_up_to(
            s.log,
            entries,
            s.commit_index as int,
        ),
    ensures
        log_indexed(demo_process_message_as_follower(s, m).0.log),
        demo_process_message_as_follower(s, m).0.last_applied >= s.last_applied,
        demo_consistent(demo_process_message_as_follower(s, m).0),
        m matches DemoMessageView::AppendEntryRequest { term, prev_log_index, prev_log_term, .. }
            ==> !append_accepted(s, term, prev_log_index, prev_log_term) ==> demo_process_message_as_follower(s, m).0 == s,
{
    match m {
        DemoMessageView::AppendEntryRequest {
            term,
            prev_log_index,
            prev_log_term,
            entries,
            commit_index,
            ..
        } => {
            if append_accepted(s, term, prev_log_index, prev_log_term) {
                let log = merge_log_entries(s.log, entries);
                crate::demo::model::lemma_merge_log_entries_indexed(s.log, entries);
                lemma_merge_keeps_prefix(s.log, entries, s.commit_index as int);
                let la0 = s.last_applied as int;
                let la = applied_up_to(s.last_applied, log.len() as int, commit_index);
                assert(log.last() == log[log.len() - 1]);
                assert(log.take(la0 + 1) =~= log.take(s.commit_index + 1).take(la0 + 1));
                assert(s.log.take(la0 + 1) =~= s.log.take(s.commit_index + 1).take(la0 + 1));
                lemma_delta_sum_prefix(s.log, log, la0);
                lemma_delta_sum_split(log, la0, la);
                if la > la0 {
                    assert(i32::MIN <= s.value + delta_sum(log, la0, la) <= i32::MAX);
                }
            }
        },
        _ => {},
    }
}

/// The message sent is a granted vote.
pub open spec fn demo_grants(m: (usize, DemoMessageView)) -> bool {
    m.1 matches DemoMessageView::RequestVoteResponse { vote_granted: true, .. }
}

/// A demo replica keeps its vote within a term: no step it can take, on a
/// message, a timeout or a control message, that leaves its term as it was
/// changes the candidate it voted for; and every vote a step grants goes to
/// the candidate it then records, in its term. So within a term a demo
/// replica grants its vote to one candidate.
pub proof fn law_demo_vote_kept(s: DemoView, msg: Option<DemoMessageView>, ctl: ControlMessage, c: usize)
    requires
        demo_event_ok(s, msg),
    ensures
        s.voted_for == Some(c) && demo_on_event(s, msg).0.current_term == s.current_term
            ==> demo_on_event(s, msg).0.voted_for == Some(c),
        s.voted_for == Some(c) && demo_process_control_message(s, ctl).current_term == s.current_term
            ==> demo_process_control_message(s, ctl).voted_for == Some(c),
        forall|i: int|
            0 <= i < demo_on_event(s, msg).1.len() && demo_grants(#[trigger] demo_on_event(s, msg).1[i])
                ==> demo_on_event(s, msg).0.voted_for == Some(demo_on_event(s, msg).1[i].0)
                && demo_on_event(s, msg).1[i].1->RequestVoteResponse_term == demo_on_event(
                s,
                msg,
            ).0.current_term,
{
}

/// A consensus module keeps its vote within a term in the same way: no step
/// it can take that leaves its term as it was changes the candidate it voted
/// for, and every vote a step grants goes to the candidate it then records,
/// in its term.
pub proof fn law_consensus_vote_kept(s: DemoView, msg: Option<DemoMessageView>, c: usize)
    requires
        demo_consensus_event_ok(s, msg),
    ensures
        s.voted_for == Some(c) && demo_consensus_on_event(s, msg).0.current_term == s.current_term
            ==> demo_consensus_on_event(s, msg).0.voted_for == Some(c),
        forall|i: int|
            0 <= i < demo_consensus_on_event(s, msg).1.len() && demo_grants(
                #[trigger] demo_consensus_on_event(s, msg).1[i],
            ) ==> demo_consensus_on_event(s, msg).0.voted_for == Some(
                demo_consensus_on_event(s, msg).1[i].0,
            ) && demo_consensus_on_event(s, msg).1[i].1->RequestVoteResponse_term
                == demo_consensus_on_event(s, msg).0.current_term,
{
}

/// Some of the messages sent is a granted vote.
pub open spec fn demo_any_grant(out: Seq<(usize, DemoMessageView)>) -> bool {
    exists|i: int| 0 <= i < out.len() && demo_grants(#[trigger] out[i])
}

/// A log that ends with the entry (last_log_index, last_log_term) is at
/// least as up to date as the log of s: s's log is empty, or the other ends
/// with an entry of a later term, or of the same term and at least as far.
pub open spec fn demo_at_least_as_up_to_date(s: DemoView, last_log_index: usize, last_log_term: usize) -> bool {
    ||| s.log.len() == 0
    ||| last_log_term > s.log[s.log.len() - 1].term
    ||| (last_log_term == s.log[s.log.len() - 1].term && last_log_index + 1 >= s.log.len())
}

/// A demo replica, as a follower or as a candidate, and a consensus module
/// alike, grant their vote only to a candidate whose log is at least as up
/// to date as their own: when the candidate's last entry is of the same
/// term as theirs but comes earlier, or is of an earlier term, the vote is
/// refused. A follower that has not voted for another candidate in the term
/// grants it to a candidate of its term or a newer one whose log is at
/// least as up to date.
pub proof fn law_demo_vote_only_for_up_to_date_logs(
    s: DemoView,
    from_id: usize,
    term: usize,
    last_log_index: usize,
    last_log_term: usize,
)
    ensures
        ({
            let m = DemoMessageView::RequestVoteRequest { from_id, term, last_log_index, last_log_term };
            let ok = demo_at_least_as_up_to_date(s, last_log_index, last_log_term);
            &&& demo_any_grant(demo_process_message_as_follower(s, m).1) ==> ok
            &&& demo_any_grant(demo_process_message_as_candidate(s, m).1) ==> ok
            &&& demo_any_grant(demo_consensus_process_message_as_follower(s, m).1) ==> ok
            &&& demo_any_grant(demo_consensus_process_message_as_candidate(s, m).1) ==> ok
            &&& (s.current_term <= term && (term > s.current_term || s.voted_for is None
                || s.voted_for == Some(from_id)) && ok) ==> demo_any_grant(
                demo_process_message_as_follower(s, m).1,
            ) && demo_any_grant(demo_consensus_process_message_as_follower(s, m).1)
        }),
{
    let m = DemoMessageView::RequestVoteRequest { from_id, term, last_log_index, last_log_term };
    let ok = demo_at_least_as_up_to_date(s, last_log_index, last_log_term);
    let out = demo_process_message_as_follower(s, m).1;
    if s.current_term <= term && (term > s.current_term || s.voted_for is None || s.voted_for == Some(
        from_id,
    )) && ok {
        assert(demo_grants(out[0]));
        assert(demo_grants(demo_consensus_process_message_as_follower(s, m).1[0]));
    }
    if demo_any_grant(out) {
        let i = choose|i: int| 0 <= i < out.len() && demo_grants(#[trigger] out[i]);
        assert(out.len() == 1);
    }
    let oc = demo_process_message_as_candidate(s, m).1;
    if demo_any_grant(oc) {
        let i = choose|i: int| 0 <= i < oc.len() && demo_grants(#[trigger] oc[i]);
        assert(oc.len() == 1);
    }
    let of = demo_consensus_process_message_as_follower(s, m).1;
    if demo_any_grant(of) {
        let i = choose|i: int| 0 <= i < of.len() && demo_grants(#[trigger] of[i]);
        assert(of.len() == 1);
    }
    let occ = demo_consensus_process_message_as_candidate(s, m).1;
    if demo_any_grant(occ) {
        let i = choose|i: int| 0 <= i < occ.len() && demo_grants(#[trigger] occ[i]);
        assert(occ.len() == 1);
    }
}

/// A demo candidate, and a consensus module as candidate, follow the leader
/// of their term or of a newer one: an append request whose term is at
/// least theirs makes them followers of that term; and a vote request or a
/// vote answer of a newer term makes them followers of that term.
pub proof fn law_demo_candidate_steps_down(s: DemoView, m: DemoMessageView)
    ensures
        m is AppendEntryRequest && m->AppendEntryRequest_term >= s.current_term ==> {
            &&& demo_process_message_as_candidate(s, m).0.state == DemoState::Follower
            &&& demo_process_message_as_candidate(s, m).0.current_term == m->AppendEntryRequest_term
            &&& demo_consensus_process_message_as_candidate(s, m).0.state == DemoState::Follower
            &&& demo_consensus_process_message_as_candidate(s, m).0.current_term
                == m->AppendEntryRequest_term
        },
        m is RequestVoteRequest && m->RequestVoteRequest_term > s.current_term ==> {
            &&& demo_process_message_as_candidate(s, m).0.state == DemoState::Follower
            &&& demo_process_message_as_candidate(s, m).0.current_term == m->RequestVoteRequest_term
            &&& demo_consensus_process_message_as_candidate(s, m).0.state == DemoState::Follower
            &&& demo_consensus_process_message_as_candidate(s, m).0.current_term
                == m->RequestVoteRequest_term
        },
        m is RequestVoteResponse && m->RequestVoteResponse_term > s.current_term ==> {
            &&& demo_process_message_as_candidate(s, m).0.state == DemoState::Follower
            &&& demo_process_message_as_candidate(s, m).0.current_term == m->RequestVoteResponse_term
            &&& demo_consensus_process_message_as_candidate(s, m).0.state == DemoState::Follower
            &&& demo_consensus_process_message_as_candidate(s, m).0.current_term
                == m->RequestVoteResponse_term
        },
{
}

/// A demo leader that learns of a newer term from an append answer follows
/// that term; any other message leaves its term and role as they were.
pub proof fn law_demo_leader_steps_down(s: DemoView, m: DemoMessageView)
    ensures
        m is AppendEntryResponse && m->AppendEntryResponse_term > s.current_term ==> demo_process_message_as_leader(
            s,
            m,
        ).state == DemoState::Follower && demo_process_message_as_leader(s, m).current_term
            == m->AppendEntryResponse_term,
        !(m is AppendEntryResponse && m->AppendEntryResponse_term > s.current_term) ==> demo_process_message_as_leader(
            s,
            m,
        ).state == s.state && demo_process_message_as_leader(s, m).current_term == s.current_term,
{
}

} // verus!
