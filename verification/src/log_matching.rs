//! Log matching across a cluster: wherever two logs of a cluster, or the
//! entries that travel between them, hold an entry of the same index and
//! term, they hold the same entry.
use crate::election::{
    can_happen, cluster_inv, cluster_run, cluster_step, initial_cluster, lemma_event_step,
    lemma_step_inv, quorum_for, replica_event, run_can_happen, target, ClusterEvent, ClusterView,
};
use crate::message::{EffectView, Entry, MessageView};
use crate::replica::State;
use crate::replica_model::{
    apply_ready_entries, become_follower, event_ok, log_well_formed, merge_entries,
    merge_entry, process_message_as_follower, react, step_event, step_message, EventView,
    ReplicaView, lemma_merge_entries_well_formed, applied_effects,
};
use vstd::prelude::*;

verus! {

/// The entries that an event delivers: those of an append request.
pub open spec fn delivered_entries<T>(ev: EventView<T>) -> Seq<Entry<T>> {
    match ev {
        EventView::Messages(ms) => if ms.len() == 1 {
            match ms[0] {
                MessageView::AppendEntryRequest { entries, .. } => entries,
                _ => seq![],
            }
        } else {
            seq![]
        },
        _ => seq![],
    }
}

/// An effect that sends an append request sends entries of the log.
pub open spec fn sends_entries_of<T>(log: Seq<Entry<T>>, e: EffectView<T>) -> bool {
    match e {
        EffectView::Send { message: MessageView::AppendEntryRequest { entries, .. }, .. } => forall|
            x: Entry<T>,
        | #[trigger] entries.contains(x) ==> log.contains(x),
        _ => true,
    }
}

/// What one step of a replica does to its log: every entry of the new log
/// was in the old one, or came with the event, or is one that the replica
/// appended as the leader of its term past the end of its old log; a leader
/// that stays leader only appends; every append request it sends carries
/// entries of its log.
pub open spec fn log_step<T>(
    s: ReplicaView<T>,
    ev: EventView<T>,
    s2: ReplicaView<T>,
    effs: Seq<EffectView<T>>,
) -> bool {
    &&& log_well_formed(s2.entries)
    &&& forall|x: Entry<T>| #[trigger]
        s2.entries.contains(x) ==> s.entries.contains(x) || delivered_entries(ev).contains(x) || (
        s2.state == State::Leader && x.term == s2.current_term && x.index >= s.entries.len())
    &&& (s.state == State::Leader && s2.current_term == s.current_term ==> s2.state == State::Leader
        && s2.entries.len() >= s.entries.len() && s2.entries.take(s.entries.len() as int)
        == s.entries)
    &&& (s2.state == State::Leader || s2.state == State::Candidate ==> s2.current_term >= 1 || (
    s2.current_term == s.current_term && (s.state == State::Leader || s.state == State::Candidate)))
    &&& forall|i: int| 0 <= i < effs.len() ==> sends_entries_of(s.entries, #[trigger] effs[i])
}

/// Every entry of merged logs was in the log or among the merged entries.
proof fn lemma_merge_from<T>(log: Seq<Entry<T>>, es: Seq<Entry<T>>)
    ensures
        forall|x: Entry<T>| #[trigger]
            merge_entries(log, es).contains(x) ==> log.contains(x) || es.contains(x),
    decreases es.len(),
{
    if es.len() > 0 {
        lemma_merge_from(log, es.drop_last());
        let l0 = merge_entries(log, es.drop_last());
        let e = es.last();
        let l1 = merge_entry(l0, e);
        assert forall|x: Entry<T>| #[trigger] l1.contains(x) implies log.contains(x) || es.contains(x) by {
            let i = choose|i: int| 0 <= i < l1.len() && l1[i] == x;
            if x == e {
                assert(es[es.len() - 1] == e);
            } else {
                assert(l0[i] == x);
                assert(l0.contains(x));
                if es.drop_last().contains(x) {
                    let j = choose|j: int| 0 <= j < es.drop_last().len() && es.drop_last()[j] == x;
                    assert(es[j] == x);
                }
            }
        }
    }
}

/// A follower's step keeps its log well formed, takes entries only from its
/// log or the message, and sends no append request.
proof fn lemma_follower_log<T>(s: ReplicaView<T>, m: MessageView<T>)
    requires
        log_well_formed(s.entries),
    ensures
        ({
            let (s2, effs) = process_message_as_follower(s, m);
            &&& log_well_formed(s2.entries)
            &&& forall|x: Entry<T>| #[trigger]
                s2.entries.contains(x) ==> s.entries.contains(x) || delivered_entries(
                    EventView::Messages(seq![m]),
                ).contains(x)
            &&& forall|i: int| 0 <= i < effs.len() ==> sends_entries_of(s.entries, #[trigger] effs[i])
        }),
{
    let (s2, effs) = process_message_as_follower(s, m);
    let ev = EventView::Messages(seq![m]);
    assert(seq![m].len() == 1 && seq![m][0] == m);
    match m {
        MessageView::AppendEntryRequest { entries, .. } => {
            lemma_merge_from(s.entries, entries);
            lemma_merge_entries_well_formed(s.entries, entries);
            assert(delivered_entries(ev) == entries);
            assert forall|i: int| 0 <= i < effs.len() implies sends_entries_of(s.entries, #[trigger] effs[i]) by {
                let a = crate::replica_model::abandoned_effects(
                    crate::replica_model::cut_by_entries(s.entries, entries),
                );
                if i < a.len() {
                }
            }
        },
        _ => {},
    }
}

/// One message handled in the role the replica plays keeps to the rules of
/// logs.
pub(crate) proof fn lemma_message_log<T>(s: ReplicaView<T>, m: MessageView<T>)
    requires
        log_well_formed(s.entries),
        s.entries.len() <= usize::MAX,
    ensures
        log_step(s, EventView::Messages(seq![m]), step_message(s, m).0, step_message(s, m).1),
{
    let ev = EventView::Messages(seq![m]);
    let (s2, effs) = step_message(s, m);
    match s.state {
        State::Leader => {
            assert(s2.entries == s.entries);
            assert(s2.entries.take(s.entries.len() as int) =~= s.entries);
        },
        State::Follower => {
            lemma_follower_log(s, m);
        },
        State::Candidate => {
            match m {
                MessageView::AppendEntryRequest { term, from_id, .. } => {
                    if term >= s.current_term {
                        let f = become_follower(s, term);
                        lemma_follower_log(f, m);
                        let (s1, e1) = process_message_as_follower(f, m);
                        assert(effs == seq![EffectView::<T>::RegisterLeader(Some(from_id))] + e1);
                        assert forall|i: int| 0 <= i < effs.len() implies sends_entries_of(
                            s.entries,
                            #[trigger] effs[i],
                        ) by {
                            if i >= 1 {
                                assert(effs[i] == e1[i - 1]);
                            }
                        }
                    }
                },
                MessageView::VoteRequest { term, .. } => {
                    if term > s.current_term {
                        lemma_follower_log(become_follower(s, term), m);
                    }
                },
                MessageView::VoteResponse { .. } => {
                    assert forall|x: Entry<T>| #[trigger] s2.entries.contains(x) implies s.entries.contains(x)
                        || delivered_entries(ev).contains(x) || (s2.state == State::Leader && x.term
                        == s2.current_term && x.index >= s.entries.len()) by {
                        let i = choose|i: int| 0 <= i < s2.entries.len() && s2.entries[i] == x;
                        if i < s.entries.len() {
                            assert(s.entries[i] == x);
                        }
                    }
                    assert forall|k: int| 0 <= k < s2.entries.len() implies #[trigger] s2.entries[k].index == k by {
                        if k < s.entries.len() {
                            assert(s2.entries[k] == s.entries[k]);
                        }
                    }
                },
                MessageView::AppendEntryResponse { .. } => {},
            }
        },
    }
}

/// The effects of applying committed entries send no append request.
proof fn lemma_applied_sends_nothing<T>(log: Seq<Entry<T>>, entries: Seq<Entry<T>>, from: int, to: int)
    ensures
        forall|i: int|
            0 <= i < applied_effects(entries, from, to).len() ==> sends_entries_of(
                log,
                #[trigger] applied_effects(entries, from, to)[i],
            ),
    decreases to - from,
{
    if to > from {
        lemma_applied_sends_nothing(log, entries, from, to - 1);
        let a = applied_effects(entries, from, to - 1);
        let b = applied_effects(entries, from, to);
        assert forall|i: int| 0 <= i < b.len() implies sends_entries_of(log, #[trigger] b[i]) by {
            if i < a.len() {
                assert(b[i] == a[i]);
            }
        }
    }
}

/// Applying the ready entries leaves the log and the role of a replica as
/// they were and sends no append request.
proof fn lemma_apply_keeps_log<T>(log: Seq<Entry<T>>, s: ReplicaView<T>)
    ensures
        apply_ready_entries(s).0.entries == s.entries,
        apply_ready_entries(s).0.state == s.state,
        apply_ready_entries(s).0.current_term == s.current_term,
        forall|i: int|
            0 <= i < apply_ready_entries(s).1.len() ==> sends_entries_of(
                log,
                #[trigger] apply_ready_entries(s).1[i],
            ),
{
    if s.commit_index < s.entries.len() {
        let c = crate::replica_model::leader_commit_index(s);
        let ce = crate::replica_model::committed_effects(s.entries, s.commit_index as int, c as int);
        let ae = applied_effects(s.entries, s.last_applied as int, c as int);
        lemma_applied_sends_nothing(log, s.entries, s.last_applied as int, c as int);
        let e = apply_ready_entries(s).1;
        assert(e == ce + ae);
        assert forall|i: int| 0 <= i < e.len() implies sends_entries_of(log, #[trigger] e[i]) by {
            if i < ce.len() {
                assert(e[i] == ce[i]);
            } else {
                assert(e[i] == ae[i - ce.len()]);
            }
        }
    }
}

/// One event that a replica can handle, with at most one message, and that
/// leaves its log within what a vector holds, keeps to the rules of logs.
pub(crate) proof fn lemma_event_log<T>(s: ReplicaView<T>, ev: EventView<T>)
    requires
        log_well_formed(s.entries),
        s.entries.len() <= usize::MAX,
        event_ok(s, ev),
        ev is Messages ==> ev->Messages_0.len() == 1,
        step_event(s, ev).0.entries.len() <= usize::MAX,
    ensures
        log_step(s, ev, step_event(s, ev).0, step_event(s, ev).1),
{
    let (s1, e1) = react(s, ev);
    lemma_apply_keeps_log(s.entries, s1);
    match ev {
        EventView::Messages(ms) => {
            let m = ms[0];
            assert(ms =~= seq![m]);
            assert(ms.drop_last() =~= Seq::<MessageView<T>>::empty());
            lemma_message_log(s, m);
            assert(e1 =~= step_message(s, m).1);
        },
        EventView::Transitions(ts) => {
            if s.state == State::Leader {
                let len = s.entries.len();
                assert forall|k: int| 0 <= k < s1.entries.len() implies #[trigger] s1.entries[k].index == k by {
                    if k < len {
                        assert(s1.entries[k] == s.entries[k]);
                    }
                }
                assert forall|x: Entry<T>| #[trigger] s1.entries.contains(x) implies s.entries.contains(x)
                    || (s1.state == State::Leader && x.term == s1.current_term && x.index >= len) by {
                    let i = choose|i: int| 0 <= i < s1.entries.len() && s1.entries[i] == x;
                    if i < len {
                        assert(s.entries[i] == x);
                    }
                }
                assert(s1.entries.take(len as int) =~= s.entries);
            } else {
                assert(s1.entries.take(s.entries.len() as int) =~= s.entries);
            }
            assert forall|i: int| 0 <= i < e1.len() implies sends_entries_of(s.entries, #[trigger] e1[i]) by {}
        },
        EventView::HeartbeatDue => {
            assert(s1.entries.take(s.entries.len() as int) =~= s.entries);
            assert forall|i: int| 0 <= i < e1.len() implies sends_entries_of(s.entries, #[trigger] e1[i]) by {
                if s.state == State::Leader {
                    let p = s.peer_ids[i];
                    assert(s.peer_ids.contains(p));
                    let es = crate::replica_model::entries_for_peer(s, p);
                    assert forall|x: Entry<T>| #[trigger] es.contains(x) implies s.entries.contains(x) by {
                        let j = choose|j: int| 0 <= j < es.len() && es[j] == x;
                        assert(s.entries[s.next_index[p] + j] == x);
                    }
                }
            }
        },
        EventView::ElectionTimeout => {
            assert(s1.entries.take(s.entries.len() as int) =~= s.entries);
            assert forall|i: int| 0 <= i < e1.len() implies sends_entries_of(s.entries, #[trigger] e1[i]) by {}
        },
    }
    let (s2, e2) = apply_ready_entries(s1);
    let effs = step_event(s, ev).1;
    assert(effs == e1 + e2);
    assert forall|i: int| 0 <= i < effs.len() implies sends_entries_of(s.entries, #[trigger] effs[i]) by {
        if i < e1.len() {
            assert(effs[i] == e1[i]);
        } else {
            assert(effs[i] == e2[i - e1.len()]);
        }
    }
}

/// Whether a message is an append request that carries the entry.
pub open spec fn carries<T>(m: MessageView<T>, e: Entry<T>) -> bool {
    match m {
        MessageView::AppendEntryRequest { entries, .. } => entries.contains(e),
        _ => false,
    }
}

/// Whether an entry is in the log of a replica of the cluster, or travels
/// in an append request of the network.
pub open spec fn known<T>(c: ClusterView<T>, e: Entry<T>) -> bool {
    ||| exists|k: usize| #[trigger] c.replicas.contains_key(k) && c.replicas[k].entries.contains(e)
    ||| exists|to: usize, m: MessageView<T>| #[trigger] c.network.contains((to, m)) && carries(m, e)
}

/// The replica k has a majority of the cluster voting for it in the term,
/// and leads as long as the term is its own.
pub open spec fn led_by<T>(c: ClusterView<T>, k: usize, term: usize) -> bool {
    &&& c.replicas.contains_key(k)
    &&& exists|q: Set<usize>| quorum_for(c, k, term, q)
    &&& c.replicas[k].current_term >= term
    &&& c.replicas[k].current_term == term ==> c.replicas[k].state == State::Leader
}

/// What holds of every cluster that its events lead to, for logs: each log
/// is well formed and within what a vector holds; entries of the same index
/// and term are the same entry; a leader holds every entry of its term; and
/// every entry past term 0 was made in a term that a replica led.
pub open spec fn logs_inv<T>(c: ClusterView<T>) -> bool {
    &&& cluster_inv(c)
    &&& forall|k: usize| #[trigger]
        c.replicas.contains_key(k) ==> {
            let s = c.replicas[k];
            &&& log_well_formed(s.entries)
            &&& s.entries.len() <= usize::MAX
            &&& (s.state == State::Leader || s.state == State::Candidate ==> s.current_term >= 1)
        }
    &&& forall|e1: Entry<T>, e2: Entry<T>|
        #![trigger known(c, e1), known(c, e2)]
        known(c, e1) && known(c, e2) && e1.index == e2.index && e1.term == e2.term ==> e1 == e2
    &&& forall|e: Entry<T>, k: usize|
        #![trigger known(c, e), c.replicas.contains_key(k)]
        known(c, e) && c.replicas.contains_key(k) && c.replicas[k].state == State::Leader
            && c.replicas[k].current_term == e.term ==> e.index < c.replicas[k].entries.len()
            && c.replicas[k].entries[e.index as int] == e
    &&& forall|e: Entry<T>| #[trigger]
        known(c, e) && e.term >= 1 ==> exists|k: usize| led_by(c, k, e.term)
}

/// A cluster as it starts, with every replica holding the same one entry
/// of index 0 and term 0, which it has neither committed past nor applied
/// past.
pub open spec fn initial_logs<T>(c: ClusterView<T>, first: Entry<T>) -> bool {
    &&& initial_cluster(c)
    &&& first.index == 0
    &&& first.term == 0
    &&& forall|k: usize| #[trigger]
        c.replicas.contains_key(k) ==> c.replicas[k].entries == seq![first]
            && c.replicas[k].commit_index == 0 && c.replicas[k].last_applied == 0
}

/// A cluster as it starts keeps the invariant for logs.
pub(crate) proof fn lemma_initial_logs_inv<T>(c: ClusterView<T>, first: Entry<T>)
    requires
        initial_logs(c, first),
    ensures
        logs_inv(c),
{
    crate::election::lemma_initial_inv(c);
    assert forall|e: Entry<T>| #[trigger] known(c, e) implies e == first by {
        if exists|k: usize| #[trigger] c.replicas.contains_key(k) && c.replicas[k].entries.contains(e) {
            let k = choose|k: usize| #[trigger] c.replicas.contains_key(k) && c.replicas[k].entries.contains(e);
            assert(c.replicas[k].entries == seq![first]);
            let i = choose|i: int| 0 <= i < c.replicas[k].entries.len() && c.replicas[k].entries[i] == e;
        } else {
            let (to, m) = choose|to: usize, m: MessageView<T>| #[trigger] c.network.contains((to, m)) && carries(m, e);
            assert(c.network.contains((to, m)));
        }
    }
    assert forall|k: usize| #[trigger] c.replicas.contains_key(k) implies log_well_formed(c.replicas[k].entries) by {
        assert(c.replicas[k].entries == seq![first]);
    }
}

/// After an event, an entry of the cluster was there before, or is one that
/// the replica the event happened to appended as the leader of its term past
/// the end of its old log.
proof fn lemma_known_after_step<T>(c: ClusterView<T>, e: ClusterEvent<T>, x: Entry<T>)
    requires
        logs_inv(c),
        can_happen(c, e),
        known(cluster_step(c, e), x),
    ensures
        ({
            let r = target(e);
            let s = c.replicas[r];
            let s2 = step_event(s, replica_event(e)).0;
            known(c, x) || (s2.entries.contains(x) && s2.state == State::Leader && x.term
                == s2.current_term && x.index >= s.entries.len())
        }),
{
    let r = target(e);
    let ev = replica_event(e);
    let s = c.replicas[r];
    let (s2, effs) = step_event(s, ev);
    let c2 = cluster_step(c, e);
    lemma_event_log(s, ev);
    assert(c.replicas.contains_key(r));
    if exists|k: usize| #[trigger] c2.replicas.contains_key(k) && c2.replicas[k].entries.contains(x) {
        let k = choose|k: usize| #[trigger] c2.replicas.contains_key(k) && c2.replicas[k].entries.contains(x);
        if k != r {
            assert(c.replicas.contains_key(k) && c.replicas[k].entries.contains(x));
        } else if s.entries.contains(x) {
            assert(c.replicas.contains_key(r) && c.replicas[r].entries.contains(x));
        } else if delivered_entries(ev).contains(x) {
            match e {
                ClusterEvent::Deliver(to, m) => {
                    assert(seq![m][0] == m);
                    assert(c.network.contains((to, m)) && carries(m, x));
                },
                _ => {},
            }
        }
    } else {
        let (to, m) = choose|to: usize, m: MessageView<T>| #[trigger] c2.network.contains((to, m)) && carries(m, x);
        if !c.network.contains((to, m)) {
            let i = choose|i: int|
                0 <= i < effs.len() && effs[i] == (EffectView::Send { to_id: to, message: m });
            assert(sends_entries_of(s.entries, effs[i]));
            assert(c.replicas.contains_key(r) && c.replicas[r].entries.contains(x));
        }
    }
}

/// An entry of a well formed log sits at its index.
proof fn lemma_entry_at_index<T>(log: Seq<Entry<T>>, x: Entry<T>)
    requires
        log_well_formed(log),
        log.contains(x),
    ensures
        x.index < log.len(),
        log[x.index as int] == x,
{
    let i = choose|i: int| 0 <= i < log.len() && log[i] == x;
    assert(log[i].index == i);
}

/// A replica that has just won the election of its term finds no entry of
/// that term in the cluster.
proof fn lemma_no_entries_of_new_term<T>(c: ClusterView<T>, e: ClusterEvent<T>, x: Entry<T>)
    requires
        logs_inv(c),
        can_happen(c, e),
        known(c, x),
        c.replicas[target(e)].state != State::Leader,
        step_event(c.replicas[target(e)], replica_event(e)).0.state == State::Leader,
    ensures
        x.term != step_event(c.replicas[target(e)], replica_event(e)).0.current_term,
{
    let r = target(e);
    let ev = replica_event(e);
    let s = c.replicas[r];
    let (s2, effs) = step_event(s, ev);
    let c2 = cluster_step(c, e);
    lemma_event_step(s, ev);
    lemma_event_log(s, ev);
    lemma_step_inv(c, e);
    if x.term == s2.current_term {
        assert(s.state == State::Candidate && s.current_term == s2.current_term);
        assert(s.current_term >= 1);
        let k = choose|k: usize| led_by(c, k, x.term);
        assert(c2.replicas.contains_key(r));
        assert(exists|q: Set<usize>| quorum_for(c2, r, s2.current_term, q));
        let qk = choose|q: Set<usize>| quorum_for(c, k, x.term, q);
        assert(quorum_for(c2, k, x.term, qk));
        crate::election::lemma_unique_leader(c2, k, r, x.term);
    }
}

/// An event that can happen keeps the invariant for logs.
pub(crate) proof fn lemma_step_logs_inv<T>(c: ClusterView<T>, e: ClusterEvent<T>)
    requires
        logs_inv(c),
        can_happen(c, e),
    ensures
        logs_inv(cluster_step(c, e)),
{
    let r = target(e);
    let ev = replica_event(e);
    let s = c.replicas[r];
    let (s2, effs) = step_event(s, ev);
    let c2 = cluster_step(c, e);
    lemma_event_step(s, ev);
    lemma_event_log(s, ev);
    lemma_step_inv(c, e);
    assert(c2.replicas.dom() =~= c.replicas.dom());
    let appended = |x: Entry<T>|
        s2.entries.contains(x) && s2.state == State::Leader && x.term == s2.current_term && x.index
            >= s.entries.len();
    // Replicas.
    assert forall|k: usize| #[trigger] c2.replicas.contains_key(k) implies {
        let sk = c2.replicas[k];
        &&& log_well_formed(sk.entries)
        &&& sk.entries.len() <= usize::MAX
        &&& (sk.state == State::Leader || sk.state == State::Candidate ==> sk.current_term >= 1)
    } by {
        if k != r {
            assert(c2.replicas[k] == c.replicas[k]);
        }
    }
    // Entries of the same index and term are the same entry.
    assert forall|e1: Entry<T>, e2: Entry<T>|
        #![trigger known(c2, e1), known(c2, e2)]
        known(c2, e1) && known(c2, e2) && e1.index == e2.index && e1.term == e2.term implies e1
        == e2 by {
        lemma_known_after_step(c, e, e1);
        lemma_known_after_step(c, e, e2);
        if appended(e1) && appended(e2) {
            lemma_entry_at_index(s2.entries, e1);
            lemma_entry_at_index(s2.entries, e2);
        } else if appended(e1) || appended(e2) {
            let (n, o) = if appended(e1) {
                (e1, e2)
            } else {
                (e2, e1)
            };
            assert(known(c, o));
            if s.state == State::Leader {
                assert(s.current_term == s2.current_term);
                assert(c.replicas.contains_key(r));
                assert(o.index < s.entries.len());
            } else {
                lemma_no_entries_of_new_term(c, e, o);
            }
        }
    }
    // A leader holds every entry of its term.
    assert forall|x: Entry<T>, k: usize|
        #![trigger known(c2, x), c2.replicas.contains_key(k)]
        known(c2, x) && c2.replicas.contains_key(k) && c2.replicas[k].state == State::Leader
            && c2.replicas[k].current_term == x.term implies x.index < c2.replicas[k].entries.len()
        && c2.replicas[k].entries[x.index as int] == x by {
        lemma_known_after_step(c, e, x);
        if k != r {
            assert(c2.replicas[k] == c.replicas[k]);
            if appended(x) {
                let ck = c2.replicas[k];
                assert(exists|q: Set<usize>| quorum_for(c2, k, ck.current_term, q));
                assert(exists|q: Set<usize>| quorum_for(c2, r, s2.current_term, q));
                crate::election::lemma_unique_leader(c2, k, r, x.term);
            } else {
                assert(known(c, x));
                assert(c.replicas.contains_key(k));
                assert(x.index < c.replicas[k].entries.len() && c.replicas[k].entries[x.index as int] == x);
            }
        } else if appended(x) {
            lemma_entry_at_index(s2.entries, x);
        } else {
            assert(known(c, x));
            if s.state == State::Leader {
                assert(c.replicas.contains_key(r));
                assert(s2.current_term == s.current_term);
                assert(x.index < s.entries.len() && s.entries[x.index as int] == x);
                assert(s2.entries.take(s.entries.len() as int)[x.index as int] == x);
                assert(x.index < s2.entries.len());
                assert(s2.entries[x.index as int] == x);
            } else {
                lemma_no_entries_of_new_term(c, e, x);
            }
            assert(c2.replicas[k] == s2);
        }
    }
    // Every entry past term 0 was made in a term that a replica led.
    assert forall|x: Entry<T>| #[trigger] known(c2, x) && x.term >= 1 implies exists|k: usize| led_by(c2, k, x.term) by {
        lemma_known_after_step(c, e, x);
        if appended(x) {
            assert(exists|q: Set<usize>| quorum_for(c2, r, s2.current_term, q));
            assert(led_by(c2, r, x.term));
        } else {
            let k = choose|k: usize| led_by(c, k, x.term);
            let q = choose|q: Set<usize>| quorum_for(c, k, x.term, q);
            assert(quorum_for(c2, k, x.term, q));
            if k != r {
                assert(c2.replicas[k] == c.replicas[k]);
            }
            assert(led_by(c2, k, x.term));
        }
    }
}

/// Events lead from a starting cluster to clusters that keep the invariant
/// for logs.
pub(crate) proof fn lemma_run_logs_inv<T>(c: ClusterView<T>, first: Entry<T>, es: Seq<ClusterEvent<T>>)
    requires
        initial_logs(c, first),
        run_can_happen(c, es),
    ensures
        logs_inv(cluster_run(c, es)),
    decreases es.len(),
{
    if es.len() == 0 {
        lemma_initial_logs_inv(c, first);
    } else {
        lemma_run_logs_inv(c, first, es.drop_last());
        lemma_step_logs_inv(cluster_run(c, es.drop_last()), es.last());
    }
}

/// Log matching: whatever events happen to a cluster whose replicas start
/// with the same log, with messages delayed, reordered, duplicated or lost,
/// two replicas that hold entries of the same term at the same position of
/// their logs hold the same entry there, the same transition; and the
/// leader of that term holds it too, at that position, for as long as it
/// leads.
pub proof fn law_log_matching<T>(
    c: ClusterView<T>,
    first: Entry<T>,
    es: Seq<ClusterEvent<T>>,
    a: usize,
    b: usize,
    i: int,
)
    requires
        initial_logs(c, first),
        run_can_happen(c, es),
        cluster_run(c, es).replicas.contains_key(a),
        cluster_run(c, es).replicas.contains_key(b),
        0 <= i < cluster_run(c, es).replicas[a].entries.len(),
        0 <= i < cluster_run(c, es).replicas[b].entries.len(),
        cluster_run(c, es).replicas[a].entries[i].term == cluster_run(c, es).replicas[b].entries[i].term,
    ensures
        cluster_run(c, es).replicas[a].entries[i] == cluster_run(c, es).replicas[b].entries[i],
        forall|l: usize|
            #![trigger cluster_run(c, es).replicas.contains_key(l)]
            cluster_run(c, es).replicas.contains_key(l) && cluster_run(c, es).replicas[l].state
                == State::Leader && cluster_run(c, es).replicas[l].current_term == cluster_run(
                c,
                es,
            ).replicas[a].entries[i].term ==> i < cluster_run(c, es).replicas[l].entries.len()
                && cluster_run(c, es).replicas[l].entries[i] == cluster_run(c, es).replicas[a].entries[i],
{
    let c2 = cluster_run(c, es);
    lemma_run_logs_inv(c, first, es);
    let x = c2.replicas[a].entries[i];
    let y = c2.replicas[b].entries[i];
    assert(c2.replicas[a].entries.contains(x));
    assert(c2.replicas[b].entries.contains(y));
    assert(known(c2, x));
    assert(known(c2, y));
    assert(x.index == i && y.index == i);
}

} // verus!
