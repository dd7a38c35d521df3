//! The order of the registrations a replica makes: a transition is
//! registered as committed before it is registered as applied.
use crate::message::{EffectView, Entry, MessageView};
use crate::replica::State;
use crate::replica_model::{
    abandoned_effects, append_response, applied_effects, apply_ready_entries, become_follower,
    committed_effects, cut_by_entries, event_ok, follower_commit_index, leader_commit_index,
    lemma_merge_entries_well_formed, log_well_formed, merge_entries, process_message_as_follower,
    react, send, step_event, step_message, step_messages, EventView, ReplicaView,
};
use crate::state_machine::TransitionState;
use vstd::prelude::*;

verus! {

/// Every registration of a transition as applied comes after a
/// registration of the same transition as committed.
pub open spec fn committed_first<T>(effs: Seq<EffectView<T>>) -> bool {
    forall|p: int|
        0 <= p < effs.len() && (#[trigger] effs[p] matches EffectView::RegisterTransitionState(
            _,
            TransitionState::Applied,
        )) ==> exists|q: int|
            0 <= q < p && effs[q] == EffectView::RegisterTransitionState(
                effs[p]->RegisterTransitionState_0,
                TransitionState::Committed,
            )
}

/// The effects register no transition as applied.
pub open spec fn no_applied<T>(effs: Seq<EffectView<T>>) -> bool {
    forall|p: int|
        0 <= p < effs.len() ==> !(#[trigger] effs[p] matches EffectView::RegisterTransitionState(
            _,
            TransitionState::Applied,
        ))
}

/// The effects hold, from position off on, the registrations of the entries
/// in (from, to] as committed, in order.
pub open spec fn holds_committed_at<T>(
    effs: Seq<EffectView<T>>,
    off: int,
    log: Seq<Entry<T>>,
    from: int,
    to: int,
) -> bool {
    &&& 0 <= off
    &&& off + (to - from) <= effs.len()
    &&& forall|i: int|
        0 <= i < to - from ==> #[trigger] effs[off + i] == EffectView::RegisterTransitionState(
            log[from + 1 + i].transition,
            TransitionState::Committed,
        )
}

/// What the reaction to an event does to the commit index: it keeps it or
/// lowers it, or it raises it to an entry of the log and registers the
/// newly committed entries; and it registers nothing as applied.
pub open spec fn commit_reaction<T>(s: ReplicaView<T>, s1: ReplicaView<T>, e1: Seq<EffectView<T>>) -> bool {
    &&& no_applied(e1)
    &&& s1.commit_index <= s.commit_index || (s1.commit_index < s1.entries.len() && exists|off: int|
        holds_committed_at(e1, off, s1.entries, s.commit_index as int, s1.commit_index as int))
}

/// A follower's step keeps to the rules of commits.
#[verifier::spinoff_prover]
proof fn lemma_follower_commit<T>(s: ReplicaView<T>, m: MessageView<T>)
    requires
        log_well_formed(s.entries),
    ensures
        commit_reaction(s, process_message_as_follower(s, m).0, process_message_as_follower(s, m).1),
{
    let (s1, e1) = process_message_as_follower(s, m);
    match m {
        MessageView::AppendEntryRequest {
            from_id,
            term,
            prev_log_index,
            prev_log_term,
            entries,
            commit_index,
        } => {
            let sf = if term > s.current_term {
                become_follower(s, term)
            } else {
                s
            };
            if !(s.current_term > term || prev_log_index >= s.entries.len()
                || s.entries[prev_log_index as int].term != prev_log_term) {
                let log = merge_entries(s.entries, entries);
                lemma_merge_entries_well_formed(s.entries, entries);
                let c = follower_commit_index(s.commit_index, log, commit_index);
                let a = abandoned_effects(cut_by_entries(s.entries, entries));
                let b = committed_effects(log, s.commit_index as int, c as int);
                let s2 = ReplicaView { entries: log, commit_index: c, ..sf };
                let tail = seq![
                    EffectView::RegisterLeader(Some(from_id)),
                    send(from_id, crate::replica_model::append_ack(s2, crate::replica_model::matched_index(prev_log_index, entries))),
                ];
                assert(e1 == a + b + tail);
                assert(log.last() == log[log.len() - 1]);
                assert forall|p: int| 0 <= p < e1.len() implies !(#[trigger] e1[p] matches EffectView::RegisterTransitionState(
                    _,
                    TransitionState::Applied,
                )) by {
                    if p < a.len() {
                        assert(e1[p] == a[p]);
                    } else if p < a.len() + b.len() {
                        assert(e1[p] == b[p - a.len()]);
                    } else {
                        assert(e1[p] == tail[p - a.len() - b.len()]);
                    }
                }
                if c > s.commit_index {
                    assert forall|i: int| 0 <= i < c - s.commit_index implies #[trigger] e1[a.len() + i]
                        == EffectView::RegisterTransitionState(
                        log[s.commit_index + 1 + i].transition,
                        TransitionState::Committed,
                    ) by {
                        assert(e1[a.len() + i] == b[i]);
                    }
                    assert(holds_committed_at(e1, a.len() as int, log, s.commit_index as int, c as int));
                    assert(s1.entries == log && s1.commit_index == c);
                }
                assert(commit_reaction(s, s1, e1));
            }
        },
        _ => {},
    }
}

/// One message handled in the role the replica plays keeps to the rules of
/// commits.
proof fn lemma_message_commit<T>(s: ReplicaView<T>, m: MessageView<T>)
    requires
        log_well_formed(s.entries),
    ensures
        commit_reaction(s, step_message(s, m).0, step_message(s, m).1),
{
    let (s1, e1) = step_message(s, m);
    match s.state {
        State::Follower => lemma_follower_commit(s, m),
        State::Leader => {
            assert forall|p: int| 0 <= p < e1.len() implies !(#[trigger] e1[p] matches EffectView::RegisterTransitionState(
                _,
                TransitionState::Applied,
            )) by {}
        },
        State::Candidate => {
            match m {
                MessageView::AppendEntryRequest { term, from_id, .. } => {
                    if term >= s.current_term {
                        let f = become_follower(s, term);
                        lemma_follower_commit(f, m);
                        let (s2, e2) = process_message_as_follower(f, m);
                        let pre = seq![EffectView::<T>::RegisterLeader(Some(from_id))];
                        assert(e1 == pre + e2);
                        assert forall|p: int| 0 <= p < e1.len() implies !(#[trigger] e1[p] matches EffectView::RegisterTransitionState(
                            _,
                            TransitionState::Applied,
                        )) by {
                            if p >= 1 {
                                assert(e1[p] == e2[p - 1]);
                            }
                        }
                        if s1.commit_index > s.commit_index {
                            let off = choose|off: int|
                                holds_committed_at(e2, off, s1.entries, s.commit_index as int, s1.commit_index as int);
                            assert forall|i: int| 0 <= i < s1.commit_index - s.commit_index implies #[trigger] e1[off + 1 + i]
                                == EffectView::RegisterTransitionState(
                                s1.entries[s.commit_index + 1 + i].transition,
                                TransitionState::Committed,
                            ) by {
                                assert(e1[off + 1 + i] == e2[off + i]);
                            }
                            assert(holds_committed_at(e1, off + 1, s1.entries, s.commit_index as int, s1.commit_index as int));
                        }
                    } else {
                        assert forall|p: int| 0 <= p < e1.len() implies !(#[trigger] e1[p] matches EffectView::RegisterTransitionState(
                            _,
                            TransitionState::Applied,
                        )) by {}
                    }
                },
                MessageView::VoteRequest { term, .. } => {
                    if term > s.current_term {
                        lemma_follower_commit(become_follower(s, term), m);
                    } else {
                        assert forall|p: int| 0 <= p < e1.len() implies !(#[trigger] e1[p] matches EffectView::RegisterTransitionState(
                            _,
                            TransitionState::Applied,
                        )) by {}
                    }
                },
                _ => {
                    assert forall|p: int| 0 <= p < e1.len() implies !(#[trigger] e1[p] matches EffectView::RegisterTransitionState(
                        _,
                        TransitionState::Applied,
                    )) by {}
                },
            }
        },
    }
}

/// Each registration as applied that applying the entries in (from, to]
/// makes is that of one of these entries.
proof fn lemma_applied_effects_shape<T>(entries: Seq<Entry<T>>, from: int, to: int)
    ensures
        forall|p: int|
            0 <= p < applied_effects(entries, from, to).len() && (
            #[trigger] applied_effects(entries, from, to)[p] matches EffectView::RegisterTransitionState(
                _,
                TransitionState::Applied,
            )) ==> exists|j: int|
                from < j <= to && applied_effects(entries, from, to)[p]
                    == EffectView::RegisterTransitionState(
                    entries[j].transition,
                    TransitionState::Applied,
                ),
    decreases to - from,
{
    if to > from {
        lemma_applied_effects_shape(entries, from, to - 1);
        let a = applied_effects(entries, from, to - 1);
        let b = applied_effects(entries, from, to);
        assert forall|p: int|
            0 <= p < b.len() && (#[trigger] b[p] matches EffectView::RegisterTransitionState(
                _,
                TransitionState::Applied,
            )) implies exists|j: int|
            from < j <= to && b[p] == EffectView::RegisterTransitionState(
                entries[j].transition,
                TransitionState::Applied,
            ) by {
            if p < a.len() {
                assert(b[p] == a[p]);
            } else {
                assert(b[p] == EffectView::RegisterTransitionState(
                    entries[to].transition,
                    TransitionState::Applied,
                ));
            }
        }
    }
}

/// A transition is registered as committed before it is registered as
/// applied. A replica that starts an event with its committed entries
/// applied (as every replica does from its start) ends it so; and then,
/// within the event, each registration of a transition as applied comes
/// after a registration of the same transition as committed, made when the
/// commit index passed its entry. So over any run of events that each bring
/// one message at most, from a replica as it starts, every applied
/// transition was registered as committed first.
pub proof fn law_committed_before_applied<T>(s: ReplicaView<T>, ev: EventView<T>)
    requires
        s.wf(),
        event_ok(s, ev),
        ev is Messages ==> ev->Messages_0.len() == 1,
        step_event(s, ev).0.entries.len() <= usize::MAX,
        s.last_applied >= s.commit_index,
    ensures
        step_event(s, ev).0.last_applied >= step_event(s, ev).0.commit_index,
        committed_first(step_event(s, ev).1),
{
    let (s1, e1) = react(s, ev);
    crate::log_matching::lemma_event_log(s, ev);
    match ev {
        EventView::Messages(ms) => {
            let m = ms[0];
            assert(ms =~= seq![m]);
            assert(ms.drop_last() =~= Seq::<MessageView<T>>::empty());
            lemma_message_commit(s, m);
            assert(e1 =~= step_message(s, m).1);
        },
        _ => {
            assert forall|p: int| 0 <= p < e1.len() implies !(#[trigger] e1[p] matches EffectView::RegisterTransitionState(
                _,
                TransitionState::Applied,
            )) by {}
        },
    }
    assert(commit_reaction(s, s1, e1));
    assert(s1.last_applied == s.last_applied);
    let (s2, e2) = apply_ready_entries(s1);
    let effs = step_event(s, ev).1;
    assert(effs == e1 + e2);
    if s1.commit_index >= s1.entries.len() {
        assert(e2 =~= Seq::<EffectView<T>>::empty());
        assert forall|p: int|
            0 <= p < effs.len() && (#[trigger] effs[p] matches EffectView::RegisterTransitionState(
                _,
                TransitionState::Applied,
            )) implies exists|q: int|
            0 <= q < p && effs[q] == EffectView::RegisterTransitionState(
                effs[p]->RegisterTransitionState_0,
                TransitionState::Committed,
            ) by {
            assert(effs[p] == e1[p]);
        }
    } else {
        let c = leader_commit_index(s1);
        let ce = committed_effects(s1.entries, s1.commit_index as int, c as int);
        let ae = applied_effects(s1.entries, s1.last_applied as int, c as int);
        assert(e2 == ce + ae);
        assert(c >= s1.commit_index);
        lemma_applied_effects_shape(s1.entries, s1.last_applied as int, c as int);
        assert forall|p: int|
            0 <= p < effs.len() && (#[trigger] effs[p] matches EffectView::RegisterTransitionState(
                _,
                TransitionState::Applied,
            )) implies exists|q: int|
            0 <= q < p && effs[q] == EffectView::RegisterTransitionState(
                effs[p]->RegisterTransitionState_0,
                TransitionState::Committed,
            ) by {
            if p < e1.len() {
                assert(effs[p] == e1[p]);
            } else if p < e1.len() + ce.len() {
                assert(effs[p] == ce[p - e1.len()]);
            } else {
                let pa = p - e1.len() - ce.len();
                assert(effs[p] == ae[pa]);
                let j = choose|j: int|
                    s1.last_applied < j <= c && ae[pa] == EffectView::RegisterTransitionState(
                        s1.entries[j].transition,
                        TransitionState::Applied,
                    );
                if j > s1.commit_index {
                    let q = e1.len() + (j - s1.commit_index - 1);
                    assert(effs[q] == ce[j - s1.commit_index - 1]);
                } else {
                    let off = choose|off: int|
                        holds_committed_at(e1, off, s1.entries, s.commit_index as int, s1.commit_index as int);
                    let q = off + (j - s.commit_index - 1);
                    assert(e1[q] == EffectView::RegisterTransitionState(
                        s1.entries[s.commit_index + 1 + (j - s.commit_index - 1)].transition,
                        TransitionState::Committed,
                    ));
                    assert(effs[q] == e1[q]);
                }
            }
        }
    }
}

/// No message of the batch replaces an entry the replica holds at or below
/// the commit index it has when the message comes.
pub open spec fn keeps_committed<T>(s: ReplicaView<T>, ms: Seq<MessageView<T>>) -> bool {
    forall|k: int, j: int|
        #![trigger step_message(step_messages(s, ms.take(k)).0, ms[k]).0.entries[j]]
        0 <= k < ms.len() && 0 <= j <= step_messages(s, ms.take(k)).0.commit_index && j
            < step_messages(s, ms.take(k)).0.entries.len() ==> j < step_message(
            step_messages(s, ms.take(k)).0,
            ms[k],
        ).0.entries.len() && step_message(step_messages(s, ms.take(k)).0, ms[k]).0.entries[j]
            == step_messages(s, ms.take(k)).0.entries[j]
}

/// Every log of the batch, after each of its messages, is within what a
/// vector holds.
pub open spec fn batch_fits<T>(s: ReplicaView<T>, ms: Seq<MessageView<T>>) -> bool {
    forall|k: int|
        0 <= k <= ms.len() ==> #[trigger] step_messages(s, ms.take(k)).0.entries.len() <= usize::MAX
}

/// The effects register as committed each entry of the log past the index
/// from and up to the commit index of the state.
pub open spec fn registers_committed<T>(effs: Seq<EffectView<T>>, from: int, s: ReplicaView<T>) -> bool {
    forall|j: int| #![trigger registered_at(effs, s, j)] from < j <= s.commit_index ==> registered_at(effs, s, j)
}

/// The effects register as committed the entry at index j of the log of the
/// state.
pub open spec fn registered_at<T>(effs: Seq<EffectView<T>>, s: ReplicaView<T>, j: int) -> bool {
    j < s.entries.len() && exists|q: int|
        0 <= q < effs.len() && effs[q] == EffectView::RegisterTransitionState(
            s.entries[j].transition,
            TransitionState::Committed,
        )
}

/// A message that keeps the committed entries, after effects that registered
/// them, leaves them registered.
proof fn lemma_registers_step<T>(
    ek: Seq<EffectView<T>>,
    e1: Seq<EffectView<T>>,
    from: int,
    sk: ReplicaView<T>,
    sk1: ReplicaView<T>,
)
    requires
        registers_committed(ek, from, sk),
        commit_reaction(sk, sk1, e1),
        forall|j: int|
            #![trigger sk1.entries[j]]
            0 <= j <= sk.commit_index && j < sk.entries.len() ==> j < sk1.entries.len()
                && sk1.entries[j] == sk.entries[j],
        0 <= from,
    ensures
        registers_committed(ek + e1, from, sk1),
{
    let ek1 = ek + e1;
    assert forall|j: int| #![trigger registered_at(ek1, sk1, j)] from < j <= sk1.commit_index implies registered_at(ek1, sk1, j) by {
        if j <= sk.commit_index {
            assert(registered_at(ek, sk, j));
            let q = choose|q: int|
                0 <= q < ek.len() && ek[q] == EffectView::RegisterTransitionState(
                    sk.entries[j].transition,
                    TransitionState::Committed,
                );
            assert(sk1.entries[j] == sk.entries[j]);
            assert(ek1[q] == ek[q]);
        } else {
            let off = choose|off: int|
                holds_committed_at(e1, off, sk1.entries, sk.commit_index as int, sk1.commit_index as int);
            let i = j - sk.commit_index - 1;
            assert(e1[off + i] == EffectView::RegisterTransitionState(
                sk1.entries[sk.commit_index + 1 + i].transition,
                TransitionState::Committed,
            ));
            assert(ek1[ek.len() + off + i] == e1[off + i]);
        }
    }
}

/// A batch whose messages keep the committed entries keeps them in each of
/// its prefixes.
#[verifier::spinoff_prover]
proof fn lemma_keeps_prefix<T>(s: ReplicaView<T>, ms: Seq<MessageView<T>>)
    requires
        keeps_committed(s, ms),
        ms.len() > 0,
    ensures
        keeps_committed(s, ms.drop_last()),
{
    let ms0 = ms.drop_last();
    assert forall|k: int, j: int|
        #![trigger step_message(step_messages(s, ms0.take(k)).0, ms0[k]).0.entries[j]]
        0 <= k < ms0.len() && 0 <= j <= step_messages(s, ms0.take(k)).0.commit_index && j
            < step_messages(s, ms0.take(k)).0.entries.len() implies j < step_message(
            step_messages(s, ms0.take(k)).0,
            ms0[k],
        ).0.entries.len() && step_message(step_messages(s, ms0.take(k)).0, ms0[k]).0.entries[j]
            == step_messages(s, ms0.take(k)).0.entries[j] by {
        assert(ms0.take(k) =~= ms.take(k));
        assert(ms0[k] == ms[k]);
        let sa = step_messages(s, ms.take(k)).0;
        let sb = step_message(sa, ms[k]).0;
        assert(sb.entries[j] == sa.entries[j]);
    }
}

/// Processing a batch of messages that keep the committed entries
/// registers nothing as applied, leaves the applied entries as they were,
/// and registers as committed every entry of the resulting log between the
/// old commit index and the new one.
#[verifier::spinoff_prover]
proof fn lemma_batch_commit<T>(s: ReplicaView<T>, ms: Seq<MessageView<T>>)
    requires
        log_well_formed(s.entries),
        batch_fits(s, ms),
        keeps_committed(s, ms),
    ensures
        log_well_formed(step_messages(s, ms).0.entries),
        step_messages(s, ms).0.last_applied == s.last_applied,
        no_applied(step_messages(s, ms).1),
        registers_committed(step_messages(s, ms).1, s.commit_index as int, step_messages(s, ms).0),
    decreases ms.len(),
{
    if ms.len() == 0 {
        assert(step_messages(s, ms).0 == s);
        assert(step_messages(s, ms).1 =~= Seq::<EffectView<T>>::empty());
    } else {
        let ms0 = ms.drop_last();
        let m = ms.last();
        assert forall|k: int| 0 <= k <= ms0.len() implies #[trigger] step_messages(s, ms0.take(k)).0.entries.len()
            <= usize::MAX by {
            assert(ms0.take(k) =~= ms.take(k));
        }
        lemma_keeps_prefix(s, ms);
        lemma_batch_commit(s, ms0);
        let sk = step_messages(s, ms0).0;
        let ek = step_messages(s, ms0).1;
        let k = ms0.len() as int;
        assert(ms.take(k) =~= ms0);
        assert(ms[k] == m);
        assert(sk.entries.len() <= usize::MAX);
        lemma_message_commit(sk, m);
        crate::log_matching::lemma_message_log(sk, m);
        let sk1 = step_message(sk, m).0;
        let e1 = step_message(sk, m).1;
        assert forall|j: int| #![trigger sk1.entries[j]]
            0 <= j <= sk.commit_index && j < sk.entries.len() implies j < sk1.entries.len()
            && sk1.entries[j] == sk.entries[j] by {
            assert(step_message(step_messages(s, ms.take(k)).0, ms[k]).0.entries[j]
                == step_messages(s, ms.take(k)).0.entries[j]);
        }
        lemma_registers_step(ek, e1, s.commit_index as int, sk, sk1);
        assert(step_messages(s, ms).0 == sk1);
        assert(step_messages(s, ms).1 == ek + e1);
        let ek1 = ek + e1;
        assert forall|p: int| 0 <= p < ek1.len() implies !(#[trigger] ek1[p] matches EffectView::RegisterTransitionState(
            _,
            TransitionState::Applied,
        )) by {
            if p < ek.len() {
                assert(ek1[p] == ek[p]);
            } else {
                assert(ek1[p] == e1[p - ek.len()]);
            }
        }
    }
}

/// A transition is registered as committed before it is registered as
/// applied, also when one event brings a batch of messages: a replica that
/// starts the event with its committed entries applied, and none of whose
/// messages replaces an entry it had committed, registers, within the
/// event, each transition it applies as committed first.
pub proof fn law_committed_before_applied_in_batches<T>(s: ReplicaView<T>, ms: Seq<MessageView<T>>)
    requires
        s.wf(),
        batch_fits(s, ms),
        keeps_committed(s, ms),
        s.last_applied >= s.commit_index,
    ensures
        committed_first(step_event(s, EventView::Messages(ms)).1),
{
    lemma_batch_commit(s, ms);
    let s1 = step_messages(s, ms).0;
    let e1 = step_messages(s, ms).1;
    assert(ms.take(ms.len() as int) =~= ms);
    assert(s1.entries.len() <= usize::MAX);
    if s1.state == State::Leader && exists|n: int| crate::replica_model::is_highest_committable(s1, n) {
        let n = choose|n: int| crate::replica_model::is_highest_committable(s1, n);
        assert(leader_commit_index(s1) as int == n);
    }
    assert(react(s, EventView::Messages(ms)) == (s1, e1));
    let (s2, e2) = apply_ready_entries(s1);
    let effs = step_event(s, EventView::Messages(ms)).1;
    assert(effs == e1 + e2);
    if s1.commit_index >= s1.entries.len() {
        assert(e2 =~= Seq::<EffectView<T>>::empty());
        assert forall|p: int|
            0 <= p < effs.len() && (#[trigger] effs[p] matches EffectView::RegisterTransitionState(
                _,
                TransitionState::Applied,
            )) implies exists|q: int|
            0 <= q < p && effs[q] == EffectView::RegisterTransitionState(
                effs[p]->RegisterTransitionState_0,
                TransitionState::Committed,
            ) by {
            assert(effs[p] == e1[p]);
        }
    } else {
        let c = leader_commit_index(s1);
        let ce = committed_effects(s1.entries, s1.commit_index as int, c as int);
        let ae = applied_effects(s1.entries, s1.last_applied as int, c as int);
        assert(e2 == ce + ae);
        assert(c >= s1.commit_index);
        lemma_applied_effects_shape(s1.entries, s1.last_applied as int, c as int);
        assert forall|p: int|
            0 <= p < effs.len() && (#[trigger] effs[p] matches EffectView::RegisterTransitionState(
                _,
                TransitionState::Applied,
            )) implies exists|q: int|
            0 <= q < p && effs[q] == EffectView::RegisterTransitionState(
                effs[p]->RegisterTransitionState_0,
                TransitionState::Committed,
            ) by {
            if p < e1.len() {
                assert(effs[p] == e1[p]);
            } else if p < e1.len() + ce.len() {
                assert(effs[p] == ce[p - e1.len()]);
            } else {
                let pa = p - e1.len() - ce.len();
                assert(effs[p] == ae[pa]);
                let j = choose|j: int|
                    s1.last_applied < j <= c && ae[pa] == EffectView::RegisterTransitionState(
                        s1.entries[j].transition,
                        TransitionState::Applied,
                    );
                if j > s1.commit_index {
                    let q = e1.len() + (j - s1.commit_index - 1);
                    assert(effs[q] == ce[j - s1.commit_index - 1]);
                } else {
                    assert(registered_at(e1, s1, j));
                    let q = choose|q: int|
                        0 <= q < e1.len() && e1[q] == EffectView::RegisterTransitionState(
                            s1.entries[j].transition,
                            TransitionState::Committed,
                        );
                    assert(effs[q] == e1[q]);
                }
            }
        }
    }
}

} // verus!
