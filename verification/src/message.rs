use crate::state_machine::TransitionState;
use vstd::prelude::*;

verus! {

/// Entry is a transition in a replica's log, together with the term in which
/// a leader received it and its position in the log.
#[derive(Clone, Copy, Debug)]
pub struct Entry<T> {
    pub term: usize,
    pub index: usize,
    pub transition: T,
}

/// Message describes what the replicas of a cluster send to each other.
#[derive(Clone, Debug)]
pub enum Message<T> {
    /// A leader asks a follower to append entries after the one at
    /// prev_log_index; with no entries it is a heartbeat.
    AppendEntryRequest {
        from_id: usize,
        term: usize,
        prev_log_index: usize,
        prev_log_term: usize,
        entries: Vec<Entry<T>>,
        commit_index: usize,
    },
    /// A follower tells the leader whether it appended the entries, and the
    /// index of the last entry of its log.
    AppendEntryResponse { from_id: usize, term: usize, success: bool, last_index: usize },
    /// A candidate asks for a vote.
    VoteRequest { from_id: usize, term: usize, last_log_index: usize, last_log_term: usize },
    /// A replica answers a vote request.
    VoteResponse { from_id: usize, term: usize, vote_granted: bool },
}

/// The mathematical value of a message: the same fields, with the entries of
/// an append request as a sequence.
pub enum MessageView<T> {
    AppendEntryRequest {
        from_id: usize,
        term: usize,
        prev_log_index: usize,
        prev_log_term: usize,
        entries: Seq<Entry<T>>,
        commit_index: usize,
    },
    AppendEntryResponse { from_id: usize, term: usize, success: bool, last_index: usize },
    VoteRequest { from_id: usize, term: usize, last_log_index: usize, last_log_term: usize },
    VoteResponse { from_id: usize, term: usize, vote_granted: bool },
}

impl<T> View for Message<T> {
    type V = MessageView<T>;

    open spec fn view(&self) -> MessageView<T> {
        match self {
            Message::AppendEntryRequest {
                from_id,
                term,
                prev_log_index,
                prev_log_term,
                entries,
                commit_index,
            } => MessageView::AppendEntryRequest {
                from_id: *from_id,
                term: *term,
                prev_log_index: *prev_log_index,
                prev_log_term: *prev_log_term,
                entries: entries@,
                commit_index: *commit_index,
            },
            Message::AppendEntryResponse { from_id, term, success, last_index } =>
                MessageView::AppendEntryResponse {
                from_id: *from_id,
                term: *term,
                success: *success,
                last_index: *last_index,
            },
            Message::VoteRequest { from_id, term, last_log_index, last_log_term } =>
                MessageView::VoteRequest {
                from_id: *from_id,
                term: *term,
                last_log_index: *last_log_index,
                last_log_term: *last_log_term,
            },
            Message::VoteResponse { from_id, term, vote_granted } => MessageView::VoteResponse {
                from_id: *from_id,
                term: *term,
                vote_granted: *vote_granted,
            },
        }
    }
}

/// Effect is what a replica asks its driver to do after a step: send a
/// message through the Cluster, or call one of the hooks of the Cluster and
/// of the StateMachine.
pub enum Effect<T: Copy> {
    /// Cluster::send(to_id, message).
    Send { to_id: usize, message: Message<T> },
    /// Cluster::register_leader(leader_id).
    RegisterLeader(Option<usize>),
    /// StateMachine::register_transition_state(transition.get_id(), state).
    RegisterTransitionState(T, TransitionState),
    /// StateMachine::apply_transition(transition).
    ApplyTransition(T),
}

/// The mathematical value of an effect.
pub enum EffectView<T> {
    Send { to_id: usize, message: MessageView<T> },
    RegisterLeader(Option<usize>),
    RegisterTransitionState(T, TransitionState),
    ApplyTransition(T),
}

impl<T: Copy> View for Effect<T> {
    type V = EffectView<T>;

    open spec fn view(&self) -> EffectView<T> {
        match self {
            Effect::Send { to_id, message } => EffectView::Send { to_id: *to_id, message: message@ },
            Effect::RegisterLeader(l) => EffectView::RegisterLeader(*l),
            Effect::RegisterTransitionState(t, s) => EffectView::RegisterTransitionState(*t, *s),
            Effect::ApplyTransition(t) => EffectView::ApplyTransition(*t),
        }
    }
}

/// The effects of a vector of effects, in order.
pub open spec fn effects_view<T: Copy>(v: Seq<Effect<T>>) -> Seq<EffectView<T>> {
    v.map_values(|e: Effect<T>| e@)
}

/// Pushes an effect onto a list of effects.
pub(crate) fn push_effect<T: Copy>(out: &mut Vec<Effect<T>>, e: Effect<T>)
    ensures
        effects_view(final(out)@) == effects_view(old(out)@).push(e@),
{
    out.push(e);
    assert(effects_view(final(out)@) =~= effects_view(old(out)@).push(e@));
}

} // verus!
