//! The interfaces of the first, simpler replica design: a cluster that is
//! polled for one message with a timeout and for one action at a time, and a
//! state machine that is only told to apply actions. Its replica is the one
//! of `crate::replica`, created with `Replica::new_without_noop`, whose
//! hooks other than sends and applications its driver ignores.
use crate::message::Entry;
use vstd::prelude::*;

pub use crate::message::Message;
pub use crate::replica::{Replica, State};

verus! {

/// An action in the log, together with the term in which a leader received
/// it and its position in the log.
pub type Action<A> = Entry<A>;

/// A cluster of replicas as the first design sees it.
pub trait Cluster<A> {
    /// Delivers a message to the replica to_id.
    fn send(&self, to_id: usize, message: Message<A>);

    /// Waits for a message for at most the timeout.
    fn receive_timeout(&self, timeout: std::time::Duration) -> Option<Message<A>>;

    /// Takes one pending action of the user, if there is one.
    fn get_action(&self) -> Option<A>;
}

/// A state machine that the cluster replicates by applying actions.
pub trait StateMachine<A>: Sized {
    /// Creates the state machine in its initial state.
    fn new() -> Self;

    /// Applies an action.
    fn apply_action(&mut self, action: A);
}

} // verus!
