use vstd::prelude::*;

verus! {

/// TransitionState describes the state of a particular transition.
#[derive(Clone, Copy, Debug, PartialEq, Eq, Structural)]
pub enum TransitionState {
    /// Queued transitions have been received from the user but have not been
    /// processed yet. They are in the queue.
    Queued,
    /// Committed transitions have not yet been applied to the state machine but
    /// have already been replicated across the cluster such that they are
    /// guaranteed to be present in the log of all future cluster leaders.
    Committed,
    /// Applied transitions have been replicated across the cluster and have
    /// been applied to the local state machine.
    Applied,
    /// Abandoned transitions have been ignored by the replica.
    Abandoned(TransitionAbandonedReason),
}

/// TransitionAbandonedReason explains why a particular transition has been
/// abandoned by the replica.
#[derive(Clone, Copy, Debug, PartialEq, Eq, Structural)]
pub enum TransitionAbandonedReason {
    /// NotLeader transitions have been abandoned because the replica is not the
    /// cluster leader.
    NotLeader,
    /// ConflictWithLeader uncommitted transitions are abandoned because they
    /// don't match the consensus achieved by the majority of the cluster.
    ConflictWithLeader,
}

/// StateMachineTransition describes a user-defined transition that can be
/// applied to the state machine replicated by Raft. A replica keeps its
/// transitions in its log and hands out copies of them, so a transition is a
/// plain `Copy` value.
pub trait StateMachineTransition: Copy {
    /// TransitionID is used to identify the transition.
    type TransitionID: Eq;

    /// get_id is used by the driver of a Replica to identify the transition
    /// to be able to call register_transition_state.
    fn get_id(&self) -> Self::TransitionID;
}

/// StateMachine describes a user-defined state machine that is replicated
/// across the cluster. Raft can replicate whatever distributed state machine
/// can implement this trait.
pub trait StateMachine<T: StateMachineTransition> {
    /// This is a hook that the local Replica will call each time the state of a
    /// particular transition changes. It is up to the user what to do with that
    /// information.
    fn register_transition_state(&mut self, transition_id: T::TransitionID, state: TransitionState);

    /// When a particular transition is ready to be applied, the Replica will
    /// call apply_transition to apply said transition to the local state
    /// machine.
    fn apply_transition(&mut self, transition: T);

    /// A Replica may call get_snapshot once upon startup. If the Replica and
    /// the associated StateMachine should start from a certain checkpoint
    /// previously saved with a call to create_snapshot or set_snapshot, this
    /// function should return Some(snapshot). Otherwise it can return None.
    fn get_snapshot(&mut self) -> Option<Snapshot>;

    /// create_snapshot may be called by a Replica that compacts its log. The
    /// implementation must create a snapshot object with truthful values of
    /// index and term, and save it to permanent storage if the Replica should
    /// use it as a checkpoint upon restart.
    fn create_snapshot(&mut self, last_included_index: usize, last_included_term: usize) -> Snapshot;

    /// When a Replica receives a snapshot from another Replica, it may call
    /// set_snapshot. The StateMachine must then load its state from the
    /// provided snapshot and potentially save said snapshot to persistent
    /// storage, same way it is done in create_snapshot.
    fn set_snapshot(&mut self, snapshot: Snapshot);
}

/// The outside type `bytes::Bytes`, an immutable, cheaply cloneable chunk
/// of memory. A snapshot carries its payload in it; the library never looks
/// inside it.
#[verifier::external_type_specification]
#[verifier::external_body]
pub struct ExBytes(bytes::Bytes);

/// `Clone` of `bytes::Bytes`, which hands out a new handle on the same
/// bytes. Nothing is claimed of the result: the library only passes it on.
pub assume_specification[ <bytes::Bytes as core::clone::Clone>::clone ](b: &bytes::Bytes) -> bytes::Bytes;

/// Snapshot is an object used for log compaction. The user can use snapshots to
/// represent StateMachine state at a particular point. This will let the
/// Replica start from a saved state or perform log compaction before the log
/// sequence starts taking up too much memory.
#[derive(Clone)]
pub struct Snapshot {
    pub last_included_index: usize,
    pub last_included_term: usize,
    pub data: bytes::Bytes,
}

} // verus!
