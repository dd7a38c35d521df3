//! A small implementation of the Raft distributed consensus protocol.
//!
//! The protocol logic of a replica is a verified state machine: every
//! decision a replica takes on a message, a timeout or a new transition is a
//! function from its state and the event to its next state and to the list of
//! effects (messages to send, hooks to call) that the driver must carry out.
pub mod cluster;
pub mod control;
pub mod demo;
pub mod election;
pub mod laws;
pub mod log_matching;
pub mod message;
pub mod random;
pub mod registrations;
pub mod safety;
pub mod replica;
pub mod replica_model;
pub mod simple_raft;
pub mod state_machine;

pub use state_machine::{StateMachineTransition, TransitionAbandonedReason, TransitionState};
