//! The demo cluster: replicas that keep one integer consistent, with a
//! control file that takes replicas down, brings them back up and submits
//! changes to the integer.
pub mod consensus_module;
pub mod model;
pub mod replicas;
pub mod status;
pub mod types;
