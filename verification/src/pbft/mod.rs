//! Practical Byzantine fault tolerance: the normal case of one view.
//!
//! A [`Replica`] takes client commands and messages from its peers. It keeps
//! an operation per proposed batch, collects the votes on it, and finalizes
//! operations in the order of their numbers. Signatures are produced and
//! checked by the environment: a message is handed to
//! [`Replica::receive`] together with the outcome of checking it under
//! [`Replica::verification_key`], and messages are handed out unsigned, with
//! `signed_bytes` saying what to sign.
use vstd::prelude::*;

pub mod block;
pub mod client;
pub mod client_laws;
pub mod config_laws;
pub mod finalize_laws;
pub mod laws;
pub mod message;
pub mod primary_laws;
pub mod progress;
pub mod replica;
pub mod replica_core;
pub mod run_laws;
pub mod sent_laws;
pub mod vote_laws;

pub use self::message::{Message, PrePrepare, Vote};
pub use self::replica::{ActionBuffer, Context, Replica, ReplicaAction, ReplicaConfig};
pub use self::replica_core::ReplicaCoreConfig;

verus! {

// internal aliases for readability
/// Numbers the operations (batches of commands), from one.
pub type OpNum = u64;

/// Numbers the views.
pub type ViewNum = u64;

/// Identifies a replica, from zero.
pub type ReplicaId = u16;

} // verus!
