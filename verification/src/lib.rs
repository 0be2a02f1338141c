//! State machines for replicated services: consensus, replicated and sharded
//! storage, client sessions, and the services built on top of them.
//!
//! Everything here is free of I/O. A state machine takes events, updates
//! itself, and hands back the actions that its environment should perform.
pub mod app;
pub mod command;
pub mod crypto;
pub mod digest_laws;
pub mod frame;
pub mod list_set;
pub mod pace_laws;
pub mod pbft;
pub mod replica;
pub mod replication;
pub mod seq_map;
pub mod server;
pub mod server_laws;
pub mod service;
pub mod session;
pub mod shared;
pub mod state;
pub mod storage;
pub mod unreplicated;
pub mod unreplicated_laws;
pub mod workload;
pub mod workload_laws;

pub use self::state::Never;
