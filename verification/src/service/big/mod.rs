//! A service whose state is sharded over storage nodes.
//!
//! Requests are ordered by a replication state machine and executed in that
//! order. Values live in storage, under the digests of their keys: an active
//! tier keeps several versions of each value on a few nodes, an archive tier
//! keeps erasure-coded stripes of all values on many.
pub mod app;
pub mod app_laws;
pub mod archive_laws;
pub mod big_service;
pub mod cache;
pub mod cache_laws;
pub mod config;
pub mod config_laws;
pub mod erasure;
pub mod erasure_laws;
pub mod full_laws;
pub mod laws;
pub mod ledger_laws;
pub mod message;
pub mod query_laws;
pub mod quorum_laws;
pub mod read_laws;
pub mod service_laws;
pub mod shard_state;
pub mod sharded;
pub mod storage;
pub mod text;
pub mod version_table;

pub use self::big_service::{
    BigService, BigServiceLog, ServiceConfig, ServiceEffect, ServiceMessage,
};
pub use self::config::ShardedStorageConfig;
pub use self::message::ShardedStorageMessage;
pub use self::sharded::ShardedStorage;
pub use self::storage::{
    FullReplicationStorage, StorageState, StorageStateEffect, StorageStateOutput,
};
