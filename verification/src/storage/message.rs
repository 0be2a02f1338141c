//! What storage nodes tell each other.
use crate::replication::ReplicaIndex;
use crate::service::big::config::{ActiveGroupIndex, NodeIndex, StateVersion, StripeIndex};
use vstd::prelude::*;

verus! {

/// Some nodes want to archive an epoch.
#[derive(Debug, Clone)]
pub struct VoteArchive {
    pub epoch: u64,
    pub node_indices: Vec<NodeIndex>,
}

/// A replica asks for the value of a key at a version.
#[derive(Debug, Clone, Copy)]
pub struct Query {
    pub version: StateVersion,
    pub key: [u8; 32],
    pub replica_index: ReplicaIndex,
}

/// The answer to a query.
#[derive(Debug, Clone)]
pub struct QueryOk {
    pub version: StateVersion,
    pub key: [u8; 32],
    pub value: Option<Vec<u8>>,
}

/// The values of one group for archiving a stripe, in the order of their keys.
#[derive(Debug, Clone)]
pub struct ArchivePush {
    pub epoch: u64,
    pub stripe_index: StripeIndex,
    pub group_index: ActiveGroupIndex,
    pub data: Vec<([u8; 32], Vec<u8>)>,
}

/// Some nodes have archived a version.
#[derive(Debug, Clone)]
pub struct Archived {
    pub version: StateVersion,
    pub node_indices: Vec<NodeIndex>,
}

/// What storage nodes tell each other.
#[derive(Debug, Clone)]
pub enum Message {
    ArchivePush(ArchivePush),
}

} // verus!
