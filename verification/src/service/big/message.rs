//! What storage nodes tell each other.
use super::config::{ActiveGroupIndex, Key, NodeIndex, StateVersion, StripeIndex};
use super::erasure::{values_view, Values};
use super::storage::optional_bytes;
use crate::shared::Bytes;
use vstd::prelude::*;

verus! {

/// Some nodes want to archive a version. `N` stands for a list of nodes.
#[derive(Debug, Clone)]
pub struct VoteArchive<N = Vec<NodeIndex>> {
    pub version: StateVersion,
    pub node_indices: N,
}

/// A node asks for the value of a key at a version.
#[derive(Debug, Clone, Copy)]
pub struct Query {
    pub version: StateVersion,
    pub key: [u8; 32],
    pub node_index: NodeIndex,
}

/// The answer to a query. `B` stands for a byte string.
#[derive(Debug, Clone)]
pub struct QueryOk<B = Bytes> {
    pub version: StateVersion,
    pub key: [u8; 32],
    pub bytes: Option<B>,
}

/// The values of one group for archiving a stripe. `V` stands for a list of
/// values.
#[derive(Debug, Clone)]
pub struct ArchivePush<V = Vec<(Key, Bytes)>> {
    pub version: StateVersion,
    pub stripe_index: StripeIndex,
    pub group_index: ActiveGroupIndex,
    pub values: V,
}

/// Some nodes have archived a version. `N` stands for a list of nodes.
#[derive(Debug, Clone)]
pub struct Archived<N = Vec<NodeIndex>> {
    pub version: StateVersion,
    pub node_indices: N,
}

/// What storage nodes tell each other.
#[derive(Debug, Clone)]
pub enum ShardedStorageMessage<N = Vec<NodeIndex>, B = Bytes, V = Vec<(Key, Bytes)>> {
    Query(Query),
    QueryOk(QueryOk<B>),
    ArchivePush(ArchivePush<V>),
    Archived(Archived<N>),
}

/// A message over the values themselves.
pub type StorageMessage = ShardedStorageMessage<Seq<NodeIndex>, Seq<u8>, Values>;

impl View for VoteArchive {
    type V = VoteArchive<Seq<NodeIndex>>;

    open spec fn view(&self) -> VoteArchive<Seq<NodeIndex>> {
        VoteArchive { version: self.version, node_indices: self.node_indices@ }
    }
}

impl View for QueryOk {
    type V = QueryOk<Seq<u8>>;

    open spec fn view(&self) -> QueryOk<Seq<u8>> {
        QueryOk { version: self.version, key: self.key, bytes: optional_bytes(self.bytes) }
    }
}

impl View for ArchivePush {
    type V = ArchivePush<Values>;

    open spec fn view(&self) -> ArchivePush<Values> {
        ArchivePush {
            version: self.version,
            stripe_index: self.stripe_index,
            group_index: self.group_index,
            values: values_view(self.values@),
        }
    }
}

impl View for Archived {
    type V = Archived<Seq<NodeIndex>>;

    open spec fn view(&self) -> Archived<Seq<NodeIndex>> {
        Archived { version: self.version, node_indices: self.node_indices@ }
    }
}

impl View for ShardedStorageMessage {
    type V = StorageMessage;

    open spec fn view(&self) -> StorageMessage {
        match *self {
            ShardedStorageMessage::Query(query) => ShardedStorageMessage::Query(query),
            ShardedStorageMessage::QueryOk(query_ok) => ShardedStorageMessage::QueryOk(query_ok@),
            ShardedStorageMessage::ArchivePush(push) => ShardedStorageMessage::ArchivePush(push@),
            ShardedStorageMessage::Archived(archived) => ShardedStorageMessage::Archived(archived@),
        }
    }
}

} // verus!
