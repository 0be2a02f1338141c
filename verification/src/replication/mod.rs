//! Putting log entries in an order that all servers agree on.
use crate::service::ServiceIndex;
use crate::state::{Duplicate, State};
use vstd::prelude::*;

pub mod client_laws;
pub mod in_memory;
pub mod order_laws;
pub mod replay;
pub mod unreplicated;

verus! {

/// Identifies a replica.
pub type ReplicaIndex = ServiceIndex;

/// Log entries that were ordered, with what goes along with them.
#[derive(Debug)]
pub struct Replicated<L, D> {
    pub logs: Vec<L>,
    pub metadata: D,
}

/// The mathematical content of [`Replicated`].
pub struct ReplicatedLogs<L, D> {
    pub logs: Seq<L>,
    pub metadata: D,
}

impl<L: View, D: View> View for Replicated<L, D> {
    type V = ReplicatedLogs<L::V, D::V>;

    open spec fn view(&self) -> ReplicatedLogs<L::V, D::V> {
        ReplicatedLogs {
            logs: self.logs@.map_values(|log: L| log@),
            metadata: self.metadata@,
        }
    }
}

/// A state machine that orders log entries.
pub trait ReplicationState<L: View>: State<Output = Replicated<L, Self::Metadata>> {
    type Metadata: Duplicate;

    spec fn submit_spec(state: Self::V, log: L::V) -> Self::V;

    /// Takes a log entry that is to be ordered.
    fn submit(&mut self, log: L)
        requires
            old(self).inv(),
        ensures
            final(self).inv(),
            final(self)@ == Self::submit_spec(old(self)@, log@),
    ;
}

/// Where a message goes.
#[derive(Debug, Clone, Copy, PartialEq, Eq)]
pub enum Dest {
    All,
    One(ReplicaIndex),
}

impl View for Dest {
    type V = Dest;

    open spec fn view(&self) -> Dest {
        *self
    }
}

} // verus!
