//! The messages that replicas exchange.
use super::{OpNum, ReplicaId, ViewNum};
use crate::command::{Command, Commands};
use crate::crypto::{update_u64, Digest, Sig};
use vstd::prelude::*;

verus! {

/// A replica's answer to a client.
#[derive(Debug, Clone)]
pub struct Reply {
    pub seq: u64,
    pub view_num: ViewNum,
    pub result: Vec<u8>,
    pub replica_id: ReplicaId,
}

/// The primary's proposal: `digest` is that of the batch of commands that it
/// travels with.
#[derive(Debug, Clone, Copy)]
pub struct PrePrepare {
    pub view_num: ViewNum,
    pub op_num: OpNum,
    pub digest: Digest,
    pub sig: Sig,
}

/// A vote on a proposal, in either of the two phases.
#[derive(Debug, Clone, Copy)]
pub struct Vote {
    pub view_num: ViewNum,
    pub op_num: OpNum,
    pub digest: Digest,
    pub replica_id: ReplicaId,
    pub sig: Sig,
}

/// What replicas send each other. `C` stands for a batch of commands.
#[derive(Debug, Clone)]
pub enum Message<C = Commands> {
    PrePrepare(PrePrepare, C),
    Prepare(Vote),
    Commit(Vote),
}

impl View for Message<Commands> {
    type V = Message<Seq<Command>>;

    open spec fn view(&self) -> Message<Seq<Command>> {
        match *self {
            Message::PrePrepare(pre_prepare, commands) => Message::PrePrepare(
                pre_prepare,
                (*commands)@,
            ),
            Message::Prepare(vote) => Message::Prepare(vote),
            Message::Commit(vote) => Message::Commit(vote),
        }
    }
}

/// The bytes that proposals and votes are signed over.
pub open spec fn signed_bytes_spec(view_num: ViewNum, op_num: OpNum, digest: Digest) -> Seq<u8> {
    vstd::bytes::spec_u64_to_le_bytes(view_num) + vstd::bytes::spec_u64_to_le_bytes(op_num)
        + digest.0@
}

impl PrePrepare {
    /// Appends what the proposal contributes to a digest.
    pub fn update(&self, state: &mut Vec<u8>)
        ensures
            final(state)@ == old(state)@ + signed_bytes_spec(
                self.view_num,
                self.op_num,
                self.digest,
            ),
    {
        update_u64(state, self.view_num);
        update_u64(state, self.op_num);
        self.digest.update(state);
    }

    /// The bytes that the primary signs.
    pub fn signed_bytes(&self) -> (bytes: Vec<u8>)
        ensures
            bytes@ == signed_bytes_spec(self.view_num, self.op_num, self.digest),
    {
        let mut state: Vec<u8> = Vec::new();
        self.update(&mut state);
        state
    }
}

impl Vote {
    /// Appends what the vote contributes to a digest.
    pub fn update(&self, state: &mut Vec<u8>)
        ensures
            final(state)@ == old(state)@ + signed_bytes_spec(
                self.view_num,
                self.op_num,
                self.digest,
            ),
    {
        update_u64(state, self.view_num);
        update_u64(state, self.op_num);
        self.digest.update(state);
    }

    /// The bytes that the voter signs.
    pub fn signed_bytes(&self) -> (bytes: Vec<u8>)
        ensures
            bytes@ == signed_bytes_spec(self.view_num, self.op_num, self.digest),
    {
        let mut state: Vec<u8> = Vec::new();
        self.update(&mut state);
        state
    }
}

} // verus!
