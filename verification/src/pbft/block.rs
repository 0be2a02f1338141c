//! The messages of a variant that numbers blocks, and whose votes are bound to
//! their voters.
use super::{ReplicaId, ViewNum};
use crate::crypto::{update_u64, Digest, Sig};
use crate::shared::append_bytes;
use vstd::prelude::*;

verus! {

/// Numbers the blocks.
pub type BlockNum = u64;

/// The primary's proposal of a block.
#[derive(Debug, Clone, Copy)]
pub struct PrePrepare {
    pub view_num: ViewNum,
    pub block_num: BlockNum,
    pub digest: Digest,
    pub sig: Sig,
}

/// A vote on a block, in either of the two phases.
#[derive(Debug, Clone, Copy)]
pub struct Vote {
    pub view_num: ViewNum,
    pub block_num: BlockNum,
    pub digest: Digest,
    pub replica_id: ReplicaId,
    pub sig: Sig,
}

impl PrePrepare {
    pub open spec fn hash_bytes(self) -> Seq<u8> {
        vstd::bytes::spec_u64_to_le_bytes(self.view_num) + vstd::bytes::spec_u64_to_le_bytes(
            self.block_num,
        ) + self.digest.0@
    }

    /// Appends what the proposal contributes to a digest.
    pub fn update(&self, state: &mut Vec<u8>)
        ensures
            final(state)@ == old(state)@ + self.hash_bytes(),
    {
        update_u64(state, self.view_num);
        update_u64(state, self.block_num);
        self.digest.update(state);
    }
}

impl Vote {
    pub open spec fn hash_bytes(self) -> Seq<u8> {
        vstd::bytes::spec_u64_to_le_bytes(self.view_num) + vstd::bytes::spec_u64_to_le_bytes(
            self.block_num,
        ) + self.digest.0@ + vstd::bytes::spec_u16_to_le_bytes(self.replica_id)
    }

    /// Appends what the vote contributes to a digest.
    pub fn update(&self, state: &mut Vec<u8>)
        ensures
            final(state)@ == old(state)@ + self.hash_bytes(),
    {
        update_u64(state, self.view_num);
        update_u64(state, self.block_num);
        self.digest.update(state);
        let bytes = vstd::bytes::u16_to_le_bytes(self.replica_id);
        append_bytes(state, bytes.as_slice());
        assert(state@ =~= old(state)@ + self.hash_bytes());
    }
}

/// Votes of different replicas are signed over different bytes, so one cannot
/// pass for another.
pub proof fn votes_are_bound_to_voters(a: Vote, b: Vote)
    requires
        a.hash_bytes() == b.hash_bytes(),
    ensures
        a.replica_id == b.replica_id,
        a.view_num == b.view_num,
        a.block_num == b.block_num,
        a.digest == b.digest,
{
    broadcast use vstd::array::group_array_axioms;
    vstd::bytes::lemma_auto_spec_u64_to_from_le_bytes();
    vstd::bytes::lemma_auto_spec_u16_to_from_le_bytes();
    let bytes = a.hash_bytes();
    assert(bytes.subrange(0, 8) =~= vstd::bytes::spec_u64_to_le_bytes(a.view_num));
    assert(bytes.subrange(0, 8) =~= vstd::bytes::spec_u64_to_le_bytes(b.view_num));
    assert(bytes.subrange(8, 16) =~= vstd::bytes::spec_u64_to_le_bytes(a.block_num));
    assert(bytes.subrange(8, 16) =~= vstd::bytes::spec_u64_to_le_bytes(b.block_num));
    assert(bytes.subrange(16, 48) =~= a.digest.0@);
    assert(bytes.subrange(16, 48) =~= b.digest.0@);
    assert(bytes.subrange(48, 50) =~= vstd::bytes::spec_u16_to_le_bytes(a.replica_id));
    assert(bytes.subrange(48, 50) =~= vstd::bytes::spec_u16_to_le_bytes(b.replica_id));
    assert(a.digest.0 =~= b.digest.0);
}

} // verus!
