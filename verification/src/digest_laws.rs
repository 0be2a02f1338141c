//! What is hashed and signed stands for one thing.
use crate::app::utxo::{output_bytes, spend_bytes, spent, UtxoData, UtxoId, UtxoOp};
use crate::command::{batch_bytes, Command};
use crate::crypto::Digest;
use crate::pbft::block;
use crate::pbft::message::signed_bytes_spec;
use crate::pbft::{OpNum, ViewNum};
use crate::storage::binding_laws::collision;
use vstd::prelude::*;

verus! {

broadcast use vstd::array::group_array_axioms;

/// What is signed of a proposal or a vote stands for one view, number and digest.
pub proof fn signed_bytes_bind(
    a_view: ViewNum,
    a_num: OpNum,
    a: Digest,
    b_view: ViewNum,
    b_num: OpNum,
    b: Digest,
)
    requires
        signed_bytes_spec(a_view, a_num, a) == signed_bytes_spec(b_view, b_num, b),
    ensures
        a_view == b_view,
        a_num == b_num,
        a == b,
{
    vstd::bytes::lemma_auto_spec_u64_to_from_le_bytes();
    let bytes = signed_bytes_spec(a_view, a_num, a);
    assert(bytes.subrange(0, 8) =~= vstd::bytes::spec_u64_to_le_bytes(a_view));
    assert(bytes.subrange(0, 8) =~= vstd::bytes::spec_u64_to_le_bytes(b_view));
    assert(bytes.subrange(8, 16) =~= vstd::bytes::spec_u64_to_le_bytes(a_num));
    assert(bytes.subrange(8, 16) =~= vstd::bytes::spec_u64_to_le_bytes(b_num));
    assert(bytes.subrange(16, 48) =~= a.0@);
    assert(bytes.subrange(16, 48) =~= b.0@);
    assert(a.0 =~= b.0);
}

/// What is hashed of the proposal of a block stands for one view, number and
/// digest.
pub proof fn block_bytes_bind(a: block::PrePrepare, b: block::PrePrepare)
    requires
        a.hash_bytes() == b.hash_bytes(),
    ensures
        a.view_num == b.view_num,
        a.block_num == b.block_num,
        a.digest == b.digest,
{
    vstd::bytes::lemma_auto_spec_u64_to_from_le_bytes();
    let bytes = a.hash_bytes();
    assert(bytes.subrange(0, 8) =~= vstd::bytes::spec_u64_to_le_bytes(a.view_num));
    assert(bytes.subrange(0, 8) =~= vstd::bytes::spec_u64_to_le_bytes(b.view_num));
    assert(bytes.subrange(8, 16) =~= vstd::bytes::spec_u64_to_le_bytes(a.block_num));
    assert(bytes.subrange(8, 16) =~= vstd::bytes::spec_u64_to_le_bytes(b.block_num));
    assert(bytes.subrange(16, 48) =~= a.digest.0@);
    assert(bytes.subrange(16, 48) =~= b.digest.0@);
    assert(a.digest.0 =~= b.digest.0);
}

/// Whether two commands are the same.
pub open spec fn same_command(a: Command, b: Command) -> bool {
    a.client_id == b.client_id && a.seq == b.seq && a.op@ == b.op@
}

/// What is hashed of a command stands for one client, number and operation.
pub proof fn command_bytes_bind(a: Command, b: Command)
    requires
        a.hash_bytes() == b.hash_bytes(),
    ensures
        same_command(a, b),
{
    vstd::bytes::lemma_auto_spec_u64_to_from_le_bytes();
    vstd::bytes::lemma_auto_spec_u32_to_from_le_bytes();
    let bytes = a.hash_bytes();
    let len = bytes.len() as int;
    assert(bytes.subrange(0, 4) =~= vstd::bytes::spec_u32_to_le_bytes(a.client_id.0));
    assert(bytes.subrange(0, 4) =~= vstd::bytes::spec_u32_to_le_bytes(b.client_id.0));
    assert(bytes.subrange(4, 12) =~= vstd::bytes::spec_u64_to_le_bytes(a.seq));
    assert(bytes.subrange(4, 12) =~= vstd::bytes::spec_u64_to_le_bytes(b.seq));
    assert(bytes.subrange(12, len) =~= a.op@);
    assert(bytes.subrange(12, len) =~= b.op@);
}

/// What is hashed of a batch stands for its commands, all of them and in their
/// order, among the batches with operations of the same lengths.
pub proof fn batch_bytes_bind(a: Seq<Command>, b: Seq<Command>, i: int)
    requires
        batch_bytes(a) == batch_bytes(b),
        a.len() == b.len(),
        forall|k: int| 0 <= k < a.len() ==> (#[trigger] a[k]).op@.len() == b[k].op@.len(),
        0 <= i < a.len(),
    ensures
        same_command(a[i], b[i]),
    decreases a.len(),
{
    vstd::bytes::lemma_auto_spec_u64_to_from_le_bytes();
    vstd::bytes::lemma_auto_spec_u32_to_from_le_bytes();
    let bytes = batch_bytes(a);
    let last = a.len() - 1;
    assert(a[last].op@.len() == b[last].op@.len());
    let a_last = a.last().hash_bytes();
    let b_last = b.last().hash_bytes();
    assert(a_last.len() == b_last.len());
    let at = bytes.len() - a_last.len();
    assert(bytes.subrange(at, bytes.len() as int) =~= a_last);
    assert(bytes.subrange(at, bytes.len() as int) =~= b_last);
    assert(bytes.subrange(0, at) =~= batch_bytes(a.drop_last()));
    assert(bytes.subrange(0, at) =~= batch_bytes(b.drop_last()));
    if i == last {
        command_bytes_bind(a.last(), b.last());
    } else {
        assert forall|k: int| 0 <= k < a.drop_last().len() implies (
        #[trigger] a.drop_last()[k]).op@.len() == b.drop_last()[k].op@.len() by {
            assert(a.drop_last()[k] == a[k]);
        }
        batch_bytes_bind(a.drop_last(), b.drop_last(), i);
    }
}

/// The digest of a proposal stands for its batch, among the batches with
/// operations of the same lengths, unless digests collide.
pub proof fn proposal_binds_batch(a: Seq<Command>, b: Seq<Command>, i: int)
    requires
        Digest::of_spec(batch_bytes(a)) == Digest::of_spec(batch_bytes(b)),
        a.len() == b.len(),
        forall|k: int| 0 <= k < a.len() ==> (#[trigger] a[k]).op@.len() == b[k].op@.len(),
        0 <= i < a.len(),
    ensures
        same_command(a[i], b[i]) || collision(),
{
    if batch_bytes(a) == batch_bytes(b) {
        batch_bytes_bind(a, b, i);
    }
}

proof fn lemma_spend_bytes_len(spend: Seq<(UtxoId, UtxoData)>)
    ensures
        spend_bytes(spend).len() == 44 * spend.len(),
    decreases spend.len(),
{
    vstd::bytes::lemma_auto_spec_u64_to_from_le_bytes();
    vstd::bytes::lemma_auto_spec_u32_to_from_le_bytes();
    if spend.len() > 0 {
        lemma_spend_bytes_len(spend.drop_last());
    }
}

proof fn lemma_output_bytes_len(outputs: Seq<UtxoData>)
    ensures
        output_bytes(outputs).len() == 8 * outputs.len(),
    decreases outputs.len(),
{
    vstd::bytes::lemma_auto_spec_u64_to_from_le_bytes();
    if outputs.len() > 0 {
        lemma_output_bytes_len(outputs.drop_last());
    }
}

proof fn lemma_spend_bytes_bind(a: Seq<(UtxoId, UtxoData)>, b: Seq<(UtxoId, UtxoData)>)
    requires
        spend_bytes(a) == spend_bytes(b),
        a.len() == b.len(),
    ensures
        a == b,
    decreases a.len(),
{
    vstd::bytes::lemma_auto_spec_u64_to_from_le_bytes();
    vstd::bytes::lemma_auto_spec_u32_to_from_le_bytes();
    if a.len() > 0 {
        let bytes = spend_bytes(a);
        lemma_spend_bytes_len(a);
        lemma_spend_bytes_len(b);
        lemma_spend_bytes_len(a.drop_last());
        lemma_spend_bytes_len(b.drop_last());
        let at = 44 * (a.len() - 1);
        assert(bytes.subrange(0, at) =~= spend_bytes(a.drop_last()));
        assert(bytes.subrange(0, at) =~= spend_bytes(b.drop_last()));
        lemma_spend_bytes_bind(a.drop_last(), b.drop_last());
        let x = a.last();
        let y = b.last();
        assert(bytes.subrange(at, at + 32) =~= x.0.0.0@);
        assert(bytes.subrange(at, at + 32) =~= y.0.0.0@);
        assert(x.0.0.0 =~= y.0.0.0);
        assert(bytes.subrange(at + 32, at + 36) =~= vstd::bytes::spec_u32_to_le_bytes(x.0.1));
        assert(bytes.subrange(at + 32, at + 36) =~= vstd::bytes::spec_u32_to_le_bytes(y.0.1));
        assert(bytes.subrange(at + 36, at + 44) =~= vstd::bytes::spec_u64_to_le_bytes(x.1.value));
        assert(bytes.subrange(at + 36, at + 44) =~= vstd::bytes::spec_u64_to_le_bytes(y.1.value));
        assert(a =~= a.drop_last().push(x));
        assert(b =~= b.drop_last().push(y));
    } else {
        assert(a =~= b);
    }
}

proof fn lemma_output_bytes_bind(a: Seq<UtxoData>, b: Seq<UtxoData>)
    requires
        output_bytes(a) == output_bytes(b),
    ensures
        a == b,
    decreases a.len(),
{
    vstd::bytes::lemma_auto_spec_u64_to_from_le_bytes();
    lemma_output_bytes_len(a);
    lemma_output_bytes_len(b);
    if a.len() > 0 {
        let bytes = output_bytes(a);
        let at = 8 * (a.len() - 1);
        lemma_output_bytes_len(a.drop_last());
        lemma_output_bytes_len(b.drop_last());
        assert(bytes.subrange(0, at) =~= output_bytes(a.drop_last()));
        assert(bytes.subrange(0, at) =~= output_bytes(b.drop_last()));
        lemma_output_bytes_bind(a.drop_last(), b.drop_last());
        assert(bytes.subrange(at, at + 8) =~= vstd::bytes::spec_u64_to_le_bytes(a.last().value));
        assert(bytes.subrange(at, at + 8) =~= vstd::bytes::spec_u64_to_le_bytes(b.last().value));
        assert(a =~= a.drop_last().push(a.last()));
        assert(b =~= b.drop_last().push(b.last()));
    } else {
        assert(a =~= b);
    }
}

/// The identifier of a transaction stands for what it spends and what it makes,
/// among the transactions that spend as many outputs, unless digests collide.
pub proof fn tx_id_binds(a: UtxoOp, b: UtxoOp)
    requires
        a.tx_id_spec() == b.tx_id_spec(),
        spent(a.input).len() == spent(b.input).len(),
    ensures
        (spent(a.input) == spent(b.input) && a.outputs@ == b.outputs@) || collision(),
{
    let x = spend_bytes(spent(a.input)) + output_bytes(a.outputs@);
    let y = spend_bytes(spent(b.input)) + output_bytes(b.outputs@);
    if x == y {
        lemma_spend_bytes_len(spent(a.input));
        lemma_spend_bytes_len(spent(b.input));
        let at = 44 * spent(a.input).len();
        assert(x.subrange(0, at as int) =~= spend_bytes(spent(a.input)));
        assert(y.subrange(0, at as int) =~= spend_bytes(spent(b.input)));
        assert(x.subrange(at as int, x.len() as int) =~= output_bytes(a.outputs@));
        assert(y.subrange(at as int, y.len() as int) =~= output_bytes(b.outputs@));
        lemma_spend_bytes_bind(spent(a.input), spent(b.input));
        lemma_output_bytes_bind(a.outputs@, b.outputs@);
    }
}

} // verus!
