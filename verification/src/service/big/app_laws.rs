//! What operations on sharded texts read.
use super::app::{
    adapted_op, adapted_res, key_of, run_op, run_ops, shard_of_text, ShardIndex, ShardedOps,
    TextShards,
};
use crate::app::kv::{KvOp, KvRes};
use crate::app::ycsb::{YcsbOp, YcsbRes};
use vstd::prelude::*;

verus! {

/// The text under a key, in the shard that the key belongs to.
pub open spec fn text_of(shards: TextShards, num_shard: ShardIndex, key: Seq<char>) -> Option<
    Seq<char>,
> {
    let shard = shards[shard_of_text(num_shard, key)];
    if shard.contains_key(key) {
        Some(shard[key])
    } else {
        None
    }
}

/// The text that was put under a key last.
pub open spec fn last_put(ops: Seq<KvOp<Seq<char>>>, key: Seq<char>) -> Option<Seq<char>>
    decreases ops.len(),
{
    if ops.len() == 0 {
        None
    } else {
        match ops.last() {
            KvOp::Put(other, value) => if other == key {
                Some(value)
            } else {
                last_put(ops.drop_last(), key)
            },
            KvOp::Get(_) => last_put(ops.drop_last(), key),
        }
    }
}

/// What a key has after operations: what was put last, or what it had before.
pub open spec fn text_after(
    shards: TextShards,
    num_shard: ShardIndex,
    ops: Seq<KvOp<Seq<char>>>,
    key: Seq<char>,
) -> Option<Seq<char>> {
    match last_put(ops, key) {
        Some(value) => Some(value),
        None => text_of(shards, num_shard, key),
    }
}

/// Operations with the shards of their keys.
pub open spec fn with_shards(num_shard: ShardIndex, ops: Seq<KvOp<Seq<char>>>) -> ShardedOps {
    ops.map_values(|op: KvOp<Seq<char>>| (shard_of_text(num_shard, key_of(op)), op))
}

/// Whether every shard that the operations are for is at hand.
pub open spec fn at_hand(
    shards: TextShards,
    num_shard: ShardIndex,
    ops: Seq<KvOp<Seq<char>>>,
) -> bool {
    forall|i: int|
        0 <= i < ops.len() ==> shards.contains_key(
            shard_of_text(num_shard, key_of(#[trigger] ops[i])),
        )
}

/// Operations read what was put last: every key has what the last put under it
/// says, keys without a put what they had, and there is a result for every
/// operation; a get's is what its key has when it is its turn.
pub proof fn gets_read_last_put(
    shards: TextShards,
    num_shard: ShardIndex,
    ops: Seq<KvOp<Seq<char>>>,
    key: Seq<char>,
    i: int,
)
    requires
        at_hand(shards, num_shard, ops),
    ensures
        ({
            let (after, results) = run_ops(shards, with_shards(num_shard, ops));
            &&& after.dom() == shards.dom()
            &&& text_of(after, num_shard, key) == text_after(shards, num_shard, ops, key)
            &&& results.len() == ops.len()
            &&& 0 <= i < ops.len() ==> results[i] == match ops[i] {
                KvOp::Put(_, _) => KvRes::Put,
                KvOp::Get(asked) => KvRes::Get(
                    text_after(shards, num_shard, ops.subrange(0, i), asked),
                ),
            }
        }),
    decreases ops.len(),
{
    let all = with_shards(num_shard, ops);
    let (after, results) = run_ops(shards, all);
    if ops.len() > 0 {
        let shorter = ops.drop_last();
        let op = ops.last();
        assert(all.drop_last() =~= with_shards(num_shard, shorter));
        assert(at_hand(shards, num_shard, shorter)) by {
            assert forall|k: int| 0 <= k < shorter.len() implies shards.contains_key(
                shard_of_text(num_shard, key_of(#[trigger] shorter[k])),
            ) by {
                assert(shorter[k] == ops[k]);
            }
        }
        gets_read_last_put(shards, num_shard, shorter, key, i);
        gets_read_last_put(shards, num_shard, shorter, key_of(op), i);
        let (before, _) = run_ops(shards, with_shards(num_shard, shorter));
        let own = shard_of_text(num_shard, key_of(op));
        assert(all.last() == (own, op));
        assert(shards.contains_key(shard_of_text(num_shard, key_of(ops[ops.len() - 1]))));
        assert(after == run_op(before, own, op).0);
        assert(after.dom() =~= shards.dom());
        if i == shorter.len() {
            assert(ops.subrange(0, i) =~= shorter);
        } else if 0 <= i < shorter.len() {
            assert(ops.subrange(0, i) =~= shorter.subrange(0, i));
        }
    }
}

/// A benchmark's operations do what they say: what is inserted or updated is read
/// back, and a key that is not there is not found.
pub proof fn benchmark_reads_back(
    shards: TextShards,
    index: ShardIndex,
    key: Seq<char>,
    value: Seq<char>,
)
    ensures
        ({
            let (inserted, first) = run_op(shards, index, adapted_op(YcsbOp::Insert(key, value)));
            let (updated, second) = run_op(shards, index, adapted_op(YcsbOp::Update(key, value)));
            let get = adapted_op(YcsbOp::Get(key));
            &&& adapted_res(first) == YcsbRes::<Seq<char>>::Done
            &&& adapted_res(second) == YcsbRes::<Seq<char>>::Done
            &&& adapted_res(run_op(inserted, index, get).1) == YcsbRes::Get(value)
            &&& adapted_res(run_op(updated, index, get).1) == YcsbRes::Get(value)
            &&& run_op(shards, index, get).0 == shards
            &&& !shards[index].contains_key(key) ==> adapted_res(run_op(shards, index, get).1)
                == YcsbRes::<Seq<char>>::NotFound
        }),
{
}

} // verus!
