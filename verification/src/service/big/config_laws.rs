//! Where keys and shards are placed.
use super::config::{
    ActiveGroupIndex, Key, NodeIndex, ShardedStorageConfig, StripeIndex, StripeShardIndex,
};
use vstd::arithmetic::div_mod::{
    lemma_fundamental_div_mod, lemma_fundamental_div_mod_converse, lemma_mod_bound,
};
use vstd::prelude::*;

verus! {

/// Where a stripe's shards are placed and what a node archives agree: a node
/// archives a shard of a stripe exactly if that shard is placed on it.
pub proof fn placements_agree(
    config: ShardedStorageConfig,
    stripe: StripeIndex,
    node: NodeIndex,
    shard: int,
)
    requires
        config.wf(),
        node < config.num_node,
        0 <= shard < config.width(),
        shard < config.num_node,
    ensures
        config.shard_on(stripe, node) == Some(shard) <==> config.archive_nodes(stripe)[shard]
            == node,
{
    let n = config.num_node as int;
    let placed = (stripe + shard) % n;
    lemma_mod_bound(stripe + shard, n);
    assert(config.archive_nodes(stripe)[shard] == placed);
    let distance = (node - stripe) % n;
    lemma_fundamental_div_mod(node - stripe, n);
    lemma_fundamental_div_mod(stripe + shard, n);
    if config.shard_on(stripe, node) == Some(shard) {
        let q = (node - stripe) / n;
        assert(stripe + shard == n * (-q) + node) by (nonlinear_arith)
            requires
                node - stripe == n * q + shard,
        ;
        lemma_fundamental_div_mod_converse(stripe + shard, n, -q, node as int);
    }
    if placed == node {
        let q = (stripe + shard) / n;
        assert(node - stripe == n * (-q) + shard) by (nonlinear_arith)
            requires
                stripe + shard == n * q + node,
        ;
        lemma_fundamental_div_mod_converse(node - stripe, n, -q, shard);
    }
}

/// What a node archives is, of every stripe, the shard that is placed on it, if
/// one is, and of every stripe at most one.
pub proof fn placements_are_complete(
    config: ShardedStorageConfig,
    node: NodeIndex,
    num_stripe: int,
    stripe: StripeIndex,
    shard: StripeShardIndex,
)
    requires
        config.wf(),
        node < config.num_node,
        0 <= num_stripe <= config.num_stripe,
    ensures
        config.placements(node, num_stripe).contains((stripe, shard)) <==> stripe < num_stripe
            && config.shard_on(stripe, node) == Some(shard as int),
    decreases num_stripe,
{
    if num_stripe > 0 {
        placements_are_complete(config, node, num_stripe - 1, stripe, shard);
        let last = (num_stripe - 1) as StripeIndex;
        let before = config.placements(node, num_stripe - 1);
        let all = config.placements(node, num_stripe);
        lemma_mod_bound(node - last, config.num_node as int);
        if before.contains((stripe, shard)) {
            let i = before.index_of((stripe, shard));
            assert(all[i] == (stripe, shard));
        }
        if all.contains((stripe, shard)) {
            let i = all.index_of((stripe, shard));
            if i < before.len() {
                assert(before[i] == (stripe, shard));
            }
        }
        if stripe == last && config.shard_on(stripe, node) == Some(shard as int) {
            assert(all[before.len() as int] == (stripe, shard));
        }
    }
}

/// A stripe can be restored though as many nodes as may be faulty are, and as
/// many more have not archived it yet: so many shards are left as restore it.
pub proof fn enough_shards_are_left(config: ShardedStorageConfig)
    requires
        config.wf(),
    ensures
        config.width() - 2 * config.num_faulty_node == config.threshold(),
        config.threshold() > config.num_faulty_node,
{
}

/// The nodes of a group start with its primary.
pub proof fn primary_comes_first(config: ShardedStorageConfig, group: ActiveGroupIndex)
    ensures
        config.group_nodes(group).len() > 0,
        config.group_nodes(group)[0] == group,
        config.takes_part(seq![group], group),
{
    assert(seq![group][0] == group);
    assert(seq![group].contains(config.group_nodes(group)[0]));
}

/// The number that a key stands for.
pub open spec fn key_number(key: Key) -> u64 {
    vstd::bytes::spec_u64_from_le_bytes(key.0@.subrange(24, 32))
}

/// Stripes take keys in turn: of two keys that stand for numbers next to each
/// other, the second belongs to the stripe after that of the first, and after the
/// last stripe comes the first.
pub proof fn stripes_take_turns(config: ShardedStorageConfig, a: Key, b: Key)
    requires
        config.wf(),
        key_number(b) == key_number(a) + 1,
    ensures
        config.stripe_of_spec(a) < config.num_stripe,
        config.stripe_of_spec(b) == if config.stripe_of_spec(a) + 1 == config.num_stripe {
            0
        } else {
            config.stripe_of_spec(a) + 1
        },
{
    let n = config.num_stripe as int;
    let x = key_number(a) as int;
    lemma_mod_bound(x, n);
    lemma_mod_bound(x + 1, n);
    lemma_fundamental_div_mod(x, n);
    let q = x / n;
    if x % n + 1 == n {
        assert(x + 1 == n * (q + 1)) by (nonlinear_arith)
            requires
                x == n * q + x % n,
                x % n + 1 == n,
        ;
        lemma_fundamental_div_mod_converse(x + 1, n, q + 1, 0);
    } else {
        lemma_fundamental_div_mod_converse(x + 1, n, q, x % n + 1);
    }
}

} // verus!
