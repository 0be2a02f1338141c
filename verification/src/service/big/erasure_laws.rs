//! How stripes are cut into shards.
use super::config::{ShardedStorageConfig, StripeShardIndex};
use super::erasure::{
    data_shards_spec, parity_of, shard_size_spec, shards_spec,
};
use vstd::arithmetic::div_mod::{
    lemma_fundamental_div_mod, lemma_mod_bound,
};
use vstd::prelude::*;

verus! {

/// Shards are as small as they can be: together they hold the stripe, and with
/// the next smaller size that can be encoded they would not. Without parity there
/// is one shard, the stripe itself.
pub proof fn shards_are_smallest(config: ShardedStorageConfig, len: int)
    requires
        config.wf(),
        len > 0,
    ensures
        ({
            let size = shard_size_spec(config, len);
            &&& config.threshold() * size >= len
            &&& config.num_faulty_node == 0 ==> size == len && config.threshold() == 1
            &&& config.num_faulty_node > 0 ==> size % 2 == 0 && config.threshold() * (size - 2)
                < len
        }),
{
    let t = config.threshold();
    let size = shard_size_spec(config, len);
    if config.num_faulty_node > 0 {
        let d = 2 * t;
        let x = len + d - 1;
        let q = x / d;
        lemma_fundamental_div_mod(x, d);
        lemma_mod_bound(x, d);
        assert(t * size == d * q) by (nonlinear_arith)
            requires
                d == 2 * t,
                size == 2 * q,
        ;
        assert(t * (size - 2) == d * q - d) by (nonlinear_arith)
            requires
                d == 2 * t,
                size == 2 * q,
        ;
    } else {
        assert(t * size == len) by (nonlinear_arith)
            requires
                t == 1,
                size == len,
        ;
    }
}

/// What the parts hold after the stripe's end is zeros.
pub proof fn parts_end_with_zeros(config: ShardedStorageConfig, stripe: Seq<u8>, part: int, i: int)
    requires
        config.wf(),
        0 <= part < config.threshold(),
        0 <= i < shard_size_spec(config, stripe.len() as int),
        part * shard_size_spec(config, stripe.len() as int) + i >= stripe.len(),
    ensures
        data_shards_spec(config, stripe)[part][i] == 0,
{
}

/// The wanted shards are given in the order in which they are wanted; of the
/// shards of a stripe, those below the threshold are its parts, and the others the
/// parity shards of these.
pub proof fn wanted_shards_are_given(
    config: ShardedStorageConfig,
    stripe: Seq<u8>,
    wanted: Seq<StripeShardIndex>,
    i: int,
)
    requires
        config.wf(),
        0 <= i < wanted.len(),
        wanted[i] < config.width(),
    ensures
        ({
            let given = shards_spec(config, stripe, wanted);
            let parts = data_shards_spec(config, stripe);
            &&& given.len() == wanted.len()
            &&& parts.len() + 2 * config.num_faulty_node == config.width()
            &&& wanted[i] < parts.len() ==> given[i] == parts[wanted[i] as int]
            &&& wanted[i] >= parts.len() ==> given[i] == parity_of(
                parts,
                (config.width() - parts.len()) as usize,
            )[wanted[i] - parts.len()]
        }),
{
}

} // verus!
