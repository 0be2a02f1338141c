//! How a stripe becomes shards.
use super::config::{ActiveGroupIndex, Key, ShardedStorageConfig, StripeShardIndex};
use crate::shared::Bytes;
use std::sync::Arc;
use vstd::prelude::*;

verus! {

/// Values by their keys.
pub type Values = Seq<(Key, Seq<u8>)>;

/// The mathematical content of a list of values.
pub open spec fn values_view(values: Seq<(Key, Bytes)>) -> Values {
    values.map_values(|entry: (Key, Bytes)| (entry.0, (*entry.1)@))
}

/// The mathematical content of the values of some groups.
pub open spec fn groups_view(groups: Seq<(ActiveGroupIndex, Vec<(Key, Bytes)>)>) -> Seq<
    (ActiveGroupIndex, Values),
> {
    groups.map_values(
        |group: (ActiveGroupIndex, Vec<(Key, Bytes)>)| (group.0, values_view(group.1@)),
    )
}

/// The encoding of the values of a stripe, by group.
pub uninterp spec fn stripe_encoding(groups: Seq<(ActiveGroupIndex, Values)>) -> Seq<u8>;

/// Calls `bincode::encode_to_vec` with the standard configuration, on a
/// sequence of pairs that is encoded as a map is. The result is a function of
/// the values alone. It starts with the number of entries, so it is not empty.
#[verifier::external_body]
fn encode_stripe(groups: &Vec<(ActiveGroupIndex, Vec<(Key, Bytes)>)>) -> (stripe: Vec<u8>)
    ensures
        stripe@ == stripe_encoding(groups_view(groups@)),
        stripe@.len() > 0,
{
    let plain: Vec<(u16, Vec<([u8; 32], &Vec<u8>)>)> = groups
        .iter()
        .map(|(group, values)| (*group, values.iter().map(|(key, value)| (key.0, &**value)).collect()))
        .collect();
    bincode::encode_to_vec(plain, bincode::config::standard()).unwrap()
}

/// The parity shards that belong to some shards.
pub uninterp spec fn parity_of(shards: Seq<Seq<u8>>, count: usize) -> Seq<Seq<u8>>;

/// The contents of some shards.
pub open spec fn shards_view(shards: Seq<Vec<u8>>) -> Seq<Seq<u8>> {
    shards.map_values(|shard: Vec<u8>| shard@)
}

/// Calls `reed_solomon_simd::encode`. The result is a function of the shards
/// and of the number of parity shards: that many shards, of the same size. The
/// call fails unless there are shards, all of one size that is even and not
/// zero, and the numbers of shards are supported, as they are here.
#[verifier::external_body]
fn parity_shards(shards: &Vec<Vec<u8>>, count: usize) -> (parity: Vec<Vec<u8>>)
    requires
        2 <= shards@.len() <= count,
        2 * shards@.len() + count <= 65538,
        shards@[0]@.len() > 0,
        shards@[0]@.len() % 2 == 0,
        forall|i: int| 0 <= i < shards@.len() ==> (#[trigger] shards@[i])@.len() == shards@[0]@.len(),
    ensures
        shards_view(parity@) == parity_of(shards_view(shards@), count),
        parity@.len() == count,
        forall|i: int| 0 <= i < count ==> (#[trigger] parity@[i])@.len() == shards@[0]@.len(),
{
    reed_solomon_simd::encode(shards.len(), count, shards).unwrap()
}

/// The size of the shards of a stripe: the least that holds the stripe, and an
/// even one where there are parity shards.
pub open spec fn shard_size_spec(config: ShardedStorageConfig, len: int) -> int {
    if config.num_faulty_node == 0 {
        len
    } else {
        2 * ((len + 2 * config.threshold() - 1) / (2 * config.threshold()))
    }
}

/// One of the parts of a stripe, filled up with zeros.
pub open spec fn data_shard(stripe: Seq<u8>, size: int, index: int) -> Seq<u8> {
    Seq::new(
        size as nat,
        |i: int|
            if index * size + i < stripe.len() {
                stripe[index * size + i]
            } else {
                0u8
            },
    )
}

/// The parts of a stripe.
pub open spec fn data_shards_spec(config: ShardedStorageConfig, stripe: Seq<u8>) -> Seq<Seq<u8>> {
    let size = shard_size_spec(config, stripe.len() as int);
    Seq::new(config.threshold() as nat, |index: int| data_shard(stripe, size, index))
}

/// A shard of a stripe: one of its parts, or one of their parity shards.
pub open spec fn shard_spec(config: ShardedStorageConfig, stripe: Seq<u8>, shard: int) -> Seq<u8> {
    let data = data_shards_spec(config, stripe);
    if shard < config.threshold() {
        data[shard]
    } else {
        parity_of(data, (2 * config.num_faulty_node) as usize)[shard - config.threshold()]
    }
}

/// Some shards of a stripe.
pub open spec fn shards_spec(
    config: ShardedStorageConfig,
    stripe: Seq<u8>,
    wanted: Seq<StripeShardIndex>,
) -> Seq<Seq<u8>> {
    wanted.map_values(|shard: StripeShardIndex| shard_spec(config, stripe, shard as int))
}

/// The size of the shards of a stripe.
fn shard_size(config: &ShardedStorageConfig, len: usize) -> (size: usize)
    requires
        config.wf(),
        len > 0,
    ensures
        size == shard_size_spec(*config, len as int),
        size > 0,
        config.num_faulty_node > 0 ==> size % 2 == 0,
{
    if config.num_faulty_node == 0 {
        return len;
    }
    let pair: usize = 2 * (config.repair_threshold() as usize);
    let count: usize = (len - 1) / pair + 1;
    proof {
        vstd::arithmetic::div_mod::lemma_div_plus_one(len as int - 1, pair as int);
        assert((len - 1) / pair as int <= (len - 1) / 4) by (nonlinear_arith)
            requires
                pair >= 4,
                len >= 1,
        ;
    }
    2 * count
}

/// The parts of a stripe.
fn data_shards(config: &ShardedStorageConfig, stripe: &Vec<u8>) -> (shards: Vec<Vec<u8>>)
    requires
        config.wf(),
        stripe@.len() > 0,
    ensures
        shards_view(shards@) == data_shards_spec(*config, stripe@),
        shards@.len() == config.threshold(),
        forall|i: int|
            0 <= i < shards@.len() ==> (#[trigger] shards@[i])@.len() == shard_size_spec(
                *config,
                stripe@.len() as int,
            ),
        shards@[0]@.len() > 0,
        config.num_faulty_node > 0 ==> shards@[0]@.len() % 2 == 0,
{
    let size: usize = shard_size(config, stripe.len());
    let count: usize = config.repair_threshold() as usize;
    let mut shards: Vec<Vec<u8>> = Vec::new();
    let mut start: usize = 0;
    assert(0 * size == 0) by (nonlinear_arith);
    while shards.len() < count
        invariant
            shards@.len() <= count,
            size == shard_size_spec(*config, stripe@.len() as int),
            start <= stripe@.len(),
            start == if shards@.len() * size <= stripe@.len() {
                shards@.len() * size
            } else {
                stripe@.len() as int
            },
            forall|i: int|
                0 <= i < shards@.len() ==> (#[trigger] shards@[i])@ == data_shard(
                    stripe@,
                    size as int,
                    i,
                ),
        decreases count - shards@.len(),
    {
        let ghost index = shards@.len() as int;
        let end: usize = if stripe.len() - start < size {
            stripe.len()
        } else {
            start + size
        };
        let mut shard = crate::shared::copy_bytes(
            vstd::slice::slice_subrange(stripe.as_slice(), start, end),
        );
        let ghost part = stripe@.subrange(start as int, end as int);
        assert(shard@ =~= part);
        while shard.len() < size
            invariant
                part.len() <= shard@.len() <= size,
                shard@ == part + Seq::new((shard@.len() - part.len()) as nat, |i: int| 0u8),
            decreases size - shard@.len(),
        {
            shard.push(0);
            assert(shard@ =~= part + Seq::new((shard@.len() - part.len()) as nat, |i: int| 0u8));
        }
        proof {
            assert((index + 1) * size == index * size + size) by (nonlinear_arith);
            assert forall|i: int| 0 <= i < size implies #[trigger] shard@[i] == data_shard(
                stripe@,
                size as int,
                index,
            )[i] by {
                if index * size + i < stripe@.len() {
                    assert(shard@[i] == part[i]);
                }
            }
            assert(shard@ =~= data_shard(stripe@, size as int, index));
        }
        shards.push(shard);
        start = end;
    }
    assert(shards_view(shards@) =~= data_shards_spec(*config, stripe@));
    shards
}

/// Whether parity shards are among the wanted ones.
fn wants_parity(config: &ShardedStorageConfig, wanted: &Vec<StripeShardIndex>) -> (wants: bool)
    requires
        config.wf(),
    ensures
        !wants ==> forall|i: int|
            0 <= i < wanted@.len() ==> #[trigger] wanted@[i] < config.threshold(),
        wants ==> exists|i: int|
            0 <= i < wanted@.len() && #[trigger] wanted@[i] >= config.threshold(),
{
    let threshold: usize = config.repair_threshold() as usize;
    let mut i: usize = 0;
    while i < wanted.len()
        invariant
            i <= wanted@.len(),
            threshold == config.threshold(),
            forall|j: int| 0 <= j < i ==> #[trigger] wanted@[j] < threshold,
        decreases wanted@.len() - i,
    {
        if wanted[i] >= threshold {
            return true;
        }
        i += 1;
    }
    false
}

/// Some shards of a stripe, given the encoded stripe.
pub fn split_stripe(
    config: &ShardedStorageConfig,
    stripe: &Vec<u8>,
    wanted: &Vec<StripeShardIndex>,
) -> (shards: Vec<Bytes>)
    requires
        config.wf(),
        stripe@.len() > 0,
        forall|i: int| 0 <= i < wanted@.len() ==> #[trigger] wanted@[i] < config.width(),
    ensures
        shards@.map_values(|shard: Bytes| (*shard)@) == shards_spec(*config, stripe@, wanted@),
{
    let data = data_shards(config, stripe);
    let threshold: usize = config.repair_threshold() as usize;
    let mut parity: Vec<Vec<u8>> = Vec::new();
    let with_parity = wants_parity(config, wanted);
    if with_parity {
        parity = parity_shards(&data, 2 * (config.num_faulty_node as usize));
    }
    let mut shards: Vec<Bytes> = Vec::new();
    let mut i: usize = 0;
    while i < wanted.len()
        invariant
            i <= wanted@.len(),
            config.wf(),
            threshold == config.threshold(),
            forall|j: int| 0 <= j < wanted@.len() ==> #[trigger] wanted@[j] < config.width(),
            !with_parity ==> forall|j: int|
                0 <= j < wanted@.len() ==> #[trigger] wanted@[j] < config.threshold(),
            shards_view(data@) == data_shards_spec(*config, stripe@),
            data@.len() == config.threshold(),
            with_parity ==> shards_view(parity@) == parity_of(
                shards_view(data@),
                (2 * config.num_faulty_node) as usize,
            ) && parity@.len() == 2 * config.num_faulty_node,
            shards@.len() == i,
            forall|j: int|
                0 <= j < i ==> (*(#[trigger] shards@[j]))@ == shard_spec(
                    *config,
                    stripe@,
                    wanted@[j] as int,
                ),
        decreases wanted@.len() - i,
    {
        let shard: usize = wanted[i];
        let bytes = if shard < threshold {
            assert(shards_view(data@)[shard as int] == data@[shard as int]@);
            crate::shared::copy_bytes(data[shard].as_slice())
        } else {
            assert(shards_view(parity@)[shard - threshold] == parity@[shard - threshold]@);
            crate::shared::copy_bytes(parity[shard - threshold].as_slice())
        };
        shards.push(Arc::new(bytes));
        i += 1;
    }
    assert(shards@.map_values(|shard: Bytes| (*shard)@) =~= shards_spec(
        *config,
        stripe@,
        wanted@,
    ));
    shards
}

/// Some shards of a stripe, given the values of the stripe.
pub fn archive_shards(
    config: &ShardedStorageConfig,
    groups: &Vec<(ActiveGroupIndex, Vec<(Key, Bytes)>)>,
    wanted: &Vec<StripeShardIndex>,
) -> (shards: Vec<Bytes>)
    requires
        config.wf(),
        forall|i: int| 0 <= i < wanted@.len() ==> #[trigger] wanted@[i] < config.width(),
    ensures
        shards@.map_values(|shard: Bytes| (*shard)@) == shards_spec(
            *config,
            stripe_encoding(groups_view(groups@)),
            wanted@,
        ),
{
    let stripe = encode_stripe(groups);
    split_stripe(config, &stripe, wanted)
}

/// A stripe can be put together from its parts: they hold it completely, each
/// byte at its place.
pub proof fn parts_hold_stripe(config: ShardedStorageConfig, stripe: Seq<u8>, i: int)
    requires
        config.wf(),
        0 <= i < stripe.len(),
    ensures
        ({
            let size = shard_size_spec(config, stripe.len() as int);
            let parts = data_shards_spec(config, stripe);
            &&& 0 <= i / size < parts.len()
            &&& 0 <= i % size < parts[i / size].len()
            &&& parts[i / size][i % size] == stripe[i]
        }),
{
    let len = stripe.len() as int;
    let size = shard_size_spec(config, len);
    let t = config.threshold();
    if config.num_faulty_node > 0 {
        let pair = 2 * t;
        vstd::arithmetic::div_mod::lemma_fundamental_div_mod(len + pair - 1, pair);
        vstd::arithmetic::div_mod::lemma_mod_bound(len + pair - 1, pair);
        let q = (len + pair - 1) / pair;
        assert(size * t >= len) by (nonlinear_arith)
            requires
                size == 2 * q,
                pair == 2 * t,
                len + pair - 1 == pair * q + (len + pair - 1) % pair,
                0 <= (len + pair - 1) % pair < pair,
        ;
        assert(size > 0) by (nonlinear_arith)
            requires
                size * t >= len,
                len > 0,
                t > 0,
        ;
    } else {
        assert(t == 1 && size == len);
        assert(size * t == len) by (nonlinear_arith)
            requires
                t == 1,
                size == len,
        ;
    }
    vstd::arithmetic::div_mod::lemma_fundamental_div_mod(i, size);
    vstd::arithmetic::div_mod::lemma_mod_bound(i, size);
    vstd::arithmetic::div_mod::lemma_div_pos_is_pos(i, size);
    assert(i / size < t) by (nonlinear_arith)
        requires
            i < size * t,
            i == size * (i / size) + i % size,
            0 <= i % size,
            size > 0,
            t > 0,
    ;
    assert((i / size) * size + i % size == i) by (nonlinear_arith)
        requires
            i == size * (i / size) + i % size,
    ;
}

} // verus!
