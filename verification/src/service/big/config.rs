//! Where keys and archives are placed.
use primitive_types::H256;
use rand::rngs::StdRng;
use rand::seq::IteratorRandom;
use rand::{Rng, SeedableRng};
use vstd::prelude::*;

verus! {

broadcast use vstd::array::group_array_axioms;

/// Identifies a storage node.
pub type NodeIndex = u16;

/// Identifies an active group. Each group consists of one primary node and a
/// number of secondary nodes that mask faulty primaries and prevent falling
/// back to the archive tier. There are as many groups as nodes, and every node
/// is the primary of one group, which balances the load of answering queries
/// and of pushing values for archiving.
pub type ActiveGroupIndex = u16;

/// Identifies a stripe, the unit of recovery. A stripe is split into
/// `repair_threshold` shards, which are stored along with `2 *
/// num_faulty_node` parity shards. Nodes load an entire stripe into memory
/// while archiving it, so archiving works on one stripe at a time. Stripes
/// divide the key space independently of the active groups, so the values of
/// one stripe are collected evenly from all groups.
pub type StripeIndex = u16;

/// Identifies a shard of a stripe.
pub type StripeShardIndex = usize;

/// Numbers the versions of the stored state.
pub type StateVersion = u64;

/// The name of a stored value, a digest.
#[derive(Debug, Clone, Copy, PartialEq, Eq, Hash)]
pub struct Key(pub [u8; 32]);

impl View for Key {
    type V = Key;

    open spec fn view(&self) -> Key {
        *self
    }
}

impl Key {
    /// Whether two keys are equal.
    pub fn same(&self, other: &Key) -> (same: bool)
        ensures
            same == (*self == *other),
    {
        let mut i: usize = 0;
        while i < 32
            invariant
                i <= 32,
                forall|j: int| 0 <= j < i ==> self.0@[j] == other.0@[j],
            decreases 32 - i,
        {
            if self.0[i] != other.0[i] {
                return false;
            }
            i += 1;
        }
        assert(self.0 =~= other.0);
        true
    }
}

/// Distinct numbers below `below`, picked by a generator seeded with `seed`.
pub uninterp spec fn sampled(seed: u64, below: NodeIndex, amount: usize) -> Seq<NodeIndex>;

/// Calls `IteratorRandom::choose_multiple` on the range up to `below`, with a
/// `StdRng` seeded by `seed_from_u64`. The result is a function of the
/// arguments: `amount` distinct elements of the range, or all of it if it has
/// fewer. Room for `amount` elements is reserved at once.
#[verifier::external_body]
fn choose_multiple(seed: u64, below: NodeIndex, amount: usize) -> (chosen: Vec<NodeIndex>)
    requires
        amount * 2 <= isize::MAX,
    ensures
        chosen@ == sampled(seed, below, amount),
        chosen@.len() == if amount <= below {
            amount as int
        } else {
            below as int
        },
        chosen@.no_duplicates(),
        forall|i: int| 0 <= i < chosen@.len() ==> #[trigger] chosen@[i] < below,
{
    (0..below).choose_multiple(&mut StdRng::seed_from_u64(seed), amount)
}

/// A number below `below`, picked by a generator with the seed `seed`.
pub uninterp spec fn uniform(seed: Seq<u8>, below: ActiveGroupIndex) -> ActiveGroupIndex;

/// Calls `Rng::random_range` on the range up to `below`, with
/// `StdRng::from_seed`. The result is a function of the arguments, and lies in
/// the range.
#[verifier::external_body]
fn random_below(seed: &[u8; 32], below: ActiveGroupIndex) -> (picked: ActiveGroupIndex)
    requires
        below > 0,
    ensures
        picked == uniform(seed@, below),
        picked < below,
{
    StdRng::from_seed(*seed).random_range(0..below)
}

/// Calls `H256::to_low_u64_le`: the last eight of the bytes, read in
/// little-endian order.
#[verifier::external_body]
fn low_u64_le(key: &[u8; 32]) -> (low: u64)
    ensures
        low == vstd::bytes::spec_u64_from_le_bytes(key@.subrange(24, 32)),
{
    H256::from(*key).to_low_u64_le()
}

/// The parameters of sharded storage.
#[derive(Debug, Clone, Copy)]
pub struct ShardedStorageConfig {
    pub num_node: NodeIndex,
    pub num_faulty_node: NodeIndex,
    pub num_stripe: StripeIndex,
    pub num_active_copy: usize,
    pub bypass_vote: bool,
}

impl ShardedStorageConfig {
    /// There are nodes, not all of them faulty, stripes and copies, and shards
    /// can be numbered and encoded.
    pub open spec fn wf(self) -> bool {
        &&& self.num_faulty_node < self.num_node
        &&& self.num_faulty_node <= 16384
        &&& self.num_stripe > 0
        &&& self.num_stripe + 3 * self.num_faulty_node <= 65535
        &&& 0 < self.num_active_copy
        &&& self.num_active_copy * 2 <= isize::MAX
    }

    /// Whether the configuration is well-formed.
    pub fn is_wf(&self) -> (is_wf: bool)
        ensures
            is_wf == self.wf(),
    {
        self.num_faulty_node < self.num_node && self.num_faulty_node <= 16384 && self.num_stripe
            > 0 && self.num_stripe as u32 + 3 * self.num_faulty_node as u32 <= 65535
            && self.num_active_copy > 0 && self.num_active_copy <= isize::MAX as usize / 2
    }

    // active tier
    /// How many active groups there are.
    pub fn num_active_group(&self) -> (num: ActiveGroupIndex)
        ensures
            num == self.num_node,
    {
        self.num_node
    }

    /// The primary node of a group.
    pub fn primary_node_of_group(&self, index: ActiveGroupIndex) -> (node_index: NodeIndex)
        ensures
            node_index == index,
    {
        index
    }

    /// The groups that the given nodes are the primaries of.
    pub fn is_primary_of(&self, node_indices: &Vec<NodeIndex>) -> (groups: Vec<ActiveGroupIndex>)
        ensures
            groups@ == node_indices@,
    {
        let mut groups: Vec<ActiveGroupIndex> = Vec::new();
        let mut i: usize = 0;
        while i < node_indices.len()
            invariant
                i <= node_indices@.len(),
                groups@ == node_indices@.subrange(0, i as int),
            decreases node_indices@.len() - i,
        {
            groups.push(node_indices[i]);
            i += 1;
        }
        groups
    }

    /// A sampled number, skipping the group's primary.
    pub open spec fn skip_primary(index: ActiveGroupIndex, sample: NodeIndex) -> NodeIndex {
        if sample >= index {
            (sample + 1) as NodeIndex
        } else {
            sample
        }
    }

    /// The nodes of a group: its primary, then a sample of the others that
    /// depends on the group alone.
    pub open spec fn group_nodes(self, index: ActiveGroupIndex) -> Seq<NodeIndex> {
        seq![index] + sampled(
            index as u64,
            (self.num_node - 1) as NodeIndex,
            (self.num_active_copy - 1) as usize,
        ).map_values(|sample: NodeIndex| Self::skip_primary(index, sample))
    }

    /// The nodes of a group.
    pub fn nodes_of_group(&self, index: ActiveGroupIndex) -> (nodes: Vec<NodeIndex>)
        requires
            self.wf(),
            index < self.num_node,
        ensures
            nodes@ == self.group_nodes(index),
            nodes@.len() == if self.num_active_copy <= self.num_node {
                self.num_active_copy as int
            } else {
                self.num_node as int
            },
            nodes@.no_duplicates(),
            forall|i: int| 0 <= i < nodes@.len() ==> #[trigger] nodes@[i] < self.num_node,
    {
        let chosen = choose_multiple(index as u64, self.num_node - 1, self.num_active_copy - 1);
        let node_index: NodeIndex = self.primary_node_of_group(index);
        let mut nodes: Vec<NodeIndex> = Vec::new();
        nodes.push(node_index);
        let mut i: usize = 0;
        while i < chosen.len()
            invariant
                i <= chosen@.len(),
                node_index == index,
                index < self.num_node,
                forall|j: int| 0 <= j < chosen@.len() ==> #[trigger] chosen@[j] < self.num_node - 1,
                nodes@.len() == i + 1,
                nodes@[0] == index,
                forall|j: int|
                    1 <= j <= i ==> #[trigger] nodes@[j] == Self::skip_primary(
                        index,
                        chosen@[j - 1],
                    ),
            decreases chosen@.len() - i,
        {
            let sample: NodeIndex = chosen[i];
            nodes.push(
                if sample >= node_index {
                    sample + 1
                } else {
                    sample
                },
            );
            i += 1;
        }
        assert(nodes@ =~= self.group_nodes(index));
        nodes
    }

    /// The group that stores a key.
    pub open spec fn group_of_spec(self, key: Key) -> ActiveGroupIndex {
        uniform(key.0@, self.num_node)
    }

    /// The group that stores a key.
    pub fn group_of(&self, key: &Key) -> (group: ActiveGroupIndex)
        requires
            self.wf(),
        ensures
            group == self.group_of_spec(*key),
            group < self.num_node,
    {
        random_below(&key.0, self.num_active_group())
    }

    /// The nodes that store a key.
    pub fn nodes_of(&self, key: &Key) -> (nodes: Vec<NodeIndex>)
        requires
            self.wf(),
        ensures
            nodes@ == self.group_nodes(self.group_of_spec(*key)),
    {
        self.nodes_of_group(self.group_of(key))
    }

    /// Whether one of the given nodes belongs to a group.
    pub open spec fn takes_part(self, nodes: Seq<NodeIndex>, group: ActiveGroupIndex) -> bool {
        exists|i: int|
            0 <= i < self.group_nodes(group).len() && nodes.contains(
                #[trigger] self.group_nodes(group)[i],
            )
    }

    /// The groups, in order, that one of the given nodes belongs to.
    pub fn groups_of_nodes(&self, node_indices: &Vec<NodeIndex>) -> (groups: Vec<
        ActiveGroupIndex,
    >)
        requires
            self.wf(),
        ensures
            forall|group: ActiveGroupIndex| #[trigger]
                groups@.contains(group) <==> group < self.num_node && self.takes_part(
                    node_indices@,
                    group,
                ),
            forall|i: int, j: int| 0 <= i < j < groups@.len() ==> groups@[i] < groups@[j],
    {
        let mut groups: Vec<ActiveGroupIndex> = Vec::new();
        let mut group: ActiveGroupIndex = 0;
        while group < self.num_node
            invariant
                self.wf(),
                group <= self.num_node,
                forall|other: ActiveGroupIndex| #[trigger]
                    groups@.contains(other) <==> other < group && self.takes_part(
                        node_indices@,
                        other,
                    ),
                forall|i: int, j: int| 0 <= i < j < groups@.len() ==> groups@[i] < groups@[j],
            decreases self.num_node - group,
        {
            let nodes = self.nodes_of_group(group);
            let member = contains_any(node_indices, &nodes);
            let ghost before = groups@;
            if member {
                groups.push(group);
                assert forall|other: ActiveGroupIndex| #[trigger]
                    groups@.contains(other) <==> before.contains(other) || other == group by {
                    if before.contains(other) {
                        let i = before.index_of(other);
                        assert(groups@[i] == other);
                    }
                    assert(groups@[before.len() as int] == group);
                }
                assert forall|i: int| 0 <= i < before.len() implies before[i] < group by {
                    assert(before.contains(before[i]));
                }
            }
            group += 1;
        }
        groups
    }

    // archive tier
    pub open spec fn threshold(self) -> int {
        self.num_faulty_node + 1
    }

    pub open spec fn width(self) -> int {
        3 * self.num_faulty_node + 1
    }

    /// How many shards restore a stripe.
    pub fn repair_threshold(&self) -> (threshold: NodeIndex)
        requires
            self.wf(),
        ensures
            threshold == self.threshold(),
    {
        self.num_faulty_node + 1
    }

    /// How many shards a stripe has, parity included.
    pub fn stripe_width(&self) -> (width: NodeIndex)
        requires
            self.wf(),
        ensures
            width == self.width(),
    {
        self.repair_threshold() + self.num_faulty_node * 2
    }

    pub open spec fn stripe_of_spec(self, key: Key) -> StripeIndex {
        (vstd::bytes::spec_u64_from_le_bytes(key.0@.subrange(24, 32)) as int
            % self.num_stripe as int) as StripeIndex
    }

    /// The stripe that a key belongs to. Keys are assumed to be uniformly
    /// distributed, by hashing.
    pub fn stripe_of(&self, key: &Key) -> (stripe: StripeIndex)
        requires
            self.wf(),
        ensures
            stripe == self.stripe_of_spec(*key),
            stripe < self.num_stripe,
    {
        let low: u64 = low_u64_le(&key.0);
        let stripe: u64 = low % self.num_stripe as u64;
        stripe as StripeIndex
    }

    /// The node that a shard is placed on.
    pub open spec fn archive_node(self, stripe: StripeIndex, shard: int) -> NodeIndex {
        ((stripe + shard) % self.num_node as int) as NodeIndex
    }

    pub open spec fn archive_nodes(self, stripe: StripeIndex) -> Seq<NodeIndex> {
        Seq::new(self.width() as nat, |shard: int| self.archive_node(stripe, shard))
    }

    /// The nodes that the shards of a stripe are placed on, in the order of the
    /// shards.
    pub fn archive_nodes_of_stripe(&self, index: StripeIndex) -> (nodes: Vec<NodeIndex>)
        requires
            self.wf(),
            index < self.num_stripe,
        ensures
            nodes@ == self.archive_nodes(index),
    {
        let mut nodes: Vec<NodeIndex> = Vec::new();
        let width: NodeIndex = self.stripe_width();
        let mut shard: NodeIndex = 0;
        while shard < width
            invariant
                self.wf(),
                index < self.num_stripe,
                width == self.width(),
                shard <= width,
                nodes@.len() == shard,
                forall|i: int|
                    0 <= i < shard ==> #[trigger] nodes@[i] == self.archive_node(index, i),
            decreases width - shard,
        {
            nodes.push((index + shard) % self.num_node);
            shard += 1;
        }
        assert(nodes@ =~= self.archive_nodes(index));
        nodes
    }

    /// The shard of a stripe that is placed on a node, the first one if there
    /// are several.
    pub open spec fn shard_on(self, stripe: StripeIndex, node: NodeIndex) -> Option<int> {
        let distance = (node - stripe) % self.num_node as int;
        if distance < self.width() {
            Some(distance)
        } else {
            None
        }
    }

    /// What a node archives: for every stripe, in order, at most one shard.
    pub open spec fn placements(self, node: NodeIndex, num_stripe: int) -> Seq<
        (StripeIndex, StripeShardIndex),
    >
        decreases num_stripe,
    {
        if num_stripe <= 0 {
            Seq::empty()
        } else {
            let stripe = (num_stripe - 1) as StripeIndex;
            let before = self.placements(node, num_stripe - 1);
            match self.shard_on(stripe, node) {
                Some(shard) => before.push((stripe, shard as StripeShardIndex)),
                None => before,
            }
        }
    }

    /// The shards that a node archives, by stripe.
    pub fn archive_placements(&self, node_index: NodeIndex) -> (placements: Vec<
        (StripeIndex, StripeShardIndex),
    >)
        requires
            self.wf(),
            node_index < self.num_node,
        ensures
            placements@ == self.placements(node_index, self.num_stripe as int),
    {
        let mut placements: Vec<(StripeIndex, StripeShardIndex)> = Vec::new();
        let mut stripe: StripeIndex = 0;
        while stripe < self.num_stripe
            invariant
                self.wf(),
                node_index < self.num_node,
                stripe <= self.num_stripe,
                placements@ == self.placements(node_index, stripe as int),
            decreases self.num_stripe - stripe,
        {
            match self.placed_shard(stripe, node_index) {
                Some(shard) => placements.push((stripe, shard)),
                None => (),
            }
            stripe += 1;
        }
        placements
    }

    /// The shard of a stripe that is placed on a node.
    pub fn placed_shard(&self, stripe: StripeIndex, node_index: NodeIndex) -> (shard: Option<
        StripeShardIndex,
    >)
        requires
            self.wf(),
            node_index < self.num_node,
            stripe < self.num_stripe,
        ensures
            shard is Some == self.shard_on(stripe, node_index) is Some,
            shard matches Some(shard) ==> Some(shard as int) == self.shard_on(
                stripe,
                node_index,
            ) && shard < self.num_node,
    {
        let offset: NodeIndex = stripe % self.num_node;
        let distance: NodeIndex = if node_index >= offset {
            node_index - offset
        } else {
            self.num_node - (offset - node_index)
        };
        proof {
            let n = self.num_node as int;
            vstd::arithmetic::div_mod::lemma_fundamental_div_mod(stripe as int, n);
            let q = stripe as int / n;
            assert(stripe == n * q + offset);
            let k = if node_index >= offset {
                -q
            } else {
                -q - 1
            };
            assert(node_index - stripe == k * n + distance) by (nonlinear_arith)
                requires
                    stripe == n * q + offset,
                    node_index >= offset ==> distance == node_index - offset && k == -q,
                    node_index < offset ==> distance == n - (offset - node_index) && k == -q - 1,
            ;
            vstd::arithmetic::div_mod::lemma_fundamental_div_mod_converse(
                node_index - stripe,
                n,
                k,
                distance as int,
            );
        }
        if distance < self.stripe_width() {
            Some(distance as StripeShardIndex)
        } else {
            None
        }
    }
}

/// Whether two lists have an element in common.
fn contains_any(list: &Vec<NodeIndex>, candidates: &Vec<NodeIndex>) -> (found: bool)
    ensures
        found == exists|i: int|
            0 <= i < candidates@.len() && list@.contains(#[trigger] candidates@[i]),
{
    let mut i: usize = 0;
    while i < candidates.len()
        invariant
            i <= candidates@.len(),
            forall|j: int| 0 <= j < i ==> !list@.contains(#[trigger] candidates@[j]),
        decreases candidates@.len() - i,
    {
        if contains_index(list, candidates[i]) {
            return true;
        }
        i += 1;
    }
    false
}

/// Whether a list contains an index.
pub fn contains_index(list: &Vec<NodeIndex>, index: NodeIndex) -> (found: bool)
    ensures
        found == list@.contains(index),
{
    let mut i: usize = 0;
    while i < list.len()
        invariant
            i <= list@.len(),
            forall|j: int| 0 <= j < i ==> list@[j] != index,
        decreases list@.len() - i,
    {
        if list[i] == index {
            return true;
        }
        i += 1;
    }
    false
}

} // verus!
