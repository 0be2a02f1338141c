//! Storage that is sharded over nodes, with an archive tier.
use super::config::{
    contains_index, ActiveGroupIndex, Key, NodeIndex, ShardedStorageConfig, StateVersion,
    StripeIndex, StripeShardIndex,
};
use super::erasure::{archive_shards, groups_view, shards_spec, stripe_encoding, values_view, Values};
use super::message::{
    ArchivePush, Archived, Query, QueryOk, ShardedStorageMessage, StorageMessage, VoteArchive,
};
use super::shard_state::{
    absorbed, complete_groups, deletes, gets, group_values, kth, local_shards, local_shards_below,
    nothing_collected, raise_all, read_position, reading_position, remote_nodes, set_all,
    shard_names, still_early, store, to_read, with_target, Read, ShardAction,     ShardState,
};
use super::storage::{StorageState, StorageStateEffect, StorageStateOutput};
use super::text::{active_name, active_text, shard_name};
use super::version_table::{outdated, VersionTable};
use crate::list_set::{ListSet, Same};
use crate::service::{Dest, Store};
use crate::shared::{reversed, share, Bytes};
use crate::state::{Action, Duration, State};
use std::collections::VecDeque;
use vstd::prelude::*;
use vstd::relations::sorted_by;
use vstd::seq_lib::lemma_sorted_unique;

verus! {

/// What sharded storage asks for.
pub type ShardedEffect = StorageStateEffect<(Dest, ShardedStorageMessage), VoteArchive>;

/// An action of sharded storage.
pub type ShardedAction = Action<ShardedEffect, StorageStateOutput>;

/// A value that is being read, and the nodes it is read for, each with the
/// latest version it has asked at.
pub struct ReadFor {
    pub name: String,
    pub key: Key,
    pub targets: Vec<(NodeIndex, StateVersion)>,
}

impl View for ReadFor {
    type V = Read;

    open spec fn view(&self) -> Read {
        Read { name: self.name@, key: self.key, targets: self.targets@ }
    }
}

/// Storage nodes that are hosted together.
pub struct ShardedStorage {
    config: ShardedStorageConfig,
    node_indices: Vec<NodeIndex>,
    // the groups that the hosted nodes belong to
    groups: Vec<ActiveGroupIndex>,
    // the shards placed on the hosted nodes, by stripe
    archive_placements: Vec<Vec<StripeShardIndex>>,
    version: StateVersion,
    version_table: VersionTable,
    read_for: Vec<ReadFor>,
    // queries for versions that are not reached yet
    early_queries: Vec<Query>,
    // for tolerating several answers to one query
    querying: ListSet<Key>,
    bump_writing: ListSet<String>,
    node_vote_archive_versions: Vec<StateVersion>,
    archiving_version: StateVersion,
    node_archived_versions: Vec<StateVersion>,
    quorum_archived_version: StateVersion,
    // the number of stripes if not archiving
    archiving_stripe_index: StripeIndex,
    // values of groups with a local primary are read here, those of other
    // groups are pushed by their primary nodes
    stripe_group_values: Vec<Option<Vec<(Key, Bytes)>>>,
    archive_reading: Vec<(String, Key)>,
    archive_writing: ListSet<String>,
    reorder_archive_pushes: Vec<ArchivePush>,
    actions: VecDeque<ShardedAction>,
}

/// The content of the values collected from a group.
pub open spec fn collected_view(values: Option<Vec<(Key, Bytes)>>) -> Option<Values> {
    match values {
        Some(values) => Some(values_view(values@)),
        None => None,
    }
}

/// The content of names with their keys.
pub open spec fn reading_view(reading: Seq<(String, Key)>) -> Seq<(Seq<char>, Key)> {
    reading.map_values(|entry: (String, Key)| (entry.0@, entry.1))
}

/// The content of actions.
pub open spec fn actions_view(actions: Seq<ShardedAction>) -> Seq<ShardAction> {
    actions.map_values(|action: ShardedAction| action@)
}

impl View for ShardedStorage {
    type V = ShardState;

    closed spec fn view(&self) -> ShardState {
        ShardState {
            config: self.config,
            nodes: self.node_indices@,
            version: self.version,
            table: self.version_table@,
            reads: self.read_for@.map_values(|read: ReadFor| read@),
            early_queries: self.early_queries@,
            querying: self.querying@,
            bump_writing: self.bump_writing@,
            votes: self.node_vote_archive_versions@,
            archiving: self.archiving_version,
            archived: self.node_archived_versions@,
            quorum_archived: self.quorum_archived_version,
            stripe: self.archiving_stripe_index,
            collected: self.stripe_group_values@.map_values(
                |values: Option<Vec<(Key, Bytes)>>| collected_view(values),
            ),
            archive_reading: reading_view(self.archive_reading@),
            archive_writing: self.archive_writing@,
            early: self.reorder_archive_pushes@.map_values(|push: ArchivePush| push@),
            actions: actions_view(self.actions@),
        }
    }
}

/// Calls `sort_unstable` of slices: the same versions, in order.
#[verifier::external_body]
fn sort_versions(versions: &mut Vec<StateVersion>)
    ensures
        sorted_by(final(versions)@, |a: StateVersion, b: StateVersion| a <= b),
        final(versions)@.to_multiset() == old(versions)@.to_multiset(),
{
    versions.sort_unstable()
}

/// A copy of a list of versions.
fn copy_versions(versions: &Vec<StateVersion>) -> (copy: Vec<StateVersion>)
    ensures
        copy@ == versions@,
{
    let mut copy: Vec<StateVersion> = Vec::new();
    let mut i: usize = 0;
    while i < versions.len()
        invariant
            i <= versions@.len(),
            copy@ == versions@.subrange(0, i as int),
        decreases versions@.len() - i,
    {
        copy.push(versions[i]);
        i += 1;
    }
    copy
}

/// A copy of a list of nodes.
pub fn copy_nodes(nodes: &Vec<NodeIndex>) -> (copy: Vec<NodeIndex>)
    ensures
        copy@ == nodes@,
{
    let mut copy: Vec<NodeIndex> = Vec::new();
    let mut i: usize = 0;
    while i < nodes.len()
        invariant
            i <= nodes@.len(),
            copy@ == nodes@.subrange(0, i as int),
        decreases nodes@.len() - i,
    {
        copy.push(nodes[i]);
        i += 1;
    }
    copy
}

/// A copy of a list of values.
fn copy_values(values: &Vec<(Key, Bytes)>) -> (copy: Vec<(Key, Bytes)>)
    ensures
        values_view(copy@) == values_view(values@),
{
    let mut copy: Vec<(Key, Bytes)> = Vec::new();
    let mut i: usize = 0;
    while i < values.len()
        invariant
            i <= values@.len(),
            copy@ == values@.subrange(0, i as int),
        decreases values@.len() - i,
    {
        copy.push((values[i].0, share(&values[i].1)));
        i += 1;
    }
    copy
}

/// The `k`-th smallest of some versions, from zero.
fn kth_version(versions: &Vec<StateVersion>, k: usize) -> (version: StateVersion)
    requires
        k < versions@.len(),
    ensures
        version == kth(versions@, k as int),
{
    let mut sorted = copy_versions(versions);
    sort_versions(&mut sorted);
    proof {
        let leq = |a: StateVersion, b: StateVersion| a <= b;
        versions@.lemma_sort_by_ensures(leq);
        lemma_sorted_unique(sorted@, versions@.sort_by(leq), leq);
        versions@.to_multiset_ensures();
        sorted@.to_multiset_ensures();
    }
    sorted[k]
}

/// Sets the versions of some nodes.
fn set_versions(versions: &mut Vec<StateVersion>, nodes: &Vec<NodeIndex>, version: StateVersion)
    requires
        old(versions)@.len() <= 65535,
    ensures
        final(versions)@ == set_all(old(versions)@, nodes@, version),
{
    let mut i: usize = 0;
    while i < versions.len()
        invariant
            i <= versions@.len() <= 65535,
            versions@.len() == old(versions)@.len(),
            forall|j: int|
                0 <= j < i ==> #[trigger] versions@[j] == set_all(
                    old(versions)@,
                    nodes@,
                    version,
                )[j],
            forall|j: int| i <= j < versions@.len() ==> versions@[j] == old(versions)@[j],
        decreases versions@.len() - i,
    {
        if contains_index(nodes, i as NodeIndex) {
            versions[i] = version;
        }
        i += 1;
    }
    assert(versions@ =~= set_all(old(versions)@, nodes@, version));
}

/// Raises the versions of some nodes, and says whether any was raised.
fn raise_versions(
    versions: &mut Vec<StateVersion>,
    nodes: &Vec<NodeIndex>,
    version: StateVersion,
) -> (updated: bool)
    requires
        old(versions)@.len() <= 65535,
    ensures
        final(versions)@ == raise_all(old(versions)@, nodes@, version),
        updated == (final(versions)@ != old(versions)@),
{
    let mut updated = false;
    let mut i: usize = 0;
    while i < versions.len()
        invariant
            i <= versions@.len() <= 65535,
            versions@.len() == old(versions)@.len(),
            forall|j: int|
                0 <= j < i ==> #[trigger] versions@[j] == raise_all(
                    old(versions)@,
                    nodes@,
                    version,
                )[j],
            forall|j: int| i <= j < versions@.len() ==> versions@[j] == old(versions)@[j],
            updated == exists|j: int|
                0 <= j < i && #[trigger] versions@[j] != old(versions)@[j],
        decreases versions@.len() - i,
    {
        if contains_index(nodes, i as NodeIndex) && versions[i] < version {
            versions[i] = version;
            updated = true;
            assert(versions@[i as int] != old(versions)@[i as int]);
        }
        i += 1;
    }
    assert(versions@ =~= raise_all(old(versions)@, nodes@, version));
    if !updated {
        assert(versions@ =~= old(versions)@);
    }
    updated
}

/// The position of a value that is being read.
fn find_read(reads: &Vec<ReadFor>, name: &String) -> (i: usize)
    ensures
        i == read_position(reads@.map_values(|read: ReadFor| read@), name@),
        i <= reads@.len(),
        i < reads@.len() ==> reads@[i as int].name@ == name@,
{
    let ghost view = reads@.map_values(|read: ReadFor| read@);
    let mut i: usize = 0;
    assert(view.subrange(0, view.len() as int) =~= view);
    while i < reads.len()
        invariant
            i <= reads@.len(),
            view == reads@.map_values(|read: ReadFor| read@),
            read_position(view, name@) == i + read_position(
                view.subrange(i as int, view.len() as int),
                name@,
            ),
        decreases reads@.len() - i,
    {
        let ghost rest = view.subrange(i as int, view.len() as int);
        assert(rest[0] == reads@[i as int]@);
        if reads[i].name.is_same(name) {
            return i;
        }
        assert(rest.drop_first() =~= view.subrange(i + 1, view.len() as int));
        i += 1;
    }
    i
}

/// The position of a name in what is read for archiving.
fn find_reading(reading: &Vec<(String, Key)>, name: &String) -> (i: usize)
    ensures
        i == reading_position(reading_view(reading@), name@),
        i <= reading@.len(),
{
    let ghost view = reading_view(reading@);
    let mut i: usize = 0;
    assert(view.subrange(0, view.len() as int) =~= view);
    while i < reading.len()
        invariant
            i <= reading@.len(),
            view == reading_view(reading@),
            reading_position(view, name@) == i + reading_position(
                view.subrange(i as int, view.len() as int),
                name@,
            ),
        decreases reading@.len() - i,
    {
        let ghost rest = view.subrange(i as int, view.len() as int);
        assert(rest[0] == (reading@[i as int].0@, reading@[i as int].1));
        if reading[i].0.is_same(name) {
            return i;
        }
        assert(rest.drop_first() =~= view.subrange(i + 1, view.len() as int));
        i += 1;
    }
    i
}

/// Adds a node that a value is read for, or raises its version.
fn add_target(
    targets: &mut Vec<(NodeIndex, StateVersion)>,
    node: NodeIndex,
    version: StateVersion,
)
    ensures
        final(targets)@ == with_target(old(targets)@, node, version),
{
    let ghost before = targets@;
    let mut i: usize = 0;
    assert(before.subrange(0, before.len() as int) =~= before);
    assert(before.subrange(0, 0) + with_target(before, node, version) =~= with_target(
        before,
        node,
        version,
    ));
    while i < targets.len()
        invariant
            i <= targets@.len(),
            targets@ == before,
            before == old(targets)@,
            with_target(before, node, version) == before.subrange(0, i as int) + with_target(
                before.subrange(i as int, before.len() as int),
                node,
                version,
            ),
        decreases targets@.len() - i,
    {
        let ghost rest = before.subrange(i as int, before.len() as int);
        assert(rest[0] == targets@[i as int]);
        if targets[i].0 == node {
            if targets[i].1 < version {
                targets[i] = (node, version);
            }
            assert(targets@ =~= with_target(before, node, version));
            return;
        }
        proof {
            assert(rest.drop_first() =~= before.subrange(i + 1, before.len() as int));
            assert(before.subrange(0, i as int) + (seq![rest[0]] + with_target(
                rest.drop_first(),
                node,
                version,
            )) =~= before.subrange(0, i + 1) + with_target(rest.drop_first(), node, version));
        }
        i += 1;
    }
    targets.push((node, version));
    assert(targets@ =~= with_target(before, node, version));
}

/// Shards of a stripe that are placed on some nodes.
fn find_local_shards(
    config: &ShardedStorageConfig,
    nodes: &Vec<NodeIndex>,
    stripe: StripeIndex,
) -> (shards: Vec<StripeShardIndex>)
    requires
        config.wf(),
        stripe < config.num_stripe,
    ensures
        shards@ == local_shards(*config, nodes@, stripe),
{
    let width: NodeIndex = config.stripe_width();
    let bound: NodeIndex = if width <= config.num_node {
        width
    } else {
        config.num_node
    };
    let mut shards: Vec<StripeShardIndex> = Vec::new();
    let mut shard: NodeIndex = 0;
    while shard < bound
        invariant
            config.wf(),
            stripe < config.num_stripe,
            shard <= bound <= config.width(),
            shards@ == local_shards_below(*config, nodes@, stripe, shard as int),
        decreases bound - shard,
    {
        if contains_index(nodes, (stripe + shard) % config.num_node) {
            shards.push(shard as StripeShardIndex);
        }
        shard += 1;
    }
    shards
}

proof fn lemma_local_shards(
    config: ShardedStorageConfig,
    nodes: Seq<NodeIndex>,
    stripe: StripeIndex,
    bound: int,
)
    requires
        bound <= 65535,
    ensures
        forall|i: int|
            0 <= i < local_shards_below(config, nodes, stripe, bound).len() ==> 0
                <= #[trigger] local_shards_below(config, nodes, stripe, bound)[i] < bound,
    decreases bound,
{
    if bound > 0 {
        lemma_local_shards(config, nodes, stripe, bound - 1);
        let before = local_shards_below(config, nodes, stripe, bound - 1);
        let shards = local_shards_below(config, nodes, stripe, bound);
        assert forall|i: int| 0 <= i < shards.len() implies 0 <= #[trigger] shards[i] < bound by {
            if i < before.len() {
                assert(shards[i] == before[i]);
            }
        }
    }
}

impl ShardedStorage {
    /// Everything has its size, and what is derived from the configuration is
    /// right.
    pub closed spec fn wf(&self) -> bool {
        &&& self@.wf()
        &&& forall|group: ActiveGroupIndex| #[trigger]
            self.groups@.contains(group) <==> group < self.config.num_node
                && self.config.takes_part(self.node_indices@, group)
        &&& self.archive_placements@.len() == self.config.num_stripe
        &&& forall|stripe: int|
            0 <= stripe < self.config.num_stripe ==> (
            #[trigger] self.archive_placements@[stripe])@ == local_shards(
                self.config,
                self.node_indices@,
                stripe as StripeIndex,
            )
    }

    /// What is derived from the configuration stays as it is.
    spec fn same_host(&self, other: &Self) -> bool {
        &&& self.config == other.config
        &&& self.node_indices@ == other.node_indices@
        &&& self.groups@ == other.groups@
        &&& self.archive_placements@ == other.archive_placements@
    }

    /// What well-formedness says of the state.
    pub proof fn wf_state(&self)
        requires
            self.wf(),
        ensures
            self@.wf(),
    {
    }

    /// Storage without values that hosts some nodes.
    pub fn new(config: ShardedStorageConfig, node_indices: Vec<NodeIndex>) -> (storage: Self)
        requires
            config.wf(),
            ShardState::hosts(config, node_indices@),
        ensures
            storage.wf(),
            storage@ == ShardState::initial(config, node_indices@),
    {
        let groups = config.groups_of_nodes(&node_indices);
        let mut archive_placements: Vec<Vec<StripeShardIndex>> = Vec::new();
        let mut stripe: StripeIndex = 0;
        while stripe < config.num_stripe
            invariant
                config.wf(),
                stripe <= config.num_stripe,
                archive_placements@.len() == stripe,
                forall|i: int|
                    0 <= i < stripe ==> (#[trigger] archive_placements@[i])@ == local_shards(
                        config,
                        node_indices@,
                        i as StripeIndex,
                    ),
            decreases config.num_stripe - stripe,
        {
            archive_placements.push(find_local_shards(&config, &node_indices, stripe));
            stripe += 1;
        }
        let mut votes: Vec<StateVersion> = Vec::new();
        let mut archived: Vec<StateVersion> = Vec::new();
        let mut collected: Vec<Option<Vec<(Key, Bytes)>>> = Vec::new();
        let mut node: NodeIndex = 0;
        while node < config.num_node
            invariant
                node <= config.num_node,
                votes@.len() == node,
                archived@.len() == node,
                collected@.len() == node,
                forall|i: int| 0 <= i < node ==> votes@[i] == 0 && archived@[i] == 0,
                forall|i: int| 0 <= i < node ==> #[trigger] collected@[i] is None,
            decreases config.num_node - node,
        {
            votes.push(0);
            archived.push(0);
            collected.push(None);
            node += 1;
        }
        let storage = ShardedStorage {
            config,
            node_indices,
            groups,
            archive_placements,
            version: 0,
            version_table: VersionTable::new(config.num_stripe),
            read_for: Vec::new(),
            early_queries: Vec::new(),
            querying: ListSet::new(),
            bump_writing: ListSet::new(),
            node_vote_archive_versions: votes,
            archiving_version: 0,
            node_archived_versions: archived,
            quorum_archived_version: 0,
            archiving_stripe_index: config.num_stripe,
            stripe_group_values: collected,
            archive_reading: Vec::new(),
            archive_writing: ListSet::new(),
            reorder_archive_pushes: Vec::new(),
            actions: VecDeque::new(),
        };
        assert(storage@ =~= ShardState::initial(config, node_indices@));
        storage
    }

    fn act(&mut self, action: ShardedAction)
        requires
            old(self).wf(),
        ensures
            final(self).wf(),
            final(self)@ == old(self)@.act(action@),
            final(self).same_host(old(self)),
    {
        self.actions.push_back(action);
        assert(self@ =~= old(self)@.act(action@));
    }

    fn node_index(&self) -> (node_index: NodeIndex)
        requires
            self.wf(),
        ensures
            node_index == self@.node_index(),
            node_index < self.config.num_node,
    {
        self.node_indices[0]
    }

    /// Whether a key is stored by one of the nodes hosted here.
    pub fn should_store(&self, key: &Key) -> (should_store: bool)
        requires
            self.wf(),
        ensures
            should_store == self@.should_store(*key),
    {
        contains_index(&self.groups, self.config.group_of(key))
    }

    fn should_vote_archive(&self) -> (should_vote: bool)
        requires
            self.wf(),
        ensures
            should_vote == self@.should_vote(),
    {
        let node_index: usize = self.node_index() as usize;
        if self.archiving_version != self.node_archived_versions[node_index] {
            return false;
        }
        if self.config.bypass_vote {
            self.version > self.archiving_version
        } else {
            self.version > self.node_vote_archive_versions[node_index]
        }
    }

    /// Answers a node, or hands the value to the service.
    fn answer(&mut self, target: (NodeIndex, StateVersion), key: Key, value: Option<Bytes>)
        requires
            old(self).wf(),
        ensures
            final(self).wf(),
            final(self)@ == (ShardState {
                actions: old(self)@.actions + old(self)@.answer(
                    target,
                    key,
                    super::storage::optional_bytes(value),
                ),
                ..old(self)@
            }),
            final(self).same_host(old(self)),
    {
        let ghost before = self@;
        if !contains_index(&self.node_indices, target.0) {
            let query_ok = QueryOk { version: target.1, key: key.0, bytes: value };
            self.act(
                Action::Perform(
                    StorageStateEffect::Send(
                        (Dest::One(target.0), ShardedStorageMessage::QueryOk(query_ok)),
                    ),
                ),
            );
        } else if target.1 == self.version {
            self.act(Action::Output(StorageStateOutput::Fetched(key, value)));
        }
        assert(self@ =~= ShardState {
            actions: before.actions + before.answer(
                target,
                key,
                super::storage::optional_bytes(value),
            ),
            ..before
        });
    }

    fn read_key(&mut self, node_index: NodeIndex, version: StateVersion, key: Key)
        requires
            old(self).wf(),
        ensures
            final(self).wf(),
            final(self)@ == old(self)@.read_key(node_index, version, key),
    {
        let found = self.version_table.find(&key, version, &self.config);
        match found {
            None => {
                self.answer((node_index, version), key, None);
            },
            Some(found_version) => {
                let name = active_name(&key, found_version);
                let i: usize = find_read(&self.read_for, &name);
                if i < self.read_for.len() {
                    add_target(&mut self.read_for[i].targets, node_index, version);
                    assert(self@ =~= old(self)@.read_key(node_index, version, key));
                } else {
                    let mut targets: Vec<(NodeIndex, StateVersion)> = Vec::new();
                    targets.push((node_index, version));
                    assert(targets@ =~= seq![(node_index, version)]);
                    self.read_for.push(ReadFor { name: name.clone(), key, targets });
                    self.actions.push_back(
                        Action::Perform(StorageStateEffect::Store(Store::Get(name))),
                    );
                    assert(self@ =~= old(self)@.read_key(node_index, version, key));
                }
            },
        }
    }

    /// Answers a query, now or later.
    fn receive_query(&mut self, query: Query)
        requires
            old(self).wf(),
        ensures
            final(self).wf(),
            final(self)@ == old(self)@.receive_query(query),
    {
        if query.version < self.quorum_archived_version {
            return;
        }
        if query.version > self.version {
            self.early_queries.push(query);
            assert(self@ =~= old(self)@.receive_query(query));
            return;
        }
        self.read_key(query.node_index, query.version, Key(query.key));
    }

    /// Answers the queries that have waited for the current version.
    fn answer_early_queries(&mut self)
        requires
            old(self).wf(),
        ensures
            final(self).wf(),
            final(self)@ == old(self)@.answer_early(),
    {
        let mut queries: Vec<Query> = Vec::new();
        std::mem::swap(&mut self.early_queries, &mut queries);
        let ghost before = self@;
        assert(before =~= ShardState { early_queries: Seq::empty(), ..old(self)@ });
        let mut i: usize = 0;
        assert(queries@.subrange(0, 0) =~= Seq::empty());
        while i < queries.len()
            invariant
                i <= queries@.len(),
                self.wf(),
                self@ == before.receive_queries(queries@.subrange(0, i as int)),
            decreases queries@.len() - i,
        {
            self.receive_query(queries[i]);
            i += 1;
            assert(queries@.subrange(0, i as int).drop_last() =~= queries@.subrange(0, i - 1));
            assert(queries@.subrange(0, i as int).last() == queries@[i - 1]);
        }
        assert(queries@.subrange(0, i as int) =~= queries@);
    }

    /// Answers all nodes that a value was read for.
    fn read_done(&mut self, name: &String, value: &Bytes)
        requires
            old(self).wf(),
        ensures
            final(self).wf(),
            final(self)@ == old(self)@.read_done(name@, (**value)@),
    {
        let ghost before = self@;
        let i: usize = find_read(&self.read_for, name);
        if i >= self.read_for.len() {
            return;
        }
        let read = self.read_for.remove(i);
        let ghost removed = ShardState { reads: before.reads.remove(i as int), ..before };
        assert(self@ =~= removed);
        assert(before.reads[i as int] == read@);
        let mut j: usize = 0;
        assert(self@ =~= ShardState {
            actions: removed.actions + before.answer_all(
                read.targets@.subrange(0, 0),
                read.key,
                (**value)@,
            ),
            ..removed
        });
        while j < read.targets.len()
            invariant
                j <= read.targets@.len(),
                self.wf(),
                removed == (ShardState { reads: before.reads.remove(i as int), ..before }),
                self@ == (ShardState {
                    actions: removed.actions + before.answer_all(
                        read.targets@.subrange(0, j as int),
                        read.key,
                        (**value)@,
                    ),
                    ..removed
                }),
            decreases read.targets@.len() - j,
        {
            let ghost done = read.targets@.subrange(0, j as int);
            self.answer(read.targets[j], read.key, Some(share(value)));
            proof {
                let next = read.targets@.subrange(0, j + 1);
                assert(next.drop_last() =~= done);
                assert(next.last() == read.targets@[j as int]);
                assert(self@ =~= ShardState {
                    actions: removed.actions + before.answer_all(next, read.key, (**value)@),
                    ..removed
                });
            }
            j += 1;
        }
        assert(read.targets@.subrange(0, j as int) =~= read.targets@);
    }

    /// Tells that the bump is done once nothing is being written for it.
    fn bumped_if_written(&mut self)
        requires
            old(self).wf(),
        ensures
            final(self).wf(),
            final(self)@ == old(self)@.bumped_if_written(),
    {
        if self.bump_writing.is_empty() {
            self.act(Action::Output(StorageStateOutput::Bumped));
        }
    }

    /// Writes a value at the current version, if it is to be stored here.
    fn write(&mut self, key: Key, value: Bytes)
        requires
            old(self).wf(),
        ensures
            final(self).wf(),
            final(self)@ == old(self)@.write(key, (*value)@),
    {
        if self.should_store(&key) {
            self.version_table.add(key, self.version, &self.config);
            let name = active_name(&key, self.version);
            self.bump_writing.insert(name.clone());
            self.actions.push_back(
                Action::Perform(StorageStateEffect::Store(Store::Put(name, value))),
            );
            assert(self@ =~= old(self)@.write(key, (*value)@));
        }
    }

    /// Forgets values that are outdated in a version that enough nodes have
    /// archived.
    fn may_collect(&mut self)
        requires
            old(self).wf(),
        ensures
            final(self).wf(),
            final(self)@ == old(self)@.collect(),
    {
        let ghost before = self@;
        let version: StateVersion = kth_version(
            &self.node_archived_versions,
            self.config.num_faulty_node as usize,
        );
        if version <= self.quorum_archived_version {
            return;
        }
        let collected = self.version_table.collect(version);
        let ghost names = outdated(before.table, version);
        let mut i: usize = 0;
        assert(self@ =~= ShardState {
            table: self@.table,
            actions: before.actions + deletes(names.subrange(0, 0)),
            ..before
        });
        while i < collected.len()
            invariant
                i <= collected@.len(),
                collected@ == names,
                self.wf(),
                self@.table == super::version_table::kept(before.table, version),
                self@ == (ShardState {
                    table: self@.table,
                    actions: before.actions + deletes(names.subrange(0, i as int)),
                    ..before
                }),
            decreases collected@.len() - i,
        {
            let name = active_name(&collected[i].0, collected[i].1);
            self.act(Action::Perform(StorageStateEffect::Store(Store::Delete(name))));
            i += 1;
            assert(self@ =~= ShardState {
                table: self@.table,
                actions: before.actions + deletes(names.subrange(0, i as int)),
                ..before
            });
        }
        assert(names.subrange(0, i as int) =~= names);
        self.quorum_archived_version = version;
        if version > self.version {
            let num_skipped: StateVersion = version - self.version;
            self.version = version;
            self.actions.push_back(Action::Output(StorageStateOutput::Skipped(num_skipped)));
        }
        assert(self@ =~= before.collect());
    }

    /// Tells all nodes once no shard is being written any more.
    fn may_finish_archive(&mut self)
        requires
            old(self).wf(),
        ensures
            final(self).wf(),
            final(self)@ == old(self)@.finish_archive(),
    {
        if !self.archive_writing.is_empty() {
            return;
        }
        let ghost before = self@;
        let archived = Archived {
            version: self.archiving_version,
            node_indices: copy_nodes(&self.node_indices),
        };
        self.act(
            Action::Perform(
                StorageStateEffect::Send((Dest::All, ShardedStorageMessage::Archived(archived))),
            ),
        );
        set_versions(
            &mut self.node_archived_versions,
            &self.node_indices,
            self.archiving_version,
        );
        proof {
            let expected = Archived { version: before.archiving, node_indices: before.nodes };
            assert(self@ =~= ShardState {
                archived: set_all(before.archived, before.nodes, before.archiving),
                ..before.act(
                    super::shard_state::send(
                        Dest::All,
                        ShardedStorageMessage::Archived(expected),
                    ),
                )
            });
        }
        self.may_collect();
    }

    /// The nodes that archive the current stripe and are not hosted here.
    fn remote_archive_nodes(&self) -> (nodes: Vec<NodeIndex>)
        requires
            self.wf(),
            self.archiving_stripe_index < self.config.num_stripe,
        ensures
            nodes@ == remote_nodes(
                self.config,
                self.node_indices@,
                self.archiving_stripe_index,
            ),
    {
        let all = self.config.archive_nodes_of_stripe(self.archiving_stripe_index);
        let mut nodes: Vec<NodeIndex> = Vec::new();
        let ghost remote = |node: NodeIndex| !self.node_indices@.contains(node);
        let mut i: usize = 0;
        assert(all@.subrange(0, 0).filter(remote) =~= Seq::empty()) by {
            reveal(Seq::filter);
        }
        while i < all.len()
            invariant
                i <= all@.len(),
                remote == (|node: NodeIndex| !self.node_indices@.contains(node)),
                nodes@ == all@.subrange(0, i as int).filter(remote),
            decreases all@.len() - i,
        {
            proof {
                assert(all@.subrange(0, i + 1).drop_last() =~= all@.subrange(0, i as int));
                reveal(Seq::filter);
            }
            if !contains_index(&self.node_indices, all[i]) {
                nodes.push(all[i]);
            }
            i += 1;
        }
        assert(all@.subrange(0, i as int) =~= all@);
        nodes
    }

    /// Hands out the values of the local groups once all of them are read.
    fn push_if_read(&mut self)
        requires
            old(self).wf(),
        ensures
            final(self).wf(),
            final(self)@ == old(self)@.pushed_if_read(),
    {
        if self.archive_reading.len() > 0 || self.archiving_stripe_index
            >= self.config.num_stripe {
            return;
        }
        let ghost before = self@;
        let groups = self.config.is_primary_of(&self.node_indices);
        let ghost push = |group: NodeIndex| before.push(group);
        let mut i: usize = 0;
        assert(self@ =~= ShardState {
            actions: before.actions + groups@.subrange(0, 0).map_values(push),
            ..before
        });
        while i < groups.len()
            invariant
                i <= groups@.len(),
                groups@ == before.nodes,
                push == (|group: NodeIndex| before.push(group)),
                self.wf(),
                before.stripe < before.config.num_stripe,
                self@ == (ShardState {
                    actions: before.actions + groups@.subrange(0, i as int).map_values(push),
                    ..before
                }),
            decreases groups@.len() - i,
        {
            let group: NodeIndex = groups[i];
            assert(before.nodes[i as int] == group);
            let values = match &self.stripe_group_values[group as usize] {
                Some(values) => copy_values(values),
                None => Vec::new(),
            };
            proof {
                assert(before.collected[group as int] == collected_view(
                    self.stripe_group_values@[group as int],
                ));
                assert(values_view(values@) =~= group_values(before.collected, group));
            }
            let archive_push = ArchivePush {
                version: self.archiving_version,
                stripe_index: self.archiving_stripe_index,
                group_index: group,
                values,
            };
            let dest = Dest::Multi(self.remote_archive_nodes());
            self.act(
                Action::Perform(
                    StorageStateEffect::Send(
                        (dest, ShardedStorageMessage::ArchivePush(archive_push)),
                    ),
                ),
            );
            i += 1;
            proof {
                assert(groups@.subrange(0, i as int) =~= groups@.subrange(0, i - 1).push(group));
                assert(self@ =~= ShardState {
                    actions: before.actions + groups@.subrange(0, i as int).map_values(push),
                    ..before
                });
            }
        }
        assert(groups@.subrange(0, i as int) =~= groups@);
        assert(self@ =~= before.pushed_if_read());
    }

    /// Takes what was pushed before the stripe was started on.
    fn take_early_pushes(&mut self)
        requires
            old(self).wf(),
        ensures
            final(self).wf(),
            final(self)@ == old(self)@.with_early(),
    {
        let ghost before = self@;
        let mut pushes: Vec<ArchivePush> = Vec::new();
        std::mem::swap(&mut self.reorder_archive_pushes, &mut pushes);
        // from the last to the first; the list of what is still early is built
        // back to front
        let mut rest: Vec<ArchivePush> = Vec::new();
        let ghost early = pushes@.map_values(|push: ArchivePush| push@);
        assert(early == before.early);
        let version: StateVersion = self.archiving_version;
        let stripe: StripeIndex = self.archiving_stripe_index;
        pushes = reversed(pushes);
        let ghost len = early.len() as int;
        assert(early.subrange(0, 0) =~= Seq::empty());
        assert(self@ =~= ShardState {
            collected: absorbed(before.collected, early.subrange(0, 0), version, stripe),
            early: Seq::empty(),
            ..before
        });
        while pushes.len() > 0
            invariant
                0 <= pushes@.len() <= len,
                len == early.len(),
                early == before.early,
                version == before.archiving,
                stripe == before.stripe,
                before.wf(),
                self.wf(),
                forall|i: int|
                    0 <= i < pushes@.len() ==> (#[trigger] pushes@[i])@ == early[len - 1 - i],
                self@ == (ShardState {
                    collected: absorbed(
                        before.collected,
                        early.subrange(0, len - pushes@.len()),
                        version,
                        stripe,
                    ),
                    early: Seq::empty(),
                    ..before
                }),
                rest@.map_values(|push: ArchivePush| push@) == still_early(
                    early.subrange(0, len - pushes@.len()),
                    version,
                    stripe,
                ),
                forall|i: int|
                    0 <= i < rest@.len() ==> (#[trigger] rest@[i]).group_index
                        < before.config.num_node,
            decreases pushes@.len(),
        {
            let ghost done = len - pushes@.len();
            let ghost last = pushes@.len() - 1;
            assert(pushes@[last]@ == early[done]);
            assert(early.subrange(0, done + 1).drop_last() =~= early.subrange(0, done));
            let push = pushes.pop().unwrap();
            assert(push@ == early[done]);
            assert(push.group_index == early[done].group_index);
            let ghost rest_before = rest@;
            if push.version == version && push.stripe_index == stripe {
                let group: usize = push.group_index as usize;
                self.stripe_group_values[group] = Some(push.values);
            } else {
                rest.push(push);
                assert(rest@.map_values(|push: ArchivePush| push@) =~= rest_before.map_values(
                    |push: ArchivePush| push@,
                ).push(push@));
            }
            proof {
                assert(self@ =~= ShardState {
                    collected: absorbed(
                        before.collected,
                        early.subrange(0, done + 1),
                        version,
                        stripe,
                    ),
                    early: Seq::empty(),
                    ..before
                });
            }
        }
        assert(early.subrange(0, len) =~= early);
        self.reorder_archive_pushes = rest;
        assert(self@ =~= before.with_early());
    }

    /// Reads the values of the groups that have their primary here.
    fn open_stripe(&mut self)
        requires
            old(self).wf(),
            old(self)@.stripe < old(self)@.config.num_stripe,
        ensures
            final(self).wf(),
            final(self)@ == old(self)@.opened(),
    {
        let ghost before = self@;
        let ghost goal = before.opened();
        let mut group: usize = 0;
        while group < self.stripe_group_values.len()
            invariant
                group <= self.stripe_group_values@.len(),
                self.wf(),
                before.wf(),
                goal == before.opened(),
                self@ == (ShardState { collected: self@.collected, ..before }),
                forall|i: int| 0 <= i < group ==> #[trigger] self@.collected[i] == goal.collected[i],
                forall|i: int|
                    group <= i < before.collected.len() ==> #[trigger] self@.collected[i]
                        == before.collected[i],
            decreases self.stripe_group_values@.len() - group,
        {
            let ghost this = self@;
            if contains_index(&self.node_indices, group as NodeIndex) {
                self.stripe_group_values[group] = Some(Vec::new());
                assert(values_view(Seq::empty()) =~= Seq::empty());
                assert(self@.collected =~= this.collected.update(
                    group as int,
                    Some(Seq::empty()),
                ));
            }
            assert(self@ =~= ShardState { collected: self@.collected, ..before });
            group += 1;
        }
        assert(self@.collected =~= goal.collected);
        let snapshot = self.version_table.snapshot(
            self.archiving_stripe_index,
            self.archiving_version,
        );
        let ghost opened = ShardState { collected: goal.collected, ..before };
        let mut i: usize = 0;
        assert(to_read(before.config, before.nodes, snapshot@.subrange(0, 0)) =~= Seq::empty());
        assert(self@ =~= ShardState {
            archive_reading: before.archive_reading + Seq::empty(),
            actions: before.actions + gets(Seq::empty()),
            ..opened
        });
        while i < snapshot.len()
            invariant
                i <= snapshot@.len(),
                self.wf(),
                before.wf(),
                opened == (ShardState { collected: goal.collected, ..before }),
                ({
                    let reading = to_read(
                        before.config,
                        before.nodes,
                        snapshot@.subrange(0, i as int),
                    );
                    self@ == ShardState {
                        archive_reading: before.archive_reading + reading,
                        actions: before.actions + gets(reading),
                        ..opened
                    }
                }),
            decreases snapshot@.len() - i,
        {
            let (key, version) = snapshot[i];
            let ghost done = to_read(before.config, before.nodes, snapshot@.subrange(0, i as int));
            let ghost next = to_read(before.config, before.nodes, snapshot@.subrange(0, i + 1));
            let ghost this = self@;
            proof {
                assert(snapshot@.subrange(0, i + 1).drop_last() =~= snapshot@.subrange(
                    0,
                    i as int,
                ));
                assert(snapshot@.subrange(0, i + 1).last() == snapshot@[i as int]);
            }
            if contains_index(&self.node_indices, self.config.group_of(&key)) {
                let name = active_name(&key, version);
                self.archive_reading.push((name.clone(), key));
                self.actions.push_back(
                    Action::Perform(StorageStateEffect::Store(Store::Get(name))),
                );
                proof {
                    assert(next == done.push((active_text(key, version), key)));
                    assert(gets(next) =~= gets(done).push(store(Store::Get(name@))));
                    assert(self@.archive_reading =~= this.archive_reading.push((name@, key)));
                    assert(self@.actions =~= this.actions.push(store(Store::Get(name@))));
                    assert(self@ =~= ShardState {
                        archive_reading: self@.archive_reading,
                        actions: self@.actions,
                        ..this
                    });
                }
            }
            assert(self@ =~= ShardState {
                archive_reading: before.archive_reading + next,
                actions: before.actions + gets(next),
                ..opened
            });
            i += 1;
        }
        assert(snapshot@.subrange(0, i as int) =~= snapshot@);
        assert(self@ =~= before.opened());
    }
}

impl ShardedStorage {
    /// Whether the stripe can be closed.
    fn can_close(&self) -> (can_close: bool)
        requires
            self.wf(),
        ensures
            can_close == self@.can_close(),
    {
        if self.archiving_stripe_index >= self.config.num_stripe || self.archive_reading.len()
            > 0 {
            return false;
        }
        if self.archive_placements[self.archiving_stripe_index as usize].len() == 0 {
            assert(local_shards(
                self.config,
                self.node_indices@,
                self.archiving_stripe_index,
            ).len() == 0);
            return true;
        }
        assert(local_shards(
            self.config,
            self.node_indices@,
            self.archiving_stripe_index,
        ).len() > 0);
        let mut group: usize = 0;
        while group < self.stripe_group_values.len()
            invariant
                group <= self.stripe_group_values@.len(),
                local_shards(
                    self.config,
                    self.node_indices@,
                    self.archiving_stripe_index,
                ).len() > 0,
                forall|i: int| 0 <= i < group ==> #[trigger] self@.collected[i] is Some,
            decreases self.stripe_group_values@.len() - group,
        {
            assert(self@.collected[group as int] == collected_view(
                self.stripe_group_values@[group as int],
            ));
            if self.stripe_group_values[group].is_none() {
                return false;
            }
            group += 1;
        }
        true
    }

    /// Forgets the collected values, and hands them out.
    fn take_collected(&mut self) -> (groups: Vec<(ActiveGroupIndex, Vec<(Key, Bytes)>)>)
        requires
            old(self).wf(),
        ensures
            final(self).wf(),
            final(self)@ == (ShardState {
                collected: nothing_collected(old(self)@.config.num_node),
                ..old(self)@
            }),
            final(self).same_host(old(self)),
            (forall|group: int|
                0 <= group < old(self)@.collected.len() ==> #[trigger] old(
                    self,
                )@.collected[group] is Some) ==> groups_view(groups@) == complete_groups(
                old(self)@.collected,
            ),
    {
        let ghost before = self@;
        let mut taken: Vec<Option<Vec<(Key, Bytes)>>> = Vec::new();
        std::mem::swap(&mut self.stripe_group_values, &mut taken);
        let mut fresh: Vec<Option<Vec<(Key, Bytes)>>> = Vec::new();
        let mut groups: Vec<(ActiveGroupIndex, Vec<(Key, Bytes)>)> = Vec::new();
        let mut group: usize = 0;
        let ghost values = taken@;
        while group < taken.len()
            invariant
                group <= taken@.len(),
                values.len() == taken@.len(),
                values.len() <= 65535,
                fresh@.len() == group,
                groups@.len() <= group,
                forall|i: int| 0 <= i < group ==> #[trigger] fresh@[i] is None,
                forall|i: int| group <= i < values.len() ==> #[trigger] taken@[i] == values[i],
                (forall|i: int| 0 <= i < values.len() ==> #[trigger] values[i] is Some) ==> {
                    &&& groups@.len() == group
                    &&& forall|i: int|
                        0 <= i < group ==> (#[trigger] groups@[i]).0 == i && Some(groups@[i].1)
                            == values[i]
                },
            decreases taken@.len() - group,
        {
            let mut list: Option<Vec<(Key, Bytes)>> = None;
            assert(taken@[group as int] == values[group as int]);
            std::mem::swap(&mut taken[group], &mut list);
            fresh.push(None);
            match list {
                Some(list) => groups.push((group as ActiveGroupIndex, list)),
                None => (),
            }
            group += 1;
        }
        self.stripe_group_values = fresh;
        proof {
            assert(self@.collected =~= nothing_collected(before.config.num_node));
            assert(self@ =~= ShardState {
                collected: nothing_collected(before.config.num_node),
                ..before
            });
            if forall|group: int|
                0 <= group < before.collected.len() ==> #[trigger] before.collected[group] is Some {
                assert forall|i: int| 0 <= i < values.len() implies #[trigger] values[i] is Some by {
                    assert(before.collected[i] == collected_view(values[i]));
                }
                let expected = complete_groups(before.collected);
                assert forall|i: int| 0 <= i < expected.len() implies #[trigger] groups_view(
                    groups@,
                )[i] == expected[i] by {
                    assert(before.collected[i] == collected_view(values[i]));
                    assert(groups@[i].0 == i);
                }
                assert(groups_view(groups@) =~= expected);
            }
        }
        groups
    }

    /// Closes a stripe: writes the shards that are placed here.
    fn close_stripe(&mut self)
        requires
            old(self).wf(),
            old(self)@.can_close(),
        ensures
            final(self).wf(),
            final(self)@ == old(self)@.closed(),
    {
        let ghost before = self@;
        let stripe: StripeIndex = self.archiving_stripe_index;
        let groups = self.take_collected();
        let ghost shards = local_shards(before.config, before.nodes, stripe);
        let ghost names = shard_names(stripe, shards);
        let ghost contents = shards_spec(
            before.config,
            stripe_encoding(complete_groups(before.collected)),
            shards,
        );
        let ghost writes = Seq::new(
            shards.len(),
            |i: int| store(Store::Put(names[i], contents[i])),
        );
        assert(self.archive_placements@[stripe as int]@ == shards);
        if self.archive_placements[stripe as usize].len() > 0 {
            proof {
                lemma_local_shards(
                    before.config,
                    before.nodes,
                    stripe,
                    if before.config.width() <= before.config.num_node {
                        before.config.width()
                    } else {
                        before.config.num_node as int
                    },
                );
            }
            let bytes = archive_shards(
                &self.config,
                &groups,
                &self.archive_placements[stripe as usize],
            );
            assert(bytes@.map_values(|shard: Bytes| (*shard)@) == contents);
            assert(bytes@.len() == contents.len());
            let ghost cleared = self@;
            let mut i: usize = 0;
            assert(self@ =~= ShardState {
                archive_writing: cleared.archive_writing.union(names.subrange(0, 0).to_set()),
                actions: cleared.actions + writes.subrange(0, 0),
                ..cleared
            });
            while i < self.archive_placements[stripe as usize].len()
                invariant
                    i <= shards.len(),
                    shards.len() == bytes@.len(),
                    stripe < self.config.num_stripe,
                    self.wf(),
                    self.archive_placements@.len() == self.config.num_stripe,
                    self.archive_placements@[stripe as int]@ == shards,
                    bytes@.map_values(|shard: Bytes| (*shard)@) == contents,
                    names == shard_names(stripe, shards),
                    writes == Seq::new(
                        shards.len(),
                        |i: int| store(Store::Put(names[i], contents[i])),
                    ),
                    self@ == (ShardState {
                        archive_writing: cleared.archive_writing.union(
                            names.subrange(0, i as int).to_set(),
                        ),
                        actions: cleared.actions + writes.subrange(0, i as int),
                        ..cleared
                    }),
                decreases shards.len() - i,
            {
                let ghost this = self@;
                let shard: StripeShardIndex = self.archive_placements[stripe as usize][i];
                let name = shard_name(stripe, shard);
                self.archive_writing.insert(name.clone());
                self.actions.push_back(
                    Action::Perform(
                        StorageStateEffect::Store(Store::Put(name, share(&bytes[i]))),
                    ),
                );
                proof {
                    assert(contents[i as int] == (*bytes@[i as int])@);
                    let next = names.subrange(0, i + 1);
                    assert(next =~= names.subrange(0, i as int).push(name@));
                    lemma_push_to_set(names.subrange(0, i as int), name@);
                    assert(cleared.archive_writing.union(names.subrange(0, i as int).to_set())
                        .insert(name@) =~= cleared.archive_writing.union(next.to_set()));
                    assert(writes.subrange(0, i + 1) =~= writes.subrange(0, i as int).push(
                        store(Store::Put(name@, contents[i as int])),
                    ));
                    assert(self@.actions =~= this.actions.push(
                        store(Store::Put(name@, contents[i as int])),
                    ));
                    assert(self@.actions =~= cleared.actions + writes.subrange(0, i + 1));
                    assert(self@ =~= ShardState {
                        archive_writing: self@.archive_writing,
                        actions: self@.actions,
                        ..this
                    });
                    assert(self@ =~= ShardState {
                        archive_writing: cleared.archive_writing.union(next.to_set()),
                        actions: cleared.actions + writes.subrange(0, i + 1),
                        ..cleared
                    });
                }
                i += 1;
            }
            assert(names.subrange(0, i as int) =~= names);
            assert(writes.subrange(0, i as int) =~= writes);
        } else {
            assert(names =~= Seq::empty());
            assert(names.to_set() =~= Set::empty());
            assert(writes =~= Seq::empty());
        }
        self.archiving_stripe_index = stripe + 1;
        assert(self@ =~= before.closed());
    }

    /// Starts on a stripe, and goes on as far as possible.
    fn prepare_archive_stripe(&mut self)
        requires
            old(self).wf(),
            old(self)@.stripe < old(self)@.config.num_stripe,
        ensures
            final(self).wf(),
            final(self)@ == old(self)@.prepare(),
        decreases old(self)@.config.num_stripe - old(self)@.stripe, 1int,
    {
        self.open_stripe();
        self.push_if_read();
        self.take_early_pushes();
        self.may_finish_archive_stripe();
    }

    /// Closes the stripe if possible, and goes on with the next.
    fn may_finish_archive_stripe(&mut self)
        requires
            old(self).wf(),
        ensures
            final(self).wf(),
            final(self)@ == old(self)@.advance(),
        decreases old(self)@.config.num_stripe - old(self)@.stripe, 0int,
    {
        if !self.can_close() {
            return;
        }
        self.close_stripe();
        if self.archiving_stripe_index == self.config.num_stripe {
            self.may_finish_archive();
        } else {
            self.prepare_archive_stripe();
        }
    }

    /// Starts to archive a version.
    fn enter_archiving(&mut self, version: StateVersion)
        requires
            old(self).wf(),
        ensures
            final(self).wf(),
            final(self)@ == old(self)@.enter(version),
    {
        let ghost before = self@;
        if self.archiving_stripe_index != self.config.num_stripe {
            self.take_collected();
            self.archive_reading.clear();
            self.archive_writing.clear();
            assert(self@ =~= before.abandoned());
        }
        self.archiving_version = version;
        self.archiving_stripe_index = 0;
        assert(self@ =~= ShardState { archiving: version, stripe: 0, ..before.abandoned() });
        self.prepare_archive_stripe();
    }

    /// Starts archiving once enough nodes have voted for a higher version.
    fn may_enter_archiving(&mut self)
        requires
            old(self).wf(),
        ensures
            final(self).wf(),
            final(self)@ == old(self)@.may_enter(),
    {
        let version: StateVersion = kth_version(
            &self.node_vote_archive_versions,
            self.config.num_faulty_node as usize,
        );
        if version <= self.archiving_version {
            return;
        }
        self.enter_archiving(version);
    }

    /// Votes to archive the current version, if it is time to.
    fn vote_if_due(&mut self)
        requires
            old(self).wf(),
        ensures
            final(self).wf(),
            final(self)@ == old(self)@.vote_if_due(),
    {
        if !self.should_vote_archive() {
            return;
        }
        if self.config.bypass_vote {
            self.enter_archiving(self.archiving_version + 1);
            return;
        }
        let ghost before = self@;
        let vote_archive = VoteArchive {
            version: self.version,
            node_indices: copy_nodes(&self.node_indices),
        };
        self.act(Action::Perform(StorageStateEffect::Order(vote_archive)));
        set_versions(&mut self.node_vote_archive_versions, &self.node_indices, self.version);
        proof {
            let vote = VoteArchive { version: before.version, node_indices: before.nodes };
            assert(self@ =~= ShardState {
                votes: set_all(before.votes, before.nodes, before.version),
                ..before.act(Action::Perform(StorageStateEffect::Order(vote)))
            });
        }
        self.may_enter_archiving();
    }

    /// Takes a value that was read for archiving.
    fn archive_read_done(&mut self, name: &String, value: Bytes)
        requires
            old(self).wf(),
        ensures
            final(self).wf(),
            final(self)@ == old(self)@.archive_read_done(name@, (*value)@),
    {
        let ghost before = self@;
        let i: usize = find_reading(&self.archive_reading, name);
        if i >= self.archive_reading.len() {
            return;
        }
        let (_, key) = self.archive_reading.remove(i);
        let group: ActiveGroupIndex = self.config.group_of(&key);
        let mut taken: Option<Vec<(Key, Bytes)>> = None;
        std::mem::swap(&mut self.stripe_group_values[group as usize], &mut taken);
        assert(before.collected[group as int] == collected_view(taken));
        let mut values = match taken {
            Some(values) => values,
            None => Vec::new(),
        };
        assert(values_view(values@) =~= group_values(before.collected, group));
        values.push((key, value));
        assert(values_view(values@) =~= group_values(before.collected, group).push(
            (key, (*value)@),
        ));
        self.stripe_group_values[group as usize] = Some(values);
        assert(self@.archive_reading =~= before.archive_reading.remove(i as int));
        assert(self@ =~= before.with_archive_read(i as int, (*value)@));
        self.push_if_read();
        self.may_finish_archive_stripe();
    }

    /// Takes the values of a group.
    fn receive_push(&mut self, push: ArchivePush)
        requires
            old(self).wf(),
        ensures
            final(self).wf(),
            final(self)@ == old(self)@.receive_push(push@),
    {
        if push.stripe_index >= self.config.num_stripe || push.group_index
            >= self.config.num_node {
            return;
        }
        if push.version < self.archiving_version {
            return;
        }
        if push.version == self.archiving_version && push.stripe_index
            < self.archiving_stripe_index {
            return;
        }
        let ghost before = self@;
        if push.version == self.archiving_version && push.stripe_index
            == self.archiving_stripe_index {
            self.stripe_group_values[push.group_index as usize] = Some(push.values);
            assert(self@ =~= ShardState {
                collected: before.collected.update(
                    push.group_index as int,
                    Some(values_view(push.values@)),
                ),
                ..before
            });
            self.may_finish_archive_stripe();
        } else {
            self.reorder_archive_pushes.push(push);
            assert(self@ =~= ShardState { early: before.early.push(push@), ..before });
        }
    }
}

impl State for ShardedStorage {
    type Effect = ShardedEffect;

    type Output = StorageStateOutput;

    type Message = ShardedStorageMessage;

    open spec fn inv(&self) -> bool {
        self.wf()
    }

    open spec fn proceed_spec(state: ShardState, since_start: Duration) -> (
        ShardState,
        ShardAction,
    ) {
        state.proceed()
    }

    open spec fn receive_spec(state: ShardState, message: StorageMessage) -> ShardState {
        state.receive(message)
    }

    fn proceed(&mut self, since_start: Duration) -> (action: ShardedAction) {
        if self.actions.len() == 0 && self.config.bypass_vote {
            self.vote_if_due();
        }
        let ghost ready = self@;
        match self.actions.pop_front() {
            Some(action) => {
                assert(self@ =~= ShardState { actions: ready.actions.drop_first(), ..ready });
                action
            },
            None => {
                assert(self@ =~= ready);
                Action::Pending(None)
            },
        }
    }

    fn receive(&mut self, message: ShardedStorageMessage) {
        let ghost before = self@;
        match message {
            ShardedStorageMessage::Query(query) => {
                self.receive_query(query);
            },
            ShardedStorageMessage::QueryOk(query_ok) => {
                let key = Key(query_ok.key);
                if query_ok.version != self.version {
                    return;
                }
                let removed = self.querying.remove(&key);
                if removed {
                    assert(self@ =~= ShardState {
                        querying: before.querying.remove(key),
                        ..before
                    });
                    self.act(Action::Output(StorageStateOutput::Fetched(key, query_ok.bytes)));
                } else {
                    assert(self@.querying =~= before.querying);
                    assert(self@ =~= before);
                }
            },
            ShardedStorageMessage::ArchivePush(push) => {
                self.receive_push(push);
            },
            ShardedStorageMessage::Archived(archived) => {
                let updated = raise_versions(
                    &mut self.node_archived_versions,
                    &archived.node_indices,
                    archived.version,
                );
                let ghost versions = raise_all(
                    before.archived,
                    archived.node_indices@,
                    archived.version,
                );
                assert(self@ =~= ShardState { archived: versions, ..before });
                if updated {
                    self.may_collect();
                }
            },
        }
    }
}

impl StorageState for ShardedStorage {
    type StorageSend = (Dest, ShardedStorageMessage);

    type OrderedMessage = VoteArchive;

    open spec fn fetch_spec(state: ShardState, key: Key) -> ShardState {
        state.fetch(key)
    }

    open spec fn bump_spec(state: ShardState, writes: Values) -> ShardState {
        state.bump(writes)
    }

    open spec fn will_fetch_spec(state: ShardState, key: Key) -> ShardState {
        state
    }

    open spec fn get_complete_spec(
        state: ShardState,
        name: Seq<char>,
        value: Seq<u8>,
    ) -> ShardState {
        state.get_complete(name, value)
    }

    open spec fn put_complete_spec(state: ShardState, name: Seq<char>) -> ShardState {
        state.put_complete(name)
    }

    open spec fn receive_ordered_spec(
        state: ShardState,
        message: VoteArchive<Seq<NodeIndex>>,
    ) -> ShardState {
        state.receive_ordered(message)
    }

    fn fetch(&mut self, key: Key) {
        if self.should_store(&key) {
            self.read_key(self.node_index(), self.version, key);
            return;
        }
        let ghost before = self@;
        self.querying.insert(key);
        assert(self@ =~= ShardState { querying: before.querying.insert(key), ..before });
        let query = Query { version: self.version, key: key.0, node_index: self.node_index() };
        let dest = Dest::Multi(self.config.nodes_of(&key));
        self.act(
            Action::Perform(
                StorageStateEffect::Send((dest, ShardedStorageMessage::Query(query))),
            ),
        );
        assert(self@ =~= before.fetch(key));
    }

    fn bump(&mut self, writes: Vec<(Key, Bytes)>) {
        if self.version == u64::MAX {
            return;
        }
        let ghost before = self@;
        let ghost view = values_view(writes@);
        self.querying.clear();
        self.version = self.version + 1;
        let ghost next = self@;
        assert(next =~= ShardState {
            querying: Set::empty(),
            version: (before.version + 1) as StateVersion,
            ..before
        });
        let mut i: usize = 0;
        assert(view.subrange(0, 0) =~= Seq::empty());
        while i < writes.len()
            invariant
                i <= writes@.len(),
                view == values_view(writes@),
                self.wf(),
                self@ == next.write_all(view.subrange(0, i as int)),
            decreases writes@.len() - i,
        {
            self.write(writes[i].0, share(&writes[i].1));
            i += 1;
            assert(view.subrange(0, i as int).drop_last() =~= view.subrange(0, i - 1));
            assert(view.subrange(0, i as int).last() == view[i - 1]);
        }
        assert(view.subrange(0, i as int) =~= view);
        self.answer_early_queries();
        self.bumped_if_written();
        self.vote_if_due();
    }

    fn will_fetch(&mut self, key: Key) {
    }

    fn get_complete(&mut self, name: String, value: Bytes) {
        self.read_done(&name, &value);
        self.archive_read_done(&name, value);
    }

    fn put_complete(&mut self, name: String) {
        let ghost before = self@;
        let bump_removed = self.bump_writing.remove(&name);
        if bump_removed {
            assert(self@ =~= ShardState {
                bump_writing: before.bump_writing.remove(name@),
                ..before
            });
            self.bumped_if_written();
        } else {
            assert(self@.bump_writing =~= before.bump_writing);
            assert(self@ =~= before);
        }
        let ghost bumped = self@;
        let archive_removed = self.archive_writing.remove(&name);
        if archive_removed {
            assert(self@ =~= ShardState {
                archive_writing: bumped.archive_writing.remove(name@),
                ..bumped
            });
            self.may_finish_archive();
        } else {
            assert(self@.archive_writing =~= bumped.archive_writing);
            assert(self@ =~= bumped);
        }
    }

    fn receive_ordered(&mut self, message: VoteArchive) {
        let ghost before = self@;
        let updated = raise_versions(
            &mut self.node_vote_archive_versions,
            &message.node_indices,
            message.version,
        );
        let ghost votes = raise_all(before.votes, message.node_indices@, message.version);
        assert(self@ =~= ShardState { votes, ..before });
        if updated {
            self.may_enter_archiving();
        }
    }
}

proof fn lemma_push_to_set(names: Seq<Seq<char>>, name: Seq<char>)
    ensures
        names.push(name).to_set() == names.to_set().insert(name),
{
    let pushed = names.push(name);
    assert forall|other: Seq<char>| pushed.to_set().contains(other) == names.to_set().insert(
        name,
    ).contains(other) by {
        if names.contains(other) {
            assert(pushed[names.index_of(other)] == other);
        }
        assert(pushed[names.len() as int] == name);
        if pushed.contains(other) && other != name {
            let i = pushed.index_of(other);
            assert(names[i] == other);
        }
    }
    assert(pushed.to_set() =~= names.to_set().insert(name));
}

} // verus!
