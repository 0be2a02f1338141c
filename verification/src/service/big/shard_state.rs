//! The mathematical state of sharded storage, and what becomes of it.
use super::config::{
    ActiveGroupIndex, Key, NodeIndex, ShardedStorageConfig, StateVersion, StripeIndex,
    StripeShardIndex,
};
use super::erasure::{shards_spec, stripe_encoding, Values};
use super::message::{
    ArchivePush, Archived, Query, QueryOk, ShardedStorageMessage, StorageMessage, VoteArchive,
};
use super::storage::{StorageStateEffect, StorageStateOutput};
use super::text::{active_text, shard_text};
use super::version_table::{
    add_version, in_effect, kept, outdated, snapshot_rows, versions_of, Rows,
};
use crate::service::{Dest, Store};
use crate::state::Action;
use vstd::prelude::*;

verus! {

/// What sharded storage asks for, over the values themselves.
pub type ShardEffect = StorageStateEffect<
    (Dest<Seq<NodeIndex>>, StorageMessage),
    VoteArchive<Seq<NodeIndex>>,
    Store<Seq<char>, Seq<u8>>,
>;

/// An action of sharded storage.
pub type ShardAction = Action<ShardEffect, StorageStateOutput<Seq<u8>>>;

/// A value that is being read, and the nodes it is read for, each with the
/// latest version it has asked at.
pub struct Read {
    pub name: Seq<char>,
    pub key: Key,
    pub targets: Seq<(NodeIndex, StateVersion)>,
}

/// The mathematical content of sharded storage.
#[verifier::ext_equal]
pub struct ShardState {
    pub config: ShardedStorageConfig,
    /// The nodes hosted here.
    pub nodes: Seq<NodeIndex>,
    pub version: StateVersion,
    /// The versions of the keys stored here, by stripe.
    pub table: Seq<Rows>,
    pub reads: Seq<Read>,
    /// Queries for versions that are not reached yet.
    pub early_queries: Seq<Query>,
    /// The keys whose values other nodes were asked for.
    pub querying: Set<Key>,
    /// The names of the values that the last bump is writing.
    pub bump_writing: Set<Seq<char>>,
    /// The version that each node has voted to archive.
    pub votes: Seq<StateVersion>,
    pub archiving: StateVersion,
    /// The version that each node has archived.
    pub archived: Seq<StateVersion>,
    pub quorum_archived: StateVersion,
    /// The stripe being archived, or the number of stripes.
    pub stripe: StripeIndex,
    /// The values of that stripe, by group, as far as they are there.
    pub collected: Seq<Option<Values>>,
    /// The names and keys of the values being read for archiving.
    pub archive_reading: Seq<(Seq<char>, Key)>,
    /// The names of the shards being written.
    pub archive_writing: Set<Seq<char>>,
    /// Pushed values for versions and stripes still to come.
    pub early: Seq<ArchivePush<Values>>,
    pub actions: Seq<ShardAction>,
}

pub open spec fn send(dest: Dest<Seq<NodeIndex>>, message: StorageMessage) -> ShardAction {
    Action::Perform(StorageStateEffect::Send((dest, message)))
}

pub open spec fn store(store: Store<Seq<char>, Seq<u8>>) -> ShardAction {
    Action::Perform(StorageStateEffect::Store(store))
}

pub open spec fn fetched(key: Key, value: Option<Seq<u8>>) -> ShardAction {
    Action::Output(StorageStateOutput::Fetched(key, value))
}

/// The position of a value that is being read, or the number of reads.
pub open spec fn read_position(reads: Seq<Read>, name: Seq<char>) -> int
    decreases reads.len(),
{
    if reads.len() == 0 || reads[0].name == name {
        0
    } else {
        1 + read_position(reads.drop_first(), name)
    }
}

/// Adds a node that a value is read for, or raises its version.
pub open spec fn with_target(
    targets: Seq<(NodeIndex, StateVersion)>,
    node: NodeIndex,
    version: StateVersion,
) -> Seq<(NodeIndex, StateVersion)>
    decreases targets.len(),
{
    if targets.len() == 0 {
        seq![(node, version)]
    } else if targets[0].0 == node {
        if targets[0].1 < version {
            targets.update(0, (node, version))
        } else {
            targets
        }
    } else {
        seq![targets[0]] + with_target(targets.drop_first(), node, version)
    }
}

/// The position of a name in what is read for archiving, or the number of
/// names.
pub open spec fn reading_position(reading: Seq<(Seq<char>, Key)>, name: Seq<char>) -> int
    decreases reading.len(),
{
    if reading.len() == 0 || reading[0].0 == name {
        0
    } else {
        1 + reading_position(reading.drop_first(), name)
    }
}

/// The `k`-th smallest of some versions, from zero.
pub open spec fn kth(versions: Seq<StateVersion>, k: int) -> StateVersion {
    versions.sort_by(|a: StateVersion, b: StateVersion| a <= b)[k]
}

/// Sets the versions of some nodes.
pub open spec fn set_all(
    versions: Seq<StateVersion>,
    nodes: Seq<NodeIndex>,
    version: StateVersion,
) -> Seq<StateVersion> {
    Seq::new(
        versions.len(),
        |i: int|
            if nodes.contains(i as NodeIndex) {
                version
            } else {
                versions[i]
            },
    )
}

/// Raises the versions of some nodes.
pub open spec fn raise_all(
    versions: Seq<StateVersion>,
    nodes: Seq<NodeIndex>,
    version: StateVersion,
) -> Seq<StateVersion> {
    Seq::new(
        versions.len(),
        |i: int|
            if nodes.contains(i as NodeIndex) && versions[i] < version {
                version
            } else {
                versions[i]
            },
    )
}

/// The names and keys to read for archiving: those of the groups that have
/// their primary here.
pub open spec fn to_read(
    config: ShardedStorageConfig,
    nodes: Seq<NodeIndex>,
    snapshot: Seq<(Key, StateVersion)>,
) -> Seq<(Seq<char>, Key)>
    decreases snapshot.len(),
{
    if snapshot.len() == 0 {
        Seq::empty()
    } else {
        let before = to_read(config, nodes, snapshot.drop_last());
        let (key, version) = snapshot.last();
        if nodes.contains(config.group_of_spec(key)) {
            before.push((active_text(key, version), key))
        } else {
            before
        }
    }
}

/// What was pushed early for a version and stripe, on top of what is there.
pub open spec fn absorbed(
    collected: Seq<Option<Values>>,
    early: Seq<ArchivePush<Values>>,
    version: StateVersion,
    stripe: StripeIndex,
) -> Seq<Option<Values>>
    decreases early.len(),
{
    if early.len() == 0 {
        collected
    } else {
        let before = absorbed(collected, early.drop_last(), version, stripe);
        let push = early.last();
        if push.version == version && push.stripe_index == stripe {
            before.update(push.group_index as int, Some(push.values))
        } else {
            before
        }
    }
}

/// What was pushed early for other versions and stripes.
pub open spec fn still_early(
    early: Seq<ArchivePush<Values>>,
    version: StateVersion,
    stripe: StripeIndex,
) -> Seq<ArchivePush<Values>>
    decreases early.len(),
{
    if early.len() == 0 {
        Seq::empty()
    } else {
        let before = still_early(early.drop_last(), version, stripe);
        let push = early.last();
        if push.version == version && push.stripe_index == stripe {
            before
        } else {
            before.push(push)
        }
    }
}

/// The shards, below a bound, of a stripe that are placed on some nodes.
pub open spec fn local_shards_below(
    config: ShardedStorageConfig,
    nodes: Seq<NodeIndex>,
    stripe: StripeIndex,
    bound: int,
) -> Seq<StripeShardIndex>
    decreases bound,
{
    if bound <= 0 {
        Seq::empty()
    } else {
        let before = local_shards_below(config, nodes, stripe, bound - 1);
        if nodes.contains(config.archive_node(stripe, bound - 1)) {
            before.push((bound - 1) as StripeShardIndex)
        } else {
            before
        }
    }
}

/// The shards of a stripe that are placed on some nodes, in order; of several
/// on one node, the first.
pub open spec fn local_shards(
    config: ShardedStorageConfig,
    nodes: Seq<NodeIndex>,
    stripe: StripeIndex,
) -> Seq<StripeShardIndex> {
    local_shards_below(
        config,
        nodes,
        stripe,
        if config.width() <= config.num_node {
            config.width()
        } else {
            config.num_node as int
        },
    )
}

/// The nodes that archive a stripe and are not hosted here.
pub open spec fn remote_nodes(
    config: ShardedStorageConfig,
    nodes: Seq<NodeIndex>,
    stripe: StripeIndex,
) -> Seq<NodeIndex> {
    config.archive_nodes(stripe).filter(|node: NodeIndex| !nodes.contains(node))
}

/// Names of the shards of a stripe.
pub open spec fn shard_names(stripe: StripeIndex, shards: Seq<StripeShardIndex>) -> Seq<Seq<char>> {
    shards.map_values(|shard: StripeShardIndex| shard_text(stripe, shard))
}

/// Values with their groups, once all are there.
pub open spec fn complete_groups(collected: Seq<Option<Values>>) -> Seq<(ActiveGroupIndex, Values)> {
    Seq::new(
        collected.len(),
        |group: int| (group as ActiveGroupIndex, collected[group]->Some_0),
    )
}

/// The values of a group, as far as they are there.
pub open spec fn group_values(collected: Seq<Option<Values>>, group: ActiveGroupIndex) -> Values {
    match collected[group as int] {
        Some(values) => values,
        None => Seq::empty(),
    }
}

/// Nothing collected yet.
pub open spec fn nothing_collected(num_node: NodeIndex) -> Seq<Option<Values>> {
    Seq::new(num_node as nat, |group: int| None)
}

/// The requests to forget outdated values.
pub open spec fn deletes(outdated: Seq<(Key, StateVersion)>) -> Seq<ShardAction> {
    outdated.map_values(
        |entry: (Key, StateVersion)| store(Store::Delete(active_text(entry.0, entry.1))),
    )
}

/// The requests to read values for archiving.
pub open spec fn gets(reading: Seq<(Seq<char>, Key)>) -> Seq<ShardAction> {
    reading.map_values(|entry: (Seq<char>, Key)| store(Store::Get(entry.0)))
}

impl ShardState {
    /// Storage that has just started.
    pub open spec fn initial(config: ShardedStorageConfig, nodes: Seq<NodeIndex>) -> ShardState {
        ShardState {
            config,
            nodes,
            version: 0,
            table: Seq::new(config.num_stripe as nat, |i: int| Rows::empty()),
            reads: Seq::empty(),
            early_queries: Seq::empty(),
            querying: Set::empty(),
            bump_writing: Set::empty(),
            votes: Seq::new(config.num_node as nat, |i: int| 0),
            archiving: 0,
            archived: Seq::new(config.num_node as nat, |i: int| 0),
            quorum_archived: 0,
            stripe: config.num_stripe,
            collected: nothing_collected(config.num_node),
            archive_reading: Seq::empty(),
            archive_writing: Set::empty(),
            early: Seq::empty(),
            actions: Seq::empty(),
        }
    }

    /// Whether some nodes can be hosted: there is one, and they exist.
    pub open spec fn hosts(config: ShardedStorageConfig, nodes: Seq<NodeIndex>) -> bool {
        &&& nodes.len() > 0
        &&& forall|i: int| 0 <= i < nodes.len() ==> #[trigger] nodes[i] < config.num_node
    }

    /// Everything has its size, and indices are in range.
    pub open spec fn wf(self) -> bool {
        &&& self.config.wf()
        &&& Self::hosts(self.config, self.nodes)
        &&& self.table.len() == self.config.num_stripe
        &&& self.votes.len() == self.config.num_node
        &&& self.archived.len() == self.config.num_node
        &&& self.collected.len() == self.config.num_node
        &&& self.stripe <= self.config.num_stripe
        &&& forall|i: int|
            0 <= i < self.early.len() ==> (#[trigger] self.early[i]).group_index
                < self.config.num_node
    }

    pub open spec fn act(self, action: ShardAction) -> ShardState {
        ShardState { actions: self.actions.push(action), ..self }
    }

    /// The node that stands for all nodes hosted here.
    pub open spec fn node_index(self) -> NodeIndex {
        self.nodes[0]
    }

    pub open spec fn should_store(self, key: Key) -> bool {
        self.config.takes_part(self.nodes, self.config.group_of_spec(key))
    }

    /// The version of a key in effect at a version.
    pub open spec fn find(self, key: Key, version: StateVersion) -> Option<StateVersion> {
        in_effect(
            versions_of(self.table[self.config.stripe_of_spec(key) as int], key),
            version,
        )
    }

    /// Answers a node, or hands the value to the service if it is hosted here.
    /// A value that was read for an earlier version than the current one is of
    /// no use to the service any more.
    pub open spec fn answer(
        self,
        target: (NodeIndex, StateVersion),
        key: Key,
        value: Option<Seq<u8>>,
    ) -> Seq<ShardAction> {
        if !self.nodes.contains(target.0) {
            seq![
                send(
                    Dest::One(target.0),
                    ShardedStorageMessage::QueryOk(
                        QueryOk { version: target.1, key: key.0, bytes: value },
                    ),
                ),
            ]
        } else if target.1 == self.version {
            seq![fetched(key, value)]
        } else {
            Seq::empty()
        }
    }

    pub open spec fn answer_all(
        self,
        targets: Seq<(NodeIndex, StateVersion)>,
        key: Key,
        value: Seq<u8>,
    ) -> Seq<ShardAction>
        decreases targets.len(),
    {
        if targets.len() == 0 {
            Seq::empty()
        } else {
            self.answer_all(targets.drop_last(), key, value) + self.answer(
                targets.last(),
                key,
                Some(value),
            )
        }
    }

    /// Reads a value for a node.
    pub open spec fn read_key(
        self,
        node: NodeIndex,
        version: StateVersion,
        key: Key,
    ) -> ShardState {
        match self.find(key, version) {
            None => ShardState {
                actions: self.actions + self.answer((node, version), key, None),
                ..self
            },
            Some(found) => {
                let name = active_text(key, found);
                let i = read_position(self.reads, name);
                if i < self.reads.len() {
                    let read = Read {
                        targets: with_target(self.reads[i].targets, node, version),
                        ..self.reads[i]
                    };
                    ShardState { reads: self.reads.update(i, read), ..self }
                } else {
                    let read = Read { name, key, targets: seq![(node, version)] };
                    ShardState { reads: self.reads.push(read), ..self }.act(
                        store(Store::Get(name)),
                    )
                }
            },
        }
    }

    /// Answers a query. One for a version that is not reached yet has to wait
    /// for it; one for a version that is archived comes too late.
    pub open spec fn receive_query(self, query: Query) -> ShardState {
        if query.version < self.quorum_archived {
            self
        } else if query.version > self.version {
            ShardState { early_queries: self.early_queries.push(query), ..self }
        } else {
            self.read_key(query.node_index, query.version, Key(query.key))
        }
    }

    pub open spec fn receive_queries(self, queries: Seq<Query>) -> ShardState
        decreases queries.len(),
    {
        if queries.len() == 0 {
            self
        } else {
            self.receive_queries(queries.drop_last()).receive_query(queries.last())
        }
    }

    /// Answers the queries that have waited for the current version.
    pub open spec fn answer_early(self) -> ShardState {
        ShardState { early_queries: Seq::empty(), ..self }.receive_queries(self.early_queries)
    }

    pub open spec fn fetch(self, key: Key) -> ShardState {
        if self.should_store(key) {
            self.read_key(self.node_index(), self.version, key)
        } else {
            let query = Query { version: self.version, key: key.0, node_index: self.node_index() };
            let nodes = self.config.group_nodes(self.config.group_of_spec(key));
            ShardState { querying: self.querying.insert(key), ..self }.act(
                send(Dest::Multi(nodes), ShardedStorageMessage::Query(query)),
            )
        }
    }

    /// Writes a value at the current version, if it is to be stored here.
    pub open spec fn write(self, key: Key, value: Seq<u8>) -> ShardState {
        if self.should_store(key) {
            let stripe = self.config.stripe_of_spec(key) as int;
            let name = active_text(key, self.version);
            ShardState {
                table: self.table.update(
                    stripe,
                    add_version(self.table[stripe], key, self.version),
                ),
                bump_writing: self.bump_writing.insert(name),
                ..self
            }.act(store(Store::Put(name, value)))
        } else {
            self
        }
    }

    pub open spec fn write_all(self, writes: Values) -> ShardState
        decreases writes.len(),
    {
        if writes.len() == 0 {
            self
        } else {
            self.write_all(writes.drop_last()).write(writes.last().0, writes.last().1)
        }
    }

    /// Tells that the bump is done once nothing is being written for it.
    pub open spec fn bumped_if_written(self) -> ShardState {
        if self.bump_writing == Set::<Seq<char>>::empty() {
            self.act(Action::Output(StorageStateOutput::Bumped))
        } else {
            self
        }
    }

    /// Starts a new version. After the last possible version there is none.
    pub open spec fn bump(self, writes: Values) -> ShardState {
        if self.version == u64::MAX {
            self
        } else {
            let next = ShardState {
                querying: Set::empty(),
                version: (self.version + 1) as StateVersion,
                ..self
            };
            next.write_all(writes).answer_early().bumped_if_written().vote_if_due()
        }
    }

    /// Whether there is a higher version to archive, and the previous round of
    /// archiving is done.
    pub open spec fn should_vote(self) -> bool {
        &&& self.archiving == self.archived[self.node_index() as int]
        &&& if self.config.bypass_vote {
            self.version > self.archiving
        } else {
            self.version > self.votes[self.node_index() as int]
        }
    }

    pub open spec fn vote_if_due(self) -> ShardState {
        if self.should_vote() {
            self.vote_archive()
        } else {
            self
        }
    }

    /// Votes to archive the current version. Without voting, nodes archive
    /// every version in turn: so they all take the same rounds, and none waits
    /// for values that another has no reason to push.
    pub open spec fn vote_archive(self) -> ShardState {
        if self.config.bypass_vote {
            self.enter((self.archiving + 1) as StateVersion)
        } else {
            let vote = VoteArchive { version: self.version, node_indices: self.nodes };
            ShardState {
                votes: set_all(self.votes, self.nodes, self.version),
                ..self.act(Action::Perform(StorageStateEffect::Order(vote)))
            }.may_enter()
        }
    }

    /// Starts archiving once enough nodes have voted for a higher version.
    pub open spec fn may_enter(self) -> ShardState {
        let version = kth(self.votes, self.config.num_faulty_node as int);
        if version <= self.archiving {
            self
        } else {
            self.enter(version)
        }
    }

    /// Gives up a round of archiving that is not done.
    pub open spec fn abandoned(self) -> ShardState {
        if self.stripe != self.config.num_stripe {
            ShardState {
                collected: nothing_collected(self.config.num_node),
                archive_reading: Seq::empty(),
                archive_writing: Set::empty(),
                ..self
            }
        } else {
            self
        }
    }

    /// Starts to archive a version.
    pub open spec fn enter(self, version: StateVersion) -> ShardState {
        ShardState { archiving: version, stripe: 0, ..self.abandoned() }.prepare()
    }

    /// Starts on a stripe: reads the values of the groups that have their
    /// primary here.
    pub open spec fn opened(self) -> ShardState {
        let reading = to_read(
            self.config,
            self.nodes,
            snapshot_rows(self.table[self.stripe as int], self.archiving),
        );
        ShardState {
            collected: Seq::new(
                self.collected.len(),
                |group: int|
                    if self.nodes.contains(group as NodeIndex) {
                        Some(Seq::empty())
                    } else {
                        self.collected[group]
                    },
            ),
            archive_reading: self.archive_reading + reading,
            actions: self.actions + gets(reading),
            ..self
        }
    }

    /// Hands the values of a group to the nodes that archive the stripe.
    pub open spec fn push(self, group: ActiveGroupIndex) -> ShardAction {
        send(
            Dest::Multi(remote_nodes(self.config, self.nodes, self.stripe)),
            ShardedStorageMessage::ArchivePush(
                ArchivePush {
                    version: self.archiving,
                    stripe_index: self.stripe,
                    group_index: group,
                    values: group_values(self.collected, group),
                },
            ),
        )
    }

    /// Hands out the values of the local groups once all of them are read.
    pub open spec fn pushed_if_read(self) -> ShardState {
        if self.archive_reading.len() == 0 && self.stripe < self.config.num_stripe {
            ShardState {
                actions: self.actions + self.nodes.map_values(
                    |group: NodeIndex| self.push(group),
                ),
                ..self
            }
        } else {
            self
        }
    }

    /// Takes what was pushed before the stripe was started on.
    pub open spec fn with_early(self) -> ShardState {
        ShardState {
            collected: absorbed(self.collected, self.early, self.archiving, self.stripe),
            early: still_early(self.early, self.archiving, self.stripe),
            ..self
        }
    }

    /// Starts on a stripe, and goes on as far as possible.
    pub open spec fn prepare(self) -> ShardState
        decreases self.config.num_stripe - self.stripe, 1int,
    {
        if self.stripe >= self.config.num_stripe {
            self
        } else {
            self.opened().pushed_if_read().with_early().advance()
        }
    }

    /// Whether the stripe can be closed: everything local is read, and, where
    /// shards are placed here, the values of all groups are there.
    pub open spec fn can_close(self) -> bool {
        &&& self.stripe < self.config.num_stripe
        &&& self.archive_reading.len() == 0
        &&& local_shards(self.config, self.nodes, self.stripe).len() > 0 ==> forall|group: int|
            0 <= group < self.collected.len() ==> #[trigger] self.collected[group] is Some
    }

    /// Closes a stripe: writes the shards that are placed here.
    pub open spec fn closed(self) -> ShardState {
        let shards = local_shards(self.config, self.nodes, self.stripe);
        let names = shard_names(self.stripe, shards);
        let contents = shards_spec(
            self.config,
            stripe_encoding(complete_groups(self.collected)),
            shards,
        );
        ShardState {
            archive_writing: self.archive_writing.union(names.to_set()),
            actions: self.actions + Seq::new(
                shards.len(),
                |i: int| store(Store::Put(names[i], contents[i])),
            ),
            collected: nothing_collected(self.config.num_node),
            stripe: (self.stripe + 1) as StripeIndex,
            ..self
        }
    }

    /// Closes the stripe if possible, and goes on with the next.
    pub open spec fn advance(self) -> ShardState
        decreases self.config.num_stripe - self.stripe, 0int,
    {
        if !self.can_close() {
            self
        } else if self.stripe + 1 == self.config.num_stripe {
            self.closed().finish_archive()
        } else {
            self.closed().prepare()
        }
    }

    /// Tells all nodes once no shard is being written any more.
    pub open spec fn finish_archive(self) -> ShardState {
        if self.archive_writing != Set::<Seq<char>>::empty() {
            self
        } else {
            let archived = Archived { version: self.archiving, node_indices: self.nodes };
            ShardState {
                archived: set_all(self.archived, self.nodes, self.archiving),
                ..self.act(send(Dest::All, ShardedStorageMessage::Archived(archived)))
            }.collect()
        }
    }

    /// Forgets values that are outdated in a version that enough nodes have
    /// archived. If that version is higher than the local one, execution
    /// skips to it.
    pub open spec fn collect(self) -> ShardState {
        let version = kth(self.archived, self.config.num_faulty_node as int);
        if version <= self.quorum_archived {
            self
        } else {
            let collected = ShardState {
                actions: self.actions + deletes(outdated(self.table, version)),
                table: kept(self.table, version),
                quorum_archived: version,
                ..self
            };
            if version > self.version {
                let num_skipped = (version - self.version) as StateVersion;
                ShardState {
                    version,
                    ..collected.act(Action::Output(StorageStateOutput::Skipped(num_skipped)))
                }
            } else {
                collected
            }
        }
    }

    pub open spec fn get_complete(self, name: Seq<char>, value: Seq<u8>) -> ShardState {
        self.read_done(name, value).archive_read_done(name, value)
    }

    /// Answers all nodes that a value was read for.
    pub open spec fn read_done(self, name: Seq<char>, value: Seq<u8>) -> ShardState {
        let i = read_position(self.reads, name);
        if i < self.reads.len() {
            ShardState {
                reads: self.reads.remove(i),
                actions: self.actions + self.answer_all(
                    self.reads[i].targets,
                    self.reads[i].key,
                    value,
                ),
                ..self
            }
        } else {
            self
        }
    }

    /// The state with a value that was read for archiving.
    pub open spec fn with_archive_read(self, i: int, value: Seq<u8>) -> ShardState {
        let key = self.archive_reading[i].1;
        let group = self.config.group_of_spec(key);
        ShardState {
            archive_reading: self.archive_reading.remove(i),
            collected: self.collected.update(
                group as int,
                Some(group_values(self.collected, group).push((key, value))),
            ),
            ..self
        }
    }

    /// Takes a value that was read for archiving.
    pub open spec fn archive_read_done(self, name: Seq<char>, value: Seq<u8>) -> ShardState {
        let i = reading_position(self.archive_reading, name);
        if i < self.archive_reading.len() {
            self.with_archive_read(i, value).pushed_if_read().advance()
        } else {
            self
        }
    }

    pub open spec fn put_complete(self, name: Seq<char>) -> ShardState {
        let bumped = if self.bump_writing.contains(name) {
            ShardState {
                bump_writing: self.bump_writing.remove(name),
                ..self
            }.bumped_if_written()
        } else {
            self
        };
        if bumped.archive_writing.contains(name) {
            ShardState {
                archive_writing: bumped.archive_writing.remove(name),
                ..bumped
            }.finish_archive()
        } else {
            bumped
        }
    }

    /// Counts votes. Nodes that do not exist are ignored.
    pub open spec fn receive_ordered(self, vote: VoteArchive<Seq<NodeIndex>>) -> ShardState {
        let votes = raise_all(self.votes, vote.node_indices, vote.version);
        if votes != self.votes {
            ShardState { votes, ..self }.may_enter()
        } else {
            self
        }
    }

    /// Whether a version and stripe come before those being archived.
    pub open spec fn is_past(self, version: StateVersion, stripe: StripeIndex) -> bool {
        version < self.archiving || version == self.archiving && stripe < self.stripe
    }

    /// Takes the values of a group. Values for a stripe or of a group that does
    /// not exist are ignored, as are those that come too late.
    pub open spec fn receive_push(self, push: ArchivePush<Values>) -> ShardState {
        if push.stripe_index >= self.config.num_stripe || push.group_index >= self.config.num_node
            || self.is_past(push.version, push.stripe_index) {
            self
        } else if push.version == self.archiving && push.stripe_index == self.stripe {
            ShardState {
                collected: self.collected.update(push.group_index as int, Some(push.values)),
                ..self
            }.advance()
        } else {
            ShardState { early: self.early.push(push), ..self }
        }
    }

    pub open spec fn receive(self, message: StorageMessage) -> ShardState {
        match message {
            ShardedStorageMessage::Query(query) => self.receive_query(query),
            ShardedStorageMessage::QueryOk(query_ok) => {
                let key = Key(query_ok.key);
                if query_ok.version == self.version && self.querying.contains(key) {
                    ShardState { querying: self.querying.remove(key), ..self }.act(
                        fetched(key, query_ok.bytes),
                    )
                } else {
                    self
                }
            },
            ShardedStorageMessage::ArchivePush(push) => self.receive_push(push),
            ShardedStorageMessage::Archived(archived) => {
                let versions = raise_all(self.archived, archived.node_indices, archived.version);
                if versions != self.archived {
                    ShardState { archived: versions, ..self }.collect()
                } else {
                    self
                }
            },
        }
    }

    /// Without voting, archiving goes on as soon as there is nothing else to
    /// do.
    pub open spec fn voted_if_idle(self) -> ShardState {
        if self.actions.len() == 0 && self.config.bypass_vote {
            self.vote_if_due()
        } else {
            self
        }
    }

    pub open spec fn proceed(self) -> (ShardState, ShardAction) {
        let ready = self.voted_if_idle();
        if ready.actions.len() > 0 {
            (ShardState { actions: ready.actions.drop_first(), ..ready }, ready.actions[0])
        } else {
            (ready, Action::Pending(None))
        }
    }
}

} // verus!
