//! Values that one operation needs, gathered from the local database and from
//! other nodes.
use crate::list_set::ListSet;
use crate::service::big::config::{
    contains_index, ActiveGroupIndex, Key, NodeIndex, ShardedStorageConfig, StateVersion,
};
use crate::service::ServiceIndex;
use crate::shared::Bytes;
use vstd::prelude::*;

verus! {

/// What storage is asked to do. `K` stands for keys, `U` for updates.
#[derive(Debug)]
pub enum Invoke<K = Vec<Key>, U = Vec<(Key, Bytes)>> {
    /// Read the values of some keys.
    Fetch(K),
    /// Start a new version with updates and deletions.
    Bump(U, K),
}

impl Invoke {
    /// The keys whose values are needed.
    pub open spec fn needed(self) -> Seq<Key> {
        match self {
            Invoke::Fetch(keys) => keys@,
            Invoke::Bump(updates, deletes) => updates@.map_values(
                |update: (Key, Bytes)| update.0,
            ) + deletes@,
        }
    }

    /// The keys whose values are needed: those to be read, or those that are
    /// updated and then those that are deleted.
    pub fn keys(&self) -> (keys: Vec<Key>)
        ensures
            keys@ == self.needed(),
    {
        let mut keys: Vec<Key> = Vec::new();
        let rest = match self {
            Invoke::Fetch(keys) => keys,
            Invoke::Bump(updates, deletes) => {
                let mut i: usize = 0;
                while i < updates.len()
                    invariant
                        i <= updates@.len(),
                        keys@.len() == i,
                        forall|j: int| 0 <= j < i ==> #[trigger] keys@[j] == updates@[j].0,
                    decreases updates@.len() - i,
                {
                    keys.push(updates[i].0);
                    i += 1;
                }
                deletes
            },
        };
        let ghost written = keys@;
        let mut i: usize = 0;
        while i < rest.len()
            invariant
                i <= rest@.len(),
                keys@ == written + rest@.subrange(0, i as int),
            decreases rest@.len() - i,
        {
            keys.push(rest[i]);
            i += 1;
            assert(keys@ =~= written + rest@.subrange(0, i as int));
        }
        assert(keys@ =~= self.needed());
        keys
    }
}

/// The answer to a query. `B` stands for a byte string.
#[derive(Debug, Clone)]
pub struct QueryOk<B = Bytes> {
    pub version: StateVersion,
    pub key: [u8; 32],
    pub value: Option<B>,
}

/// Where the values of keys come from.
pub struct LoadPlan {
    /// Keys to be read from the local database.
    pub local: Vec<Key>,
    /// Keys to be asked for, with the servers to ask.
    pub remote: Vec<(Key, Vec<ServiceIndex>)>,
}

/// The values that the current invocation has so far.
pub struct InvokeManager {
    config: ShardedStorageConfig,
    group_indices: Vec<ActiveGroupIndex>,
    node_table: Vec<ServiceIndex>,
    bumping: Option<bool>,
    version: StateVersion,
    loaded: Vec<(Key, Option<Bytes>)>,
    querying_keys: ListSet<Key>,
}

/// Values by their keys, as far as keys have values.
pub type Loaded = Seq<(Key, Option<Seq<u8>>)>;

/// The mathematical content of an [`InvokeManager`].
#[verifier::ext_equal]
pub struct ManagerState {
    pub config: ShardedStorageConfig,
    /// The groups whose values are in the local database.
    pub groups: Seq<ActiveGroupIndex>,
    /// The servers of the nodes.
    pub node_table: Seq<ServiceIndex>,
    /// Whether the current invocation is a bump, if there is one.
    pub bumping: Option<bool>,
    pub version: StateVersion,
    pub loaded: Loaded,
    pub querying: Set<Key>,
}

/// The content of loaded values.
pub open spec fn loaded_view(loaded: Seq<(Key, Option<Bytes>)>) -> Loaded {
    loaded.map_values(
        |entry: (Key, Option<Bytes>)| (entry.0, crate::app::optional_content(entry.1)),
    )
}

impl View for InvokeManager {
    type V = ManagerState;

    closed spec fn view(&self) -> ManagerState {
        ManagerState {
            config: self.config,
            groups: self.group_indices@,
            node_table: self.node_table@,
            bumping: self.bumping,
            version: self.version,
            loaded: loaded_view(self.loaded@),
            querying: self.querying_keys@,
        }
    }
}

/// The position of a key, or the number of loaded values.
pub open spec fn loaded_position(loaded: Loaded, key: Key) -> int
    decreases loaded.len(),
{
    if loaded.len() == 0 || loaded[0].0 == key {
        0
    } else {
        1 + loaded_position(loaded.drop_first(), key)
    }
}

/// The loaded values with that of a key.
pub open spec fn with_loaded(loaded: Loaded, key: Key, value: Option<Seq<u8>>) -> Loaded {
    let i = loaded_position(loaded, key);
    if i < loaded.len() {
        loaded.update(i, (key, value))
    } else {
        loaded.push((key, value))
    }
}

/// The servers of some nodes, each once, in the order of their first node.
pub open spec fn servers_of(node_table: Seq<ServiceIndex>, nodes: Seq<NodeIndex>) -> Seq<
    ServiceIndex,
>
    decreases nodes.len(),
{
    if nodes.len() == 0 {
        Seq::empty()
    } else {
        let before = servers_of(node_table, nodes.drop_last());
        let server = node_table[nodes.last() as int];
        if before.contains(server) {
            before
        } else {
            before.push(server)
        }
    }
}

impl ManagerState {
    pub open spec fn wf(self) -> bool {
        self.config.wf() && self.node_table.len() == self.config.num_node
    }

    /// Whether a key is in the local database.
    pub open spec fn is_local(self, key: Key) -> bool {
        self.groups.contains(self.config.group_of_spec(key))
    }

    /// The servers that have a key.
    pub open spec fn servers(self, key: Key) -> Seq<ServiceIndex> {
        servers_of(self.node_table, self.config.group_nodes(self.config.group_of_spec(key)))
    }

    /// The keys that are in the local database.
    pub open spec fn local_keys(self, keys: Seq<Key>) -> Seq<Key> {
        keys.filter(|key: Key| self.is_local(key))
    }

    /// The keys that are not.
    pub open spec fn remote_keys(self, keys: Seq<Key>) -> Seq<Key> {
        keys.filter(|key: Key| !self.is_local(key))
    }

    /// Starts an invocation. Queries of an invocation before are given up.
    pub open spec fn invoke(self, keys: Seq<Key>, bump: bool, version: StateVersion) -> ManagerState {
        let querying = if self.bumping is Some {
            Set::empty()
        } else {
            self.querying
        };
        ManagerState {
            bumping: Some(bump),
            version,
            querying: querying.union(self.remote_keys(keys).to_set()),
            ..self
        }
    }

    /// Takes a value from the local database.
    pub open spec fn load(self, key: Key, value: Option<Seq<u8>>) -> ManagerState {
        ManagerState { loaded: with_loaded(self.loaded, key, value), ..self }
    }

    /// Takes the answer to a query, if it is waited for.
    pub open spec fn query_ok(
        self,
        version: StateVersion,
        key: Key,
        value: Option<Seq<u8>>,
    ) -> ManagerState {
        if self.bumping is None || version != self.version || !self.querying.contains(key) {
            self
        } else {
            ManagerState { querying: self.querying.remove(key), ..self }.load(key, value)
        }
    }
}

impl InvokeManager {
    /// What every manager keeps to.
    pub closed spec fn wf(&self) -> bool {
        self@.wf()
    }

    /// No invocation yet.
    pub fn new(
        config: ShardedStorageConfig,
        group_indices: Vec<ActiveGroupIndex>,
        node_table: Vec<ServiceIndex>,
    ) -> (manager: Self)
        requires
            config.wf(),
            node_table@.len() == config.num_node,
        ensures
            manager.wf(),
            manager@ == (ManagerState {
                config,
                groups: group_indices@,
                node_table: node_table@,
                bumping: None,
                version: 0,
                loaded: Seq::empty(),
                querying: Set::empty(),
            }),
    {
        let manager = InvokeManager {
            config,
            group_indices,
            node_table,
            bumping: None,
            version: 0,
            loaded: Vec::new(),
            querying_keys: ListSet::new(),
        };
        assert(manager@.loaded =~= Seq::empty());
        manager
    }

    /// The servers that have a key.
    pub fn servers(&self, key: &Key) -> (servers: Vec<ServiceIndex>)
        requires
            self.wf(),
        ensures
            servers@ == self@.servers(*key),
    {
        let nodes = self.config.nodes_of_group(self.config.group_of(key));
        let mut servers: Vec<ServiceIndex> = Vec::new();
        let mut i: usize = 0;
        while i < nodes.len()
            invariant
                i <= nodes@.len(),
                self.wf(),
                self.node_table@.len() == self.config.num_node,
                forall|j: int| 0 <= j < nodes@.len() ==> #[trigger] nodes@[j] < self.config.num_node,
                servers@ == servers_of(self.node_table@, nodes@.subrange(0, i as int)),
            decreases nodes@.len() - i,
        {
            proof {
                assert(nodes@.subrange(0, i + 1).drop_last() =~= nodes@.subrange(0, i as int));
                assert(nodes@.subrange(0, i + 1).last() == nodes@[i as int]);
            }
            let server: ServiceIndex = self.node_table[nodes[i] as usize];
            if !contains_index(&servers, server) {
                servers.push(server);
            }
            i += 1;
        }
        assert(nodes@.subrange(0, i as int) =~= nodes@);
        servers
    }

    /// Starts an invocation that needs the values of some keys: says which to
    /// read from the local database, and which to ask other servers for.
    pub fn invoke(&mut self, keys: &Vec<Key>, bump: bool, version: StateVersion) -> (plan: LoadPlan)
        requires
            old(self).wf(),
            old(self)@.bumping != Some(true),
        ensures
            final(self).wf(),
            final(self)@ == old(self)@.invoke(keys@, bump, version),
            plan.local@ == old(self)@.local_keys(keys@),
            plan.remote@.len() == old(self)@.remote_keys(keys@).len(),
            forall|i: int|
                0 <= i < plan.remote@.len() ==> (#[trigger] plan.remote@[i]).0 == old(
                    self,
                )@.remote_keys(keys@)[i] && plan.remote@[i].1@ == old(self)@.servers(
                    plan.remote@[i].0,
                ),
    {
        let ghost before = self@;
        if self.bumping.is_some() {
            self.querying_keys.clear();
        }
        let ghost cleared = self@.querying;
        let ghost is_local = |key: Key| before.is_local(key);
        let ghost is_remote = |key: Key| !before.is_local(key);
        let mut local: Vec<Key> = Vec::new();
        let mut remote: Vec<(Key, Vec<ServiceIndex>)> = Vec::new();
        let mut i: usize = 0;
        proof {
            reveal(Seq::filter);
            assert(keys@.subrange(0, 0).filter(is_local) =~= Seq::empty());
            assert(keys@.subrange(0, 0).filter(is_remote) =~= Seq::empty());
            assert(keys@.subrange(0, 0).filter(is_remote).to_set() =~= Set::empty());
            assert(cleared.union(Set::empty()) =~= cleared);
        }
        while i < keys.len()
            invariant
                i <= keys@.len(),
                self.wf(),
                is_local == (|key: Key| before.is_local(key)),
                is_remote == (|key: Key| !before.is_local(key)),
                self@ == (ManagerState { querying: self@.querying, ..before }),
                local@ == keys@.subrange(0, i as int).filter(is_local),
                remote@.len() == keys@.subrange(0, i as int).filter(is_remote).len(),
                forall|j: int|
                    0 <= j < remote@.len() ==> (#[trigger] remote@[j]).0 == keys@.subrange(
                        0,
                        i as int,
                    ).filter(is_remote)[j] && remote@[j].1@ == before.servers(remote@[j].0),
                self@.querying == cleared.union(
                    keys@.subrange(0, i as int).filter(is_remote).to_set(),
                ),
            decreases keys@.len() - i,
        {
            let key = keys[i];
            let ghost so_far = keys@.subrange(0, i as int).filter(is_remote);
            let ghost next = keys@.subrange(0, i + 1).filter(is_remote);
            let ghost this = self@;
            proof {
                assert(keys@.subrange(0, i + 1).drop_last() =~= keys@.subrange(0, i as int));
                assert(keys@.subrange(0, i + 1).last() == key);
                reveal(Seq::filter);
            }
            if contains_index(&self.group_indices, self.config.group_of(&key)) {
                assert(before.is_local(key));
                local.push(key);
            } else {
                assert(next == so_far.push(key));
                let servers = self.servers(&key);
                self.querying_keys.insert(key);
                remote.push((key, servers));
                proof {
                    assert(self@ =~= ManagerState { querying: this.querying.insert(key), ..this });
                    lemma_push_to_set(so_far, key);
                    assert(self@.querying =~= cleared.union(next.to_set()));
                }
            }
            i += 1;
        }
        assert(keys@.subrange(0, i as int) =~= keys@);
        self.bumping = Some(bump);
        self.version = version;
        proof {
            if before.bumping is Some {
                assert(cleared =~= Set::empty());
            }
            assert(self@ =~= before.invoke(keys@, bump, version));
        }
        LoadPlan { local, remote }
    }

    /// Takes a value from the local database.
    pub fn load(&mut self, key: Key, value: Option<Bytes>)
        requires
            old(self).wf(),
        ensures
            final(self).wf(),
            final(self)@ == old(self)@.load(key, crate::app::optional_content(value)),
    {
        let ghost before = self@;
        let ghost all = before.loaded;
        let mut i: usize = 0;
        assert(all.subrange(0, all.len() as int) =~= all);
        while i < self.loaded.len() && !self.loaded[i].0.same(&key)
            invariant
                i <= self.loaded@.len(),
                self@ == before,
                self.wf(),
                all == loaded_view(self.loaded@),
                loaded_position(all, key) == i + loaded_position(
                    all.subrange(i as int, all.len() as int),
                    key,
                ),
            decreases self.loaded@.len() - i,
        {
            let ghost rest = all.subrange(i as int, all.len() as int);
            assert(rest[0] == all[i as int]);
            assert(rest.drop_first() =~= all.subrange(i + 1, all.len() as int));
            i += 1;
        }
        if i < self.loaded.len() {
            assert(all.subrange(i as int, all.len() as int)[0] == all[i as int]);
            self.loaded[i] = (key, value);
        } else {
            self.loaded.push((key, value));
        }
        assert(self@.loaded =~= with_loaded(
            all,
            key,
            crate::app::optional_content(value),
        ));
        assert(self@ =~= before.load(key, crate::app::optional_content(value)));
    }

    /// Takes the answer to a query, if it is waited for.
    pub fn query_ok(&mut self, query_ok: QueryOk)
        requires
            old(self).wf(),
        ensures
            final(self).wf(),
            final(self)@ == old(self)@.query_ok(
                query_ok.version,
                Key(query_ok.key),
                crate::app::optional_content(query_ok.value),
            ),
    {
        let ghost before = self@;
        if self.bumping.is_none() {
            return;
        }
        if query_ok.version != self.version {
            return;
        }
        let key = Key(query_ok.key);
        if self.querying_keys.remove(&key) {
            assert(self@ =~= ManagerState { querying: before.querying.remove(key), ..before });
            self.load(key, query_ok.value);
        } else {
            assert(self@.querying =~= before.querying);
            assert(self@ =~= before);
        }
    }
}

proof fn lemma_push_to_set(keys: Seq<Key>, key: Key)
    ensures
        keys.push(key).to_set() == keys.to_set().insert(key),
{
    let pushed = keys.push(key);
    assert forall|other: Key| pushed.to_set().contains(other) == keys.to_set().insert(
        key,
    ).contains(other) by {
        if keys.contains(other) {
            assert(pushed[keys.index_of(other)] == other);
        }
        assert(pushed[keys.len() as int] == key);
        if pushed.contains(other) && other != key {
            let i = pushed.index_of(other);
            assert(keys[i] == other);
        }
    }
    assert(pushed.to_set() =~= keys.to_set().insert(key));
}

/// An answer counts once: the same answer again changes nothing.
pub proof fn answers_count_once(
    state: ManagerState,
    version: StateVersion,
    key: Key,
    value: Option<Seq<u8>>,
    again: Option<Seq<u8>>,
)
    ensures
        ({
            let after = state.query_ok(version, key, value);
            after.query_ok(version, key, again) == after
        }),
{
}

} // verus!
