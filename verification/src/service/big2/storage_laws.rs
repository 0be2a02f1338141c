//! Where the values of an invocation come from.
use super::storage::{loaded_position, servers_of, with_loaded, Loaded, ManagerState};
use crate::service::big::config::{Key, NodeIndex, StateVersion};
use crate::service::ServiceIndex;
use vstd::prelude::*;

verus! {

/// Every key that is needed is read from the local database or asked for, by its
/// group, and nothing else is.
pub proof fn every_key_is_planned(state: ManagerState, keys: Seq<Key>, key: Key)
    ensures
        keys.contains(key) && state.is_local(key) <==> state.local_keys(keys).contains(key),
        keys.contains(key) && !state.is_local(key) <==> state.remote_keys(keys).contains(key),
        state.local_keys(keys).len() + state.remote_keys(keys).len() == keys.len(),
    decreases keys.len(),
{
    reveal(Seq::filter);
    if keys.len() > 0 {
        every_key_is_planned(state, keys.drop_last(), key);
        let shorter = keys.drop_last();
        let last = keys.last();
        lemma_contains_last(keys, key);
        lemma_contains_last(state.local_keys(shorter).push(last), key);
        lemma_contains_last(state.remote_keys(shorter).push(last), key);
        assert(state.local_keys(shorter).push(last).drop_last() =~= state.local_keys(shorter));
        assert(state.remote_keys(shorter).push(last).drop_last() =~= state.remote_keys(shorter));
    }
}

proof fn lemma_contains_last(keys: Seq<Key>, key: Key)
    requires
        keys.len() > 0,
    ensures
        keys.contains(key) <==> keys.drop_last().contains(key) || keys.last() == key,
{
    if keys.contains(key) {
        let i = keys.index_of(key);
        if i < keys.len() - 1 {
            assert(keys.drop_last()[i] == key);
        }
    }
    if keys.drop_last().contains(key) {
        let i = keys.drop_last().index_of(key);
        assert(keys[i] == key);
    }
    assert(keys[keys.len() - 1] == keys.last());
}

/// The servers to ask are those of the nodes, all of them, and each once.
pub proof fn all_servers_are_asked(
    node_table: Seq<ServiceIndex>,
    nodes: Seq<NodeIndex>,
    server: ServiceIndex,
)
    ensures
        ({
            let servers = servers_of(node_table, nodes);
            &&& servers.contains(server) <==> exists|i: int|
                0 <= i < nodes.len() && node_table[(#[trigger] nodes[i]) as int] == server
            &&& servers.no_duplicates()
        }),
    decreases nodes.len(),
{
    let servers = servers_of(node_table, nodes);
    if nodes.len() > 0 {
        let shorter = nodes.drop_last();
        all_servers_are_asked(node_table, shorter, server);
        let before = servers_of(node_table, shorter);
        let own = node_table[nodes.last() as int];
        let last = nodes.len() - 1;
        if exists|i: int|
            0 <= i < nodes.len() && node_table[(#[trigger] nodes[i]) as int] == server {
            let i = choose|i: int|
                0 <= i < nodes.len() && node_table[(#[trigger] nodes[i]) as int] == server;
            if i < last {
                assert(shorter[i] == nodes[i]);
                let k = before.index_of(server);
                assert(servers[k] == server);
            } else if !before.contains(own) {
                assert(servers[before.len() as int] == server);
            }
        }
        if servers.contains(server) {
            let k = servers.index_of(server);
            if k < before.len() {
                assert(before[k] == server);
                let i = choose|i: int|
                    0 <= i < shorter.len() && node_table[(#[trigger] shorter[i]) as int] == server;
                assert(nodes[i] == shorter[i]);
            } else {
                assert(node_table[nodes[last] as int] == server);
            }
        }
        assert(servers.no_duplicates()) by {
            assert forall|i: int, j: int|
                0 <= i < servers.len() && 0 <= j < servers.len() && i != j implies servers[i]
                != servers[j] by {
                if !before.contains(own) {
                    if i == before.len() {
                        assert(before[j] != own);
                    } else if j == before.len() {
                        assert(before[i] != own);
                    }
                }
            }
        }
    }
}

/// The value that is loaded for a key, if one is.
pub open spec fn loaded_value(loaded: Loaded, key: Key) -> Option<Option<Seq<u8>>> {
    let i = loaded_position(loaded, key);
    if i < loaded.len() {
        Some(loaded[i].1)
    } else {
        None
    }
}

proof fn lemma_loaded_position(loaded: Loaded, key: Key)
    ensures
        0 <= loaded_position(loaded, key) <= loaded.len(),
        forall|i: int| 0 <= i < loaded_position(loaded, key) ==> (#[trigger] loaded[i]).0 != key,
        loaded_position(loaded, key) < loaded.len() ==> loaded[loaded_position(loaded, key)].0
            == key,
    decreases loaded.len(),
{
    if loaded.len() == 0 || loaded[0].0 == key {
    } else {
        let rest = loaded.drop_first();
        lemma_loaded_position(rest, key);
        assert forall|i: int| 0 <= i < loaded_position(loaded, key) implies (
        #[trigger] loaded[i]).0 != key by {
            if i > 0 {
                assert(loaded[i] == rest[i - 1]);
            }
        }
    }
}

/// A value that is loaded is found under its key, and other keys keep theirs.
pub proof fn loaded_is_found(loaded: Loaded, key: Key, value: Option<Seq<u8>>, other: Key)
    ensures
        loaded_value(with_loaded(loaded, key, value), other) == if other == key {
            Some(value)
        } else {
            loaded_value(loaded, other)
        },
{
    let after = with_loaded(loaded, key, value);
    lemma_loaded_position(loaded, key);
    lemma_loaded_position(loaded, other);
    lemma_loaded_position(after, other);
    let at = loaded_position(loaded, key);
    let i = loaded_position(loaded, other);
    let j = loaded_position(after, other);
    assert(after[at] == (key, value));
    if other == key {
        if j < at {
            assert(after[j] == loaded[j]);
        }
    } else {
        if j < i {
            if j != at {
                assert(after[j] == loaded[j]);
            }
        }
        if i < loaded.len() {
            assert(after[i] == loaded[i]);
        }
    }
}

/// An answer is taken exactly if it is waited for, in the version of the
/// invocation: then the value is found under its key, which is not waited for any
/// more. All other keys stay as they were.
pub proof fn answers_are_taken(
    state: ManagerState,
    version: StateVersion,
    key: Key,
    value: Option<Seq<u8>>,
    other: Key,
)
    ensures
        ({
            let after = state.query_ok(version, key, value);
            let taken = state.bumping is Some && version == state.version
                && state.querying.contains(key);
            &&& after.querying.contains(other) <==> state.querying.contains(other) && !(taken
                && other == key)
            &&& loaded_value(after.loaded, other) == if taken && other == key {
                Some(value)
            } else {
                loaded_value(state.loaded, other)
            }
        }),
{
    loaded_is_found(state.loaded, key, value, other);
}

/// An invocation waits for exactly the keys that it asks other servers for, in
/// its version, whatever was waited for by one before it.
pub proof fn invocation_waits_for_its_keys(
    state: ManagerState,
    keys: Seq<Key>,
    bump: bool,
    version: StateVersion,
    key: Key,
)
    requires
        state.bumping is None ==> state.querying == Set::<Key>::empty(),
    ensures
        ({
            let after = state.invoke(keys, bump, version);
            &&& after.querying.contains(key) <==> keys.contains(key) && !state.is_local(key)
            &&& after.version == version
            &&& after.bumping == Some(bump)
            &&& after.loaded == state.loaded
        }),
{
    every_key_is_planned(state, keys, key);
}

} // verus!
