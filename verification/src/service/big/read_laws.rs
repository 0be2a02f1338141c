//! What storage reads, for itself and for other nodes.
use super::config::{Key, NodeIndex, StateVersion};
use super::erasure::Values;
use super::laws::{newest, newest_is_found, table_ordered};
use super::message::{Query, QueryOk, ShardedStorageMessage, StorageMessage, VoteArchive};
use super::shard_state::{
    fetched, kth, raise_all, read_position, reading_position, send, set_all, store, with_target,
    Read, ShardAction, ShardState,
};
use super::storage::StorageStateEffect;
use super::text::{active_names_differ, active_text};
use crate::service::{Dest, Store};
use crate::state::Action;
use vstd::prelude::*;

verus! {

/// Whether a read has the name of a version of its key.
pub open spec fn is_named(read: Read) -> bool {
    exists|version: StateVersion| read.name == #[trigger] active_text(read.key, version)
}

/// Whether a read is for no later version of a node than a given one.
pub open spec fn is_until(read: Read, node: NodeIndex, version: StateVersion) -> bool {
    forall|j: int|
        0 <= j < read.targets.len() && (#[trigger] read.targets[j]).0 == node
            ==> read.targets[j].1 <= version
}

/// Whether all reads have the names of versions of their keys, and none is for
/// the service at a later version than the current one.
pub open spec fn reads_ok(state: ShardState) -> bool {
    &&& forall|i: int| 0 <= i < state.reads.len() ==> is_named(#[trigger] state.reads[i])
    &&& forall|i: int, node: NodeIndex|
        0 <= i < state.reads.len() && state.nodes.contains(node) ==> #[trigger] is_until(
            state.reads[i],
            node,
            state.version,
        )
}

/// Whether a node has asked for no later version than a given one.
pub open spec fn asked_until(reads: Seq<Read>, node: NodeIndex, version: StateVersion) -> bool {
    forall|i: int| 0 <= i < reads.len() ==> is_until(#[trigger] reads[i], node, version)
}

proof fn lemma_read_position(reads: Seq<Read>, name: Seq<char>)
    ensures
        0 <= read_position(reads, name) <= reads.len(),
        read_position(reads, name) < reads.len() ==> reads[read_position(reads, name)].name == name,
    decreases reads.len(),
{
    if reads.len() > 0 && reads[0].name != name {
        lemma_read_position(reads.drop_first(), name);
    }
}

/// A position depends on the names alone.
proof fn lemma_same_position(a: Seq<Read>, b: Seq<Read>, name: Seq<char>)
    requires
        a.len() == b.len(),
        forall|i: int| 0 <= i < a.len() ==> (#[trigger] a[i]).name == b[i].name,
    ensures
        read_position(a, name) == read_position(b, name),
    decreases a.len(),
{
    if a.len() > 0 {
        assert(a[0].name == b[0].name);
        assert forall|i: int| 0 <= i < a.drop_first().len() implies (#[trigger] a.drop_first()[i]).name
            == b.drop_first()[i].name by {
            assert(a[i + 1].name == b[i + 1].name);
        }
        lemma_same_position(a.drop_first(), b.drop_first(), name);
    }
}

proof fn lemma_position_pushed(reads: Seq<Read>, read: Read)
    requires
        read_position(reads, read.name) == reads.len(),
    ensures
        read_position(reads.push(read), read.name) == reads.len(),
    decreases reads.len(),
{
    if reads.len() > 0 {
        assert(reads.push(read).drop_first() =~= reads.drop_first().push(read));
        lemma_read_position(reads.drop_first(), read.name);
        lemma_position_pushed(reads.drop_first(), read);
    }
}

/// A node that is added is there, and the others are as they were.
proof fn lemma_with_target(
    targets: Seq<(NodeIndex, StateVersion)>,
    node: NodeIndex,
    version: StateVersion,
)
    ensures
        (forall|j: int|
            0 <= j < targets.len() && (#[trigger] targets[j]).0 == node ==> targets[j].1
                <= version) ==> with_target(targets, node, version).contains((node, version)),
        forall|j: int|
            0 <= j < with_target(targets, node, version).len() ==> (
            #[trigger] with_target(targets, node, version)[j] == (node, version)
                || targets.contains(with_target(targets, node, version)[j])),
    decreases targets.len(),
{
    let after = with_target(targets, node, version);
    if targets.len() == 0 {
        assert(after[0] == (node, version));
    } else if targets[0].0 == node {
        if targets[0].1 < version {
            assert(after[0] == (node, version));
        } else if targets[0].1 == version {
            assert(after[0] == (node, version));
        }
    } else {
        let rest = targets.drop_first();
        let later = with_target(rest, node, version);
        lemma_with_target(rest, node, version);
        assert forall|j: int| 0 <= j < rest.len() implies targets.contains(
            #[trigger] rest[j],
        ) by {
            assert(targets[j + 1] == rest[j]);
        }
        assert forall|j: int| 0 <= j < after.len() implies (#[trigger] after[j] == (node, version)
            || targets.contains(after[j])) by {
            if j == 0 {
                assert(targets[0] == after[0]);
            } else {
                assert(after[j] == later[j - 1]);
            }
        }
        if forall|j: int|
            0 <= j < targets.len() && (#[trigger] targets[j]).0 == node ==> targets[j].1
                <= version {
            assert forall|j: int|
                0 <= j < rest.len() && (#[trigger] rest[j]).0 == node implies rest[j].1
                <= version by {
                assert(targets[j + 1] == rest[j]);
            }
            let at = later.index_of((node, version));
            assert(after[at + 1] == (node, version));
        }
    }
}

/// All nodes that a value was read for are answered.
proof fn lemma_answers(
    state: ShardState,
    targets: Seq<(NodeIndex, StateVersion)>,
    key: Key,
    value: Seq<u8>,
    target: (NodeIndex, StateVersion),
)
    requires
        targets.contains(target),
    ensures
        forall|i: int|
            0 <= i < state.answer(target, key, Some(value)).len() ==> state.answer_all(
                targets,
                key,
                value,
            ).contains(#[trigger] state.answer(target, key, Some(value))[i]),
    decreases targets.len(),
{
    let shorter = targets.drop_last();
    let before = state.answer_all(shorter, key, value);
    let last = state.answer(targets.last(), key, Some(value));
    let answers = state.answer(target, key, Some(value));
    let all = before + last;
    if targets.last() == target {
        assert forall|i: int| 0 <= i < answers.len() implies all.contains(
            #[trigger] answers[i],
        ) by {
            assert(all[before.len() + i] == answers[i]);
        }
    } else {
        let at = targets.index_of(target);
        assert(shorter[at] == target);
        lemma_answers(state, shorter, key, value, target);
        assert forall|i: int| 0 <= i < answers.len() implies all.contains(
            #[trigger] answers[i],
        ) by {
            let j = before.index_of(answers[i]);
            assert(all[j] == answers[i]);
        }
    }
}

/// Whether something was asked for after some actions.
pub open spec fn asks_after(before: Seq<ShardAction>, after: Seq<ShardAction>, action: ShardAction) -> bool {
    &&& before.len() <= after.len()
    &&& after.subrange(0, before.len() as int) == before
    &&& after.subrange(before.len() as int, after.len() as int).contains(action)
}

/// A value that is read for a node is asked of the local store, unless it is
/// being read already, and once it is there the node gets it.
proof fn lemma_read_for(
    state: ShardState,
    node: NodeIndex,
    version: StateVersion,
    key: Key,
    value: Seq<u8>,
    answer: ShardAction,
)
    requires
        forall|i: int| 0 <= i < state.reads.len() ==> is_named(#[trigger] state.reads[i]),
        asked_until(state.reads, node, version),
        state.find(key, version) is Some,
        state.answer((node, version), key, Some(value)) == seq![answer],
    ensures
        ({
            let name = active_text(key, state.find(key, version)->Some_0);
            let asked = state.read_key(node, version, key);
            &&& asked.actions == if read_position(state.reads, name) < state.reads.len() {
                state.actions
            } else {
                state.actions.push(store(Store::Get(name)))
            }
            &&& read_position(asked.reads, name) < asked.reads.len()
            &&& asks_after(asked.actions, asked.read_done(name, value).actions, answer)
        }),
{
    let found = state.find(key, version)->Some_0;
    let name = active_text(key, found);
    let i = read_position(state.reads, name);
    let asked = state.read_key(node, version, key);
    lemma_read_position(state.reads, name);
    let targets = if i < state.reads.len() {
        let old = state.reads[i];
        assert(is_named(old));
        let other = choose|version: StateVersion| old.name == #[trigger] active_text(
            old.key,
            version,
        );
        active_names_differ(old.key, other, key, found);
        lemma_same_position(state.reads, asked.reads, name);
        assert(is_until(old, node, version));
        lemma_with_target(old.targets, node, version);
        with_target(old.targets, node, version)
    } else {
        let read = Read { name, key, targets: seq![(node, version)] };
        lemma_position_pushed(state.reads, read);
        assert(read.targets[0] == (node, version));
        read.targets
    };
    let at = read_position(asked.reads, name);
    assert(asked.reads[at].targets == targets && asked.reads[at].key == key);
    assert(targets.contains((node, version)));
    lemma_answers(asked, targets, key, value, (node, version));
    let answers = asked.answer((node, version), key, Some(value));
    assert(answers == state.answer((node, version), key, Some(value)));
    assert(answers[0] == answer);
    let after = asked.read_done(name, value).actions;
    let all = asked.answer_all(targets, key, value);
    assert(after == asked.actions + all);
    assert(after.subrange(0, asked.actions.len() as int) =~= asked.actions);
    assert(after.subrange(asked.actions.len() as int, after.len() as int) =~= all);
}

/// What is written is what is read: fetching a key that is stored here asks the
/// local store for the name of its last version, unless that is being read
/// already, and the value that comes back under that name is handed to the
/// service.
pub proof fn fetch_reads_newest(state: ShardState, key: Key, value: Seq<u8>)
    requires
        state.wf(),
        table_ordered(state.table, state.version),
        reads_ok(state),
        state.should_store(key),
    ensures
        match newest(state, key) {
            None => state.fetch(key).actions == state.actions.push(fetched(key, None)),
            Some(version) => {
                let name = active_text(key, version);
                let asked = state.fetch(key);
                &&& asked.actions == if read_position(state.reads, name) < state.reads.len() {
                    state.actions
                } else {
                    state.actions.push(store(Store::Get(name)))
                }
                &&& read_position(asked.reads, name) < asked.reads.len()
                &&& asks_after(
                    asked.actions,
                    asked.read_done(name, value).actions,
                    fetched(key, Some(value)),
                )
            },
        },
{
    let node = state.node_index();
    newest_is_found(state, key, state.version);
    assert(state.nodes.contains(state.nodes[0]));
    match newest(state, key) {
        None => {
            assert(state.fetch(key).actions =~= state.actions.push(fetched(key, None)));
        },
        Some(version) => {
            assert forall|i: int| 0 <= i < state.reads.len() implies is_until(
                #[trigger] state.reads[i],
                node,
                state.version,
            ) by {}
            lemma_read_for(
                state,
                node,
                state.version,
                key,
                value,
                fetched(key, Some(value)),
            );
        },
    }
}

/// What is written on one node is what another reads: a node that does not
/// store a key asks the nodes that do; one of them, which has reached the
/// version and has not archived a later one, reads the version of the key in
/// effect and answers with it; and the answer is handed to the service. The same
/// holds of a key without a value.
pub proof fn remote_fetch_reads(owner: ShardState, asker: ShardState, key: Key, value: Seq<u8>)
    requires
        owner.wf(),
        asker.wf(),
        owner.config == asker.config,
        owner.quorum_archived <= asker.version <= owner.version,
        owner.should_store(key),
        !asker.should_store(key),
        !owner.nodes.contains(asker.node_index()),
        reads_ok(owner),
        asked_until(owner.reads, asker.node_index(), asker.version),
    ensures
        ({
            let node = asker.node_index();
            let version = asker.version;
            let query = Query { version, key: key.0, node_index: node };
            let dest = asker.config.group_nodes(asker.config.group_of_spec(key));
            let asked = asker.fetch(key);
            let queried = owner.receive(ShardedStorageMessage::Query(query));
            let reply = |bytes: Option<Seq<u8>>|
                ShardedStorageMessage::QueryOk(QueryOk { version, key: key.0, bytes });
            // the question
            &&& asked.actions == asker.actions.push(
                send(Dest::Multi(dest), ShardedStorageMessage::Query(query)),
            )
            &&& exists|i: int| 0 <= i < dest.len() && owner.nodes.contains(#[trigger] dest[i])
            // the answer
            &&& match owner.find(key, version) {
                None => queried.actions == owner.actions.push(send(Dest::One(node), reply(None))),
                Some(found) => {
                    let name = active_text(key, found);
                    &&& queried.actions == if read_position(owner.reads, name)
                        < owner.reads.len() {
                        owner.actions
                    } else {
                        owner.actions.push(store(Store::Get(name)))
                    }
                    &&& asks_after(
                        queried.actions,
                        queried.read_done(name, value).actions,
                        send(Dest::One(node), reply(Some(value))),
                    )
                },
            }
            // what becomes of it
            &&& forall|bytes: Option<Seq<u8>>| (#[trigger] asked.receive(reply(bytes))).actions
                == asked.actions.push(fetched(key, bytes))
        }),
{
    let node = asker.node_index();
    let version = asker.version;
    let asked = asker.fetch(key);
    let dest = asker.config.group_nodes(asker.config.group_of_spec(key));
    let query = Query { version, key: key.0, node_index: node };
    let queried = owner.receive(ShardedStorageMessage::Query(query));
    assert(Key(key.0) == key);
    assert(owner.config.takes_part(owner.nodes, owner.config.group_of_spec(key)));
    match owner.find(key, version) {
        None => {
            let answer = send(
                Dest::One(node),
                ShardedStorageMessage::QueryOk(
                    QueryOk { version, key: key.0, bytes: None::<Seq<u8>> },
                ),
            );
            assert(queried.actions =~= owner.actions.push(answer));
        },
        Some(found) => {
            lemma_read_for(
                owner,
                node,
                version,
                key,
                value,
                send(
                    Dest::One(node),
                    ShardedStorageMessage::QueryOk(
                        QueryOk { version, key: key.0, bytes: Some(value) },
                    ),
                ),
            );
        },
    }
}

/// Whether a step leaves the reads alone, and does not go back in versions.
spec fn reads_kept(before: ShardState, after: ShardState) -> bool {
    &&& after.reads == before.reads
    &&& after.nodes == before.nodes
    &&& before.version <= after.version
}

proof fn lemma_kept_ok(before: ShardState, after: ShardState)
    requires
        reads_ok(before),
        reads_kept(before, after),
    ensures
        reads_ok(after),
{
    assert forall|i: int, node: NodeIndex|
        0 <= i < after.reads.len() && after.nodes.contains(node) implies #[trigger] is_until(
        after.reads[i],
        node,
        after.version,
    ) by {
        assert(is_until(before.reads[i], node, before.version));
    }
}

proof fn lemma_prepare_keeps(state: ShardState)
    ensures
        reads_kept(state, state.prepare()),
    decreases state.config.num_stripe - state.stripe, 1int,
{
    if state.stripe < state.config.num_stripe {
        lemma_advance_keeps(state.opened().pushed_if_read().with_early());
    }
}

proof fn lemma_advance_keeps(state: ShardState)
    ensures
        reads_kept(state, state.advance()),
    decreases state.config.num_stripe - state.stripe, 0int,
{
    if state.can_close() && state.stripe + 1 != state.config.num_stripe {
        lemma_prepare_keeps(state.closed());
    }
}

proof fn lemma_enter_keeps(state: ShardState, version: StateVersion)
    ensures
        reads_kept(state, state.enter(version)),
{
    lemma_prepare_keeps(ShardState { archiving: version, stripe: 0, ..state.abandoned() });
}

proof fn lemma_vote_keeps(state: ShardState)
    ensures
        reads_kept(state, state.vote_if_due()),
{
    if state.should_vote() {
        if state.config.bypass_vote {
            lemma_enter_keeps(state, (state.archiving + 1) as StateVersion);
        } else {
            let vote = VoteArchive { version: state.version, node_indices: state.nodes };
            let voted = ShardState {
                votes: set_all(state.votes, state.nodes, state.version),
                ..state.act(Action::Perform(StorageStateEffect::Order(vote)))
            };
            lemma_enter_keeps(voted, kth(voted.votes, voted.config.num_faulty_node as int));
        }
    }
}

proof fn lemma_read_key_ok(state: ShardState, node: NodeIndex, version: StateVersion, key: Key)
    requires
        reads_ok(state),
        version <= state.version,
    ensures
        reads_ok(state.read_key(node, version, key)),
        state.read_key(node, version, key).version == state.version,
{
    let after = state.read_key(node, version, key);
    match state.find(key, version) {
        None => {},
        Some(found) => {
            let name = active_text(key, found);
            let at = read_position(state.reads, name);
            lemma_read_position(state.reads, name);
            if at < state.reads.len() {
                lemma_with_target(state.reads[at].targets, node, version);
            }
            assert forall|i: int| 0 <= i < after.reads.len() implies is_named(
                #[trigger] after.reads[i],
            ) by {
                if i < state.reads.len() {
                    assert(is_named(state.reads[i]));
                    let other = choose|version: StateVersion|
                        state.reads[i].name == #[trigger] active_text(state.reads[i].key, version);
                    assert(after.reads[i].name == active_text(after.reads[i].key, other));
                } else {
                    assert(after.reads[i].name == active_text(after.reads[i].key, found));
                }
            }
            assert forall|i: int, local: NodeIndex|
                0 <= i < after.reads.len() && after.nodes.contains(local) implies #[trigger]
                is_until(after.reads[i], local, after.version) by {
                if i < state.reads.len() {
                    assert(is_until(state.reads[i], local, state.version));
                    if i == at {
                        let old = state.reads[at].targets;
                        let targets = after.reads[i].targets;
                        assert forall|j: int|
                            0 <= j < targets.len() && (#[trigger] targets[j]).0
                                == local implies targets[j].1 <= after.version by {
                            if targets[j] != (node, version) {
                                assert(old.contains(targets[j]));
                                let k = old.index_of(targets[j]);
                                assert(old[k].0 == local);
                            }
                        }
                    }
                }
            }
        },
    }
}

proof fn lemma_queries_ok(state: ShardState, queries: Seq<Query>)
    requires
        reads_ok(state),
    ensures
        reads_ok(state.receive_queries(queries)),
        state.receive_queries(queries).version == state.version,
    decreases queries.len(),
{
    if queries.len() > 0 {
        lemma_queries_ok(state, queries.drop_last());
        lemma_query_ok(state.receive_queries(queries.drop_last()), queries.last());
    }
}

proof fn lemma_query_ok(state: ShardState, query: Query)
    requires
        reads_ok(state),
    ensures
        reads_ok(state.receive_query(query)),
        state.receive_query(query).version == state.version,
{
    if state.quorum_archived <= query.version <= state.version {
        lemma_read_key_ok(state, query.node_index, query.version, Key(query.key));
    } else {
        lemma_kept_ok(state, state.receive_query(query));
    }
}

proof fn lemma_writes_keep(state: ShardState, writes: Values)
    ensures
        reads_kept(state, state.write_all(writes)),
        state.write_all(writes).early_queries == state.early_queries,
    decreases writes.len(),
{
    if writes.len() > 0 {
        lemma_writes_keep(state, writes.drop_last());
    }
}

proof fn lemma_read_done_ok(state: ShardState, name: Seq<char>, value: Seq<u8>)
    requires
        reads_ok(state),
    ensures
        reads_ok(state.read_done(name, value)),
{
    let at = read_position(state.reads, name);
    lemma_read_position(state.reads, name);
    let after = state.read_done(name, value);
    if at < state.reads.len() {
        assert forall|i: int| 0 <= i < after.reads.len() implies is_named(
            #[trigger] after.reads[i],
        ) by {
            assert(is_named(state.reads[if i < at { i } else { i + 1 }]));
        }
        assert forall|i: int, local: NodeIndex|
            0 <= i < after.reads.len() && after.nodes.contains(local) implies #[trigger] is_until(
            after.reads[i],
            local,
            after.version,
        ) by {
            assert(is_until(state.reads[if i < at { i } else { i + 1 }], local, state.version));
        }
    }
}

/// Whatever happens, reads have the names of versions of their keys, and none is
/// for the service at a later version than the current one.
pub proof fn reads_stay_ok(
    state: ShardState,
    message: StorageMessage,
    vote: VoteArchive<Seq<NodeIndex>>,
    name: Seq<char>,
    value: Seq<u8>,
    writes: Values,
    key: Key,
)
    requires
        reads_ok(state),
    ensures
        reads_ok(state.receive(message)),
        reads_ok(state.receive_ordered(vote)),
        reads_ok(state.get_complete(name, value)),
        reads_ok(state.put_complete(name)),
        reads_ok(state.bump(writes)),
        reads_ok(state.fetch(key)),
        reads_ok(state.proceed().0),
{
    match message {
        ShardedStorageMessage::Query(query) => {
            lemma_query_ok(state, query);
        },
        ShardedStorageMessage::QueryOk(_) => {
            lemma_kept_ok(state, state.receive(message));
        },
        ShardedStorageMessage::ArchivePush(push) => {
            lemma_advance_keeps(
                ShardState {
                    collected: state.collected.update(push.group_index as int, Some(push.values)),
                    ..state
                },
            );
            lemma_kept_ok(state, state.receive(message));
        },
        ShardedStorageMessage::Archived(_) => {
            lemma_kept_ok(state, state.receive(message));
        },
    }
    let raised = ShardState {
        votes: raise_all(state.votes, vote.node_indices, vote.version),
        ..state
    };
    lemma_enter_keeps(raised, kth(raised.votes, raised.config.num_faulty_node as int));
    lemma_kept_ok(state, state.receive_ordered(vote));
    lemma_read_done_ok(state, name, value);
    let read = state.read_done(name, value);
    let i = reading_position(read.archive_reading, name);
    if i < read.archive_reading.len() {
        lemma_advance_keeps(read.with_archive_read(i, value).pushed_if_read());
    }
    lemma_kept_ok(read, state.get_complete(name, value));
    lemma_kept_ok(state, state.put_complete(name));
    if state.version < u64::MAX {
        let next = ShardState {
            querying: Set::empty(),
            version: (state.version + 1) as StateVersion,
            ..state
        };
        let written = next.write_all(writes);
        lemma_writes_keep(next, writes);
        let cleared = ShardState { early_queries: Seq::empty(), ..written };
        lemma_kept_ok(state, cleared);
        lemma_queries_ok(cleared, written.early_queries);
        let told = written.answer_early().bumped_if_written();
        lemma_kept_ok(written.answer_early(), told);
        lemma_vote_keeps(told);
        lemma_kept_ok(told, state.bump(writes));
    }
    if state.should_store(key) {
        lemma_read_key_ok(state, state.node_index(), state.version, key);
    } else {
        lemma_kept_ok(state, state.fetch(key));
    }
    lemma_vote_keeps(state);
    lemma_kept_ok(state, state.proceed().0);
}

/// Storage that has just started reads nothing.
pub proof fn initially_reads_ok(config: super::config::ShardedStorageConfig, nodes: Seq<NodeIndex>)
    ensures
        reads_ok(ShardState::initial(config, nodes)),
{
}

} // verus!
