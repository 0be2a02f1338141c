//! Queries are answered, and writes are waited for.
use super::config::{Key, NodeIndex, StateVersion};
use super::erasure::Values;
use super::message::{Archived, Query, QueryOk, ShardedStorageMessage};
use super::shard_state::{
    fetched, read_position, send, with_target, Read, ShardAction, ShardState,
};
use super::storage::StorageStateOutput;
use super::text::active_text;
use crate::service::Dest;
use crate::state::Action;
use vstd::prelude::*;

verus! {

/// Whether a value is being read for a node, at a version or a later one.
pub open spec fn serves(
    reads: Seq<Read>,
    name: Seq<char>,
    node: NodeIndex,
    version: StateVersion,
) -> bool {
    exists|i: int|
        0 <= i < reads.len() && (#[trigger] reads[i]).name == name && targets_node(
            reads[i].targets,
            node,
            version,
        )
}

/// Whether a node is among targets, at a version or a later one.
pub open spec fn targets_node(
    targets: Seq<(NodeIndex, StateVersion)>,
    node: NodeIndex,
    version: StateVersion,
) -> bool {
    exists|j: int|
        0 <= j < targets.len() && (#[trigger] targets[j]).0 == node && targets[j].1 >= version
}

proof fn lemma_with_target(
    targets: Seq<(NodeIndex, StateVersion)>,
    node: NodeIndex,
    version: StateVersion,
    other: NodeIndex,
    at: StateVersion,
)
    ensures
        targets_node(with_target(targets, node, version), node, version),
        targets_node(targets, other, at) ==> targets_node(
            with_target(targets, node, version),
            other,
            at,
        ),
    decreases targets.len(),
{
    let after = with_target(targets, node, version);
    if targets.len() == 0 {
        assert(after[0] == (node, version));
    } else if targets[0].0 == node {
        assert(after[0].0 == node && after[0].1 >= version);
        if targets_node(targets, other, at) {
            let j = choose|j: int|
                0 <= j < targets.len() && (#[trigger] targets[j]).0 == other && targets[j].1 >= at;
            assert(after[j].0 == other && after[j].1 >= at);
        }
    } else {
        let rest = targets.drop_first();
        let later = with_target(rest, node, version);
        lemma_with_target(rest, node, version, other, at);
        let k = choose|k: int|
            0 <= k < later.len() && (#[trigger] later[k]).0 == node && later[k].1 >= version;
        assert(after[k + 1] == later[k]);
        if targets_node(targets, other, at) {
            let j = choose|j: int|
                0 <= j < targets.len() && (#[trigger] targets[j]).0 == other && targets[j].1 >= at;
            if j == 0 {
                assert(after[0] == targets[0]);
            } else {
                assert(rest[j - 1] == targets[j]);
                let l = choose|l: int|
                    0 <= l < later.len() && (#[trigger] later[l]).0 == other && later[l].1 >= at;
                assert(after[l + 1] == later[l]);
            }
        }
    }
}

proof fn lemma_read_position(reads: Seq<Read>, name: Seq<char>)
    ensures
        0 <= read_position(reads, name) <= reads.len(),
        read_position(reads, name) < reads.len() ==> reads[read_position(reads, name)].name == name,
    decreases reads.len(),
{
    if reads.len() > 0 && reads[0].name != name {
        lemma_read_position(reads.drop_first(), name);
    }
}

/// Whether a node is answered or a value is being read for it: where the key has
/// a version in effect, that version is being read, else the answer is that there
/// is none.
pub open spec fn is_served(
    state: ShardState,
    after: ShardState,
    node: NodeIndex,
    version: StateVersion,
    key: Key,
) -> bool {
    match state.find(key, version) {
        Some(found) => serves(after.reads, active_text(key, found), node, version),
        None => !state.nodes.contains(node) ==> after.actions.contains(
            send(
                Dest::One(node),
                ShardedStorageMessage::QueryOk(QueryOk { version, key: key.0, bytes: None }),
            ),
        ),
    }
}

proof fn lemma_read_key(
    state: ShardState,
    node: NodeIndex,
    version: StateVersion,
    key: Key,
    other: NodeIndex,
    at: StateVersion,
    other_key: Key,
)
    ensures
        ({
            let after = state.read_key(node, version, key);
            &&& is_served(state, after, node, version, key)
            &&& forall|before: ShardState|
                before.nodes == state.nodes && before.table == state.table && before.config
                    == state.config && #[trigger] is_served(before, state, other, at, other_key)
                    ==> is_served(before, after, other, at, other_key)
            &&& after.table == state.table
            &&& after.config == state.config
            &&& after.nodes == state.nodes
            &&& after.version == state.version
            &&& after.quorum_archived == state.quorum_archived
            &&& after.early_queries == state.early_queries
        }),
{
    let after = state.read_key(node, version, key);
    match state.find(key, version) {
        None => {
            let none = send(
                Dest::One(node),
                ShardedStorageMessage::QueryOk(QueryOk { version, key: key.0, bytes: None }),
            );
            if !state.nodes.contains(node) {
                assert(after.actions =~= state.actions.push(none));
                assert(after.actions[state.actions.len() as int] == none);
            }
        },
        Some(found) => {
            let name = active_text(key, found);
            lemma_read_position(state.reads, name);
            let i = read_position(state.reads, name);
            if i < state.reads.len() {
                lemma_with_target(state.reads[i].targets, node, version, other, at);
                assert(after.reads[i].name == name);
            } else {
                assert(after.reads[state.reads.len() as int].targets[0] == (node, version));
                assert(targets_node(
                    after.reads[state.reads.len() as int].targets,
                    node,
                    version,
                ));
            }
        },
    }
    assert forall|before: ShardState|
        before.nodes == state.nodes && before.table == state.table && before.config == state.config
            && #[trigger] is_served(before, state, other, at, other_key) implies is_served(
        before,
        after,
        other,
        at,
        other_key,
    ) by {
        match before.find(other_key, at) {
            Some(found) => {
                let name = active_text(other_key, found);
                let k = choose|k: int|
                    0 <= k < state.reads.len() && (#[trigger] state.reads[k]).name == name
                        && targets_node(state.reads[k].targets, other, at);
                assert(after.reads[k].name == name);
                assert(targets_node(after.reads[k].targets, other, at));
            },
            None => {
                if !before.nodes.contains(other) {
                    let none = send(
                        Dest::One(other),
                        ShardedStorageMessage::QueryOk(
                            QueryOk { version: at, key: other_key.0, bytes: None },
                        ),
                    );
                    let k = state.actions.index_of(none);
                    assert(after.actions[k] == none);
                }
            },
        }
    }
}

/// Whether a query still waits, comes too late, or is answered.
pub open spec fn query_is_settled(state: ShardState, after: ShardState, query: Query) -> bool {
    if query.version < state.quorum_archived {
        true
    } else if query.version > state.version {
        after.early_queries.contains(query)
    } else {
        is_served(state, after, query.node_index, query.version, Key(query.key))
    }
}

proof fn lemma_queries(state: ShardState, queries: Seq<Query>, i: int)
    requires
        0 <= i < queries.len(),
    ensures
        query_is_settled(state, state.receive_queries(queries), queries[i]),
        ({
            let after = state.receive_queries(queries);
            &&& after.table == state.table
            &&& after.config == state.config
            &&& after.nodes == state.nodes
            &&& after.version == state.version
            &&& after.quorum_archived == state.quorum_archived
        }),
    decreases queries.len(),
{
    let shorter = queries.drop_last();
    let before = state.receive_queries(shorter);
    let query = queries.last();
    if shorter.len() > 0 {
        let k = if i < shorter.len() {
            i
        } else {
            0
        };
        lemma_queries(state, shorter, k);
    } else {
        assert(before == state);
    }
    let after = before.receive_query(query);
    let asked = queries[i];
    lemma_read_key(
        before,
        query.node_index,
        query.version,
        Key(query.key),
        asked.node_index,
        asked.version,
        Key(asked.key),
    );
    if i < shorter.len() {
        assert(shorter[i] == asked);
        if before.early_queries.contains(asked) {
            let k = before.early_queries.index_of(asked);
            assert(after.early_queries[k] == asked);
        }
    } else {
        assert(asked == query);
        if query.version > state.version && query.version >= state.quorum_archived {
            assert(after.early_queries[before.early_queries.len() as int] == query);
        }
    }
}

/// A query that came too early is not lost: when versions move on, it is answered
/// if its version is reached, as if it had come then, and else goes on waiting.
pub proof fn early_queries_are_answered(state: ShardState, i: int)
    requires
        0 <= i < state.early_queries.len(),
    ensures
        query_is_settled(state, state.answer_early(), state.early_queries[i]),
{
    let cleared = ShardState { early_queries: Seq::empty(), ..state };
    lemma_queries(cleared, state.early_queries, i);
    let query = state.early_queries[i];
    let after = state.answer_early();
    assert(query_is_settled(cleared, after, query));
    if query.version >= state.quorum_archived && query.version <= state.version {
        assert(cleared.find(Key(query.key), query.version) == state.find(
            Key(query.key),
            query.version,
        ));
    }
}

/// A query is settled when it comes: answered, or kept until its version is
/// reached.
pub proof fn query_is_settled_at_once(state: ShardState, query: Query)
    ensures
        query_is_settled(state, state.receive_query(query), query),
{
    lemma_queries(state, seq![query], 0);
    assert(seq![query].drop_last() =~= Seq::empty());
    assert(state.receive_queries(seq![query].drop_last()) == state);
}

/// Once a value is read, every node that it was read for has it: other nodes are
/// sent it for the version that they asked at, and the service is given it if it
/// still is at that version.
pub proof fn read_value_is_handed_out(
    state: ShardState,
    name: Seq<char>,
    value: Seq<u8>,
    i: int,
    j: int,
)
    requires
        i == read_position(state.reads, name),
        0 <= i < state.reads.len(),
        0 <= j < state.reads[i].targets.len(),
    ensures
        ({
            let after = state.read_done(name, value);
            let target = state.reads[i].targets[j];
            let key = state.reads[i].key;
            &&& !state.nodes.contains(target.0) ==> after.actions.contains(
                send(
                    Dest::One(target.0),
                    ShardedStorageMessage::QueryOk(
                        QueryOk { version: target.1, key: key.0, bytes: Some(value) },
                    ),
                ),
            )
            &&& state.nodes.contains(target.0) && target.1 == state.version
                ==> after.actions.contains(fetched(key, Some(value)))
            &&& after.reads == state.reads.remove(i)
        }),
{
    let targets = state.reads[i].targets;
    let key = state.reads[i].key;
    let after = state.read_done(name, value);
    lemma_answer_all(state, targets, key, value, j);
    let answers = state.answer_all(targets, key, value);
    let target = targets[j];
    let own = state.answer(target, key, Some(value));
    if own.len() > 0 {
        let k = answers.index_of(own[0]);
        assert(after.actions[state.actions.len() + k] == own[0]);
    }
}

proof fn lemma_answer_all(
    state: ShardState,
    targets: Seq<(NodeIndex, StateVersion)>,
    key: Key,
    value: Seq<u8>,
    j: int,
)
    requires
        0 <= j < targets.len(),
    ensures
        ({
            let own = state.answer(targets[j], key, Some(value));
            own.len() > 0 ==> state.answer_all(targets, key, value).contains(own[0])
        }),
    decreases targets.len(),
{
    let own = state.answer(targets[j], key, Some(value));
    let all = state.answer_all(targets, key, value);
    let before = state.answer_all(targets.drop_last(), key, value);
    if own.len() > 0 {
        if j < targets.len() - 1 {
            lemma_answer_all(state, targets.drop_last(), key, value, j);
            let k = before.index_of(own[0]);
            assert(all[k] == own[0]);
        } else {
            assert(all[before.len() as int] == own[0]);
        }
    }
}

/// Whether the service is told that a bump is done.
pub open spec fn is_bumped(action: ShardAction) -> bool {
    action matches Action::Output(StorageStateOutput::Bumped)
}

/// A bump is done when its last value is written, and not before: a value that is
/// written is not waited for any more, and the service is told exactly if that
/// was the last one.
pub proof fn bumped_when_all_is_written(state: ShardState, name: Seq<char>)
    requires
        state.bump_writing.contains(name),
        !state.archive_writing.contains(name),
    ensures
        ({
            let after = state.put_complete(name);
            let n = state.actions.len() as int;
            &&& after.bump_writing == state.bump_writing.remove(name)
            &&& after.actions.len() > n <==> state.bump_writing == set![name]
            &&& after.actions.len() > n ==> after.actions.len() == n + 1 && is_bumped(
                after.actions[n],
            )
        }),
{
    let left = state.bump_writing.remove(name);
    if left == Set::<Seq<char>>::empty() {
        assert(state.bump_writing =~= set![name]);
    }
    if state.bump_writing == set![name] {
        assert(left =~= Set::empty());
    }
}

/// What a bump waits for is exactly what it has told the store to write, on top
/// of what was waited for.
pub proof fn bump_waits_for_its_writes(state: ShardState, writes: Values, name: Seq<char>)
    ensures
        state.write_all(writes).bump_writing.contains(name) <==> state.bump_writing.contains(name)
            || exists|i: int|
            0 <= i < writes.len() && state.should_store((#[trigger] writes[i]).0) && name
                == active_text(writes[i].0, state.version),
        state.write_all(writes).version == state.version,
        state.write_all(writes).config == state.config,
        state.write_all(writes).nodes == state.nodes,
    decreases writes.len(),
{
    if writes.len() > 0 {
        let shorter = writes.drop_last();
        bump_waits_for_its_writes(state, shorter, name);
        let before = state.write_all(shorter);
        let after = state.write_all(writes);
        let (key, value) = writes.last();
        let last = writes.len() - 1;
        if exists|i: int|
            0 <= i < writes.len() && state.should_store((#[trigger] writes[i]).0) && name
                == active_text(writes[i].0, state.version) {
            let i = choose|i: int|
                0 <= i < writes.len() && state.should_store((#[trigger] writes[i]).0) && name
                    == active_text(writes[i].0, state.version);
            if i < last {
                assert(shorter[i] == writes[i]);
            }
        }
        if before.bump_writing.contains(name) && !state.bump_writing.contains(name) {
            let i = choose|i: int|
                0 <= i < shorter.len() && state.should_store((#[trigger] shorter[i]).0) && name
                    == active_text(shorter[i].0, state.version);
            assert(writes[i] == shorter[i]);
        }
        if after.bump_writing.contains(name) && !before.bump_writing.contains(name) {
            assert(writes[last] == (key, value));
        }
    }
}

/// An answer from another node is handed to the service exactly if it was asked
/// for and is for the current version, and then only once.
pub proof fn answers_are_taken_once(
    state: ShardState,
    version: StateVersion,
    key: Key,
    value: Option<Seq<u8>>,
    again: Option<Seq<u8>>,
)
    ensures
        ({
            let answer = ShardedStorageMessage::QueryOk(
                QueryOk { version, key: key.0, bytes: value },
            );
            let repeated = ShardedStorageMessage::QueryOk(
                QueryOk { version, key: key.0, bytes: again },
            );
            let after = state.receive(answer);
            &&& version == state.version && state.querying.contains(key) ==> after.actions
                == state.actions.push(fetched(key, value)) && !after.querying.contains(key)
            &&& !(version == state.version && state.querying.contains(key)) ==> after == state
            &&& after.receive(repeated) == after
        }),
{
}

/// What is to be done is handed out in order, each action once.
pub proof fn actions_are_handed_out_in_order(state: ShardState)
    requires
        state.actions.len() > 0,
    ensures
        state.actions == seq![state.proceed().1] + state.proceed().0.actions,
        state.proceed().0 == (ShardState { actions: state.proceed().0.actions, ..state }),
{
    assert(state.actions =~= seq![state.actions[0]] + state.actions.drop_first());
}

/// A version is announced as archived, for all local nodes and to all others, when
/// the last shard that was being written is written, and not while one still is.
pub proof fn archived_is_announced(state: ShardState, name: Seq<char>, node: NodeIndex)
    requires
        state.wf(),
        state.archive_writing.contains(name),
        !state.bump_writing.contains(name),
        state.nodes.contains(node),
    ensures
        ({
            let after = state.put_complete(name);
            let told = Archived { version: state.archiving, node_indices: state.nodes };
            let n = state.actions.len() as int;
            &&& after.archive_writing == state.archive_writing.remove(name)
            &&& state.archive_writing == set![name] ==> {
                &&& after.actions.len() > n
                &&& after.actions[n] == send(Dest::All, ShardedStorageMessage::Archived(told))
                &&& after.archived[node as int] == state.archiving
            }
            &&& state.archive_writing != set![name] ==> after.actions == state.actions
                && after.archived == state.archived
        }),
{
    let left = state.archive_writing.remove(name);
    if left == Set::<Seq<char>>::empty() {
        assert(state.archive_writing =~= set![name]);
    }
    if state.archive_writing == set![name] {
        assert(left =~= Set::empty());
    }
    let k = state.nodes.index_of(node);
    assert(state.nodes[k] == node);
}

} // verus!
