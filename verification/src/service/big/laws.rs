//! What holds of storage and of the service over whole calls.
use super::big_service::{
    BigService, BigServiceLog, BigState, Executing, LogEntry, Phase, Poll, StateOf, Step,
};
use super::config::{Key, NodeIndex, ShardedStorageConfig, StateVersion, StripeIndex};
use super::erasure::Values;
use super::message::{Archived, Query, ShardedStorageMessage, StorageMessage, VoteArchive};
use super::shard_state::{
    kth, raise_all, reading_position, send, set_all, store, to_read, ShardState,
};
use super::storage::{
    keys_distinct, named_key, FullReplicationStorage, FullState, StorageState, StorageStateEffect,
    StorageStateOutput,
};
use super::text::{active_text, hex_bytes, hex_name_parses_back, hex_text, key_digits};
use super::version_table::{
    add_version, in_effect, kept, kept_rows, kept_versions, latest, lemma_latest, lemma_position,
    num_outdated, outdated, outdated_rows, outdated_versions, position, versions_of, Rows,
};
use crate::app::{DataShardingApp, DataShardingExecuteOutput, DataShardingExecuteState};
use crate::replication::ReplicationState;
use crate::service::{ClientId, Dest, Effect, Message, Reply, Request, Store};
use crate::state::{Action, Duration, State};
use vstd::prelude::*;

verus! {

/// Whether versions are in order, and none is after `last`.
pub open spec fn versions_ordered(versions: Seq<StateVersion>, last: StateVersion) -> bool {
    &&& forall|i: int, j: int| 0 <= i < j < versions.len() ==> versions[i] < versions[j]
    &&& forall|i: int| 0 <= i < versions.len() ==> #[trigger] versions[i] <= last
}

/// Whether rows hold each key once, with its versions in order.
pub open spec fn rows_ordered(rows: Rows, last: StateVersion) -> bool {
    &&& forall|i: int, j: int|
        0 <= i < j < rows.len() ==> (#[trigger] rows[i]).0 != (#[trigger] rows[j]).0
    &&& forall|i: int| 0 <= i < rows.len() ==> versions_ordered((#[trigger] rows[i]).1, last)
}

/// Whether a table holds each key once, with its versions in order, none after
/// `last`.
pub open spec fn table_ordered(table: Seq<Rows>, last: StateVersion) -> bool {
    forall|i: int| 0 <= i < table.len() ==> rows_ordered(#[trigger] table[i], last)
}

proof fn lemma_latest_is(versions: Seq<StateVersion>, version: StateVersion, i: int)
    requires
        -1 <= i < versions.len(),
        i >= 0 ==> versions[i] <= version,
        forall|j: int| i < j < versions.len() ==> version < #[trigger] versions[j],
    ensures
        latest(versions, version) == i,
{
    lemma_latest(versions, version);
    let found = latest(versions, version);
    if found > i {
        assert(version < versions[found]);
    }
    if found < i {
        assert(version < versions[i]);
    }
}

/// The version in effect is the greatest that is not after the given one.
pub proof fn in_effect_is_greatest(versions: Seq<StateVersion>, last: StateVersion, version: StateVersion)
    requires
        versions_ordered(versions, last),
    ensures
        in_effect(versions, version) is None <==> forall|i: int|
            0 <= i < versions.len() ==> version < #[trigger] versions[i],
        in_effect(versions, version) matches Some(found) ==> {
            &&& versions.contains(found)
            &&& found <= version
            &&& forall|i: int|
                0 <= i < versions.len() && #[trigger] versions[i] <= version ==> versions[i]
                    <= found
        },
{
    lemma_latest(versions, version);
    let i = latest(versions, version);
    if i >= 0 {
        assert(versions[i] <= version);
    }
}

/// Collecting at a version does not change what is read at that version or a
/// later one.
pub proof fn collecting_keeps_reads(
    versions: Seq<StateVersion>,
    collected: StateVersion,
    version: StateVersion,
)
    requires
        collected <= version,
    ensures
        in_effect(kept_versions(versions, collected), version) == in_effect(versions, version),
{
    lemma_latest(versions, collected);
    lemma_latest(versions, version);
    let outdated = num_outdated(versions, collected);
    let found = latest(versions, version);
    let rest = kept_versions(versions, collected);
    if found >= 0 {
        if found < outdated {
            assert(version < versions[outdated]);
        }
        assert(rest[found - outdated] == versions[found]);
        assert forall|j: int| found - outdated < j < rest.len() implies version
            < #[trigger] rest[j] by {
            assert(rest[j] == versions[j + outdated]);
        }
        lemma_latest_is(rest, version, found - outdated);
    } else {
        if latest(versions, collected) >= 0 {
            assert(version < versions[latest(versions, collected)]);
        }
        assert(rest =~= versions);
    }
}

/// Collecting never takes the last version of a key.
pub proof fn collecting_keeps_last(versions: Seq<StateVersion>, collected: StateVersion)
    requires
        versions.len() > 0,
    ensures
        kept_versions(versions, collected).len() > 0,
        kept_versions(versions, collected).last() == versions.last(),
{
    lemma_latest(versions, collected);
}

proof fn lemma_add_ordered(rows: Rows, key: Key, version: StateVersion)
    requires
        rows_ordered(rows, version),
        forall|i: int|
            0 <= i < versions_of(rows, key).len() ==> #[trigger] versions_of(rows, key)[i]
                < version,
    ensures
        rows_ordered(add_version(rows, key, version), version),
        versions_of(add_version(rows, key, version), key) == versions_of(rows, key).push(version),
        forall|other: Key|
            other != key ==> #[trigger] versions_of(add_version(rows, key, version), other)
                == versions_of(rows, other),
{
    lemma_position(rows, key);
    let added = add_version(rows, key, version);
    let i = position(rows, key);
    lemma_position(added, key);
    if i < rows.len() {
        assert forall|k: int| 0 <= k < added.len() implies versions_ordered(
            (#[trigger] added[k]).1,
            version,
        ) by {
            assert(versions_ordered(rows[k].1, version));
            if k == i {
                assert(rows[i].1 == versions_of(rows, key));
            }
        }
        assert(added[i].0 == key);
        lemma_position_is(added, key, i);
        assert forall|other: Key| other != key implies #[trigger] versions_of(added, other)
            == versions_of(rows, other) by {
            lemma_position(rows, other);
            let p = position(rows, other);
            assert forall|k: int| 0 <= k < p implies (#[trigger] added[k]).0 != other by {
                assert(rows[k].0 != other);
            }
            if p < rows.len() {
                assert(p != i);
                assert(added[p] == rows[p]);
            }
            lemma_position_is(added, other, p);
        }
    } else {
        assert forall|k: int| 0 <= k < added.len() implies versions_ordered(
            (#[trigger] added[k]).1,
            version,
        ) by {
            if k < rows.len() {
                assert(versions_ordered(rows[k].1, version));
                assert(added[k] == rows[k]);
            }
        }
        assert forall|j: int, k: int| 0 <= j < k < added.len() implies (#[trigger] added[j]).0 != (
        #[trigger] added[k]).0 by {
            assert(rows[j].0 != key);
        }
        assert forall|k: int| 0 <= k < i implies (#[trigger] added[k]).0 != key by {
            assert(rows[k].0 != key);
        }
        lemma_position_is(added, key, i);
        assert(versions_of(rows, key) =~= Seq::empty());
        assert(versions_of(added, key) =~= seq![version]);
        assert(versions_of(rows, key).push(version) =~= seq![version]);
        assert forall|other: Key| other != key implies #[trigger] versions_of(added, other)
            == versions_of(rows, other) by {
            lemma_position(rows, other);
            let p = position(rows, other);
            assert forall|k: int| 0 <= k < p implies (#[trigger] added[k]).0 != other by {
                assert(rows[k].0 != other);
            }
            if p < rows.len() {
                assert(added[p] == rows[p]);
                lemma_position_is(added, other, p);
            } else {
                assert(added[p].0 == key);
                lemma_position_is(added, other, added.len() as int);
            }
        }
    }
}

proof fn lemma_position_is(rows: Rows, key: Key, i: int)
    requires
        0 <= i <= rows.len(),
        forall|j: int| 0 <= j < i ==> (#[trigger] rows[j]).0 != key,
        i < rows.len() ==> rows[i].0 == key,
    ensures
        position(rows, key) == i,
{
    lemma_position(rows, key);
    let p = position(rows, key);
    if p < i {
        assert(rows[p].0 != key);
    }
    if i < p {
        assert(rows[i].0 != key);
    }
}

proof fn lemma_kept_ordered(table: Seq<Rows>, last: StateVersion, version: StateVersion)
    requires
        table_ordered(table, last),
    ensures
        table_ordered(kept(table, version), last),
{
    let after = kept(table, version);
    assert forall|i: int| 0 <= i < after.len() implies rows_ordered(#[trigger] after[i], last) by {
        assert(rows_ordered(table[i], last));
        assert(after[i] == kept_rows(table[i], version));
        assert forall|j: int| 0 <= j < after[i].len() implies versions_ordered(
            (#[trigger] after[i][j]).1,
            last,
        ) by {
            assert(versions_ordered(table[i][j].1, last));
            lemma_latest(table[i][j].1, version);
            assert(after[i][j] == (table[i][j].0, kept_versions(table[i][j].1, version)));
        }
        assert forall|j: int, k: int| 0 <= j < k < after[i].len() implies (
        #[trigger] after[i][j]).0 != (#[trigger] after[i][k]).0 by {
            assert(table[i][j].0 != table[i][k].0);
        }
    }
}

proof fn lemma_later(table: Seq<Rows>, last: StateVersion, later: StateVersion)
    requires
        table_ordered(table, last),
        last <= later,
    ensures
        table_ordered(table, later),
{
    assert forall|i: int| 0 <= i < table.len() implies rows_ordered(#[trigger] table[i], later) by {
        assert(rows_ordered(table[i], last));
        assert forall|j: int| 0 <= j < table[i].len() implies versions_ordered(
            (#[trigger] table[i][j]).1,
            later,
        ) by {
            assert(versions_ordered(table[i][j].1, last));
        }
    }
}

proof fn lemma_versions_kept(rows: Rows, key: Key, version: StateVersion)
    ensures
        versions_of(kept_rows(rows, version), key) == kept_versions(versions_of(rows, key), version),
{
    lemma_position(rows, key);
    let after = kept_rows(rows, version);
    let p = position(rows, key);
    assert forall|k: int| 0 <= k < p implies (#[trigger] after[k]).0 != key by {
        assert(rows[k].0 != key);
    }
    lemma_position_is(after, key, p);
    if p >= rows.len() {
        assert(kept_versions(Seq::empty(), version) =~= Seq::empty());
    }
}

/// The last version of a key.
pub open spec fn newest(state: ShardState, key: Key) -> Option<StateVersion> {
    let versions = versions_of(state.table[state.config.stripe_of_spec(key) as int], key);
    if versions.len() > 0 {
        Some(versions.last())
    } else {
        None
    }
}

/// Reading at the current version, or a later one, finds the last version.
pub proof fn newest_is_found(state: ShardState, key: Key, version: StateVersion)
    requires
        state.wf(),
        table_ordered(state.table, state.version),
        state.version <= version,
    ensures
        state.find(key, version) == newest(state, key),
{
    let rows = state.table[state.config.stripe_of_spec(key) as int];
    lemma_stripe(state.config, key);
    assert(rows_ordered(rows, state.version));
    lemma_position(rows, key);
    let versions = versions_of(rows, key);
    if versions.len() > 0 {
        assert(versions_ordered(rows[position(rows, key)].1, state.version));
        lemma_latest_is(versions, version, versions.len() - 1);
    }
}

proof fn lemma_stripe(config: ShardedStorageConfig, key: Key)
    requires
        config.wf(),
    ensures
        0 <= config.stripe_of_spec(key) < config.num_stripe,
{
    let low = vstd::bytes::spec_u64_from_le_bytes(key.0@.subrange(24, 32)) as int;
    vstd::arithmetic::div_mod::lemma_mod_bound(low, config.num_stripe as int);
}

/// How storage moves on between two bumps: versions do not go back, the table
/// stays ordered, and the last version of every key stays.
pub open spec fn moves_on(before: ShardState, after: ShardState) -> bool {
    &&& after.config == before.config
    &&& after.nodes == before.nodes
    &&& after.table.len() == before.table.len()
    &&& before.version <= after.version
    &&& before.quorum_archived <= after.quorum_archived
    &&& table_ordered(before.table, before.version) ==> table_ordered(after.table, after.version)
    &&& before.config.wf() && before.table.len() == before.config.num_stripe ==> forall|key: Key|
        #[trigger] newest(after, key) == newest(before, key)
}

proof fn lemma_moves_on_compose(a: ShardState, b: ShardState, c: ShardState)
    requires
        moves_on(a, b),
        moves_on(b, c),
    ensures
        moves_on(a, c),
{
    if a.config.wf() && a.table.len() == a.config.num_stripe {
        assert forall|key: Key| #[trigger] newest(c, key) == newest(a, key) by {
            assert(newest(b, key) == newest(a, key));
        }
    }
}

/// A step that leaves the table and the versions alone.
proof fn lemma_same_moves_on(before: ShardState, after: ShardState)
    requires
        after.config == before.config,
        after.nodes == before.nodes,
        after.table == before.table,
        after.version == before.version,
        after.quorum_archived == before.quorum_archived,
    ensures
        moves_on(before, after),
{
}

proof fn lemma_collect_moves_on(state: ShardState)
    ensures
        moves_on(state, state.collect()),
        actions_kept(state, state.collect()),
{
    let version = kth(state.archived, state.config.num_faulty_node as int);
    let after = state.collect();
    if version > state.quorum_archived {
        if table_ordered(state.table, state.version) {
            lemma_kept_ordered(state.table, state.version, version);
            lemma_later(after.table, state.version, after.version);
        }
        if state.config.wf() && state.table.len() == state.config.num_stripe {
            assert forall|key: Key| #[trigger] newest(after, key) == newest(state, key) by {
                let stripe = state.config.stripe_of_spec(key) as int;
                lemma_stripe(state.config, key);
                assert(after.table[stripe] == kept_rows(state.table[stripe], version));
                lemma_versions_kept(state.table[stripe], key, version);
                let versions = versions_of(state.table[stripe], key);
                lemma_latest(versions, version);
                if versions.len() > 0 {
                    collecting_keeps_last(versions, version);
                }
            }
        }
    }
}

proof fn lemma_finish_moves_on(state: ShardState)
    ensures
        moves_on(state, state.finish_archive()),
        actions_kept(state, state.finish_archive()),
{
    if state.archive_writing != Set::<Seq<char>>::empty() {
    } else {
        let told = ShardState {
            archived: set_all(state.archived, state.nodes, state.archiving),
            ..state.act(
                send(
                    Dest::All,
                    ShardedStorageMessage::Archived(
                        Archived {
                            version: state.archiving,
                            node_indices: state.nodes,
                        },
                    ),
                ),
            )
        };
        lemma_same_moves_on(state, told);
        lemma_collect_moves_on(told);
        lemma_moves_on_compose(state, told, told.collect());
    }
}

proof fn lemma_prepare_moves_on(state: ShardState)
    ensures
        moves_on(state, state.prepare()),
        actions_kept(state, state.prepare()),
    decreases state.config.num_stripe - state.stripe, 1int,
{
    if state.stripe < state.config.num_stripe {
        let ready = state.opened().pushed_if_read().with_early();
        lemma_same_moves_on(state, ready);
        lemma_advance_moves_on(ready);
        lemma_moves_on_compose(state, ready, ready.advance());
    }
}

proof fn lemma_advance_moves_on(state: ShardState)
    ensures
        moves_on(state, state.advance()),
        actions_kept(state, state.advance()),
    decreases state.config.num_stripe - state.stripe, 0int,
{
    if state.can_close() {
        let closed = state.closed();
        lemma_same_moves_on(state, closed);
        if state.stripe + 1 == state.config.num_stripe {
            lemma_finish_moves_on(closed);
            lemma_moves_on_compose(state, closed, closed.finish_archive());
        } else {
            lemma_prepare_moves_on(closed);
            lemma_moves_on_compose(state, closed, closed.prepare());
        }
    }
}

proof fn lemma_enter_moves_on(state: ShardState, version: StateVersion)
    ensures
        moves_on(state, state.enter(version)),
        actions_kept(state, state.enter(version)),
{
    let entered = ShardState { archiving: version, stripe: 0, ..state.abandoned() };
    lemma_same_moves_on(state, entered);
    lemma_prepare_moves_on(entered);
    lemma_moves_on_compose(state, entered, entered.prepare());
}

proof fn lemma_may_enter_moves_on(state: ShardState)
    ensures
        moves_on(state, state.may_enter()),
        actions_kept(state, state.may_enter()),
{
    let version = kth(state.votes, state.config.num_faulty_node as int);
    if version > state.archiving {
        lemma_enter_moves_on(state, version);
    }
}

proof fn lemma_vote_moves_on(state: ShardState)
    ensures
        moves_on(state, state.vote_if_due()),
        actions_kept(state, state.vote_if_due()),
{
    if state.should_vote() {
        if state.config.bypass_vote {
            lemma_enter_moves_on(state, (state.archiving + 1) as StateVersion);
        } else {
            let vote = VoteArchive { version: state.version, node_indices: state.nodes };
            let voted = ShardState {
                votes: set_all(state.votes, state.nodes, state.version),
                ..state.act(
                    Action::Perform(StorageStateEffect::Order(vote)),
                )
            };
            lemma_same_moves_on(state, voted);
            lemma_may_enter_moves_on(voted);
            lemma_moves_on_compose(state, voted, voted.may_enter());
        }
    }
}

/// Fetching, answering, archiving and collecting never lose the last version
/// of a key, and never go back in versions. Only a bump writes.
pub proof fn receiving_moves_on(state: ShardState, message: StorageMessage)
    ensures
        moves_on(state, state.receive(message)),
{
    match message {
        ShardedStorageMessage::ArchivePush(push) => {
            let taken = ShardState {
                collected: state.collected.update(push.group_index as int, Some(push.values)),
                ..state
            };
            lemma_same_moves_on(state, taken);
            lemma_advance_moves_on(taken);
            lemma_moves_on_compose(state, taken, taken.advance());
        },
        ShardedStorageMessage::Archived(archived) => {
            let raised = ShardState {
                archived: raise_all(
                    state.archived,
                    archived.node_indices,
                    archived.version,
                ),
                ..state
            };
            lemma_same_moves_on(state, raised);
            lemma_collect_moves_on(raised);
            lemma_moves_on_compose(state, raised, raised.collect());
        },
        _ => {},
    }
}

/// The same holds of a vote.
pub proof fn voting_moves_on(state: ShardState, vote: VoteArchive<Seq<NodeIndex>>)
    ensures
        moves_on(state, state.receive_ordered(vote)),
{
    let raised = ShardState {
        votes: raise_all(state.votes, vote.node_indices, vote.version),
        ..state
    };
    lemma_same_moves_on(state, raised);
    lemma_may_enter_moves_on(raised);
    lemma_moves_on_compose(state, raised, raised.may_enter());
}

/// The same holds when the local store has read a value.
pub proof fn reading_moves_on(state: ShardState, name: Seq<char>, value: Seq<u8>)
    ensures
        moves_on(state, state.get_complete(name, value)),
{
    let read = state.read_done(name, value);
    lemma_same_moves_on(state, read);
    let i = reading_position(read.archive_reading, name);
    if i < read.archive_reading.len() {
        let taken = read.with_archive_read(i, value).pushed_if_read();
        lemma_same_moves_on(read, taken);
        lemma_advance_moves_on(taken);
        lemma_moves_on_compose(read, taken, taken.advance());
    }
    lemma_moves_on_compose(state, read, state.get_complete(name, value));
}

/// The same holds when the local store has written a value.
pub proof fn writing_moves_on(state: ShardState, name: Seq<char>)
    ensures
        moves_on(state, state.put_complete(name)),
{
    let bumped = if state.bump_writing.contains(name) {
        ShardState { bump_writing: state.bump_writing.remove(name), ..state }.bumped_if_written()
    } else {
        state
    };
    lemma_same_moves_on(state, bumped);
    if bumped.archive_writing.contains(name) {
        let written = ShardState {
            archive_writing: bumped.archive_writing.remove(name),
            ..bumped
        };
        lemma_same_moves_on(bumped, written);
        lemma_finish_moves_on(written);
        lemma_moves_on_compose(bumped, written, written.finish_archive());
        lemma_moves_on_compose(state, bumped, written.finish_archive());
    }
}

/// The same holds of fetching, and of taking a step.
pub proof fn proceeding_moves_on(state: ShardState, key: Key)
    ensures
        moves_on(state, state.fetch(key)),
        moves_on(state, state.proceed().0),
{
    lemma_same_moves_on(state, state.fetch(key));
    lemma_vote_moves_on(state);
    let ready = state.voted_if_idle();
    lemma_same_moves_on(ready, state.proceed().0);
    lemma_moves_on_compose(state, ready, state.proceed().0);
}

/// Storage that has just started is ordered.
pub proof fn initially_ordered(config: ShardedStorageConfig, nodes: Seq<NodeIndex>)
    ensures
        table_ordered(ShardState::initial(config, nodes).table, 0),
{
}

/// Whether nothing that was asked for was taken back.
pub open spec fn actions_kept(before: ShardState, after: ShardState) -> bool {
    &&& before.actions.len() <= after.actions.len()
    &&& forall|i: int|
        0 <= i < before.actions.len() ==> #[trigger] after.actions[i] == before.actions[i]
}

/// Whether a key is written.
pub open spec fn is_written(writes: Values, key: Key) -> bool {
    exists|i: int| 0 <= i < writes.len() && (#[trigger] writes[i]).0 == key
}

proof fn lemma_write_all(state: ShardState, writes: Values, last: StateVersion)
    requires
        state.wf(),
        table_ordered(state.table, last),
        last < state.version,
        keys_distinct(writes),
    ensures
        ({
            let after = state.write_all(writes);
            &&& after.wf()
            &&& after == ShardState {
                table: after.table,
                bump_writing: after.bump_writing,
                actions: after.actions,
                ..state
            }
            &&& table_ordered(after.table, state.version)
            &&& actions_kept(state, after)
            &&& forall|key: Key|
                is_written(writes, key) && state.should_store(key) ==> #[trigger] newest(after, key)
                    == Some(state.version)
            &&& forall|key: Key|
                !(is_written(writes, key) && state.should_store(key)) ==> #[trigger] newest(
                    after,
                    key,
                ) == newest(state, key) && versions_of(
                    after.table[state.config.stripe_of_spec(key) as int],
                    key,
                ) == versions_of(state.table[state.config.stripe_of_spec(key) as int], key)
            &&& forall|i: int|
                0 <= i < writes.len() && state.should_store((#[trigger] writes[i]).0)
                    ==> after.actions.contains(
                    store(Store::Put(active_text(writes[i].0, state.version), writes[i].1)),
                )
        }),
    decreases writes.len(),
{
    lemma_later(state.table, last, state.version);
    if writes.len() > 0 {
        let shorter = writes.drop_last();
        let (key, value) = writes.last();
        lemma_write_all(state, shorter, last);
        let before = state.write_all(shorter);
        let after = state.write_all(writes);
        let stripe = state.config.stripe_of_spec(key) as int;
        lemma_stripe(state.config, key);
        assert(!is_written(shorter, key)) by {
            assert forall|i: int| 0 <= i < shorter.len() implies (#[trigger] shorter[i]).0
                != key by {
                assert(writes[i].0 != writes[writes.len() - 1].0);
            }
        }
        assert forall|other: Key| is_written(writes, other) == (is_written(shorter, other) || other
            == key) by {
            if is_written(shorter, other) {
                let i = choose|i: int| 0 <= i < shorter.len() && (#[trigger] shorter[i]).0 == other;
                assert(writes[i].0 == other);
            }
            assert(writes[writes.len() - 1].0 == key);
            if is_written(writes, other) && other != key {
                let i = choose|i: int| 0 <= i < writes.len() && (#[trigger] writes[i]).0 == other;
                assert(shorter[i].0 == other);
            }
        }
        if state.should_store(key) {
            assert(before.should_store(key));
            let rows = before.table[stripe];
            assert(rows_ordered(rows, state.version));
            assert(newest(before, key) == newest(state, key));
            assert(versions_of(rows, key) == versions_of(state.table[stripe], key));
            assert(rows_ordered(state.table[stripe], last));
            lemma_position(state.table[stripe], key);
            assert forall|i: int| 0 <= i < versions_of(rows, key).len() implies #[trigger]
                versions_of(rows, key)[i] < state.version by {
                let at = position(state.table[stripe], key);
                assert(versions_ordered(state.table[stripe][at].1, last));
            }
            lemma_add_ordered(rows, key, state.version);
            assert(after.table =~= before.table.update(
                stripe,
                add_version(rows, key, state.version),
            ));
            assert forall|i: int| 0 <= i < after.table.len() implies rows_ordered(
                #[trigger] after.table[i],
                state.version,
            ) by {
                if i != stripe {
                    assert(after.table[i] == before.table[i]);
                }
            }
            assert forall|other: Key| other != key implies versions_of(
                after.table[#[trigger] state.config.stripe_of_spec(other) as int],
                other,
            ) == versions_of(before.table[state.config.stripe_of_spec(other) as int], other) by {
                lemma_stripe(state.config, other);
            }
            assert(newest(after, key) == Some(state.version));
            let put = store(Store::Put(active_text(key, state.version), value));
            assert(after.actions == before.actions.push(put));
            assert(after.actions[before.actions.len() as int] == put);
        }
        assert forall|other: Key|
            is_written(writes, other) && state.should_store(other) implies #[trigger] newest(
            after,
            other,
        ) == Some(state.version) by {
            if other != key {
                assert(newest(before, other) == Some(state.version));
            }
        }
        assert forall|other: Key|
            !(is_written(writes, other) && state.should_store(other)) implies #[trigger] newest(
            after,
            other,
        ) == newest(state, other) && versions_of(
            after.table[state.config.stripe_of_spec(other) as int],
            other,
        ) == versions_of(state.table[state.config.stripe_of_spec(other) as int], other) by {
            assert(newest(before, other) == newest(state, other));
        }
        assert forall|i: int|
            0 <= i < writes.len() && state.should_store(
                (#[trigger] writes[i]).0,
            ) implies after.actions.contains(
            store(Store::Put(active_text(writes[i].0, state.version), writes[i].1)),
        ) by {
            if i < shorter.len() {
                let put = store(
                    Store::Put(active_text(shorter[i].0, state.version), shorter[i].1),
                );
                assert(before.actions.contains(put));
                let at = before.actions.index_of(put);
                assert(after.actions[at] == put);
            }
        }
    }
}

proof fn lemma_queries(state: ShardState, queries: Seq<Query>)
    ensures
        moves_on(state, state.receive_queries(queries)),
        actions_kept(state, state.receive_queries(queries)),
    decreases queries.len(),
{
    if queries.len() > 0 {
        lemma_queries(state, queries.drop_last());
        let before = state.receive_queries(queries.drop_last());
        let after = before.receive_query(queries.last());
        lemma_same_moves_on(before, after);
        lemma_moves_on_compose(state, before, after);
    }
}

/// A bump writes: afterwards the new version is the last one of every written
/// key that is stored here, the value is on its way to the local store under
/// that version's name, and other keys are as they were.
pub proof fn bump_writes(state: ShardState, writes: Values)
    requires
        state.wf(),
        table_ordered(state.table, state.version),
        state.version < u64::MAX,
        keys_distinct(writes),
    ensures
        ({
            let after = state.bump(writes);
            let version = (state.version + 1) as StateVersion;
            &&& after.version >= version
            &&& table_ordered(after.table, after.version)
            &&& forall|key: Key|
                is_written(writes, key) && state.should_store(key) ==> #[trigger] newest(after, key)
                    == Some(version)
            &&& forall|key: Key|
                !(is_written(writes, key) && state.should_store(key)) ==> #[trigger] newest(
                    after,
                    key,
                ) == newest(state, key)
            &&& forall|i: int|
                0 <= i < writes.len() && state.should_store((#[trigger] writes[i]).0)
                    ==> after.actions.contains(
                    store(Store::Put(active_text(writes[i].0, version), writes[i].1)),
                )
        }),
{
    let version = (state.version + 1) as StateVersion;
    let next = ShardState { querying: Set::empty(), version, ..state };
    assert forall|key: Key| #[trigger] next.should_store(key) == state.should_store(key) by {}
    assert forall|key: Key| #[trigger] newest(next, key) == newest(state, key) by {}
    lemma_write_all(next, writes, state.version);
    let written = next.write_all(writes);
    let cleared = ShardState { early_queries: Seq::empty(), ..written };
    lemma_same_moves_on(written, cleared);
    lemma_queries(cleared, written.early_queries);
    let answered = written.answer_early();
    lemma_moves_on_compose(written, cleared, answered);
    let told = answered.bumped_if_written();
    lemma_same_moves_on(answered, told);
    lemma_moves_on_compose(written, answered, told);
    lemma_vote_moves_on(told);
    let after = state.bump(writes);
    lemma_moves_on_compose(written, told, after);
    assert forall|key: Key|
        is_written(writes, key) && state.should_store(key) implies #[trigger] newest(after, key)
        == Some(version) by {
        assert(next.should_store(key));
        assert(newest(written, key) == Some(version));
    }
    assert forall|key: Key|
        !(is_written(writes, key) && state.should_store(key)) implies #[trigger] newest(after, key)
        == newest(state, key) by {
        assert(next.should_store(key) == state.should_store(key));
        assert(newest(written, key) == newest(next, key));
        assert(newest(next, key) == newest(state, key));
    }
    assert forall|i: int|
        0 <= i < writes.len() && state.should_store(
            (#[trigger] writes[i]).0,
        ) implies after.actions.contains(
        store(Store::Put(active_text(writes[i].0, version), writes[i].1)),
    ) by {
        let put = store(Store::Put(active_text(writes[i].0, version), writes[i].1));
        assert(next.should_store(writes[i].0));
        assert(written.actions.contains(put));
        let at = written.actions.index_of(put);
        assert(after.actions[at] == put);
    }
}

/// At most `k` versions are below the `k`-th smallest: where it is taken with
/// the number of faulty nodes, all but at most that many nodes have reached it.
pub proof fn kth_is_reached(versions: Seq<StateVersion>, k: int)
    requires
        0 <= k < versions.len(),
    ensures
        versions.contains(kth(versions, k)),
        versions.to_multiset().filter(|version: StateVersion| version < kth(versions, k)).len()
            <= k,
{
    let leq = |a: StateVersion, b: StateVersion| a <= b;
    let sorted = versions.sort_by(leq);
    versions.lemma_sort_by_ensures(leq);
    versions.to_multiset_ensures();
    sorted.to_multiset_ensures();
    let found = sorted[k];
    assert(sorted.contains(found));
    assert(versions.contains(found)) by {
        if !versions.contains(found) {
            assert(!sorted.contains(found));
        }
    }
    let low = |version: StateVersion| version < found;
    assert forall|i: int| k <= i < sorted.len() implies !low(#[trigger] sorted[i]) by {
        if i > k {
            assert(leq(sorted[k], sorted[i]));
        }
    }
    lemma_filter_prefix(sorted, k, low);
    assert(versions.to_multiset() =~= sorted.to_multiset());
}

proof fn lemma_filter_prefix(
    sorted: Seq<StateVersion>,
    k: int,
    low: spec_fn(StateVersion) -> bool,
)
    requires
        0 <= k <= sorted.len(),
        forall|i: int| k <= i < sorted.len() ==> !low(#[trigger] sorted[i]),
    ensures
        sorted.to_multiset().filter(low).len() <= k,
    decreases sorted.len(),
{
    if sorted.len() == 0 {
        sorted.to_multiset_ensures();
        assert(sorted.to_multiset() =~= vstd::multiset::Multiset::empty());
        assert(sorted.to_multiset().filter(low) =~= vstd::multiset::Multiset::empty());
    } else {
        let shorter = sorted.drop_last();
        let last = sorted.last();
        assert(sorted =~= shorter.push(last));
        shorter.to_multiset_ensures();
        assert(sorted.to_multiset() =~= shorter.to_multiset().insert(last));
        if low(last) {
            assert(k == sorted.len());
            lemma_filter_prefix(shorter, k - 1, low);
            assert(sorted.to_multiset().filter(low) =~= shorter.to_multiset().filter(low).insert(
                last,
            ));
        } else {
            lemma_filter_prefix(
                shorter,
                if k < shorter.len() {
                    k
                } else {
                    shorter.len() as int
                },
                low,
            );
            assert(sorted.to_multiset().filter(low) =~= shorter.to_multiset().filter(low));
        }
    }
}

/// Where there are enough nodes, the shards of a stripe are placed on different
/// nodes, and each node knows which shard is its own.
pub proof fn shards_on_different_nodes(
    config: ShardedStorageConfig,
    stripe: StripeIndex,
    a: int,
    b: int,
)
    requires
        config.wf(),
        config.width() <= config.num_node,
        0 <= a < b < config.width(),
    ensures
        config.archive_node(stripe, a) != config.archive_node(stripe, b),
        config.shard_on(stripe, config.archive_node(stripe, a)) == Some(a),
{
    let n = config.num_node as int;
    let first = (stripe + a) % n;
    let second = (stripe + b) % n;
    vstd::arithmetic::div_mod::lemma_mod_bound(stripe + a, n);
    vstd::arithmetic::div_mod::lemma_mod_bound(stripe + b, n);
    vstd::arithmetic::div_mod::lemma_fundamental_div_mod(stripe + a, n);
    vstd::arithmetic::div_mod::lemma_fundamental_div_mod(stripe + b, n);
    let p = (stripe + a) / n;
    let q = (stripe + b) / n;
    if first == second {
        assert(b - a == n * (q - p)) by (nonlinear_arith)
            requires
                stripe + a == n * p + first,
                stripe + b == n * q + second,
                first == second,
        ;
        assert(q - p >= 1 || q - p <= 0);
        assert(b - a >= n || b - a <= 0) by (nonlinear_arith)
            requires
                b - a == n * (q - p),
                n > 0,
                q - p >= 1 || q - p <= 0,
        ;
    }
    assert(first - stripe == (-p) * n + a) by (nonlinear_arith)
        requires
            stripe + a == n * p + first,
    ;
    vstd::arithmetic::div_mod::lemma_fundamental_div_mod_converse(first - stripe, n, -p, a);
}

/// Whether a version of a key is hidden by a later one that is in effect at
/// `at` or before.
pub open spec fn hidden_at(rows: Rows, key: Key, version: StateVersion, at: StateVersion) -> bool {
    exists|row: int, i: int|
        0 <= row < rows.len() && rows[row].0 == key && 0 <= i < rows[row].1.len() && version
            < #[trigger] rows[row].1[i] <= at
}

proof fn lemma_outdated_row_hidden(
    rows: Rows,
    row: int,
    at: StateVersion,
    last: StateVersion,
    entry: (Key, StateVersion),
)
    requires
        rows_ordered(rows, last),
        0 <= row < rows.len(),
        outdated_versions(rows[row].0, rows[row].1, at).contains(entry),
    ensures
        hidden_at(rows, entry.0, entry.1, at),
{
    let versions = rows[row].1;
    let list = outdated_versions(rows[row].0, versions, at);
    let i = list.index_of(entry);
    lemma_latest(versions, at);
    let kept = latest(versions, at);
    assert(entry == (rows[row].0, versions[i]));
    assert(versions_ordered(rows[row].1, last));
    assert(versions[i] < versions[kept]);
    assert(entry.1 < rows[row].1[kept] <= at);
}

proof fn lemma_outdated_rows_hidden(
    rows: Rows,
    count: int,
    at: StateVersion,
    last: StateVersion,
    entry: (Key, StateVersion),
)
    requires
        rows_ordered(rows, last),
        0 <= count <= rows.len(),
        outdated_rows(rows.subrange(0, count), at).contains(entry),
    ensures
        hidden_at(rows, entry.0, entry.1, at),
    decreases count,
{
    if count > 0 {
        let some = rows.subrange(0, count);
        let fewer = rows.subrange(0, count - 1);
        assert(some.drop_last() =~= fewer);
        assert(some.last() == rows[count - 1]);
        let first = outdated_rows(fewer, at);
        let second = outdated_versions(
            rows[count - 1].0,
            rows[count - 1].1,
            at,
        );
        let i = (first + second).index_of(entry);
        if i < first.len() {
            assert(first[i] == entry);
            lemma_outdated_rows_hidden(rows, count - 1, at, last, entry);
        } else {
            assert(second[i - first.len()] == entry);
            lemma_outdated_row_hidden(rows, count - 1, at, last, entry);
        }
    }
}

/// Only what is hidden is deleted: where a version of a key is collected, a
/// later one is in effect at the collected version, and stays.
pub proof fn only_hidden_is_deleted(
    table: Seq<Rows>,
    at: StateVersion,
    last: StateVersion,
    entry: (Key, StateVersion),
)
    requires
        table_ordered(table, last),
        outdated(table, at).contains(entry),
    ensures
        exists|stripe: int|
            0 <= stripe < table.len() && hidden_at(#[trigger] table[stripe], entry.0, entry.1, at),
    decreases table.len(),
{
    let fewer = table.drop_last();
    let first = outdated(fewer, at);
    let second = outdated_rows(table.last(), at);
    let i = (first + second).index_of(entry);
    if i < first.len() {
        assert(first[i] == entry);
        assert forall|k: int| 0 <= k < fewer.len() implies rows_ordered(
            #[trigger] fewer[k],
            last,
        ) by {
            assert(fewer[k] == table[k]);
        }
        only_hidden_is_deleted(fewer, at, last, entry);
        let stripe = choose|stripe: int|
            0 <= stripe < fewer.len() && hidden_at(#[trigger] fewer[stripe], entry.0, entry.1, at);
        assert(hidden_at(table[stripe], entry.0, entry.1, at));
    } else {
        let rows = table[table.len() - 1];
        assert(second[i - first.len()] == entry);
        assert(rows.subrange(0, rows.len() as int) =~= rows);
        lemma_outdated_rows_hidden(rows, rows.len() as int, at, last, entry);
        assert(hidden_at(table[table.len() - 1], entry.0, entry.1, at));
    }
}

proof fn lemma_row_is_outdated(rows: Rows, row: int, at: StateVersion, entry: (Key, StateVersion))
    requires
        0 <= row < rows.len(),
        outdated_versions(rows[row].0, rows[row].1, at).contains(entry),
    ensures
        outdated_rows(rows, at).contains(entry),
    decreases rows.len(),
{
    let fewer = rows.drop_last();
    let first = outdated_rows(fewer, at);
    let second = outdated_versions(rows.last().0, rows.last().1, at);
    if row < fewer.len() {
        assert(fewer[row] == rows[row]);
        lemma_row_is_outdated(fewer, row, at, entry);
        assert((first + second)[first.index_of(entry)] == entry);
    } else {
        assert((first + second)[first.len() + second.index_of(entry)] == entry);
    }
}

proof fn lemma_stripe_is_outdated(
    table: Seq<Rows>,
    stripe: int,
    at: StateVersion,
    entry: (Key, StateVersion),
)
    requires
        0 <= stripe < table.len(),
        outdated_rows(table[stripe], at).contains(entry),
    ensures
        outdated(table, at).contains(entry),
    decreases table.len(),
{
    let fewer = table.drop_last();
    let first = outdated(fewer, at);
    let second = outdated_rows(table.last(), at);
    if stripe < fewer.len() {
        assert(fewer[stripe] == table[stripe]);
        lemma_stripe_is_outdated(fewer, stripe, at, entry);
        assert((first + second)[first.index_of(entry)] == entry);
    } else {
        assert((first + second)[first.len() + second.index_of(entry)] == entry);
    }
}

/// Exactly what is hidden is deleted: a version of a key is handed out and
/// removed where a later one is not after the collected version, and stays
/// otherwise.
pub proof fn exactly_hidden_is_deleted(
    table: Seq<Rows>,
    at: StateVersion,
    last: StateVersion,
    stripe: int,
    row: int,
    i: int,
)
    requires
        table_ordered(table, last),
        0 <= stripe < table.len(),
        0 <= row < table[stripe].len(),
        0 <= i < table[stripe][row].1.len(),
    ensures
        ({
            let (key, versions) = table[stripe][row];
            let (kept_key, kept_versions) = kept(table, at)[stripe][row];
            let hidden = i + 1 < versions.len() && versions[i + 1] <= at;
            &&& kept_key == key
            &&& hidden == exists|j: int| i < j < versions.len() && #[trigger] versions[j] <= at
            &&& hidden ==> outdated(table, at).contains((key, versions[i]))
            &&& hidden == !kept_versions.contains(versions[i])
        }),
{
    let (key, versions) = table[stripe][row];
    let kept_list = kept_versions(versions, at);
    let num = num_outdated(versions, at);
    lemma_latest(versions, at);
    assert(rows_ordered(table[stripe], last));
    assert(versions_ordered(table[stripe][row].1, last));
    assert(kept(table, at)[stripe][row].1 == kept_list);
    let hidden = i + 1 < versions.len() && versions[i + 1] <= at;
    if exists|j: int| i < j < versions.len() && #[trigger] versions[j] <= at {
        let j = choose|j: int| i < j < versions.len() && #[trigger] versions[j] <= at;
        if i + 1 < j {
            assert(versions[i + 1] < versions[j]);
        }
    }
    if hidden {
        assert(versions[i + 1] <= at);
        let entry = (key, versions[i]);
        assert(i < num);
        assert(outdated_versions(key, versions, at)[i] == entry);
        lemma_row_is_outdated(table[stripe], row, at, entry);
        lemma_stripe_is_outdated(table, stripe, at, entry);
        if kept_list.contains(versions[i]) {
            let k = kept_list.index_of(versions[i]);
            assert(kept_list[k] == versions[num + k]);
            assert(versions[i] < versions[num + k]);
        }
    } else {
        assert(num <= i);
        assert(kept_list[i - num] == versions[i]);
    }
}

/// Everything that a stripe holds at a version for groups with a local primary
/// is read for archiving.
pub proof fn all_local_values_are_read(
    config: ShardedStorageConfig,
    nodes: Seq<NodeIndex>,
    snapshot: Seq<(Key, StateVersion)>,
    i: int,
)
    requires
        0 <= i < snapshot.len(),
        nodes.contains(config.group_of_spec(snapshot[i].0)),
    ensures
        to_read(config, nodes, snapshot).contains(
            (active_text(snapshot[i].0, snapshot[i].1), snapshot[i].0),
        ),
    decreases snapshot.len(),
{
    let shorter = snapshot.drop_last();
    let before = to_read(config, nodes, shorter);
    let all = to_read(config, nodes, snapshot);
    let entry = (active_text(snapshot[i].0, snapshot[i].1), snapshot[i].0);
    if i < shorter.len() {
        assert(shorter[i] == snapshot[i]);
        all_local_values_are_read(config, nodes, shorter, i);
        let at = before.index_of(entry);
        assert(all[at] == entry);
    } else {
        assert(all.last() == entry);
        assert(all[all.len() - 1] == entry);
    }
}

/// Whether the version that enough nodes have archived is taken note of.
pub open spec fn quorum_noted(state: ShardState) -> bool {
    kth(state.archived, state.config.num_faulty_node as int) <= state.quorum_archived
}

proof fn lemma_collect_notes(state: ShardState)
    ensures
        quorum_noted(state.collect()),
        state.collect().config == state.config,
{
}

proof fn lemma_finish_notes(state: ShardState)
    requires
        quorum_noted(state),
    ensures
        quorum_noted(state.finish_archive()),
{
}

proof fn lemma_prepare_notes(state: ShardState)
    requires
        quorum_noted(state),
    ensures
        quorum_noted(state.prepare()),
    decreases state.config.num_stripe - state.stripe, 1int,
{
    if state.stripe < state.config.num_stripe {
        lemma_advance_notes(state.opened().pushed_if_read().with_early());
    }
}

proof fn lemma_advance_notes(state: ShardState)
    requires
        quorum_noted(state),
    ensures
        quorum_noted(state.advance()),
    decreases state.config.num_stripe - state.stripe, 0int,
{
    if state.can_close() {
        if state.stripe + 1 == state.config.num_stripe {
            lemma_finish_notes(state.closed());
        } else {
            lemma_prepare_notes(state.closed());
        }
    }
}

proof fn lemma_vote_notes(state: ShardState)
    requires
        quorum_noted(state),
    ensures
        quorum_noted(state.vote_if_due()),
{
    if state.should_vote() {
        if state.config.bypass_vote {
            lemma_enter_notes(state, (state.archiving + 1) as StateVersion);
        } else {
            let vote = VoteArchive { version: state.version, node_indices: state.nodes };
            let voted = ShardState {
                votes: set_all(state.votes, state.nodes, state.version),
                ..state.act(
                    Action::Perform(StorageStateEffect::Order(vote)),
                )
            };
            lemma_may_enter_notes(voted);
        }
    }
}

proof fn lemma_enter_notes(state: ShardState, version: StateVersion)
    requires
        quorum_noted(state),
    ensures
        quorum_noted(state.enter(version)),
{
    lemma_prepare_notes(
        ShardState { archiving: version, stripe: 0, ..state.abandoned() },
    );
}

proof fn lemma_may_enter_notes(state: ShardState)
    requires
        quorum_noted(state),
    ensures
        quorum_noted(state.may_enter()),
{
    let version = kth(state.votes, state.config.num_faulty_node as int);
    if version > state.archiving {
        lemma_enter_notes(state, version);
    }
}

proof fn lemma_queries_note(state: ShardState, queries: Seq<Query>)
    requires
        quorum_noted(state),
    ensures
        quorum_noted(state.receive_queries(queries)),
    decreases queries.len(),
{
    if queries.len() > 0 {
        lemma_queries_note(state, queries.drop_last());
    }
}

proof fn lemma_writes_note(state: ShardState, writes: Values)
    requires
        quorum_noted(state),
    ensures
        quorum_noted(state.write_all(writes)),
    decreases writes.len(),
{
    if writes.len() > 0 {
        lemma_writes_note(state, writes.drop_last());
    }
}

/// Whatever happens, the version that enough nodes have archived is taken note
/// of at once: by messages, ordered votes, reads and writes of the local store,
/// bumps, fetches and steps.
pub proof fn quorum_is_noted(
    state: ShardState,
    message: StorageMessage,
    vote: VoteArchive<Seq<NodeIndex>>,
    name: Seq<char>,
    value: Seq<u8>,
    writes: Values,
    key: Key,
)
    requires
        quorum_noted(state),
    ensures
        quorum_noted(state.receive(message)),
        quorum_noted(state.receive_ordered(vote)),
        quorum_noted(state.get_complete(name, value)),
        quorum_noted(state.put_complete(name)),
        quorum_noted(state.bump(writes)),
        quorum_noted(state.fetch(key)),
        quorum_noted(state.proceed().0),
{
    match message {
        ShardedStorageMessage::ArchivePush(push) => {
            lemma_advance_notes(
                ShardState {
                    collected: state.collected.update(push.group_index as int, Some(push.values)),
                    ..state
                },
            );
        },
        ShardedStorageMessage::Archived(archived) => {
            lemma_collect_notes(
                ShardState {
                    archived: raise_all(
                        state.archived,
                        archived.node_indices,
                        archived.version,
                    ),
                    ..state
                },
            );
        },
        _ => {},
    }
    lemma_may_enter_notes(
        ShardState {
            votes: raise_all(state.votes, vote.node_indices, vote.version),
            ..state
        },
    );
    let read = state.read_done(name, value);
    let i = reading_position(read.archive_reading, name);
    if i < read.archive_reading.len() {
        lemma_advance_notes(read.with_archive_read(i, value).pushed_if_read());
    }
    let bumped = if state.bump_writing.contains(name) {
        ShardState { bump_writing: state.bump_writing.remove(name), ..state }.bumped_if_written()
    } else {
        state
    };
    if bumped.archive_writing.contains(name) {
        lemma_finish_notes(
            ShardState { archive_writing: bumped.archive_writing.remove(name), ..bumped },
        );
    }
    if state.version < u64::MAX {
        let next = ShardState {
            querying: Set::empty(),
            version: (state.version + 1) as StateVersion,
            ..state
        };
        lemma_writes_note(next, writes);
        let written = next.write_all(writes);
        lemma_queries_note(
            ShardState { early_queries: Seq::empty(), ..written },
            written.early_queries,
        );
        lemma_vote_notes(written.answer_early().bumped_if_written());
    }
    lemma_vote_notes(state);
}

/// What full replication writes is what it reads: after a bump, fetching a
/// written key asks the local store for the name that the value was written
/// under, and the value that comes back under that name is handed to the
/// service.
pub proof fn full_replication_reads_writes(state: FullState, key: Key, value: Seq<u8>)
    ensures
        ({
            let written = state.put_all(seq![(key, value)]);
            let name = hex_text(key.0@);
            let asked = <FullReplicationStorage as StorageState>::fetch_spec(written, key);
            let done = <FullReplicationStorage as StorageState>::get_complete_spec(
                asked,
                name,
                value,
            );
            &&& written.effects == state.effects.push(
                StorageStateEffect::Store(Store::Put(name, value)),
            )
            &&& asked.effects == written.effects.push(StorageStateEffect::Store(Store::Get(name)))
            &&& done.outputs == state.outputs.push(
                StorageStateOutput::Fetched(key, Some(value)),
            )
        }),
{
    let writes = seq![(key, value)];
    assert(writes.drop_last() =~= Seq::empty());
    assert(writes.last() == (key, value));
    assert(state.put_all(writes.drop_last()) == state);
    hex_name_parses_back(key);
    let name = hex_text(key.0@);
    let named = named_key(name);
    assert(key.0@ == hex_bytes(key_digits(name)));
    assert(named.0@ == key.0@);
    assert(named.0 =~= key.0);
}

/// Whether no client's last reply was replaced by one to an earlier request.
pub open spec fn replies_move_forward<Res, D>(
    before: Map<ClientId, Reply<Res, D>>,
    after: Map<ClientId, Reply<Res, D>>,
) -> bool {
    forall|client_id: ClientId| #[trigger]
        before.contains_key(client_id) ==> after.contains_key(client_id)
            && before[client_id].client_seq <= after[client_id].client_seq
}

impl<A: DataShardingApp, R: ReplicationState<BigServiceLog<A, S>>, S: StorageState> BigService<
    A,
    R,
    S,
> {
    pub(crate) proof fn lemma_take_logs_replies(
        state: StateOf<A, R, S>,
        logs: Seq<
            LogEntry<
                <A::Op as View>::V,
                <S::OrderedMessage as View>::V,
            >,
        >,
        metadata: <R::Metadata as View>::V,
    )
        ensures
            Self::take_logs(state, logs, metadata).replies == state.replies,
        decreases logs.len(),
    {
        if logs.len() > 0 {
            Self::lemma_take_logs_replies(state, logs.drop_last(), metadata);
        }
    }

    pub(crate) proof fn lemma_ask_all_replies(state: StateOf<A, R, S>, keys: Seq<Seq<u8>>)
        ensures
            Self::ask_all(state, keys).replies == state.replies,
        decreases keys.len(),
    {
        if keys.len() > 0 {
            Self::lemma_ask_all_replies(state, keys.drop_last());
        }
    }

    proof fn lemma_step_replies(state: StateOf<A, R, S>, poll: Poll, since_start: Duration)
        ensures
            match Self::step(state, poll, since_start) {
                Step::Continue(next, _) => next.replies == state.replies,
                Step::Return(next, _) => replies_move_forward(state.replies, next.replies),
            },
    {
        match poll.phase {
            Phase::Start => {},
            Phase::Replication => {
                if state.executing.len() <= state.config.executing_buffer_size {
                    let (replication, action) = R::proceed_spec(state.replication, since_start);
                    match action {
                        Action::Output(replicated) => {
                            Self::lemma_take_logs_replies(
                                BigState { replication, ..state },
                                replicated.logs,
                                replicated.metadata,
                            );
                        },
                        _ => {},
                    }
                }
            },
            Phase::Storage => {},
            Phase::Execute => {
                if state.executing.len() > 0 && !Self::first_answered(state) && state.num_skip == 0
                    && state.fetch_keys.len() == 0 && !state.bumping {
                    let (execute, output) =
                        <A::ExecuteState as DataShardingExecuteState>::proceed_spec(
                        state.executing[0].execute,
                    );
                    let first = Executing { execute, ..state.executing[0] };
                    let next = BigState { executing: state.executing.update(0, first), ..state };
                    match output {
                        DataShardingExecuteOutput::Pending(keys) => {
                            Self::lemma_ask_all_replies(next, keys);
                        },
                        _ => {},
                    }
                }
            },
        }
    }

    /// However far the service runs, it never goes back to an earlier request
    /// of a client: a client's last reply is only ever replaced by one to a
    /// later request, so no request is executed twice.
    pub proof fn running_moves_replies_forward(
        state: StateOf<A, R, S>,
        poll: Poll,
        since_start: Duration,
        limit: nat,
    )
        ensures
            replies_move_forward(
                state.replies,
                Self::run(state, poll, since_start, limit).0.replies,
            ),
        decreases limit,
    {
        if limit > 0 {
            Self::lemma_step_replies(state, poll, since_start);
            match Self::step(state, poll, since_start) {
                Step::Continue(next, after) => {
                    Self::running_moves_replies_forward(
                        next,
                        after,
                        since_start,
                        (limit - 1) as nat,
                    );
                },
                Step::Return(_, _) => {},
            }
        }
    }

    /// A request that comes again after its reply is answered with that very
    /// reply, before anything else is done; it is not ordered again.
    pub proof fn repeated_request_is_answered(
        state: StateOf<A, R, S>,
        request: Request<<A::Op as View>::V>,
        since_start: Duration,
    )
        requires
            state.replies.contains_key(request.client_id),
            state.replies[request.client_id].client_seq == request.client_seq,
        ensures
            ({
                let asked = <Self as State>::receive_spec(
                    state,
                    Message::Request(request),
                );
                let (after, action) = <Self as State>::proceed_spec(
                    asked,
                    since_start,
                );
                &&& after == state
                &&& action matches Action::Perform(
                    Effect::Reply(client_id, reply),
                ) && client_id == request.client_id && reply == state.replies[client_id]
            }),
    {
        let asked = <Self as State>::receive_spec(
            state,
            Message::Request(request),
        );
        assert(asked.resend.drop_last() =~= state.resend);
        let popped = BigState { resend: asked.resend.drop_last(), ..asked };
        assert(popped =~= state);
    }
}

} // verus!
