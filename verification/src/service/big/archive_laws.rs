//! What is archived is what was stored.
use super::config::{
    ActiveGroupIndex, Key, NodeIndex, ShardedStorageConfig, StateVersion, StripeIndex,
    StripeShardIndex,
};
use super::erasure::{shard_spec, shards_spec, stripe_encoding, Values};
use super::message::{
    ArchivePush, Archived, Query, ShardedStorageMessage, StorageMessage, VoteArchive,
};
use super::shard_state::{
    absorbed, complete_groups, deletes, group_values, kth, local_shards, local_shards_below,
    nothing_collected, raise_all, reading_position, remote_nodes, send, set_all, shard_names,
    still_early, store, to_read, ShardAction, ShardState,
};
use super::storage::StorageStateEffect;
use super::text::{active_text, shard_names_differ, shard_text, tiers_have_different_names};
use super::version_table::{
    in_effect, lemma_latest, lemma_position, outdated, position, snapshot_rows, versions_of,
};
use crate::service::{Dest, Store};
use crate::state::Action;
use vstd::multiset::Multiset;
use vstd::prelude::*;

verus! {

/// The keys that a stripe holds, each with its version in effect.
pub type Snapshot = Seq<(Key, StateVersion)>;

/// What the local store holds under each name.
pub type Content = spec_fn(Seq<char>) -> Seq<u8>;

/// The last values that were pushed for each version, stripe and group.
pub type Pushed = Map<(StateVersion, StripeIndex, ActiveGroupIndex), Values>;

/// The values that a group has in a snapshot.
pub open spec fn stored_values(
    config: ShardedStorageConfig,
    group: ActiveGroupIndex,
    content: Content,
    snapshot: Snapshot,
) -> Multiset<(Key, Seq<u8>)>
    decreases snapshot.len(),
{
    if snapshot.len() == 0 {
        Multiset::empty()
    } else {
        let before = stored_values(config, group, content, snapshot.drop_last());
        let (key, version) = snapshot.last();
        if config.group_of_spec(key) == group {
            before.insert((key, content(active_text(key, version))))
        } else {
            before
        }
    }
}

/// The values of a group that are still being read.
pub open spec fn outstanding(
    config: ShardedStorageConfig,
    group: ActiveGroupIndex,
    content: Content,
    reading: Seq<(Seq<char>, Key)>,
) -> Multiset<(Key, Seq<u8>)>
    decreases reading.len(),
{
    if reading.len() == 0 {
        Multiset::empty()
    } else {
        let before = outstanding(config, group, content, reading.drop_last());
        let (name, key) = reading.last();
        if config.group_of_spec(key) == group {
            before.insert((key, content(name)))
        } else {
            before
        }
    }
}

/// What was last pushed early for a version, stripe and group.
pub open spec fn last_early(
    early: Seq<ArchivePush<Values>>,
    slot: (StateVersion, StripeIndex, ActiveGroupIndex),
) -> Option<Values>
    decreases early.len(),
{
    if early.len() == 0 {
        None
    } else if (early.last().version, early.last().stripe_index, early.last().group_index) == slot {
        Some(early.last().values)
    } else {
        last_early(early.drop_last(), slot)
    }
}

/// What was last pushed for a version, stripe and group, if anything.
pub open spec fn last_push(
    pushed: Pushed,
    slot: (StateVersion, StripeIndex, ActiveGroupIndex),
) -> Option<Values> {
    if pushed.contains_key(slot) {
        Some(pushed[slot])
    } else {
        None
    }
}

/// Whether the values of a group are right so far: with a local primary, those
/// that are collected and those still being read are together what the group has
/// in the snapshot, each once; without, they are what was last pushed.
pub open spec fn group_is_right(
    state: ShardState,
    snapshot: Snapshot,
    content: Content,
    pushed: Pushed,
    group: ActiveGroupIndex,
) -> bool {
    if state.nodes.contains(group) {
        &&& state.collected[group as int] is Some
        &&& state.collected[group as int]->Some_0.to_multiset().add(
            outstanding(state.config, group, content, state.archive_reading),
        ) == stored_values(state.config, group, content, snapshot)
    } else {
        state.collected[group as int] == last_push(pushed, (state.archiving, state.stripe, group))
    }
}

/// Whether what was pushed for later is kept until it is needed.
pub open spec fn later_kept(state: ShardState, pushed: Pushed) -> bool {
    &&& forall|version: StateVersion, stripe: StripeIndex, group: ActiveGroupIndex|
        stripe < state.config.num_stripe && group < state.config.num_node && !state.is_past(
            version,
            stripe,
        ) && !(version == state.archiving && stripe == state.stripe) ==> #[trigger] last_early(
            state.early,
            (version, stripe, group),
        ) == last_push(pushed, (version, stripe, group))
    &&& forall|i: int|
        0 <= i < state.early.len() ==> !state.nodes.contains((#[trigger] state.early[i]).group_index)
}

/// Whether nothing is read for archiving but for groups with a local primary.
pub open spec fn reads_local(state: ShardState) -> bool {
    forall|i: int|
        0 <= i < state.archive_reading.len() ==> state.nodes.contains(
            state.config.group_of_spec((#[trigger] state.archive_reading[i]).1),
        )
}

/// Whether archiving is right so far, where the stripe being archived held
/// `snapshot` when it was started on.
pub open spec fn archiving_is_right(
    state: ShardState,
    snapshot: Snapshot,
    content: Content,
    pushed: Pushed,
) -> bool {
    &&& state.wf()
    &&& later_kept(state, pushed)
    &&& if state.stripe < state.config.num_stripe {
        reads_local(state) && forall|group: ActiveGroupIndex|
            group < state.config.num_node ==> #[trigger] group_is_right(
                state,
                snapshot,
                content,
                pushed,
                group,
            )
    } else {
        state.archive_reading.len() == 0 && state.collected == nothing_collected(
            state.config.num_node,
        )
    }
}

/// Whether a stripe can be started on.
spec fn fresh(state: ShardState, pushed: Pushed) -> bool {
    &&& state.wf()
    &&& state.stripe < state.config.num_stripe
    &&& state.archive_reading.len() == 0
    &&& state.collected == nothing_collected(state.config.num_node)
    &&& forall|version: StateVersion, stripe: StripeIndex, group: ActiveGroupIndex|
        stripe < state.config.num_stripe && group < state.config.num_node && !state.is_past(
            version,
            stripe,
        ) ==> #[trigger] last_early(state.early, (version, stripe, group)) == last_push(
            pushed,
            (version, stripe, group),
        )
    &&& forall|i: int|
        0 <= i < state.early.len() ==> !state.nodes.contains((#[trigger] state.early[i]).group_index)
}

/// What every stripe held when it was started on.
pub type Snapshots = spec_fn(StripeIndex) -> Snapshot;

/// The values of all groups, those with a local primary as they were stored.
pub open spec fn groups_are_right(
    state: ShardState,
    groups: Seq<(ActiveGroupIndex, Values)>,
    snapshot: Snapshot,
    content: Content,
) -> bool {
    &&& groups.len() == state.config.num_node
    &&& forall|group: ActiveGroupIndex|
        group < state.config.num_node ==> (#[trigger] groups[group as int]).0 == group && (
        state.nodes.contains(group) ==> groups[group as int].1.to_multiset() == stored_values(
            state.config,
            group,
            content,
            snapshot,
        ))
}

/// Whether values that are handed out or written by an action are what was
/// stored: of a local group all its values, each once, go to all other nodes that
/// archive the stripe; a shard is one of the encoding of such values.
pub open spec fn action_is_right(
    state: ShardState,
    snapshots: Snapshots,
    content: Content,
    action: ShardAction,
) -> bool {
    match action {
        Action::Perform(StorageStateEffect::Send((dest, ShardedStorageMessage::ArchivePush(push)))) => {
            &&& push.version == state.archiving
            &&& push.stripe_index < state.config.num_stripe
            &&& state.nodes.contains(push.group_index)
            &&& push.values.to_multiset() == stored_values(
                state.config,
                push.group_index,
                content,
                snapshots(push.stripe_index),
            )
            &&& dest matches Dest::Multi(nodes) && forall|i: int|
                0 <= i < state.config.archive_nodes(push.stripe_index).len()
                    ==> state.nodes.contains(
                    #[trigger] state.config.archive_nodes(push.stripe_index)[i],
                ) || nodes.contains(state.config.archive_nodes(push.stripe_index)[i])
        },
        Action::Perform(StorageStateEffect::Store(Store::Put(name, bytes))) => forall|
            stripe: StripeIndex,
            shard: StripeShardIndex,
        |
            name == #[trigger] shard_text(stripe, shard) ==> shard_is_right(
                state,
                snapshots(stripe),
                content,
                shard,
                bytes,
            ),
        _ => true,
    }
}

/// Whether a shard is one of the encoding of all groups' values, those with a
/// local primary as they were stored.
pub open spec fn shard_is_right(
    state: ShardState,
    snapshot: Snapshot,
    content: Content,
    shard: StripeShardIndex,
    bytes: Seq<u8>,
) -> bool {
    exists|groups: Seq<(ActiveGroupIndex, Values)>| #[trigger]
        groups_are_right(state, groups, snapshot, content) && bytes == shard_spec(
            state.config,
            stripe_encoding(groups),
            shard as int,
        )
}

/// Whether actions are added, all of them right.
pub open spec fn acts_right(
    before: Seq<ShardAction>,
    after: Seq<ShardAction>,
    state: ShardState,
    snapshots: Snapshots,
    content: Content,
) -> bool {
    &&& before.len() <= after.len()
    &&& forall|i: int| 0 <= i < before.len() ==> #[trigger] after[i] == before[i]
    &&& forall|i: int|
        before.len() <= i < after.len() ==> action_is_right(
            state,
            snapshots,
            content,
            #[trigger] after[i],
        )
}

/// The same nodes archive the same version.
spec fn same_round(a: ShardState, b: ShardState) -> bool {
    a.config == b.config && a.nodes == b.nodes && a.archiving == b.archiving
}

proof fn lemma_acts_compose(
    a: Seq<ShardAction>,
    b: Seq<ShardAction>,
    c: Seq<ShardAction>,
    state: ShardState,
    other: ShardState,
    snapshots: Snapshots,
    content: Content,
)
    requires
        acts_right(a, b, state, snapshots, content),
        acts_right(b, c, other, snapshots, content),
        same_round(state, other),
    ensures
        acts_right(a, c, state, snapshots, content),
{
    assert forall|i: int| a.len() <= i < c.len() implies action_is_right(
        state,
        snapshots,
        content,
        #[trigger] c[i],
    ) by {
        if i < b.len() {
            assert(c[i] == b[i]);
        } else {
            lemma_same_round(state, other, snapshots, content, c[i]);
        }
    }
    assert forall|i: int| 0 <= i < a.len() implies #[trigger] c[i] == a[i] by {
        assert(c[i] == b[i]);
    }
}

proof fn lemma_same_round(
    state: ShardState,
    other: ShardState,
    snapshots: Snapshots,
    content: Content,
    action: ShardAction,
)
    requires
        same_round(state, other),
        action_is_right(other, snapshots, content, action),
    ensures
        action_is_right(state, snapshots, content, action),
{
    match action {
        Action::Perform(StorageStateEffect::Store(Store::Put(name, bytes))) => {
            assert forall|stripe: StripeIndex, shard: StripeShardIndex|
                name == #[trigger] shard_text(stripe, shard) implies shard_is_right(
                state,
                snapshots(stripe),
                content,
                shard,
                bytes,
            ) by {
                assert(shard_is_right(other, snapshots(stripe), content, shard, bytes));
                let groups = choose|groups: Seq<(ActiveGroupIndex, Values)>| #[trigger]
                    groups_are_right(other, groups, snapshots(stripe), content) && bytes
                        == shard_spec(other.config, stripe_encoding(groups), shard as int);
                assert(groups_are_right(state, groups, snapshots(stripe), content));
            }
        },
        _ => {},
    }
}

proof fn lemma_outstanding_added(
    config: ShardedStorageConfig,
    group: ActiveGroupIndex,
    content: Content,
    a: Seq<(Seq<char>, Key)>,
    b: Seq<(Seq<char>, Key)>,
)
    ensures
        outstanding(config, group, content, a + b) == outstanding(config, group, content, a).add(
            outstanding(config, group, content, b),
        ),
    decreases b.len(),
{
    if b.len() == 0 {
        assert(a + b =~= a);
        assert(outstanding(config, group, content, a + b) =~= outstanding(
            config,
            group,
            content,
            a,
        ).add(outstanding(config, group, content, b)));
    } else {
        lemma_outstanding_added(config, group, content, a, b.drop_last());
        assert((a + b).drop_last() =~= a + b.drop_last());
        assert((a + b).last() == b.last());
        assert(outstanding(config, group, content, a + b) =~= outstanding(
            config,
            group,
            content,
            a,
        ).add(outstanding(config, group, content, b)));
    }
}

proof fn lemma_outstanding_removed(
    config: ShardedStorageConfig,
    group: ActiveGroupIndex,
    content: Content,
    reading: Seq<(Seq<char>, Key)>,
    i: int,
)
    requires
        0 <= i < reading.len(),
    ensures
        outstanding(config, group, content, reading) == if config.group_of_spec(reading[i].1)
            == group {
            outstanding(config, group, content, reading.remove(i)).insert(
                (reading[i].1, content(reading[i].0)),
            )
        } else {
            outstanding(config, group, content, reading.remove(i))
        },
{
    let before = reading.subrange(0, i);
    let rest = reading.subrange(i + 1, reading.len() as int);
    let one = seq![reading[i]];
    assert(reading =~= before + (one + rest));
    assert(reading.remove(i) =~= before + rest);
    lemma_outstanding_added(config, group, content, before, one + rest);
    lemma_outstanding_added(config, group, content, one, rest);
    lemma_outstanding_added(config, group, content, before, rest);
    assert(one.drop_last() =~= Seq::empty());
    assert(outstanding(config, group, content, one.drop_last()) =~= Multiset::empty());
    let all = outstanding(config, group, content, reading);
    let others = outstanding(config, group, content, reading.remove(i));
    if config.group_of_spec(reading[i].1) == group {
        assert(all =~= others.insert((reading[i].1, content(reading[i].0))));
    } else {
        assert(all =~= others);
    }
}

proof fn lemma_to_read(
    config: ShardedStorageConfig,
    nodes: Seq<NodeIndex>,
    snapshot: Snapshot,
    group: ActiveGroupIndex,
    content: Content,
)
    requires
        nodes.contains(group),
    ensures
        outstanding(config, group, content, to_read(config, nodes, snapshot)) == stored_values(
            config,
            group,
            content,
            snapshot,
        ),
    decreases snapshot.len(),
{
    if snapshot.len() > 0 {
        lemma_to_read(config, nodes, snapshot.drop_last(), group, content);
        let before = to_read(config, nodes, snapshot.drop_last());
        let (key, version) = snapshot.last();
        if nodes.contains(config.group_of_spec(key)) {
            assert(before.push((active_text(key, version), key)).drop_last() =~= before);
        }
    }
}

proof fn lemma_absorbed(
    collected: Seq<Option<Values>>,
    early: Seq<ArchivePush<Values>>,
    version: StateVersion,
    stripe: StripeIndex,
    group: ActiveGroupIndex,
)
    requires
        group < collected.len(),
        forall|i: int| 0 <= i < early.len() ==> (#[trigger] early[i]).group_index < collected.len(),
    ensures
        absorbed(collected, early, version, stripe).len() == collected.len(),
        absorbed(collected, early, version, stripe)[group as int] == match last_early(
            early,
            (version, stripe, group),
        ) {
            Some(values) => Some(values),
            None => collected[group as int],
        },
    decreases early.len(),
{
    if early.len() > 0 {
        assert forall|i: int| 0 <= i < early.drop_last().len() implies (
        #[trigger] early.drop_last()[i]).group_index < collected.len() by {
            assert(early.drop_last()[i] == early[i]);
        }
        assert(early.last() == early[early.len() - 1]);
        lemma_absorbed(collected, early.drop_last(), version, stripe, group);
    }
}

proof fn lemma_not_early(
    early: Seq<ArchivePush<Values>>,
    slot: (StateVersion, StripeIndex, ActiveGroupIndex),
)
    requires
        forall|i: int| 0 <= i < early.len() ==> (#[trigger] early[i]).group_index != slot.2,
    ensures
        last_early(early, slot) is None,
    decreases early.len(),
{
    if early.len() > 0 {
        assert(early.last() == early[early.len() - 1]);
        assert forall|i: int| 0 <= i < early.drop_last().len() implies (
        #[trigger] early.drop_last()[i]).group_index != slot.2 by {
            assert(early.drop_last()[i] == early[i]);
        }
        lemma_not_early(early.drop_last(), slot);
    }
}

proof fn lemma_still_early(
    early: Seq<ArchivePush<Values>>,
    version: StateVersion,
    stripe: StripeIndex,
    slot: (StateVersion, StripeIndex, ActiveGroupIndex),
)
    ensures
        slot.0 != version || slot.1 != stripe ==> last_early(
            still_early(early, version, stripe),
            slot,
        ) == last_early(early, slot),
        forall|i: int|
            0 <= i < still_early(early, version, stripe).len() ==> early.contains(
                #[trigger] still_early(early, version, stripe)[i],
            ),
    decreases early.len(),
{
    if early.len() > 0 {
        lemma_still_early(early.drop_last(), version, stripe, slot);
        let before = still_early(early.drop_last(), version, stripe);
        let push = early.last();
        assert(before.push(push).drop_last() =~= before);
        let all = still_early(early, version, stripe);
        assert forall|i: int| 0 <= i < all.len() implies early.contains(#[trigger] all[i]) by {
            if i < before.len() {
                assert(early.drop_last().contains(before[i]));
                let k = early.drop_last().index_of(before[i]);
                assert(early[k] == before[i]);
            } else {
                assert(early[early.len() - 1] == push);
            }
        }
    }
}

proof fn lemma_to_read_local(
    config: ShardedStorageConfig,
    nodes: Seq<NodeIndex>,
    snapshot: Snapshot,
)
    ensures
        forall|i: int|
            0 <= i < to_read(config, nodes, snapshot).len() ==> nodes.contains(
                config.group_of_spec((#[trigger] to_read(config, nodes, snapshot)[i]).1),
            ),
    decreases snapshot.len(),
{
    if snapshot.len() > 0 {
        lemma_to_read_local(config, nodes, snapshot.drop_last());
        let before = to_read(config, nodes, snapshot.drop_last());
        let all = to_read(config, nodes, snapshot);
        assert forall|i: int| 0 <= i < all.len() implies nodes.contains(
            config.group_of_spec((#[trigger] all[i]).1),
        ) by {
            if i < before.len() {
                assert(all[i] == before[i]);
            }
        }
    }
}

/// Pushing hands out what was stored.
proof fn lemma_pushed(
    state: ShardState,
    snapshots: Snapshots,
    content: Content,
)
    requires
        state.wf(),
        state.stripe < state.config.num_stripe,
        state.archive_reading.len() == 0 ==> forall|group: ActiveGroupIndex| #[trigger]
            state.nodes.contains(group) ==> state.collected[group as int] is Some
                && state.collected[group as int]->Some_0.to_multiset() == stored_values(
                state.config,
                group,
                content,
                snapshots(state.stripe),
            ),
    ensures
        acts_right(state.actions, state.pushed_if_read().actions, state, snapshots, content),
{
    let after = state.pushed_if_read();
    if state.archive_reading.len() == 0 {
        let n = state.actions.len() as int;
        assert forall|i: int| n <= i < after.actions.len() implies action_is_right(
            state,
            snapshots,
            content,
            #[trigger] after.actions[i],
        ) by {
            let group = state.nodes[i - n];
            assert(after.actions[i] == state.push(group));
            assert(state.nodes.contains(group));
            let archive = state.config.archive_nodes(state.stripe);
            let remote = remote_nodes(state.config, state.nodes, state.stripe);
            assert forall|k: int| 0 <= k < archive.len() implies state.nodes.contains(
                #[trigger] archive[k],
            ) || remote.contains(archive[k]) by {
                if !state.nodes.contains(archive[k]) {
                    let other = |node: NodeIndex| !state.nodes.contains(node);
                    archive.lemma_filter_contains(other, k);
                    assert(remote.contains(archive[k]));
                }
            }
        }
    }
}

/// Starting on a stripe is right.
proof fn lemma_started(
    state: ShardState,
    snapshots: Snapshots,
    content: Content,
    pushed: Pushed,
)
    requires
        fresh(state, pushed),
        snapshots(state.stripe) == snapshot_rows(
            state.table[state.stripe as int],
            state.archiving,
        ),
    ensures
        ({
            let after = state.opened().pushed_if_read().with_early();
            &&& archiving_is_right(after, snapshots(state.stripe), content, pushed)
            &&& acts_right(state.actions, after.actions, state, snapshots, content)
            &&& same_round(state, after)
            &&& after.stripe == state.stripe
            &&& after.table == state.table
        }),
{
    let snapshot = snapshots(state.stripe);
    let reading = to_read(state.config, state.nodes, snapshot);
    let opened = state.opened();
    let handed = opened.pushed_if_read();
    let after = handed.with_early();
    assert(opened.archive_reading =~= reading);
    assert(after.archive_reading == reading);
    lemma_to_read_local(state.config, state.nodes, snapshot);
    assert forall|group: ActiveGroupIndex| #[trigger] state.nodes.contains(group) implies
        opened.collected[group as int] == Some(Values::empty()) && group < state.config.num_node by {
        let k = state.nodes.index_of(group);
        assert(state.nodes[k] == group);
    }
    assert forall|group: ActiveGroupIndex| group < state.config.num_node implies
        #[trigger] group_is_right(after, snapshot, content, pushed, group) by {
        lemma_absorbed(opened.collected, state.early, state.archiving, state.stripe, group);
        if state.nodes.contains(group) {
            lemma_not_early(state.early, (state.archiving, state.stripe, group));
            lemma_to_read(state.config, state.nodes, snapshot, group, content);
            Seq::<(Key, Seq<u8>)>::empty().to_multiset_ensures();
            assert(Values::empty().to_multiset() =~= Multiset::empty());
            assert(Multiset::<(Key, Seq<u8>)>::empty().add(
                outstanding(state.config, group, content, reading),
            ) =~= outstanding(state.config, group, content, reading));
        } else {
            assert(!state.is_past(state.archiving, state.stripe));
        }
    }
    lemma_absorbed(opened.collected, state.early, state.archiving, state.stripe, 0);
    assert(later_kept(after, pushed)) by {
        assert forall|version: StateVersion, stripe: StripeIndex, group: ActiveGroupIndex|
            stripe < after.config.num_stripe && group < after.config.num_node && !after.is_past(
                version,
                stripe,
            ) && !(version == after.archiving && stripe == after.stripe) implies
            #[trigger] last_early(after.early, (version, stripe, group)) == last_push(
            pushed,
            (version, stripe, group),
        ) by {
            lemma_still_early(
                state.early,
                state.archiving,
                state.stripe,
                (version, stripe, group),
            );
            assert(!state.is_past(version, stripe));
            assert(last_early(state.early, (version, stripe, group)) == last_push(
                pushed,
                (version, stripe, group),
            ));
        }
        lemma_still_early(state.early, state.archiving, state.stripe, (0, 0, 0));
        assert forall|i: int| 0 <= i < after.early.len() implies !after.nodes.contains(
            (#[trigger] after.early[i]).group_index,
        ) && after.early[i].group_index < after.config.num_node by {
            assert(state.early.contains(after.early[i]));
        }
    }
    assert(after.wf()) by {
        lemma_still_early(state.early, state.archiving, state.stripe, (0, 0, 0));
        assert forall|i: int| 0 <= i < after.early.len() implies (
        #[trigger] after.early[i]).group_index < after.config.num_node by {
            assert(state.early.contains(after.early[i]));
        }
    }
    assert(acts_right(state.actions, opened.actions, state, snapshots, content));
    if opened.archive_reading.len() == 0 {
        assert forall|group: ActiveGroupIndex| #[trigger] state.nodes.contains(group) implies
            opened.collected[group as int] is Some
            && opened.collected[group as int]->Some_0.to_multiset() == stored_values(
            state.config,
            group,
            content,
            snapshot,
        ) by {
            lemma_to_read(state.config, state.nodes, snapshot, group, content);
            Seq::<(Key, Seq<u8>)>::empty().to_multiset_ensures();
            assert(Values::empty().to_multiset() =~= Multiset::empty());
            assert(outstanding(state.config, group, content, reading) =~= Multiset::empty());
        }
    }
    lemma_pushed(opened, snapshots, content);
    lemma_acts_compose(
        state.actions,
        opened.actions,
        handed.actions,
        state,
        opened,
        snapshots,
        content,
    );
}

/// When a stripe is closed, the values that are collected of every group with a
/// local primary are exactly those that the group had in the snapshot, each
/// once, and those of every other group are what was last pushed.
pub proof fn closed_stripe_is_complete(
    state: ShardState,
    snapshot: Snapshot,
    content: Content,
    pushed: Pushed,
    group: ActiveGroupIndex,
)
    requires
        archiving_is_right(state, snapshot, content, pushed),
        state.can_close(),
        group < state.config.num_node,
    ensures
        state.nodes.contains(group) ==> group_values(state.collected, group).to_multiset()
            == stored_values(state.config, group, content, snapshot),
        !state.nodes.contains(group) ==> state.collected[group as int] == last_push(
            pushed,
            (state.archiving, state.stripe, group),
        ),
{
    assert(group_is_right(state, snapshot, content, pushed, group));
    if state.nodes.contains(group) {
        assert(outstanding(state.config, group, content, state.archive_reading)
            =~= Multiset::empty());
        let values = state.collected[group as int]->Some_0;
        assert(values.to_multiset().add(Multiset::empty()) =~= values.to_multiset());
    }
}

proof fn lemma_local_shards_below(
    config: ShardedStorageConfig,
    nodes: Seq<NodeIndex>,
    stripe: StripeIndex,
    bound: int,
)
    requires
        bound <= u16::MAX,
    ensures
        forall|i: int|
            0 <= i < local_shards_below(config, nodes, stripe, bound).len() ==> 0 <= (
            #[trigger] local_shards_below(config, nodes, stripe, bound)[i]) < bound
                && nodes.contains(
                config.archive_node(stripe, local_shards_below(config, nodes, stripe, bound)[i] as int),
            ),
        forall|shard: int|
            0 <= shard < bound && nodes.contains(#[trigger] config.archive_node(stripe, shard))
                ==> local_shards_below(config, nodes, stripe, bound).contains(
                shard as StripeShardIndex,
            ),
    decreases bound,
{
    if bound > 0 {
        lemma_local_shards_below(config, nodes, stripe, bound - 1);
        let before = local_shards_below(config, nodes, stripe, bound - 1);
        let all = local_shards_below(config, nodes, stripe, bound);
        assert forall|shard: int|
            0 <= shard < bound && nodes.contains(
                #[trigger] config.archive_node(stripe, shard),
            ) implies all.contains(shard as StripeShardIndex) by {
            if shard < bound - 1 {
                assert(before.contains(shard as StripeShardIndex));
                let k = before.index_of(shard as StripeShardIndex);
                assert(all[k] == shard as StripeShardIndex);
            } else {
                assert(all[all.len() - 1] == shard as StripeShardIndex);
            }
        }
    }
}

/// Closing a stripe writes right shards.
proof fn lemma_closed(
    state: ShardState,
    snapshots: Snapshots,
    content: Content,
    pushed: Pushed,
)
    requires
        archiving_is_right(state, snapshots(state.stripe), content, pushed),
        state.can_close(),
    ensures
        acts_right(state.actions, state.closed().actions, state, snapshots, content),
        state.stripe + 1 < state.config.num_stripe ==> fresh(state.closed(), pushed),
        state.stripe + 1 == state.config.num_stripe ==> archiving_is_right(
            state.closed(),
            Seq::empty(),
            content,
            pushed,
        ),
{
    let after = state.closed();
    let shards = local_shards(state.config, state.nodes, state.stripe);
    let names = shard_names(state.stripe, shards);
    let groups = complete_groups(state.collected);
    let contents = shards_spec(state.config, stripe_encoding(groups), shards);
    let n = state.actions.len() as int;
    assert forall|i: int| n <= i < after.actions.len() implies action_is_right(
        state,
        snapshots,
        content,
        #[trigger] after.actions[i],
    ) by {
        let k = i - n;
        assert(after.actions[i] == store(Store::Put(names[k], contents[k])));
        assert(groups_are_right(state, groups, snapshots(state.stripe), content)) by {
            assert forall|group: ActiveGroupIndex| group < state.config.num_node implies (
            #[trigger] groups[group as int]).0 == group && (state.nodes.contains(group)
                ==> groups[group as int].1.to_multiset() == stored_values(
                state.config,
                group,
                content,
                snapshots(state.stripe),
            )) by {
                closed_stripe_is_complete(
                    state,
                    snapshots(state.stripe),
                    content,
                    pushed,
                    group,
                );
                assert(group_is_right(state, snapshots(state.stripe), content, pushed, group));
            }
        }
        assert forall|stripe: StripeIndex, shard: StripeShardIndex|
            names[k] == #[trigger] shard_text(stripe, shard) implies shard_is_right(
            state,
            snapshots(stripe),
            content,
            shard,
            contents[k],
        ) by {
            assert(names[k] == shard_text(state.stripe, shards[k]));
            shard_names_differ(state.stripe, shards[k], stripe, shard);
        }
    }
    assert forall|version: StateVersion, stripe: StripeIndex, group: ActiveGroupIndex|
        stripe < state.config.num_stripe && group < state.config.num_node && !after.is_past(
            version,
            stripe,
        ) implies #[trigger] last_early(after.early, (version, stripe, group)) == last_push(
        pushed,
        (version, stripe, group),
    ) by {
        assert(!state.is_past(version, stripe));
        assert(last_early(state.early, (version, stripe, group)) == last_push(
            pushed,
            (version, stripe, group),
        ));
    }
}

proof fn lemma_collect_acts(state: ShardState, snapshots: Snapshots, content: Content)
    ensures
        acts_right(state.actions, state.collect().actions, state, snapshots, content),
        (ShardState {
            actions: state.actions,
            table: state.table,
            quorum_archived: state.quorum_archived,
            version: state.version,
            ..state.collect()
        }) == state,
{
    let version = kth(state.archived, state.config.num_faulty_node as int);
    if version > state.quorum_archived {
        let old = outdated(state.table, version);
        let after = state.collect();
        let n = state.actions.len() as int;
        assert forall|i: int| n <= i < after.actions.len() implies action_is_right(
            state,
            snapshots,
            content,
            #[trigger] after.actions[i],
        ) by {
            if i < n + old.len() {
                assert(after.actions[i] == deletes(old)[i - n]);
            }
        }
    }
}

proof fn lemma_finish_acts(state: ShardState, snapshots: Snapshots, content: Content)
    ensures
        acts_right(state.actions, state.finish_archive().actions, state, snapshots, content),
        ({
            let after = state.finish_archive();
            &&& (ShardState {
                actions: state.actions,
                table: state.table,
                quorum_archived: state.quorum_archived,
                version: state.version,
                archived: state.archived,
                ..after
            }) == state
            &&& after.table.len() == state.table.len()
            &&& after.archived.len() == state.archived.len()
        }),
{
    if state.archive_writing == Set::<Seq<char>>::empty() {
        let archived = Archived { version: state.archiving, node_indices: state.nodes };
        let told = ShardState {
            archived: set_all(state.archived, state.nodes, state.archiving),
            ..state.act(send(Dest::All, ShardedStorageMessage::Archived(archived)))
        };
        lemma_collect_acts(told, snapshots, content);
        lemma_acts_compose(
            state.actions,
            told.actions,
            told.collect().actions,
            state,
            told,
            snapshots,
            content,
        );
    }
}

/// The stripes still to come hold what they hold now.
spec fn current_from(
    state: ShardState,
    snapshots: Snapshots,
    from: int,
) -> bool {
    forall|stripe: StripeIndex|
        from <= stripe < state.config.num_stripe ==> #[trigger] snapshots(stripe) == snapshot_rows(
            state.table[stripe as int],
            state.archiving,
        )
}

/// What holds after going on with a round of archiving.
spec fn goes_on(
    before: ShardState,
    after: ShardState,
    snapshots: Snapshots,
    content: Content,
    pushed: Pushed,
) -> bool {
    &&& archiving_is_right(after, snapshots(after.stripe), content, pushed)
    &&& acts_right(before.actions, after.actions, before, snapshots, content)
    &&& same_round(before, after)
    &&& before.stripe <= after.stripe
    &&& after.stripe < after.config.num_stripe ==> after.table == before.table
}

proof fn lemma_prepare_right(
    state: ShardState,
    snapshots: Snapshots,
    content: Content,
    pushed: Pushed,
)
    requires
        fresh(state, pushed),
        current_from(state, snapshots, state.stripe as int),
    ensures
        goes_on(state, state.prepare(), snapshots, content, pushed),
    decreases state.config.num_stripe - state.stripe, 1int,
{
    lemma_started(state, snapshots, content, pushed);
    let started = state.opened().pushed_if_read().with_early();
    assert(current_from(started, snapshots, started.stripe + 1));
    lemma_advance_right(started, snapshots, content, pushed);
    lemma_acts_compose(
        state.actions,
        started.actions,
        started.advance().actions,
        state,
        started,
        snapshots,
        content,
    );
}

proof fn lemma_advance_right(
    state: ShardState,
    snapshots: Snapshots,
    content: Content,
    pushed: Pushed,
)
    requires
        archiving_is_right(state, snapshots(state.stripe), content, pushed),
        current_from(state, snapshots, state.stripe + 1),
    ensures
        goes_on(state, state.advance(), snapshots, content, pushed),
    decreases state.config.num_stripe - state.stripe, 0int,
{
    if state.can_close() {
        lemma_closed(state, snapshots, content, pushed);
        let closed = state.closed();
        let after = state.advance();
        if state.stripe + 1 == state.config.num_stripe {
            lemma_finish_acts(closed, snapshots, content);
            assert(later_kept(after, pushed)) by {
                assert forall|version: StateVersion, stripe: StripeIndex, group: ActiveGroupIndex|
                    stripe < after.config.num_stripe && group < after.config.num_node
                        && !after.is_past(version, stripe) && !(version == after.archiving
                        && stripe == after.stripe) implies #[trigger] last_early(
                    after.early,
                    (version, stripe, group),
                ) == last_push(pushed, (version, stripe, group)) by {
                    assert(!closed.is_past(version, stripe));
                    assert(last_early(closed.early, (version, stripe, group)) == last_push(
                        pushed,
                        (version, stripe, group),
                    ));
                }
            }
        } else {
            assert(current_from(closed, snapshots, closed.stripe as int));
            lemma_prepare_right(closed, snapshots, content, pushed);
        }
        lemma_acts_compose(
            state.actions,
            closed.actions,
            after.actions,
            state,
            closed,
            snapshots,
            content,
        );
    }
}

proof fn lemma_enter_right(
    state: ShardState,
    version: StateVersion,
    snapshot: Snapshot,
    snapshots: Snapshots,
    content: Content,
    pushed: Pushed,
)
    requires
        archiving_is_right(state, snapshot, content, pushed),
        version > state.archiving,
        current_from((ShardState { archiving: version, ..state }), snapshots, 0),
    ensures
        goes_on(
            (ShardState { archiving: version, stripe: 0, ..state.abandoned() }),
            state.enter(version),
            snapshots,
            content,
            pushed,
        ),
{
    let entered = ShardState { archiving: version, stripe: 0, ..state.abandoned() };
    assert forall|slot_version: StateVersion, stripe: StripeIndex, group: ActiveGroupIndex|
        stripe < entered.config.num_stripe && group < entered.config.num_node && !entered.is_past(
            slot_version,
            stripe,
        ) implies #[trigger] last_early(entered.early, (slot_version, stripe, group)) == last_push(
        pushed,
        (slot_version, stripe, group),
    ) by {
        assert(!state.is_past(slot_version, stripe));
        assert(last_early(state.early, (slot_version, stripe, group)) == last_push(
            pushed,
            (slot_version, stripe, group),
        ));
    }
    if entered.stripe < entered.config.num_stripe {
        lemma_prepare_right(entered, snapshots, content, pushed);
    }
}

/// Taking one value that was read keeps all that were collected before, and adds
/// that one.
pub proof fn reading_keeps_values(
    state: ShardState,
    i: int,
    value: Seq<u8>,
    group: ActiveGroupIndex,
    entry: (Key, Seq<u8>),
)
    requires
        state.wf(),
        reads_local(state),
        0 <= i < state.archive_reading.len(),
        group < state.config.num_node,
    ensures
        ({
            let key = state.archive_reading[i].1;
            let before = group_values(state.collected, group);
            let after = group_values(state.with_archive_read(i, value).collected, group);
            after.contains(entry) <==> before.contains(entry) || entry == (key, value)
                && state.config.group_of_spec(key) == group
        }),
{
    let key = state.archive_reading[i].1;
    let own = state.config.group_of_spec(key);
    assert(state.nodes.contains(own));
    let k = state.nodes.index_of(own);
    assert(state.nodes[k] == own);
    let before = group_values(state.collected, group);
    let after = group_values(state.with_archive_read(i, value).collected, group);
    if own == group {
        assert(after == before.push((key, value)));
        if before.contains(entry) {
            let j = before.index_of(entry);
            assert(after[j] == entry);
        }
        assert(after[before.len() as int] == (key, value));
        if after.contains(entry) {
            let j = after.index_of(entry);
            if j < before.len() {
                assert(before[j] == entry);
            }
        }
    }
}

proof fn lemma_read_right(
    state: ShardState,
    i: int,
    snapshot: Snapshot,
    content: Content,
    pushed: Pushed,
)
    requires
        archiving_is_right(state, snapshot, content, pushed),
        0 <= i < state.archive_reading.len(),
    ensures
        ({
            let value = content(state.archive_reading[i].0);
            archiving_is_right(state.with_archive_read(i, value), snapshot, content, pushed)
        }),
{
    let (name, key) = state.archive_reading[i];
    let value = content(name);
    let after = state.with_archive_read(i, value);
    let own = state.config.group_of_spec(key);
    assert(state.nodes.contains(own));
    let k = state.nodes.index_of(own);
    assert(state.nodes[k] == own);
    assert(later_kept(after, pushed)) by {
        assert forall|version: StateVersion, stripe: StripeIndex, group: ActiveGroupIndex|
            stripe < after.config.num_stripe && group < after.config.num_node && !after.is_past(
                version,
                stripe,
            ) && !(version == after.archiving && stripe == after.stripe) implies
            #[trigger] last_early(after.early, (version, stripe, group)) == last_push(
            pushed,
            (version, stripe, group),
        ) by {
            assert(!state.is_past(version, stripe));
        }
    }
    assert(reads_local(after)) by {
        assert forall|j: int| 0 <= j < after.archive_reading.len() implies after.nodes.contains(
            after.config.group_of_spec((#[trigger] after.archive_reading[j]).1),
        ) by {
            let l = if j < i {
                j
            } else {
                j + 1
            };
            assert(after.archive_reading[j] == state.archive_reading[l]);
        }
    }
    assert forall|group: ActiveGroupIndex| group < after.config.num_node implies
        #[trigger] group_is_right(after, snapshot, content, pushed, group) by {
        assert(group_is_right(state, snapshot, content, pushed, group));
        if state.nodes.contains(group) {
            lemma_outstanding_removed(state.config, group, content, state.archive_reading, i);
            let before = state.collected[group as int]->Some_0;
            before.to_multiset_ensures();
            if own == group {
                assert(after.collected[group as int] == Some(before.push((key, value))));
                assert(before.push((key, value)).to_multiset() =~= before.to_multiset().insert(
                    (key, value),
                ));
                assert(before.push((key, value)).to_multiset().add(
                    outstanding(state.config, group, content, after.archive_reading),
                ) =~= before.to_multiset().add(
                    outstanding(state.config, group, content, state.archive_reading),
                ));
            }
        }
    }
}

/// What a stripe holds: the one being archived as when it was started on, those
/// to come as they are now.
pub open spec fn snapshots_of(state: ShardState, snapshot: Snapshot) -> Snapshots {
    |stripe: StripeIndex|
        if stripe == state.stripe {
            snapshot
        } else {
            snapshot_rows(state.table[stripe as int], state.archiving)
        }
}

/// What the stripes hold when archiving goes on to a new version.
pub open spec fn new_snapshots(state: ShardState) -> Snapshots {
    |stripe: StripeIndex| snapshot_rows(state.table[stripe as int], state.archiving)
}

/// What the stripe being archived held when it was started on, after a call.
pub open spec fn snapshot_after(
    before: ShardState,
    after: ShardState,
    snapshot: Snapshot,
) -> Snapshot {
    if after.archiving == before.archiving && after.stripe == before.stripe {
        snapshot
    } else {
        snapshot_rows(after.table[after.stripe as int], after.archiving)
    }
}

/// A value that was read for archiving is taken: archiving stays right, and what
/// is handed out and written is what was stored.
pub proof fn reading_archives(
    state: ShardState,
    name: Seq<char>,
    snapshot: Snapshot,
    content: Content,
    pushed: Pushed,
)
    requires
        archiving_is_right(state, snapshot, content, pushed),
    ensures
        ({
            let after = state.archive_read_done(name, content(name));
            &&& archiving_is_right(after, snapshot_after(state, after, snapshot), content, pushed)
            &&& acts_right(
                state.actions,
                after.actions,
                state,
                snapshots_of(state, snapshot),
                content,
            )
        }),
{
    let i = reading_position(state.archive_reading, name);
    let after = state.archive_read_done(name, content(name));
    let snapshots = snapshots_of(state, snapshot);
    lemma_reading_position(state.archive_reading, name);
    if i < state.archive_reading.len() {
        lemma_read_right(state, i, snapshot, content, pushed);
        let read = state.with_archive_read(i, content(name));
        let handed = read.pushed_if_read();
        if read.archive_reading.len() == 0 {
            assert forall|group: ActiveGroupIndex| #[trigger] read.nodes.contains(group) implies
                read.collected[group as int] is Some
                && read.collected[group as int]->Some_0.to_multiset() == stored_values(
                read.config,
                group,
                content,
                snapshot,
            ) by {
                let k = read.nodes.index_of(group);
                assert(read.nodes[k] == group);
                assert(group_is_right(read, snapshot, content, pushed, group));
                let values = read.collected[group as int]->Some_0;
                assert(outstanding(read.config, group, content, read.archive_reading)
                    =~= Multiset::empty());
                assert(values.to_multiset().add(Multiset::empty()) =~= values.to_multiset());
            }
        }
        lemma_pushed(read, snapshots, content);
        lemma_same_right(read, handed, snapshot, content, pushed);
        lemma_advance_right(handed, snapshots, content, pushed);
        lemma_acts_compose(
            state.actions,
            handed.actions,
            after.actions,
            state,
            handed,
            snapshots,
            content,
        );
    }
}

proof fn lemma_reading_position(reading: Seq<(Seq<char>, Key)>, name: Seq<char>)
    ensures
        0 <= reading_position(reading, name) <= reading.len(),
        reading_position(reading, name) < reading.len() ==> reading[reading_position(
            reading,
            name,
        )].0 == name,
    decreases reading.len(),
{
    if reading.len() > 0 && reading[0].0 != name {
        lemma_reading_position(reading.drop_first(), name);
    }
}

/// Only what is archived matters.
proof fn lemma_same_right(
    before: ShardState,
    after: ShardState,
    snapshot: Snapshot,
    content: Content,
    pushed: Pushed,
)
    requires
        archiving_is_right(before, snapshot, content, pushed),
        same_round(before, after),
        after.wf(),
        after.stripe == before.stripe,
        after.collected == before.collected,
        after.archive_reading == before.archive_reading,
        after.early == before.early,
    ensures
        archiving_is_right(after, snapshot, content, pushed),
{
    assert(later_kept(after, pushed)) by {
        assert forall|version: StateVersion, stripe: StripeIndex, group: ActiveGroupIndex|
            stripe < after.config.num_stripe && group < after.config.num_node && !after.is_past(
                version,
                stripe,
            ) && !(version == after.archiving && stripe == after.stripe) implies
            #[trigger] last_early(after.early, (version, stripe, group)) == last_push(
            pushed,
            (version, stripe, group),
        ) by {
            assert(!before.is_past(version, stripe));
        }
    }
    assert forall|group: ActiveGroupIndex|
        group < after.config.num_node && after.stripe < after.config.num_stripe implies
        #[trigger] group_is_right(after, snapshot, content, pushed, group) by {
        assert(group_is_right(before, snapshot, content, pushed, group));
    }
}

/// Pushed values are taken: those for the stripe being archived at once, those
/// that come before it is started on when it is. A node pushes only for the
/// groups that it is the primary of.
pub proof fn pushing_archives(
    state: ShardState,
    push: ArchivePush<Values>,
    snapshot: Snapshot,
    content: Content,
    pushed: Pushed,
)
    requires
        archiving_is_right(state, snapshot, content, pushed),
        !state.nodes.contains(push.group_index),
    ensures
        ({
            let after = state.receive_push(push);
            let slot = (push.version, push.stripe_index, push.group_index);
            &&& archiving_is_right(
                after,
                snapshot_after(state, after, snapshot),
                content,
                pushed.insert(slot, push.values),
            )
            &&& acts_right(
                state.actions,
                after.actions,
                state,
                snapshots_of(state, snapshot),
                content,
            )
        }),
{
    let after = state.receive_push(push);
    let own = (push.version, push.stripe_index, push.group_index);
    let next = pushed.insert(own, push.values);
    let snapshots = snapshots_of(state, snapshot);
    if push.stripe_index >= state.config.num_stripe || push.group_index >= state.config.num_node
        || state.is_past(push.version, push.stripe_index) {
        assert(later_kept(state, next)) by {
            assert forall|version: StateVersion, stripe: StripeIndex, group: ActiveGroupIndex|
                stripe < state.config.num_stripe && group < state.config.num_node && !state.is_past(
                    version,
                    stripe,
                ) && !(version == state.archiving && stripe == state.stripe) implies
                #[trigger] last_early(state.early, (version, stripe, group)) == last_push(
                next,
                (version, stripe, group),
            ) by {
                assert(own != (version, stripe, group));
            }
        }
        assert forall|group: ActiveGroupIndex|
            group < state.config.num_node && state.stripe < state.config.num_stripe implies
            #[trigger] group_is_right(state, snapshot, content, next, group) by {
            assert(group_is_right(state, snapshot, content, pushed, group));
            assert(own != (state.archiving, state.stripe, group));
        }
    } else if push.version == state.archiving && push.stripe_index == state.stripe {
        let taken = ShardState {
            collected: state.collected.update(push.group_index as int, Some(push.values)),
            ..state
        };
        assert(later_kept(taken, next)) by {
            assert forall|version: StateVersion, stripe: StripeIndex, group: ActiveGroupIndex|
                stripe < taken.config.num_stripe && group < taken.config.num_node && !taken.is_past(
                    version,
                    stripe,
                ) && !(version == taken.archiving && stripe == taken.stripe) implies
                #[trigger] last_early(taken.early, (version, stripe, group)) == last_push(
                next,
                (version, stripe, group),
            ) by {
                assert(!state.is_past(version, stripe));
                assert(own != (version, stripe, group));
            }
        }
        assert(reads_local(taken));
        assert forall|group: ActiveGroupIndex| group < taken.config.num_node implies
            #[trigger] group_is_right(taken, snapshot, content, next, group) by {
            assert(group_is_right(state, snapshot, content, pushed, group));
        }
        lemma_advance_right(taken, snapshots, content, next);
        lemma_acts_compose(
            state.actions,
            taken.actions,
            after.actions,
            state,
            taken,
            snapshots,
            content,
        );
    } else {
        assert(after.early.drop_last() =~= state.early);
        assert(later_kept(after, next)) by {
            assert forall|version: StateVersion, stripe: StripeIndex, group: ActiveGroupIndex|
                stripe < after.config.num_stripe && group < after.config.num_node && !after.is_past(
                    version,
                    stripe,
                ) && !(version == after.archiving && stripe == after.stripe) implies
                #[trigger] last_early(after.early, (version, stripe, group)) == last_push(
                next,
                (version, stripe, group),
            ) by {
                assert(!state.is_past(version, stripe));
                assert(last_early(state.early, (version, stripe, group)) == last_push(
                    pushed,
                    (version, stripe, group),
                ));
            }
        }
        assert forall|group: ActiveGroupIndex|
            group < after.config.num_node && after.stripe < after.config.num_stripe implies
            #[trigger] group_is_right(after, snapshot, content, next, group) by {
            assert(group_is_right(state, snapshot, content, pushed, group));
        }
    }
}

/// The state in the round that another one is in.
pub open spec fn in_round_of(state: ShardState, other: ShardState) -> ShardState {
    ShardState { archiving: other.archiving, ..state }
}

/// Whether archiving is right after a call, and what was handed out and written
/// in it is what the stripes held: in a new round when it was entered.
pub open spec fn call_archives(
    before: ShardState,
    entering: ShardState,
    after: ShardState,
    snapshot: Snapshot,
    content: Content,
    pushed: Pushed,
) -> bool {
    let snapshots = if after.archiving == before.archiving {
        snapshots_of(before, snapshot)
    } else {
        new_snapshots(in_round_of(entering, after))
    };
    &&& archiving_is_right(after, snapshot_after(before, after, snapshot), content, pushed)
    &&& acts_right(before.actions, after.actions, in_round_of(before, after), snapshots, content)
}

proof fn lemma_enters_right(
    state: ShardState,
    version: StateVersion,
    snapshot: Snapshot,
    content: Content,
    pushed: Pushed,
)
    requires
        archiving_is_right(state, snapshot, content, pushed),
        version > state.archiving,
    ensures
        call_archives(state, state, state.enter(version), snapshot, content, pushed),
        same_round(state.enter(version), (ShardState { archiving: version, ..state })),
{
    let entered = ShardState { archiving: version, ..state };
    let snapshots = new_snapshots(entered);
    lemma_enter_right(state, version, snapshot, snapshots, content, pushed);
    let after = state.enter(version);
    let start = ShardState { archiving: version, stripe: 0, ..state.abandoned() };
    assert(in_round_of(state, after) == entered);
    lemma_acts_compose(
        state.actions,
        start.actions,
        after.actions,
        entered,
        start,
        snapshots,
        content,
    );
}

proof fn lemma_may_enter_right(
    state: ShardState,
    snapshot: Snapshot,
    content: Content,
    pushed: Pushed,
)
    requires
        archiving_is_right(state, snapshot, content, pushed),
    ensures
        call_archives(state, state, state.may_enter(), snapshot, content, pushed),
        state.may_enter().archiving >= state.archiving,
{
    let version = kth(state.votes, state.config.num_faulty_node as int);
    if version > state.archiving {
        lemma_enters_right(state, version, snapshot, content, pushed);
    } else {
        assert(snapshot_after(state, state, snapshot) == snapshot);
    }
}

/// Actions that hand out or write nothing archived may come before.
proof fn lemma_call_after(
    before: ShardState,
    middle: ShardState,
    entering: ShardState,
    after: ShardState,
    snapshot: Snapshot,
    content: Content,
    pushed: Pushed,
)
    requires
        call_archives(middle, entering, after, snapshot, content, pushed),
        same_round(before, middle),
        before.stripe == middle.stripe,
        after.archiving == before.archiving ==> before.table == middle.table,
        forall|snapshots: Snapshots| #[trigger]
            acts_right(before.actions, middle.actions, in_round_of(before, after), snapshots, content),
    ensures
        call_archives(before, entering, after, snapshot, content, pushed),
{
    let snapshots = if after.archiving == before.archiving {
        snapshots_of(before, snapshot)
    } else {
        new_snapshots(in_round_of(entering, after))
    };
    if after.archiving == before.archiving {
        assert(snapshots_of(before, snapshot) =~= snapshots_of(middle, snapshot));
    }
    assert(acts_right(
        before.actions,
        middle.actions,
        in_round_of(before, after),
        snapshots,
        content,
    ));
    lemma_acts_compose(
        before.actions,
        middle.actions,
        after.actions,
        in_round_of(before, after),
        in_round_of(middle, after),
        snapshots,
        content,
    );
}

proof fn lemma_vote_right(
    state: ShardState,
    snapshot: Snapshot,
    content: Content,
    pushed: Pushed,
)
    requires
        archiving_is_right(state, snapshot, content, pushed),
    ensures
        call_archives(state, state, state.vote_if_due(), snapshot, content, pushed),
{
    if state.should_vote() {
        if state.config.bypass_vote {
            lemma_enters_right(
                state,
                (state.archiving + 1) as StateVersion,
                snapshot,
                content,
                pushed,
            );
        } else {
            let vote = VoteArchive { version: state.version, node_indices: state.nodes };
            let voted = ShardState {
                votes: set_all(state.votes, state.nodes, state.version),
                ..state.act(Action::Perform(StorageStateEffect::Order(vote)))
            };
            lemma_same_right(state, voted, snapshot, content, pushed);
            lemma_may_enter_right(voted, snapshot, content, pushed);
            let after = voted.may_enter();
            lemma_call_after(state, voted, voted, after, snapshot, content, pushed);
            assert(new_snapshots(in_round_of(voted, after)) =~= new_snapshots(
                in_round_of(state, after),
            ));
        }
    } else {
        assert(snapshot_after(state, state, snapshot) == snapshot);
    }
}

/// Whether only what has nothing to do with archiving is done.
spec fn aside(before: ShardState, after: ShardState) -> bool {
    &&& same_round(before, after)
    &&& after.stripe == before.stripe
    &&& after.collected == before.collected
    &&& after.archive_reading == before.archive_reading
    &&& after.early == before.early
    &&& before.wf() ==> after.wf()
    &&& forall|state: ShardState, snapshots: Snapshots, content: Content| #[trigger]
        acts_right(before.actions, after.actions, state, snapshots, content)
}

proof fn lemma_aside_compose(a: ShardState, b: ShardState, c: ShardState)
    requires
        aside(a, b),
        aside(b, c),
    ensures
        aside(a, c),
{
    assert forall|state: ShardState, snapshots: Snapshots, content: Content| #[trigger]
        acts_right(a.actions, c.actions, state, snapshots, content) by {
        assert(acts_right(a.actions, b.actions, state, snapshots, content));
        assert(acts_right(b.actions, c.actions, state, snapshots, content));
        lemma_acts_compose(
            a.actions,
            b.actions,
            c.actions,
            state,
            state,
            snapshots,
            content,
        );
    }
}

proof fn lemma_answer_aside(
    state: ShardState,
    target: (NodeIndex, StateVersion),
    key: Key,
    value: Option<Seq<u8>>,
)
    ensures
        aside(
            state,
            (ShardState { actions: state.actions + state.answer(target, key, value), ..state }),
        ),
{
}

proof fn lemma_answers_aside(
    state: ShardState,
    targets: Seq<(NodeIndex, StateVersion)>,
    key: Key,
    value: Seq<u8>,
)
    ensures
        aside(
            state,
            (ShardState { actions: state.actions + state.answer_all(targets, key, value), ..state }),
        ),
    decreases targets.len(),
{
    if targets.len() > 0 {
        lemma_answers_aside(state, targets.drop_last(), key, value);
        let first = ShardState {
            actions: state.actions + state.answer_all(targets.drop_last(), key, value),
            ..state
        };
        lemma_answer_aside(first, targets.last(), key, Some(value));
        let after = ShardState {
            actions: first.actions + first.answer(targets.last(), key, Some(value)),
            ..first
        };
        lemma_aside_compose(state, first, after);
        assert(after.actions =~= state.actions + state.answer_all(targets, key, value));
    } else {
        assert(state.actions + state.answer_all(targets, key, value) =~= state.actions);
    }
}

proof fn lemma_read_key_aside(
    state: ShardState,
    node: NodeIndex,
    version: StateVersion,
    key: Key,
)
    ensures
        aside(state, state.read_key(node, version, key)),
{
    lemma_answer_aside(state, (node, version), key, None);
}

proof fn lemma_queries_aside(state: ShardState, queries: Seq<Query>)
    ensures
        aside(state, state.receive_queries(queries)),
    decreases queries.len(),
{
    if queries.len() > 0 {
        lemma_queries_aside(state, queries.drop_last());
        let before = state.receive_queries(queries.drop_last());
        let query = queries.last();
        lemma_read_key_aside(before, query.node_index, query.version, Key(query.key));
        lemma_aside_compose(state, before, before.receive_query(query));
    }
}

proof fn lemma_writes_aside(state: ShardState, writes: Values)
    ensures
        aside(state, state.write_all(writes)),
    decreases writes.len(),
{
    if writes.len() > 0 {
        lemma_writes_aside(state, writes.drop_last());
        let before = state.write_all(writes.drop_last());
        let (key, value) = writes.last();
        let after = before.write(key, value);
        if before.should_store(key) {
            let name = active_text(key, before.version);
            let action = store(Store::Put(name, value));
            assert forall|other: ShardState, snapshots: Snapshots, content: Content| #[trigger]
                action_is_right(other, snapshots, content, action) by {
                assert forall|stripe: StripeIndex, shard: StripeShardIndex|
                    name != #[trigger] shard_text(stripe, shard) by {
                    tiers_have_different_names(key, before.version, stripe, shard);
                }
            }
            assert(after.actions == before.actions.push(action));
            assert(aside(before, after));
        }
        lemma_aside_compose(state, before, after);
    }
}

/// Whatever happens, archiving stays right, and what is handed out and written
/// for archiving is what was stored: the store is taken to answer with what it
/// holds, and other nodes not to push for the groups that have their primary
/// here.
pub proof fn archiving_stays_right(
    state: ShardState,
    message: StorageMessage,
    vote: VoteArchive<Seq<NodeIndex>>,
    name: Seq<char>,
    writes: Values,
    key: Key,
    snapshot: Snapshot,
    content: Content,
    pushed: Pushed,
)
    requires
        archiving_is_right(state, snapshot, content, pushed),
        !(message is ArchivePush),
    ensures
        call_archives(state, state, state.receive(message), snapshot, content, pushed),
        call_archives(state, state, state.receive_ordered(vote), snapshot, content, pushed),
        call_archives(
            state,
            state,
            state.get_complete(name, content(name)),
            snapshot,
            content,
            pushed,
        ),
        call_archives(state, state, state.put_complete(name), snapshot, content, pushed),
        call_archives(
            state,
            (ShardState { version: (state.version + 1) as StateVersion, ..state }).write_all(writes),
            state.bump(writes),
            snapshot,
            content,
            pushed,
        ),
        call_archives(state, state, state.fetch(key), snapshot, content, pushed),
        ({
            let ready = state.voted_if_idle();
            &&& call_archives(state, state, ready, snapshot, content, pushed)
            &&& archiving_is_right(
                state.proceed().0,
                snapshot_after(state, ready, snapshot),
                content,
                pushed,
            )
        }),
{
    lemma_received_right(state, message, snapshot, content, pushed);
    let voted = ShardState {
        votes: raise_all(state.votes, vote.node_indices, vote.version),
        ..state
    };
    lemma_same_right(state, voted, snapshot, content, pushed);
    lemma_may_enter_right(voted, snapshot, content, pushed);
    lemma_call_after(state, voted, voted, voted.may_enter(), snapshot, content, pushed);
    assert(new_snapshots(in_round_of(voted, voted.may_enter())) =~= new_snapshots(
        in_round_of(state, voted.may_enter()),
    ));
    lemma_aside_right(state, state, snapshot, content, pushed);
    lemma_got_right(state, name, snapshot, content, pushed);
    lemma_put_right(state, name, snapshot, content, pushed);
    lemma_bump_right(state, writes, snapshot, content, pushed);
    if state.should_store(key) {
        lemma_read_key_aside(state, state.node_index(), state.version, key);
    }
    lemma_aside_right(state, state.fetch(key), snapshot, content, pushed);
    lemma_vote_right(state, snapshot, content, pushed);
    let ready = state.voted_if_idle();
    lemma_same_right(
        ready,
        state.proceed().0,
        snapshot_after(state, ready, snapshot),
        content,
        pushed,
    );
}

proof fn lemma_aside_right(
    state: ShardState,
    after: ShardState,
    snapshot: Snapshot,
    content: Content,
    pushed: Pushed,
)
    requires
        archiving_is_right(state, snapshot, content, pushed),
        aside(state, after),
    ensures
        call_archives(state, state, after, snapshot, content, pushed),
{
    lemma_same_right(state, after, snapshot, content, pushed);
}

proof fn lemma_received_right(
    state: ShardState,
    message: StorageMessage,
    snapshot: Snapshot,
    content: Content,
    pushed: Pushed,
)
    requires
        archiving_is_right(state, snapshot, content, pushed),
        !(message is ArchivePush),
    ensures
        call_archives(state, state, state.receive(message), snapshot, content, pushed),
{
    match message {
        ShardedStorageMessage::Query(query) => {
            lemma_read_key_aside(state, query.node_index, query.version, Key(query.key));
            lemma_aside_right(state, state.receive(message), snapshot, content, pushed);
        },
        ShardedStorageMessage::QueryOk(query_ok) => {
            lemma_aside_right(state, state.receive(message), snapshot, content, pushed);
        },
        ShardedStorageMessage::ArchivePush(_) => {},
        ShardedStorageMessage::Archived(archived) => {
            let raised = ShardState {
                archived: raise_all(state.archived, archived.node_indices, archived.version),
                ..state
            };
            let after = raised.collect();
            lemma_collect_acts(raised, snapshots_of(state, snapshot), content);
            assert(aside(state, after)) by {
                assert forall|other: ShardState, snapshots: Snapshots, any: Content| #[trigger]
                    acts_right(state.actions, after.actions, other, snapshots, any) by {
                    lemma_collect_acts_any(raised, other, snapshots, any);
                }
            }
            lemma_aside_right(state, after, snapshot, content, pushed);
            lemma_aside_right(state, state, snapshot, content, pushed);
        },
    }
}

proof fn lemma_collect_acts_any(
    state: ShardState,
    other: ShardState,
    snapshots: Snapshots,
    content: Content,
)
    ensures
        acts_right(state.actions, state.collect().actions, other, snapshots, content),
{
    let version = kth(state.archived, state.config.num_faulty_node as int);
    if version > state.quorum_archived {
        let old = outdated(state.table, version);
        let after = state.collect();
        let n = state.actions.len() as int;
        assert forall|i: int| n <= i < after.actions.len() implies action_is_right(
            other,
            snapshots,
            content,
            #[trigger] after.actions[i],
        ) by {
            if i < n + old.len() {
                assert(after.actions[i] == deletes(old)[i - n]);
            }
        }
    }
}

proof fn lemma_got_right(
    state: ShardState,
    name: Seq<char>,
    snapshot: Snapshot,
    content: Content,
    pushed: Pushed,
)
    requires
        archiving_is_right(state, snapshot, content, pushed),
    ensures
        call_archives(
            state,
            state,
            state.get_complete(name, content(name)),
            snapshot,
            content,
            pushed,
        ),
{
    let read = state.read_done(name, content(name));
    let i = super::shard_state::read_position(state.reads, name);
    if i < state.reads.len() {
        let targets = state.reads[i].targets;
        let key = state.reads[i].key;
        lemma_answers_aside(state, targets, key, content(name));
        let answered = ShardState {
            actions: state.actions + state.answer_all(targets, key, content(name)),
            ..state
        };
        assert(aside(state, answered));
        assert(read == ShardState { reads: state.reads.remove(i), ..answered });
        assert(aside(answered, read));
        lemma_aside_compose(state, answered, read);
    }
    assert(aside(state, read));
    lemma_same_right(state, read, snapshot, content, pushed);
    reading_archives(read, name, snapshot, content, pushed);
    let after = state.get_complete(name, content(name));
    lemma_read_same_round(read, name, content(name));
    assert(in_round_of(read, after) == read);
    lemma_call_after(state, read, read, after, snapshot, content, pushed);
}

proof fn lemma_read_same_round(state: ShardState, name: Seq<char>, value: Seq<u8>)
    ensures
        same_round(state, state.archive_read_done(name, value)),
{
    let i = reading_position(state.archive_reading, name);
    if i < state.archive_reading.len() {
        lemma_advance_same_round(state.with_archive_read(i, value).pushed_if_read());
    }
}

proof fn lemma_advance_same_round(state: ShardState)
    ensures
        same_round(state, state.advance()),
    decreases state.config.num_stripe - state.stripe, 0int,
{
    if state.can_close() {
        if state.stripe + 1 != state.config.num_stripe {
            let closed = state.closed();
            if closed.stripe < closed.config.num_stripe {
                lemma_advance_same_round(closed.opened().pushed_if_read().with_early());
            }
        }
    }
}

proof fn lemma_put_right(
    state: ShardState,
    name: Seq<char>,
    snapshot: Snapshot,
    content: Content,
    pushed: Pushed,
)
    requires
        archiving_is_right(state, snapshot, content, pushed),
    ensures
        call_archives(state, state, state.put_complete(name), snapshot, content, pushed),
{
    let bumped = if state.bump_writing.contains(name) {
        ShardState { bump_writing: state.bump_writing.remove(name), ..state }.bumped_if_written()
    } else {
        state
    };
    let written = ShardState {
        archive_writing: bumped.archive_writing.remove(name),
        ..bumped
    };
    let after = state.put_complete(name);
    assert(aside(state, bumped));
    if bumped.archive_writing.contains(name) {
        lemma_finish_acts(written, snapshots_of(state, snapshot), content);
        assert(aside(written, after)) by {
            assert forall|other: ShardState, snapshots: Snapshots, any: Content| #[trigger]
                acts_right(written.actions, after.actions, other, snapshots, any) by {
                let archived = Archived { version: written.archiving, node_indices: written.nodes };
                let told = ShardState {
                    archived: set_all(written.archived, written.nodes, written.archiving),
                    ..written.act(send(Dest::All, ShardedStorageMessage::Archived(archived)))
                };
                if written.archive_writing == Set::<Seq<char>>::empty() {
                    lemma_collect_acts_any(told, other, snapshots, any);
                    lemma_acts_compose(
                        written.actions,
                        told.actions,
                        after.actions,
                        other,
                        other,
                        snapshots,
                        any,
                    );
                }
            }
        }
        assert(aside(bumped, written));
        lemma_aside_compose(state, bumped, written);
        lemma_aside_compose(state, written, after);
    }
    lemma_aside_right(state, after, snapshot, content, pushed);
}

proof fn lemma_bump_right(
    state: ShardState,
    writes: Values,
    snapshot: Snapshot,
    content: Content,
    pushed: Pushed,
)
    requires
        archiving_is_right(state, snapshot, content, pushed),
    ensures
        call_archives(
            state,
            (ShardState { version: (state.version + 1) as StateVersion, ..state }).write_all(writes),
            state.bump(writes),
            snapshot,
            content,
            pushed,
        ),
{
    if state.version < u64::MAX {
        let next = ShardState {
            querying: Set::empty(),
            version: (state.version + 1) as StateVersion,
            ..state
        };
        let bare = ShardState { version: (state.version + 1) as StateVersion, ..state };
        let written = next.write_all(writes);
        lemma_same_table(next, bare, writes);
        lemma_writes_aside(next, writes);
        let waiting = ShardState { early_queries: Seq::empty(), ..written };
        lemma_queries_aside(waiting, written.early_queries);
        lemma_queries_keep_table(waiting, written.early_queries);
        let answered = written.answer_early();
        let told = answered.bumped_if_written();
        assert(aside(state, next));
        lemma_aside_compose(state, next, written);
        assert(aside(written, waiting));
        lemma_aside_compose(state, written, waiting);
        lemma_aside_compose(state, waiting, answered);
        assert(aside(answered, told));
        lemma_aside_compose(state, answered, told);
        lemma_same_right(state, told, snapshot, content, pushed);
        lemma_vote_right(told, snapshot, content, pushed);
        let after = told.vote_if_due();
        let entering = bare.write_all(writes);
        assert(new_snapshots(in_round_of(told, after)) =~= new_snapshots(
            in_round_of(entering, after),
        ));
        if after.archiving == told.archiving {
            lemma_no_entry(told);
            assert(acts_right(
                state.actions,
                told.actions,
                in_round_of(state, after),
                snapshots_of(state, snapshot),
                content,
            ));
            assert(acts_right(
                told.actions,
                after.actions,
                in_round_of(state, after),
                snapshots_of(state, snapshot),
                content,
            ));
            lemma_acts_compose(
                state.actions,
                told.actions,
                after.actions,
                in_round_of(state, after),
                in_round_of(state, after),
                snapshots_of(state, snapshot),
                content,
            );
        } else {
            lemma_call_after(state, told, entering, after, snapshot, content, pushed);
        }
    } else {
        lemma_same_right(state, state, snapshot, content, pushed);
    }
}

proof fn lemma_no_entry(state: ShardState)
    requires
        state.vote_if_due().archiving == state.archiving,
    ensures
        forall|other: ShardState, snapshots: Snapshots, content: Content| #[trigger]
            acts_right(
                state.actions,
                state.vote_if_due().actions,
                other,
                snapshots,
                content,
            ),
{
    if state.should_vote() {
        if state.config.bypass_vote {
            lemma_enter_round(state, (state.archiving + 1) as StateVersion);
        } else {
            let vote = VoteArchive { version: state.version, node_indices: state.nodes };
            let voted = ShardState {
                votes: set_all(state.votes, state.nodes, state.version),
                ..state.act(Action::Perform(StorageStateEffect::Order(vote)))
            };
            let version = kth(voted.votes, voted.config.num_faulty_node as int);
            lemma_enter_round(voted, version);
        }
    }
}

proof fn lemma_enter_round(state: ShardState, version: StateVersion)
    ensures
        state.enter(version).archiving == version,
{
    let entered = ShardState { archiving: version, stripe: 0, ..state.abandoned() };
    if entered.stripe < entered.config.num_stripe {
        lemma_advance_same_round(entered.opened().pushed_if_read().with_early());
    }
}

proof fn lemma_same_table(a: ShardState, b: ShardState, writes: Values)
    requires
        a.config == b.config,
        a.nodes == b.nodes,
        a.version == b.version,
        a.table == b.table,
    ensures
        ({
            let (x, y) = (a.write_all(writes), b.write_all(writes));
            x.config == y.config && x.nodes == y.nodes && x.version == y.version && x.table
                == y.table
        }),
    decreases writes.len(),
{
    if writes.len() > 0 {
        lemma_same_table(a, b, writes.drop_last());
    }
}

proof fn lemma_queries_keep_table(state: ShardState, queries: Seq<Query>)
    ensures
        state.receive_queries(queries).table == state.table,
    decreases queries.len(),
{
    if queries.len() > 0 {
        lemma_queries_keep_table(state, queries.drop_last());
    }
}

/// Storage that has just started has nothing to archive.
pub proof fn initially_archiving_right(
    config: ShardedStorageConfig,
    nodes: Seq<NodeIndex>,
    content: Content,
)
    requires
        config.wf(),
        ShardState::hosts(config, nodes),
    ensures
        archiving_is_right(
            ShardState::initial(config, nodes),
            Seq::empty(),
            content,
            Map::empty(),
        ),
{
}

/// Whether the values of a group are handed out by an action.
pub open spec fn hands_out(state: ShardState, group: ActiveGroupIndex, action: ShardAction) -> bool {
    action matches Action::Perform(StorageStateEffect::Send((_, message)))
        && message matches ShardedStorageMessage::ArchivePush(push) && push.version
        == state.archiving && push.stripe_index == state.stripe && push.group_index == group
}

/// Once the last value of a stripe is read, the values of every group with a
/// local primary are handed out.
pub proof fn every_group_is_handed_out(
    state: ShardState,
    name: Seq<char>,
    group: ActiveGroupIndex,
    snapshot: Snapshot,
    content: Content,
    pushed: Pushed,
) -> (i: int)
    requires
        archiving_is_right(state, snapshot, content, pushed),
        state.archive_reading.len() == 1,
        state.archive_reading[0].0 == name,
        state.nodes.contains(group),
    ensures
        ({
            let after = state.archive_read_done(name, content(name));
            state.actions.len() <= i < after.actions.len() && hands_out(
                state,
                group,
                after.actions[i],
            )
        }),
{
    reading_archives(state, name, snapshot, content, pushed);
    lemma_read_right(state, 0, snapshot, content, pushed);
    let read = state.with_archive_read(0, content(name));
    let handed = read.pushed_if_read();
    let k = state.nodes.index_of(group);
    let i = state.actions.len() + k;
    assert(handed.actions[i] == read.push(group));
    lemma_same_right(read, handed, snapshot, content, pushed);
    lemma_advance_right(handed, snapshots_of(state, snapshot), content, pushed);
    assert(handed.advance().actions[i] == handed.actions[i]);
    i
}

/// Where a stripe is closed, every shard of it that is placed on a local node is
/// written, under its name.
pub proof fn every_local_shard_is_written(state: ShardState, shard: int)
    requires
        state.wf(),
        state.can_close(),
        0 <= shard < state.config.width(),
        shard < state.config.num_node,
        state.nodes.contains(state.config.archive_node(state.stripe, shard)),
    ensures
        ({
            let name = shard_text(state.stripe, shard as StripeShardIndex);
            let bytes = shard_spec(
                state.config,
                stripe_encoding(complete_groups(state.collected)),
                shard,
            );
            &&& state.closed().actions.contains(store(Store::Put(name, bytes)))
            &&& state.closed().archive_writing.contains(name)
        }),
{
    let bound = if state.config.width() <= state.config.num_node {
        state.config.width()
    } else {
        state.config.num_node as int
    };
    lemma_local_shards_below(state.config, state.nodes, state.stripe, bound);
    let shards = local_shards(state.config, state.nodes, state.stripe);
    let names = shard_names(state.stripe, shards);
    let contents = shards_spec(
        state.config,
        stripe_encoding(complete_groups(state.collected)),
        shards,
    );
    assert(shards.contains(shard as StripeShardIndex));
    let k = shards.index_of(shard as StripeShardIndex);
    assert(names[k] == shard_text(state.stripe, shard as StripeShardIndex));
    assert(names.to_set().contains(names[k]));
    let i = state.actions.len() + k;
    assert(state.closed().actions[i] == store(Store::Put(names[k], contents[k])));
}

/// A snapshot holds, of every key with a version in effect, that version, each
/// key once, and nothing else.
pub proof fn snapshot_is_in_effect(rows: super::version_table::Rows, at: StateVersion, key: Key)
    requires
        forall|i: int, j: int|
            0 <= i < j < rows.len() ==> (#[trigger] rows[i]).0 != (#[trigger] rows[j]).0,
    ensures
        ({
            let snapshot = snapshot_rows(rows, at);
            let found = in_effect(versions_of(rows, key), at);
            &&& forall|version: StateVersion| #[trigger]
                snapshot.contains((key, version)) <==> found == Some(version)
            &&& forall|i: int, j: int|
                0 <= i < j < snapshot.len() ==> (#[trigger] snapshot[i]).0 != (
                #[trigger] snapshot[j]).0
            &&& forall|i: int|
                0 <= i < snapshot.len() ==> exists|j: int|
                    0 <= j < rows.len() && (#[trigger] rows[j]).0 == (#[trigger] snapshot[i]).0
        }),
    decreases rows.len(),
{
    let snapshot = snapshot_rows(rows, at);
    if rows.len() > 0 {
        let rest = rows.drop_last();
        assert forall|i: int, j: int| 0 <= i < j < rest.len() implies (#[trigger] rest[i]).0 != (
        #[trigger] rest[j]).0 by {
            assert(rest[i] == rows[i] && rest[j] == rows[j]);
        }
        snapshot_is_in_effect(rest, at, key);
        let before = snapshot_rows(rest, at);
        let last = rows.last();
        lemma_position(rows, key);
        lemma_position(rest, key);
        let i = position(rows, key);
        let j = position(rest, key);
        if last.0 == key {
            if i < rows.len() - 1 {
                assert(rows[i].0 == rows[rows.len() - 1].0);
            }
            if j < rest.len() {
                assert(rest[j] == rows[j]);
            }
            assert(versions_of(rows, key) == last.1);
            assert(versions_of(rest, key) == Seq::<StateVersion>::empty());
            lemma_latest(Seq::empty(), at);
        } else {
            if j < rest.len() {
                assert(rest[j] == rows[j]);
                if i != j {
                    assert(rows[i].0 == rows[j].0);
                }
            } else if i < rest.len() {
                assert(rest[i] == rows[i]);
            }
            assert(versions_of(rows, key) == versions_of(rest, key));
        }
        assert forall|version: StateVersion| #[trigger] snapshot.contains((key, version)) <==>
            in_effect(versions_of(rows, key), at) == Some(version) by {
            if before.contains((key, version)) {
                let k = before.index_of((key, version));
                assert(snapshot[k] == (key, version));
            }
            if snapshot.contains((key, version)) {
                let k = snapshot.index_of((key, version));
                if k < before.len() {
                    assert(before[k] == (key, version));
                }
            }
            if in_effect(last.1, at) is Some {
                assert(snapshot[before.len() as int] == (last.0, in_effect(last.1, at)->Some_0));
            }
        }
        assert forall|a: int| 0 <= a < snapshot.len() implies exists|b: int|
            0 <= b < rows.len() && (#[trigger] rows[b]).0 == (#[trigger] snapshot[a]).0 by {
            if a < before.len() {
                assert(snapshot[a] == before[a]);
                let b = choose|b: int| 0 <= b < rest.len() && (#[trigger] rest[b]).0 == before[a].0;
                assert(rows[b] == rest[b]);
            } else {
                assert(rows[rows.len() - 1].0 == snapshot[a].0);
            }
        }
        assert forall|a: int, b: int| 0 <= a < b < snapshot.len() implies (
        #[trigger] snapshot[a]).0 != (#[trigger] snapshot[b]).0 by {
            assert(snapshot[a] == before[a]);
            if b < before.len() {
                assert(snapshot[b] == before[b]);
            } else {
                let c = choose|c: int| 0 <= c < rest.len() && (#[trigger] rest[c]).0 == before[a].0;
                assert(rows[c] == rest[c]);
                assert(rows[c].0 != rows[rows.len() - 1].0);
            }
        }
    } else {
        lemma_latest(Seq::empty(), at);
        lemma_position(rows, key);
    }
}

} // verus!
