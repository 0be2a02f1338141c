//! The version that enough nodes have archived.
use super::config::{Key, NodeIndex, StateVersion};
use super::erasure::Values;
use super::laws::kth_is_reached;
use super::message::{Query, ShardedStorageMessage, StorageMessage, VoteArchive};
use super::shard_state::{kth, raise_all, reading_position, set_all, ShardState};
use super::storage::StorageStateEffect;
use crate::state::Action;
use vstd::multiset::Multiset;
use vstd::prelude::*;

verus! {

/// How many versions have a property.
spec fn count(versions: Seq<StateVersion>, low: spec_fn(StateVersion) -> bool) -> nat
    decreases versions.len(),
{
    if versions.len() == 0 {
        0
    } else {
        count(versions.drop_last(), low) + if low(versions.last()) {
            1nat
        } else {
            0
        }
    }
}

proof fn lemma_count_multiset(versions: Seq<StateVersion>, low: spec_fn(StateVersion) -> bool)
    ensures
        count(versions, low) == versions.to_multiset().filter(low).len(),
    decreases versions.len(),
{
    versions.to_multiset_ensures();
    if versions.len() == 0 {
        assert(versions.to_multiset() =~= Multiset::empty());
        assert(versions.to_multiset().filter(low) =~= Multiset::empty());
    } else {
        let shorter = versions.drop_last();
        let last = versions.last();
        lemma_count_multiset(shorter, low);
        shorter.to_multiset_ensures();
        assert(versions =~= shorter.push(last));
        assert(versions.to_multiset() =~= shorter.to_multiset().insert(last));
        if low(last) {
            assert(versions.to_multiset().filter(low) =~= shorter.to_multiset().filter(low).insert(
                last,
            ));
        } else {
            assert(versions.to_multiset().filter(low) =~= shorter.to_multiset().filter(low));
        }
    }
}

/// Where lower versions have a property that implies another of the higher ones,
/// no fewer have it.
proof fn lemma_count_pointwise(
    a: Seq<StateVersion>,
    b: Seq<StateVersion>,
    low_a: spec_fn(StateVersion) -> bool,
    low_b: spec_fn(StateVersion) -> bool,
)
    requires
        a.len() == b.len(),
        forall|i: int| 0 <= i < a.len() && low_b(#[trigger] b[i]) ==> low_a(a[i]),
    ensures
        count(b, low_b) <= count(a, low_a),
    decreases a.len(),
{
    if a.len() > 0 {
        assert forall|i: int|
            0 <= i < a.drop_last().len() && low_b(#[trigger] b.drop_last()[i]) implies low_a(
            a.drop_last()[i],
        ) by {
            assert(b.drop_last()[i] == b[i]);
        }
        lemma_count_pointwise(a.drop_last(), b.drop_last(), low_a, low_b);
        assert(b[b.len() - 1] == b.last());
    }
}

/// Where the first of some versions have a property, so many have it.
proof fn lemma_count_first(
    versions: Seq<StateVersion>,
    num: int,
    low: spec_fn(StateVersion) -> bool,
)
    requires
        0 <= num <= versions.len(),
        forall|i: int| 0 <= i < num ==> low(#[trigger] versions[i]),
    ensures
        count(versions, low) >= num,
    decreases versions.len(),
{
    if versions.len() > 0 {
        let shorter = versions.drop_last();
        let less = if num < versions.len() {
            num
        } else {
            num - 1
        };
        assert forall|i: int| 0 <= i < less implies low(#[trigger] shorter[i]) by {
            assert(shorter[i] == versions[i]);
        }
        lemma_count_first(shorter, less, low);
        assert(versions[versions.len() - 1] == versions.last());
    }
}

/// Where no version is lower than before, neither is the `k`-th smallest.
pub proof fn kth_is_monotone(a: Seq<StateVersion>, b: Seq<StateVersion>, k: int)
    requires
        a.len() == b.len(),
        0 <= k < a.len(),
        forall|i: int| 0 <= i < a.len() ==> #[trigger] a[i] <= b[i],
    ensures
        kth(a, k) <= kth(b, k),
{
    let leq = |x: StateVersion, y: StateVersion| x <= y;
    let found = kth(b, k);
    let bound = kth(a, k);
    if found < bound {
        let low_b = |version: StateVersion| version <= found;
        let low_a = |version: StateVersion| version < bound;
        let sorted = b.sort_by(leq);
        b.lemma_sort_by_ensures(leq);
        sorted.to_multiset_ensures();
        b.to_multiset_ensures();
        assert(sorted.len() == b.len());
        assert forall|i: int| 0 <= i < k + 1 implies low_b(#[trigger] sorted[i]) by {
            if i < k {
                assert(leq(sorted[i], sorted[k]));
            }
        }
        lemma_count_first(sorted, k + 1, low_b);
        lemma_count_multiset(sorted, low_b);
        lemma_count_multiset(b, low_b);
        assert(sorted.to_multiset() =~= b.to_multiset());
        assert forall|i: int| 0 <= i < a.len() && low_b(#[trigger] b[i]) implies low_a(a[i]) by {
            assert(a[i] <= b[i]);
        }
        lemma_count_pointwise(a, b, low_a, low_b);
        lemma_count_multiset(a, low_a);
        kth_is_reached(a, k);
    }
}

/// Whether the noted version is exactly the one that enough nodes have archived,
/// and no local node has archived more than what is being archived.
pub open spec fn quorum_exact(state: ShardState) -> bool {
    &&& state.archived.len() == state.config.num_node
    &&& state.config.num_faulty_node < state.config.num_node
    &&& kth(state.archived, state.config.num_faulty_node as int) == state.quorum_archived
    &&& forall|i: int|
        0 <= i < state.archived.len() && state.nodes.contains(i as NodeIndex)
            ==> #[trigger] state.archived[i] <= state.archiving
}

/// Storage that has just started has archived nothing.
pub proof fn initially_exact(config: super::config::ShardedStorageConfig, nodes: Seq<NodeIndex>)
    requires
        config.wf(),
    ensures
        quorum_exact(ShardState::initial(config, nodes)),
{
    let state = ShardState::initial(config, nodes);
    kth_is_reached(state.archived, config.num_faulty_node as int);
    let found = kth(state.archived, config.num_faulty_node as int);
    let i = state.archived.index_of(found);
    assert(state.archived[i] == 0);
}

/// Whether a step leaves alone what archiving is about.
spec fn same_archived(before: ShardState, after: ShardState) -> bool {
    &&& after.config == before.config
    &&& after.nodes == before.nodes
    &&& after.archived == before.archived
    &&& after.archiving == before.archiving
    &&& after.quorum_archived == before.quorum_archived
}

proof fn lemma_collect_exact(before: ShardState, raised: ShardState)
    requires
        quorum_exact(before),
        raised.config == before.config,
        raised.nodes == before.nodes,
        raised.archiving == before.archiving,
        raised.quorum_archived == before.quorum_archived,
        raised.archived.len() == before.archived.len(),
        forall|i: int|
            0 <= i < before.archived.len() ==> #[trigger] before.archived[i] <= raised.archived[i],
        forall|i: int|
            0 <= i < raised.archived.len() && raised.nodes.contains(i as NodeIndex)
                ==> #[trigger] raised.archived[i] <= raised.archiving,
    ensures
        quorum_exact(raised.collect()),
{
    kth_is_monotone(
        before.archived,
        raised.archived,
        before.config.num_faulty_node as int,
    );
}

proof fn lemma_finish_exact(state: ShardState)
    requires
        quorum_exact(state),
    ensures
        quorum_exact(state.finish_archive()),
{
    if state.archive_writing == Set::<Seq<char>>::empty() {
        let archived = super::message::Archived {
            version: state.archiving,
            node_indices: state.nodes,
        };
        let raised = ShardState {
            archived: set_all(state.archived, state.nodes, state.archiving),
            ..state.act(
                super::shard_state::send(
                    crate::service::Dest::All,
                    ShardedStorageMessage::Archived(archived),
                ),
            )
        };
        assert forall|i: int| 0 <= i < state.archived.len() implies #[trigger] state.archived[i]
            <= raised.archived[i] by {}
        assert forall|i: int|
            0 <= i < raised.archived.len() && raised.nodes.contains(
                i as NodeIndex,
            ) implies #[trigger] raised.archived[i] <= raised.archiving by {}
        lemma_collect_exact(state, raised);
    }
}

proof fn lemma_prepare_exact(state: ShardState)
    requires
        quorum_exact(state),
    ensures
        quorum_exact(state.prepare()),
    decreases state.config.num_stripe - state.stripe, 1int,
{
    if state.stripe < state.config.num_stripe {
        lemma_advance_exact(state.opened().pushed_if_read().with_early());
    }
}

proof fn lemma_advance_exact(state: ShardState)
    requires
        quorum_exact(state),
    ensures
        quorum_exact(state.advance()),
    decreases state.config.num_stripe - state.stripe, 0int,
{
    if state.can_close() {
        if state.stripe + 1 == state.config.num_stripe {
            lemma_finish_exact(state.closed());
        } else {
            lemma_prepare_exact(state.closed());
        }
    }
}

proof fn lemma_enter_exact(state: ShardState, version: StateVersion)
    requires
        quorum_exact(state),
        state.archiving <= version,
    ensures
        quorum_exact(state.enter(version)),
{
    let entered = ShardState { archiving: version, stripe: 0, ..state.abandoned() };
    assert forall|i: int|
        0 <= i < entered.archived.len() && entered.nodes.contains(
            i as NodeIndex,
        ) implies #[trigger] entered.archived[i] <= entered.archiving by {
        assert(state.archived[i] <= state.archiving);
    }
    lemma_prepare_exact(entered);
}

proof fn lemma_may_enter_exact(state: ShardState)
    requires
        quorum_exact(state),
    ensures
        quorum_exact(state.may_enter()),
{
    let version = kth(state.votes, state.config.num_faulty_node as int);
    if version > state.archiving {
        lemma_enter_exact(state, version);
    }
}

proof fn lemma_vote_exact(state: ShardState)
    requires
        quorum_exact(state),
    ensures
        quorum_exact(state.vote_if_due()),
{
    if state.should_vote() {
        if state.config.bypass_vote {
            lemma_enter_exact(state, (state.archiving + 1) as StateVersion);
        } else {
            let vote = VoteArchive { version: state.version, node_indices: state.nodes };
            lemma_may_enter_exact(
                ShardState {
                    votes: set_all(state.votes, state.nodes, state.version),
                    ..state.act(Action::Perform(StorageStateEffect::Order(vote)))
                },
            );
        }
    }
}

proof fn lemma_queries_same(state: ShardState, queries: Seq<Query>)
    ensures
        same_archived(state, state.receive_queries(queries)),
    decreases queries.len(),
{
    if queries.len() > 0 {
        lemma_queries_same(state, queries.drop_last());
    }
}

proof fn lemma_writes_same(state: ShardState, writes: Values)
    ensures
        same_archived(state, state.write_all(writes)),
    decreases writes.len(),
{
    if writes.len() > 0 {
        lemma_writes_same(state, writes.drop_last());
    }
}

/// Whatever happens, the noted version is exactly the one that enough nodes have
/// archived. Other nodes are not to speak for the local ones: where they claim
/// that a local node has archived more than it has, its own word lowers that
/// again, and the noted version does not go back.
pub proof fn quorum_stays_exact(
    state: ShardState,
    message: StorageMessage,
    vote: VoteArchive<Seq<NodeIndex>>,
    name: Seq<char>,
    value: Seq<u8>,
    writes: Values,
    key: Key,
)
    requires
        quorum_exact(state),
        message matches ShardedStorageMessage::Archived(archived) ==> forall|i: int|
            0 <= i < archived.node_indices.len() && state.nodes.contains(
                #[trigger] archived.node_indices[i],
            ) ==> archived.version <= state.archiving,
    ensures
        quorum_exact(state.receive(message)),
        quorum_exact(state.receive_ordered(vote)),
        quorum_exact(state.get_complete(name, value)),
        quorum_exact(state.put_complete(name)),
        quorum_exact(state.bump(writes)),
        quorum_exact(state.fetch(key)),
        quorum_exact(state.proceed().0),
{
    match message {
        ShardedStorageMessage::ArchivePush(push) => {
            lemma_advance_exact(
                ShardState {
                    collected: state.collected.update(push.group_index as int, Some(push.values)),
                    ..state
                },
            );
        },
        ShardedStorageMessage::Archived(archived) => {
            let raised = ShardState {
                archived: raise_all(state.archived, archived.node_indices, archived.version),
                ..state
            };
            assert forall|i: int|
                0 <= i < raised.archived.len() && raised.nodes.contains(
                    i as NodeIndex,
                ) implies #[trigger] raised.archived[i] <= raised.archiving by {
                assert(state.archived[i] <= state.archiving);
                if archived.node_indices.contains(i as NodeIndex) {
                    let j = archived.node_indices.index_of(i as NodeIndex);
                    assert(state.nodes.contains(archived.node_indices[j]));
                }
            }
            lemma_collect_exact(state, raised);
        },
        _ => {},
    }
    lemma_may_enter_exact(
        ShardState { votes: raise_all(state.votes, vote.node_indices, vote.version), ..state },
    );
    let read = state.read_done(name, value);
    let i = reading_position(read.archive_reading, name);
    if i < read.archive_reading.len() {
        lemma_advance_exact(read.with_archive_read(i, value).pushed_if_read());
    }
    let bumped = if state.bump_writing.contains(name) {
        ShardState { bump_writing: state.bump_writing.remove(name), ..state }.bumped_if_written()
    } else {
        state
    };
    if bumped.archive_writing.contains(name) {
        lemma_finish_exact(
            ShardState { archive_writing: bumped.archive_writing.remove(name), ..bumped },
        );
    }
    if state.version < u64::MAX {
        let next = ShardState {
            querying: Set::empty(),
            version: (state.version + 1) as StateVersion,
            ..state
        };
        lemma_writes_same(next, writes);
        let written = next.write_all(writes);
        lemma_queries_same(
            ShardState { early_queries: Seq::empty(), ..written },
            written.early_queries,
        );
        let told = written.answer_early().bumped_if_written();
        assert(same_archived(state, told));
        assert(quorum_exact(told));
        lemma_vote_exact(told);
    }
    lemma_vote_exact(state);
}

/// How many of some versions are at least as high as one.
pub open spec fn num_at_least(versions: Seq<StateVersion>, version: StateVersion) -> nat
    decreases versions.len(),
{
    if versions.len() == 0 {
        0
    } else {
        num_at_least(versions.drop_last(), version) + if versions.last() >= version {
            1nat
        } else {
            0
        }
    }
}

proof fn lemma_at_least_or_below(versions: Seq<StateVersion>, version: StateVersion)
    ensures
        num_at_least(versions, version) + count(versions, |other: StateVersion| other < version)
            == versions.len(),
    decreases versions.len(),
{
    if versions.len() > 0 {
        lemma_at_least_or_below(versions.drop_last(), version);
    }
}

/// The `k`-th smallest of some versions is at least as high as one exactly if all
/// but `k` of them are.
pub proof fn kth_counts(versions: Seq<StateVersion>, k: int, version: StateVersion)
    requires
        0 <= k < versions.len(),
    ensures
        kth(versions, k) >= version <==> num_at_least(versions, version) >= versions.len() - k,
{
    let leq = |x: StateVersion, y: StateVersion| x <= y;
    let found = kth(versions, k);
    let below = |other: StateVersion| other < version;
    lemma_at_least_or_below(versions, version);
    lemma_count_multiset(versions, below);
    if found < version {
        let sorted = versions.sort_by(leq);
        versions.lemma_sort_by_ensures(leq);
        sorted.to_multiset_ensures();
        versions.to_multiset_ensures();
        assert(sorted.len() == versions.len());
        assert forall|i: int| 0 <= i < k + 1 implies below(#[trigger] sorted[i]) by {
            if i < k {
                assert(leq(sorted[i], sorted[k]));
            }
        }
        lemma_count_first(sorted, k + 1, below);
        lemma_count_multiset(sorted, below);
        assert(sorted.to_multiset() =~= versions.to_multiset());
    } else {
        let low = |other: StateVersion| other < found;
        assert forall|i: int| 0 <= i < versions.len() && below(#[trigger] versions[i]) implies low(
            versions[i],
        ) by {}
        lemma_count_pointwise(versions, versions, low, below);
        lemma_count_multiset(versions, low);
        kth_is_reached(versions, k);
    }
}

/// A version counts as archived exactly if all nodes but as many as may be faulty
/// have archived it or a later one.
pub proof fn archived_by_enough_nodes(state: ShardState, version: StateVersion)
    requires
        quorum_exact(state),
    ensures
        state.quorum_archived >= version <==> num_at_least(state.archived, version)
            >= state.config.num_node - state.config.num_faulty_node,
{
    kth_counts(state.archived, state.config.num_faulty_node as int, version);
}

proof fn lemma_prepare_archiving(state: ShardState)
    ensures
        state.prepare().archiving == state.archiving,
        state.prepare().votes == state.votes,
        state.prepare().config == state.config,
    decreases state.config.num_stripe - state.stripe, 1int,
{
    if state.stripe < state.config.num_stripe {
        lemma_advance_archiving(state.opened().pushed_if_read().with_early());
    }
}

proof fn lemma_advance_archiving(state: ShardState)
    ensures
        state.advance().archiving == state.archiving,
        state.advance().votes == state.votes,
        state.advance().config == state.config,
    decreases state.config.num_stripe - state.stripe, 0int,
{
    if state.can_close() {
        if state.stripe + 1 != state.config.num_stripe {
            lemma_prepare_archiving(state.closed());
        }
    }
}

/// Votes are counted: each node's highest vote stands, a version that all nodes
/// but as many as may be faulty have voted for is archived, or a later one, and
/// archiving only ever goes on to a version with so many votes.
pub proof fn archives_what_enough_vote_for(
    state: ShardState,
    vote: VoteArchive<Seq<NodeIndex>>,
    version: StateVersion,
    node: NodeIndex,
)
    requires
        state.wf(),
        kth(state.votes, state.config.num_faulty_node as int) <= state.archiving,
        node < state.config.num_node,
    ensures
        ({
            let after = state.receive_ordered(vote);
            let enough = state.config.num_node - state.config.num_faulty_node;
            &&& after.votes[node as int] == if vote.node_indices.contains(node)
                && state.votes[node as int] < vote.version {
                vote.version
            } else {
                state.votes[node as int]
            }
            &&& num_at_least(after.votes, version) >= enough ==> after.archiving >= version
            &&& after.archiving == state.archiving || num_at_least(after.votes, after.archiving)
                >= enough
            &&& kth(after.votes, after.config.num_faulty_node as int) <= after.archiving
        }),
{
    let votes = raise_all(state.votes, vote.node_indices, vote.version);
    let raised = ShardState { votes, ..state };
    let found = kth(votes, state.config.num_faulty_node as int);
    let k = state.config.num_faulty_node as int;
    if votes != state.votes {
        if found > state.archiving {
            lemma_prepare_archiving(
                ShardState { archiving: found, stripe: 0, ..raised.abandoned() },
            );
        }
        kth_counts(votes, k, version);
        kth_counts(votes, k, found);
    } else {
        kth_counts(state.votes, k, version);
        assert(votes[node as int] == state.votes[node as int]);
    }
}

/// A node votes for its version as soon as there is one that it has not voted for
/// and it has archived what it was to archive; without voting, it goes on to the
/// next version instead.
pub proof fn votes_when_due(state: ShardState)
    requires
        state.wf(),
        state.archiving == state.archived[state.node_index() as int],
    ensures
        !state.config.bypass_vote && state.version > state.votes[state.node_index() as int] ==> {
            let after = state.vote_if_due();
            let vote = VoteArchive { version: state.version, node_indices: state.nodes };
            &&& after.votes[state.node_index() as int] == state.version
            &&& after.actions.contains(Action::Perform(StorageStateEffect::Order(vote)))
        },
        state.config.bypass_vote && state.version > state.archiving
            ==> state.vote_if_due().archiving == state.archiving + 1,
{
    if state.config.bypass_vote {
        if state.version > state.archiving {
            let next = (state.archiving + 1) as StateVersion;
            lemma_prepare_archiving(
                ShardState { archiving: next, stripe: 0, ..state.abandoned() },
            );
        }
    } else {
        let vote = VoteArchive { version: state.version, node_indices: state.nodes };
        let voted = ShardState {
            votes: set_all(state.votes, state.nodes, state.version),
            ..state.act(Action::Perform(StorageStateEffect::Order(vote)))
        };
        assert(state.nodes.contains(state.nodes[0]));
        let found = kth(voted.votes, state.config.num_faulty_node as int);
        let entered = ShardState { archiving: found, stripe: 0, ..voted.abandoned() };
        lemma_prepare_archiving(entered);
        lemma_prepare_actions(entered);
        let n = state.actions.len() as int;
        if state.version > state.votes[state.node_index() as int] {
            assert(state.vote_if_due().actions[n] == voted.actions[n]);
        }
    }
}

proof fn lemma_prepare_actions(state: ShardState)
    ensures
        state.actions.len() <= state.prepare().actions.len(),
        forall|i: int|
            0 <= i < state.actions.len() ==> #[trigger] state.prepare().actions[i]
                == state.actions[i],
    decreases state.config.num_stripe - state.stripe, 1int,
{
    if state.stripe < state.config.num_stripe {
        let started = state.opened().pushed_if_read().with_early();
        lemma_advance_actions(started);
        assert forall|i: int| 0 <= i < state.actions.len() implies #[trigger]
            state.prepare().actions[i] == state.actions[i] by {
            assert(started.actions[i] == state.actions[i]);
        }
    }
}

proof fn lemma_advance_actions(state: ShardState)
    ensures
        state.actions.len() <= state.advance().actions.len(),
        forall|i: int|
            0 <= i < state.actions.len() ==> #[trigger] state.advance().actions[i]
                == state.actions[i],
    decreases state.config.num_stripe - state.stripe, 0int,
{
    if state.can_close() {
        let closed = state.closed();
        if state.stripe + 1 != state.config.num_stripe {
            lemma_prepare_actions(closed);
            assert forall|i: int| 0 <= i < state.actions.len() implies #[trigger]
                state.advance().actions[i] == state.actions[i] by {
                assert(closed.actions[i] == state.actions[i]);
            }
        }
    }
}

/// What other nodes say that they have archived is taken note of: each node's
/// highest word stands.
pub proof fn archived_is_counted(
    state: ShardState,
    archived: super::message::Archived<Seq<NodeIndex>>,
    node: NodeIndex,
)
    requires
        state.wf(),
        node < state.config.num_node,
    ensures
        state.receive(ShardedStorageMessage::Archived(archived)).archived[node as int]
            == if archived.node_indices.contains(node) && state.archived[node as int]
            < archived.version {
            archived.version
        } else {
            state.archived[node as int]
        },
{
    let versions = raise_all(state.archived, archived.node_indices, archived.version);
    assert(versions[node as int] == if archived.node_indices.contains(node)
        && state.archived[node as int] < archived.version {
        archived.version
    } else {
        state.archived[node as int]
    });
}

/// Where enough nodes have archived a later version than the local one, execution
/// skips exactly the versions in between; else it skips none.
pub proof fn skips_to_archived_version(state: ShardState)
    ensures
        ({
            let after = state.collect();
            let version = kth(state.archived, state.config.num_faulty_node as int);
            let skips = version > state.quorum_archived && version > state.version;
            &&& skips ==> after.version == version && after.actions.len() > 0
                && after.actions.last() == Action::<
                super::shard_state::ShardEffect,
                super::storage::StorageStateOutput<Seq<u8>>,
            >::Output(
                super::storage::StorageStateOutput::Skipped(
                    (version - state.version) as StateVersion,
                ),
            )
            &&& !skips ==> after.version == state.version
        }),
{
}


} // verus!
