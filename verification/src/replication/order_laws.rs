//! What is ordered.
use super::in_memory::{InMemoryState, Replica};
use super::unreplicated::UnreplicatedReplica;
use super::{ReplicatedLogs, ReplicationState};
use crate::pace_laws::{asked, nth_op};
use crate::state::{Action, Duration, Never, State};
use crate::workload::WorkloadState;
use vstd::prelude::*;

verus! {

/// The state after some entries were submitted, in order.
pub open spec fn submitted<T: View>(state: Seq<T::V>, entries: Seq<T::V>) -> Seq<T::V>
    decreases entries.len(),
{
    if entries.len() == 0 {
        state
    } else {
        <UnreplicatedReplica<T> as ReplicationState<T>>::submit_spec(
            submitted::<T>(state, entries.drop_last()),
            entries.last(),
        )
    }
}

/// A single server orders entries as they come: all that were submitted are
/// handed out next, each once and in their order, and then there are none left.
pub proof fn ordered_as_submitted<T: View>(
    entries: Seq<T::V>,
    since_start: Duration,
)
    requires
        entries.len() > 0,
    ensures
        ({
            let state = submitted::<T>(Seq::empty(), entries);
            let (after, action) = <UnreplicatedReplica<T> as State>::proceed_spec(
                state,
                since_start,
            );
            &&& action == Action::<Never, ReplicatedLogs<T::V, ()>>::Output(
                ReplicatedLogs { logs: entries, metadata: () },
            )
            &&& after.len() == 0
            &&& <UnreplicatedReplica<T> as State>::proceed_spec(after, since_start).1 is Pending
        }),
{
    lemma_submitted::<T>(Seq::empty(), entries);
    assert(Seq::<T::V>::empty() + entries =~= entries);
}

proof fn lemma_submitted<T: View>(state: Seq<T::V>, entries: Seq<T::V>)
    ensures
        submitted::<T>(state, entries) == state + entries,
    decreases entries.len(),
{
    if entries.len() > 0 {
        lemma_submitted::<T>(state, entries.drop_last());
        assert((state + entries.drop_last()).push(entries.last()) =~= state + entries);
    } else {
        assert(state + entries =~= state);
    }
}

/// The requests that take the place of clients' are the workload's operations,
/// one after the other: as many as fit in a batch, unless the workload ends or
/// the numbers do.
pub proof fn requests_follow_workload<W: WorkloadState<Metadata = ()>>(
    state: InMemoryState<W::V>,
    count: nat,
    i: int,
)
    ensures
        ({
            let (after, requests) = Replica::<W>::take_ops(state, count);
            &&& 0 <= i < requests.len() ==> nth_op::<W>(state.workload, i as nat) == Some(
                (requests[i].op, ()),
            )
            &&& requests.len() <= count
            &&& requests.len() < count ==> after.seq == u64::MAX || nth_op::<W>(
                state.workload,
                requests.len(),
            ) is None
        }),
    decreases count,
{
    if count == 0 || state.seq == u64::MAX {
    } else {
        let (workload, next) = W::next_op_spec(state.workload);
        assert(asked::<W>(state.workload, 0) == state.workload);
        match next {
            None => {},
            Some((op, _)) => {
                let moved = InMemoryState {
                    workload,
                    seq: (state.seq + 1) as crate::service::ClientSeq,
                    ..state
                };
                requests_follow_workload::<W>(moved, (count - 1) as nat, i - 1);
                let (after, rest) = Replica::<W>::take_ops(moved, (count - 1) as nat);
                let (_, requests) = Replica::<W>::take_ops(state, count);
                assert(requests.len() == rest.len() + 1);
                lemma_asked::<W>(state.workload, rest.len());
                if 0 < i < requests.len() {
                    assert(requests[i] == rest[i - 1]);
                    lemma_asked::<W>(state.workload, (i - 1) as nat);
                }
            },
        }
    }
}

proof fn lemma_asked<W: WorkloadState<Metadata = ()>>(state: W::V, times: nat)
    ensures
        asked::<W>(state, times + 1) == asked::<W>(W::next_op_spec(state).0, times),
    decreases times,
{
    if times > 0 {
        lemma_asked::<W>(state, (times - 1) as nat);
    } else {
        assert(asked::<W>(state, 0) == state);
        assert(asked::<W>(W::next_op_spec(state).0, 0) == W::next_op_spec(state).0);
        assert(asked::<W>(state, 1) == W::next_op_spec(asked::<W>(state, 0)).0);
    }
}

} // verus!
