//! Which operations workloads give out, when, and what becomes of results.
use crate::app::AppProtocol;
use crate::seq_map::{ascending, entries_are_a_map, value_at};
use crate::service::ClientSeq;
use crate::state::{sooner_spec, Action, Duration};
use crate::workload::{
    ClientState, OpLatency, OpLatencyState, OpenLoopOf, OpenLoopWorker, Outcome, Script,
    ScriptState, Take, TakeState, WorkerAction, WorkerStep, WorkloadState,
};
use vstd::prelude::*;

verus! {

/// A workload after it was asked for a number of operations.
pub open spec fn asked<W: WorkloadState>(state: W::V, times: nat) -> W::V
    decreases times,
{
    if times == 0 {
        state
    } else {
        W::next_op_spec(asked::<W>(state, (times - 1) as nat)).0
    }
}

/// The operation that a workload gives out when it is asked once more.
pub open spec fn nth_op<W: WorkloadState>(state: W::V, times: nat) -> Option<
    (<W::Op as View>::V, <W::Metadata as View>::V),
> {
    W::next_op_spec(asked::<W>(state, times)).1
}

/// A workload that ends after a number of operations gives out exactly the first
/// ones of its workload, as many as it is to.
pub proof fn takes_that_many<W: WorkloadState>(state: TakeState<W::V>, times: nat)
    ensures
        nth_op::<Take<W>>(state, times) == if times < state.count {
            nth_op::<W>(state.workload, times)
        } else {
            None
        },
        asked::<Take<W>>(state, times).workload == asked::<W>(
            state.workload,
            if times < state.count {
                times
            } else {
                state.count as nat
            },
        ),
        asked::<Take<W>>(state, times).count == if times < state.count {
            state.count - times
        } else {
            0
        },
    decreases times,
{
    if times > 0 {
        takes_that_many::<W>(state, (times - 1) as nat);
    }
}

/// A script gives out its operations, all of them, in their order.
pub proof fn follows_script<A: AppProtocol>(
    state: ScriptState<<A::Op as View>::V, <A::Res as View>::V>,
    times: nat,
)
    ensures
        nth_op::<Script<A>>(state, times) == if times < state.ops.len() {
            Some((state.ops[times as int], ()))
        } else {
            None
        },
        asked::<Script<A>>(state, times).ops == if times < state.ops.len() {
            state.ops.subrange(times as int, state.ops.len() as int)
        } else {
            Seq::empty()
        },
        asked::<Script<A>>(state, times).results == state.results,
    decreases times,
{
    let all = state.ops;
    if times > 0 {
        follows_script::<A>(state, (times - 1) as nat);
        let before = asked::<Script<A>>(state, (times - 1) as nat);
        let after = asked::<Script<A>>(state, times);
        if times - 1 < all.len() {
            assert(before.ops.drop_first() =~= all.subrange(times as int, all.len() as int));
        }
        if times >= all.len() {
            assert(after.ops =~= Seq::empty());
        }
    } else {
        assert(all.subrange(0, all.len() as int) =~= all);
        if all.len() == 0 {
            assert(all =~= Seq::empty());
        }
    }
}

/// The results of a script's operations are kept in the order in which they come.
pub proof fn keeps_results<A: AppProtocol>(
    state: ScriptState<<A::Op as View>::V, <A::Res as View>::V>,
    first: <A::Res as View>::V,
    second: <A::Res as View>::V,
)
    ensures
        ({
            let one = <Script<A> as WorkloadState>::complete_spec(state, (), first).0;
            let two = <Script<A> as WorkloadState>::complete_spec(one, (), second).0;
            &&& two.results == state.results + seq![first, second]
            &&& two.ops == state.ops
        }),
{
    let one = <Script<A> as WorkloadState>::complete_spec(state, (), first).0;
    let two = <Script<A> as WorkloadState>::complete_spec(one, (), second).0;
    assert(two.results =~= state.results + seq![first, second]);
}

/// The latency of an operation is the time from when it was given out to when its
/// result came; the operation and the result are the workload's own.
pub proof fn latency_is_time_between<W: WorkloadState>(
    state: OpLatencyState<W::V>,
    now: Duration,
    res: <W::Res as View>::V,
)
    requires
        W::next_op_spec(state.inner).1 is Some,
        state.now.nanos <= now.nanos,
        now.nanos - state.now.nanos <= u64::MAX,
    ensures
        ({
            let (op, metadata) = W::next_op_spec(state.inner).1->Some_0;
            let (given, next) = <OpLatency<W> as WorkloadState>::next_op_spec(state);
            let later = OpLatencyState { now, ..given };
            let (after, result) = <OpLatency<W> as WorkloadState>::complete_spec(
                later,
                next->Some_0.1,
                res,
            );
            let inner = W::complete_spec(W::next_op_spec(state.inner).0, metadata, res);
            &&& next is Some && next->Some_0.0 == op
            &&& after.inner == inner.0
            &&& result == inner.1
            &&& result is Ok ==> after.latencies == state.latencies.push(
                (now.nanos - state.now.nanos) as u64,
            )
            &&& result is Err ==> after.latencies == state.latencies
        }),
{
    assert((now.nanos - state.now.nanos) % 0x1_0000_0000_0000_0000 == now.nanos
        - state.now.nanos);
}

/// Of two spans, the sooner is the shorter one; without one it is the other.
pub proof fn sooner_is_shorter(a: Option<Duration>, b: Option<Duration>)
    ensures
        sooner_spec(a, b) == a || sooner_spec(a, b) == b,
        sooner_spec(a, b) is None <==> a is None && b is None,
        sooner_spec(a, b) matches Some(soon) ==> (a matches Some(x) ==> soon.nanos <= x.nanos) && (
        b matches Some(y) ==> soon.nanos <= y.nanos),
{
}

impl<W: WorkloadState, C: ClientState<W>> OpenLoopWorker<W, C> {
    /// A state after a number of operations were submitted.
    pub open spec fn submitted_times(state: OpenLoopOf<W, C>, times: nat) -> OpenLoopOf<W, C>
        decreases times,
    {
        if times == 0 {
            state
        } else {
            Self::submit_due(Self::submitted_times(state, (times - 1) as nat))
        }
    }

    /// Operations are due at fixed intervals: each one so much later than the one
    /// before, whatever becomes of them.
    pub proof fn due_at_intervals(state: OpenLoopOf<W, C>, at: Duration, times: nat)
        requires
            state.next_submit == Some(at),
            forall|i: nat| i < times ==> #[trigger] nth_op::<W>(state.workload, i) is Some,
            at.nanos + times * state.interval.nanos <= u128::MAX,
        ensures
            ({
                let after = Self::submitted_times(state, times);
                &&& after.next_submit == Some(
                    Duration { nanos: (at.nanos + times * state.interval.nanos) as u128 },
                )
                &&& after.workload == asked::<W>(state.workload, times)
                &&& after.interval == state.interval
            }),
        decreases times,
    {
        if times > 0 {
            let before = Self::submitted_times(state, (times - 1) as nat);
            assert((times - 1) * state.interval.nanos + state.interval.nanos == times
                * state.interval.nanos) by (nonlinear_arith)
                requires
                    times > 0,
            ;
            assert((times - 1) * state.interval.nanos >= 0) by (nonlinear_arith)
                requires
                    times > 0,
                    state.interval.nanos >= 0,
            ;
            Self::due_at_intervals(state, at, (times - 1) as nat);
            assert(nth_op::<W>(state.workload, (times - 1) as nat) is Some);
        } else {
            assert(times * state.interval.nanos == 0) by (nonlinear_arith)
                requires
                    times == 0,
            ;
        }
    }

    /// An operation is submitted exactly when it is due, and then handed to the
    /// client; before that the worker waits no longer than until it is.
    pub proof fn submits_when_due(state: OpenLoopOf<W, C>, since_start: Duration)
        ensures
            Self::due(state, since_start) ==> Self::step(state, since_start) == WorkerStep::<
                OpenLoopOf<W, C>,
                WorkerAction<W, C>,
            >::Continue(Self::submit_due(state)),
            state.next_submit matches Some(at) ==> at.nanos > since_start.nanos ==> {
                &&& !Self::due(state, since_start)
                &&& Self::step(state, since_start) matches WorkerStep::Return(
                    _,
                    Action::Pending(Some(wait)),
                ) ==> since_start.nanos + wait.nanos <= at.nanos
            },
    {
    }

    /// A result goes to the operation that it is for: the workload gets it with
    /// that operation's metadata, the operation is not under way any more, and
    /// all others stay. A result that nothing waits for changes nothing.
    pub proof fn result_goes_to_its_op(
        state: OpenLoopOf<W, C>,
        seq: ClientSeq,
        res: <W::Res as View>::V,
        other: ClientSeq,
    )
        requires
            ascending(state.submitted),
        ensures
            ({
                let step = Self::complete_step(state, seq, res);
                let after = match step {
                    WorkerStep::Continue(after) => after,
                    WorkerStep::Return(after, _) => after,
                };
                match value_at(state.submitted, seq) {
                    None => after == state && step is Continue,
                    Some(metadata) => {
                        let (workload, result) = W::complete_spec(state.workload, metadata, res);
                        &&& after.workload == workload
                        &&& value_at(after.submitted, seq) is None
                        &&& other != seq ==> value_at(after.submitted, other) == value_at(
                            state.submitted,
                            other,
                        )
                        &&& step is Continue <==> result is Ok
                        &&& step matches WorkerStep::Return(_, action) ==> action
                            matches Action::Output(Outcome::Failed(err)) && result == Err::<
                            (),
                            <W::Error as View>::V,
                        >(err)
                    },
                }
            }),
    {
        match value_at(state.submitted, seq) {
            None => {},
            Some(metadata) => {
                entries_are_a_map(state.submitted, seq, metadata, other);
                entries_are_a_map(state.submitted, seq, metadata, seq);
            },
        }
    }

    /// An operation that is submitted is under way under the client's number for
    /// it, with its metadata; when there is none left, nothing is due any more.
    pub proof fn submitted_is_under_way(state: OpenLoopOf<W, C>, other: ClientSeq)
        requires
            ascending(state.submitted),
            state.next_submit is Some,
        ensures
            ({
                let after = Self::submit_due(state);
                match W::next_op_spec(state.workload).1 {
                    Some((op, metadata)) => {
                        let (client, seq) = C::submit_spec(state.client, op);
                        &&& after.client == client
                        &&& value_at(after.submitted, seq) == Some(metadata)
                        &&& other != seq ==> value_at(after.submitted, other) == value_at(
                            state.submitted,
                            other,
                        )
                    },
                    None => after.next_submit is None && after.client == state.client
                        && after.submitted == state.submitted,
                }
            }),
    {
        match W::next_op_spec(state.workload).1 {
            Some((op, metadata)) => {
                let (_, seq) = C::submit_spec(state.client, op);
                entries_are_a_map(state.submitted, seq, metadata, other);
                entries_are_a_map(state.submitted, seq, metadata, seq);
            },
            None => {},
        }
    }
}

} // verus!
