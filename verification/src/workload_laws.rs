//! What holds of a close-loop worker over any sequence of calls.
use crate::state::{Action, Duration, State};
use crate::workload::{
    ClientState, CloseLoopOf, CloseLoopState, CloseLoopWorker, Outcome, WorkerAction, WorkerStep,
    WorkloadState,
};
use vstd::prelude::*;

verus! {

/// Something that a worker does.
pub enum Event {
    /// The next operation is submitted.
    Submitted,
    /// The workload is told the result of the operation under way.
    Completed,
    /// There are no operations left.
    Finished,
}

/// Whether events may happen one after the other, where an operation is under
/// way or not: a submission while none is, a completion while one is, and the
/// end while none is.
pub open spec fn allowed(under_way: bool, events: Seq<Event>) -> bool
    decreases events.len(),
{
    events.len() > 0 ==> {
        &&& allowed(under_way, events.drop_last())
        &&& (events.last() is Completed) == is_under_way(under_way, events.drop_last())
    }
}

/// Whether an operation is under way after some events.
pub open spec fn is_under_way(under_way: bool, events: Seq<Event>) -> bool {
    if events.len() == 0 {
        under_way
    } else {
        events.last() is Submitted
    }
}

proof fn lemma_concat(under_way: bool, a: Seq<Event>, b: Seq<Event>)
    ensures
        is_under_way(under_way, a + b) == is_under_way(is_under_way(under_way, a), b),
        allowed(under_way, a + b) == (allowed(under_way, a) && allowed(
            is_under_way(under_way, a),
            b,
        )),
    decreases b.len(),
{
    if b.len() == 0 {
        assert(a + b =~= a);
    } else {
        lemma_concat(under_way, a, b.drop_last());
        assert((a + b).drop_last() =~= a + b.drop_last());
        assert((a + b).last() == b.last());
    }
}

/// A call of a worker. `M` stands for a message.
pub enum Call<M> {
    Proceed(Duration),
    Receive(M),
}

impl<W: WorkloadState, C: ClientState<W>> CloseLoopWorker<W, C> {
    /// What happens in one part of a step.
    pub open spec fn step_events(state: CloseLoopOf<W, C>, since_start: Duration) -> Seq<Event> {
        match C::proceed_spec(state.client, since_start).1 {
            Action::Pending(_) => if state.submitted is Some {
                Seq::empty()
            } else if W::next_op_spec(state.workload).1 is Some {
                seq![Event::Submitted]
            } else {
                seq![Event::Finished]
            },
            Action::Perform(_) => Seq::empty(),
            Action::Output(_) => if state.submitted is Some {
                seq![Event::Completed]
            } else {
                Seq::empty()
            },
        }
    }

    /// What happens while the worker runs.
    pub open spec fn run_events(
        state: CloseLoopOf<W, C>,
        since_start: Duration,
        limit: nat,
    ) -> Seq<Event>
        decreases limit,
    {
        if limit == 0 {
            Seq::empty()
        } else {
            let events = Self::step_events(state, since_start);
            match Self::step(state, since_start) {
                WorkerStep::Continue(next) => events + Self::run_events(
                    next,
                    since_start,
                    (limit - 1) as nat,
                ),
                WorkerStep::Return(_, _) => events,
            }
        }
    }

    /// What the events are. A submission hands the next operation of the
    /// workload to the client. A completion tells the workload the result that
    /// the client has handed out, with the metadata of the operation, and an
    /// error ends the work with it. The end is given exactly when the client has
    /// nothing to do, no operation is under way, and none is left. And other than
    /// by these, the workload is left alone.
    pub proof fn worker_events_are_what_happens(state: CloseLoopOf<W, C>, since_start: Duration)
        ensures
            ({
                let events = Self::step_events(state, since_start);
                let (client, action) = C::proceed_spec(state.client, since_start);
                let step = Self::step(state, since_start);
                &&& events == seq![Event::Submitted] ==> {
                    let (workload, next) = W::next_op_spec(state.workload);
                    &&& state.submitted is None
                    &&& next matches Some((op, metadata)) && step
                        == WorkerStep::<CloseLoopOf<W, C>, WorkerAction<W, C>>::Continue(
                        CloseLoopState {
                            workload,
                            client: C::submit_spec(client, op).0,
                            submitted: Some(metadata),
                        },
                    )
                }
                &&& events == seq![Event::Completed] ==> {
                    &&& action matches Action::Output((_, res)) && state.submitted matches Some(
                        metadata,
                    ) && {
                        let (workload, result) = W::complete_spec(state.workload, metadata, res);
                        let next = CloseLoopState { workload, client, submitted: None };
                        step == match result {
                            Ok(()) => WorkerStep::<
                                CloseLoopOf<W, C>,
                                WorkerAction<W, C>,
                            >::Continue(next),
                            Err(err) => WorkerStep::Return(
                                next,
                                Action::Output(Outcome::Failed(err)),
                            ),
                        }
                    }
                }
                &&& (step matches WorkerStep::Return(_, Action::Output(Outcome::Finished))) <==> (
                action is Pending && state.submitted is None && W::next_op_spec(
                    state.workload,
                ).1 is None)
                &&& (events == seq![Event::Finished]) <==> (step matches WorkerStep::Return(
                    _,
                    Action::Output(Outcome::Finished),
                ))
                &&& events.len() == 0 ==> match step {
                    WorkerStep::Continue(next) => next == CloseLoopState { client, ..state },
                    WorkerStep::Return(next, _) => next == CloseLoopState { client, ..state },
                }
            }),
    {
        assert(seq![Event::Submitted][0] is Submitted);
        assert(seq![Event::Completed][0] is Completed);
        assert(seq![Event::Finished][0] is Finished);
    }

    proof fn lemma_step_allowed(state: CloseLoopOf<W, C>, since_start: Duration)
        ensures
            ({
                let events = Self::step_events(state, since_start);
                &&& allowed(state.submitted is Some, events)
                &&& match Self::step(state, since_start) {
                    WorkerStep::Continue(next) => next.submitted is Some,
                    WorkerStep::Return(next, _) => next.submitted is Some,
                } == is_under_way(state.submitted is Some, events)
            }),
    {
        let events = Self::step_events(state, since_start);
        reveal_with_fuel(allowed, 2);
        if events.len() > 0 {
            assert(events.drop_last() =~= Seq::empty());
        }
    }

    proof fn lemma_run_allowed(state: CloseLoopOf<W, C>, since_start: Duration, limit: nat)
        ensures
            ({
                let events = Self::run_events(state, since_start, limit);
                &&& allowed(state.submitted is Some, events)
                &&& Self::run(state, since_start, limit).0.submitted is Some == is_under_way(
                    state.submitted is Some,
                    events,
                )
            }),
        decreases limit,
    {
        if limit > 0 {
            Self::lemma_step_allowed(state, since_start);
            match Self::step(state, since_start) {
                WorkerStep::Continue(next) => {
                    Self::lemma_run_allowed(next, since_start, (limit - 1) as nat);
                    lemma_concat(
                        state.submitted is Some,
                        Self::step_events(state, since_start),
                        Self::run_events(next, since_start, (limit - 1) as nat),
                    );
                },
                WorkerStep::Return(_, _) => {},
            }
        }
    }

    /// What becomes of a worker over some calls.
    pub open spec fn after_calls(
        state: CloseLoopOf<W, C>,
        calls: Seq<Call<<C::Message as View>::V>>,
    ) -> CloseLoopOf<W, C>
        decreases calls.len(),
    {
        if calls.len() == 0 {
            state
        } else {
            let before = Self::after_calls(state, calls.drop_last());
            match calls.last() {
                Call::Proceed(since_start) => <Self as State>::proceed_spec(before, since_start).0,
                Call::Receive(message) => <Self as State>::receive_spec(before, message),
            }
        }
    }

    /// What happens over some calls.
    pub open spec fn events(
        state: CloseLoopOf<W, C>,
        calls: Seq<Call<<C::Message as View>::V>>,
    ) -> Seq<Event>
        decreases calls.len(),
    {
        if calls.len() == 0 {
            Seq::empty()
        } else {
            let before = Self::events(state, calls.drop_last());
            match calls.last() {
                Call::Proceed(since_start) => before + Self::run_events(
                    Self::after_calls(state, calls.drop_last()),
                    since_start,
                    u64::MAX as nat,
                ),
                Call::Receive(_) => before,
            }
        }
    }

    /// Over any sequence of calls, at most one operation is under way: each is
    /// submitted after the result of the one before, every result completes the
    /// one operation that is under way, and the end comes while none is.
    pub proof fn one_at_a_time(
        state: CloseLoopOf<W, C>,
        calls: Seq<Call<<C::Message as View>::V>>,
    )
        ensures
            allowed(state.submitted is Some, Self::events(state, calls)),
            Self::after_calls(state, calls).submitted is Some == is_under_way(
                state.submitted is Some,
                Self::events(state, calls),
            ),
        decreases calls.len(),
    {
        if calls.len() > 0 {
            Self::one_at_a_time(state, calls.drop_last());
            let before = Self::after_calls(state, calls.drop_last());
            match calls.last() {
                Call::Proceed(since_start) => {
                    Self::lemma_run_allowed(before, since_start, u64::MAX as nat);
                    lemma_concat(
                        state.submitted is Some,
                        Self::events(state, calls.drop_last()),
                        Self::run_events(before, since_start, u64::MAX as nat),
                    );
                },
                Call::Receive(_) => {},
            }
        }
    }
}

} // verus!
