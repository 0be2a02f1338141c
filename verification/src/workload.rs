//! Workloads, and the workers that run them through clients.
use crate::app::AppProtocol;
use crate::seq_map::{ascending, has_seq, rank, rank_splits, with_seq, without_seq, SeqMap};
use crate::service::ClientSeq;
use crate::state::{sooner, sooner_spec, Action, Duration, Never, State};
use std::collections::VecDeque;
use vstd::prelude::*;

verus! {

/// A client of a service for the application `A`.
pub trait ClientState<A: AppProtocol>: State<Output = (ClientSeq, A::Res)> {
    spec fn submit_spec(state: Self::V, op: <A::Op as View>::V) -> (Self::V, ClientSeq);

    /// Takes an operation to be executed, and numbers it.
    fn submit(&mut self, op: A::Op) -> (seq: ClientSeq)
        requires
            old(self).inv(),
        ensures
            final(self).inv(),
            (final(self)@, seq) == Self::submit_spec(old(self)@, op@),
    ;
}

/// A source of operations that is told their results.
pub trait WorkloadState: AppProtocol + View {
    /// What the workload wants to be told along with a result.
    type Metadata: View;

    /// Why a result is not as expected.
    type Error: View;

    spec fn next_op_spec(state: Self::V) -> (
        Self::V,
        Option<(<Self::Op as View>::V, <Self::Metadata as View>::V)>,
    );

    spec fn complete_spec(
        state: Self::V,
        metadata: <Self::Metadata as View>::V,
        res: <Self::Res as View>::V,
    ) -> (Self::V, Result<(), <Self::Error as View>::V>);

    /// The next operation, if there is one.
    fn next_op(&mut self) -> (next: Option<(Self::Op, Self::Metadata)>)
        ensures
            (final(self)@, next_view(next)) == Self::next_op_spec(old(self)@),
    ;

    /// Takes the result of an operation.
    fn complete(&mut self, metadata: Self::Metadata, res: Self::Res) -> (result: Result<
        (),
        Self::Error,
    >)
        ensures
            (final(self)@, result_view(result)) == Self::complete_spec(
                old(self)@,
                metadata@,
                res@,
            ),
    ;
}

/// The content of an operation with its metadata.
pub open spec fn next_view<Op: View, M: View>(next: Option<(Op, M)>) -> Option<(Op::V, M::V)> {
    match next {
        Some((op, metadata)) => Some((op@, metadata@)),
        None => None,
    }
}

/// The content of a result.
pub open spec fn result_view<E: View>(result: Result<(), E>) -> Result<(), E::V> {
    match result {
        Ok(()) => Ok(()),
        Err(err) => Err(err@),
    }
}

/// How a workload ended.
#[derive(Debug)]
pub enum Outcome<E> {
    Finished,
    Failed(E),
}

impl<E: View> View for Outcome<E> {
    type V = Outcome<E::V>;

    open spec fn view(&self) -> Outcome<E::V> {
        match *self {
            Outcome::Finished => Outcome::Finished,
            Outcome::Failed(err) => Outcome::Failed(err@),
        }
    }
}

/// A worker that submits an operation only after the result of the one before.
pub struct CloseLoopWorker<W: WorkloadState, C: ClientState<W>> {
    workload: W,
    client: C,
    submitted: Option<W::Metadata>,
}

/// The mathematical content of a [`CloseLoopWorker`].
#[verifier::ext_equal]
pub struct CloseLoopState<W, C, M> {
    pub workload: W,
    pub client: C,
    /// The metadata of the operation under way, if there is one.
    pub submitted: Option<M>,
}

impl<W: WorkloadState, C: ClientState<W>> View for CloseLoopWorker<W, C> {
    type V = CloseLoopState<W::V, C::V, <W::Metadata as View>::V>;

    closed spec fn view(&self) -> CloseLoopState<W::V, C::V, <W::Metadata as View>::V> {
        CloseLoopState {
            workload: self.workload@,
            client: self.client@,
            submitted: match self.submitted {
                Some(metadata) => Some(metadata@),
                None => None,
            },
        }
    }
}

/// The state of a close-loop worker.
pub type CloseLoopOf<W, C> = <CloseLoopWorker<W, C> as View>::V;

/// What a worker asks for, over the values themselves.
pub type WorkerAction<W, C> = Action<
    <<C as State>::Effect as View>::V,
    Outcome<<<W as WorkloadState>::Error as View>::V>,
>;

/// The outcome of one part of a step: go on, or ask for something. `T` stands
/// for the state, `O` for what is asked for.
pub enum WorkerStep<T, O> {
    Continue(T),
    Return(T, O),
}

/// The outcome of a part of a step: without an action, it is to go on.
pub open spec fn worker_stepped<T, O: View>(state: T, action: Option<O>) -> WorkerStep<T, O::V> {
    match action {
        Some(action) => WorkerStep::Return(state, action@),
        None => WorkerStep::Continue(state),
    }
}

impl<W: WorkloadState, C: ClientState<W>> CloseLoopWorker<W, C> {
    /// Submits the next operation, if none is under way.
    pub open spec fn submit_step(
        state: CloseLoopOf<W, C>,
        tick_after: Option<Duration>,
    ) -> WorkerStep<CloseLoopOf<W, C>, WorkerAction<W, C>> {
        if state.submitted is Some {
            WorkerStep::Return(state, Action::Pending(tick_after))
        } else {
            let (workload, next) = W::next_op_spec(state.workload);
            match next {
                Some((op, metadata)) => WorkerStep::Continue(
                    CloseLoopState {
                        workload,
                        client: C::submit_spec(state.client, op).0,
                        submitted: Some(metadata),
                    },
                ),
                None => WorkerStep::Return(
                    CloseLoopState { workload, ..state },
                    Action::Output(Outcome::Finished),
                ),
            }
        }
    }

    /// Takes a result. One that nothing waits for is ignored.
    pub open spec fn complete_step(
        state: CloseLoopOf<W, C>,
        res: <W::Res as View>::V,
    ) -> WorkerStep<CloseLoopOf<W, C>, WorkerAction<W, C>> {
        match state.submitted {
            None => WorkerStep::Continue(state),
            Some(metadata) => {
                let (workload, result) = W::complete_spec(state.workload, metadata, res);
                let next = CloseLoopState { workload, submitted: None, ..state };
                match result {
                    Ok(()) => WorkerStep::Continue(next),
                    Err(err) => WorkerStep::Return(next, Action::Output(Outcome::Failed(err))),
                }
            },
        }
    }

    pub open spec fn step(state: CloseLoopOf<W, C>, since_start: Duration) -> WorkerStep<
        CloseLoopOf<W, C>,
        WorkerAction<W, C>,
    > {
        let (client, action) = C::proceed_spec(state.client, since_start);
        let next = CloseLoopState { client, ..state };
        match action {
            Action::Pending(tick_after) => Self::submit_step(next, tick_after),
            Action::Perform(effect) => WorkerStep::Return(next, Action::Perform(effect)),
            Action::Output((_, res)) => Self::complete_step(next, res),
        }
    }

    /// Goes on until there is something to ask for, or the given number of
    /// parts has been gone through; then the worker wants to be asked again at
    /// once.
    pub open spec fn run(state: CloseLoopOf<W, C>, since_start: Duration, limit: nat) -> (
        CloseLoopOf<W, C>,
        WorkerAction<W, C>,
    )
        decreases limit,
    {
        if limit == 0 {
            (state, Action::Pending(Some(Duration { nanos: 0 })))
        } else {
            match Self::step(state, since_start) {
                WorkerStep::Continue(next) => Self::run(next, since_start, (limit - 1) as nat),
                WorkerStep::Return(next, action) => (next, action),
            }
        }
    }

    /// What every worker keeps to.
    pub closed spec fn wf(&self) -> bool {
        self.client.inv()
    }

    /// A worker that has submitted nothing yet.
    pub fn new(workload: W, client: C) -> (worker: Self)
        requires
            client.inv(),
        ensures
            worker.wf(),
            worker@ == (CloseLoopState {
                workload: workload@,
                client: client@,
                submitted: None::<<W::Metadata as View>::V>,
            }),
    {
        CloseLoopWorker { workload, client, submitted: None }
    }

    /// The workload, with what it was told.
    pub fn into_workload(self) -> (workload: W)
        ensures
            workload@ == self@.workload,
    {
        self.workload
    }

    fn submit_next(&mut self, tick_after: Option<Duration>) -> (action: Option<
        Action<C::Effect, Outcome<W::Error>>,
    >)
        requires
            old(self).wf(),
        ensures
            final(self).wf(),
            Self::submit_step(old(self)@, tick_after) == worker_stepped(final(self)@, action),
    {
        if self.submitted.is_some() {
            return Some(Action::Pending(tick_after));
        }
        match self.workload.next_op() {
            Some((op, metadata)) => {
                self.client.submit(op);
                self.submitted = Some(metadata);
                None
            },
            None => Some(Action::Output(Outcome::Finished)),
        }
    }

    fn complete_submitted(&mut self, res: W::Res) -> (action: Option<
        Action<C::Effect, Outcome<W::Error>>,
    >)
        requires
            old(self).wf(),
        ensures
            final(self).wf(),
            Self::complete_step(old(self)@, res@) == worker_stepped(final(self)@, action),
    {
        let mut submitted: Option<W::Metadata> = None;
        std::mem::swap(&mut self.submitted, &mut submitted);
        match submitted {
            None => None,
            Some(metadata) => match self.workload.complete(metadata, res) {
                Ok(()) => None,
                Err(err) => Some(Action::Output(Outcome::Failed(err))),
            },
        }
    }

    fn take_step(&mut self, since_start: Duration) -> (action: Option<
        Action<C::Effect, Outcome<W::Error>>,
    >)
        requires
            old(self).wf(),
        ensures
            final(self).wf(),
            Self::step(old(self)@, since_start) == worker_stepped(final(self)@, action),
    {
        let ghost before = self@;
        let action = self.client.proceed(since_start);
        let ghost next = self@;
        proof {
            let (client, asked) = C::proceed_spec(before.client, since_start);
            assert(asked == action@);
            assert(next =~= CloseLoopState { client, ..before });
        }
        match action {
            Action::Pending(tick_after) => {
                assert(Self::step(before, since_start) == Self::submit_step(next, tick_after));
                self.submit_next(tick_after)
            },
            Action::Perform(effect) => Some(Action::Perform(effect)),
            Action::Output((seq, res)) => {
                assert(action@->Output_0 == (seq, res@));
                self.complete_submitted(res)
            },
        }
    }
}

impl<W: WorkloadState, C: ClientState<W>> State for CloseLoopWorker<W, C> {
    type Effect = C::Effect;

    type Output = Outcome<W::Error>;

    type Message = C::Message;

    open spec fn inv(&self) -> bool {
        self.wf()
    }

    open spec fn proceed_spec(state: CloseLoopOf<W, C>, since_start: Duration) -> (
        CloseLoopOf<W, C>,
        WorkerAction<W, C>,
    ) {
        Self::run(state, since_start, u64::MAX as nat)
    }

    open spec fn receive_spec(
        state: CloseLoopOf<W, C>,
        message: <C::Message as View>::V,
    ) -> CloseLoopOf<W, C> {
        CloseLoopState { client: C::receive_spec(state.client, message), ..state }
    }

    fn proceed(&mut self, since_start: Duration) -> (action: Action<
        C::Effect,
        Outcome<W::Error>,
    >) {
        let mut limit: u64 = u64::MAX;
        while limit > 0
            invariant
                self.wf(),
                Self::run(old(self)@, since_start, u64::MAX as nat) == Self::run(
                    self@,
                    since_start,
                    limit as nat,
                ),
            decreases limit,
        {
            match self.take_step(since_start) {
                Some(action) => {
                    return action;
                },
                None => {},
            }
            limit -= 1;
        }
        Action::Pending(Some(Duration::zero()))
    }

    fn receive(&mut self, message: C::Message) {
        self.client.receive(message);
    }
}

/// At most one operation of a close-loop worker is under way: nothing is
/// submitted while a result is waited for.
pub proof fn close_loop_waits<W: WorkloadState, C: ClientState<W>>(
    state: CloseLoopOf<W, C>,
    tick_after: Option<Duration>,
)
    requires
        state.submitted is Some,
    ensures
        CloseLoopWorker::<W, C>::submit_step(state, tick_after)
            == WorkerStep::<CloseLoopOf<W, C>, WorkerAction<W, C>>::Return(
            state,
            Action::Pending(tick_after),
        ),
{
}

/// A workload that ends after a number of operations.
pub struct Take<W> {
    workload: W,
    count: usize,
}

/// The mathematical content of a [`Take`].
#[verifier::ext_equal]
pub struct TakeState<W> {
    pub workload: W,
    pub count: usize,
}

impl<W: View> View for Take<W> {
    type V = TakeState<W::V>;

    closed spec fn view(&self) -> TakeState<W::V> {
        TakeState { workload: self.workload@, count: self.count }
    }
}

impl<W: View> Take<W> {
    /// The workload, up to a number of operations.
    pub fn new(workload: W, count: usize) -> (take: Self)
        ensures
            take@ == (TakeState { workload: workload@, count }),
    {
        Take { workload, count }
    }

    /// The workload itself.
    pub fn into_inner(self) -> (workload: W)
        ensures
            workload@ == self@.workload,
    {
        self.workload
    }
}

impl<W: AppProtocol> AppProtocol for Take<W> {
    type Op = W::Op;

    type Res = W::Res;
}

impl<W: WorkloadState> WorkloadState for Take<W> {
    type Metadata = W::Metadata;

    type Error = W::Error;

    open spec fn next_op_spec(state: TakeState<W::V>) -> (
        TakeState<W::V>,
        Option<(<W::Op as View>::V, <W::Metadata as View>::V)>,
    ) {
        if state.count == 0 {
            (state, None)
        } else {
            let (workload, next) = W::next_op_spec(state.workload);
            (TakeState { workload, count: (state.count - 1) as usize }, next)
        }
    }

    open spec fn complete_spec(
        state: TakeState<W::V>,
        metadata: <W::Metadata as View>::V,
        res: <W::Res as View>::V,
    ) -> (TakeState<W::V>, Result<(), <W::Error as View>::V>) {
        let (workload, result) = W::complete_spec(state.workload, metadata, res);
        (TakeState { workload, ..state }, result)
    }

    fn next_op(&mut self) -> (next: Option<(W::Op, W::Metadata)>) {
        if self.count == 0 {
            return None;
        }
        self.count = self.count - 1;
        self.workload.next_op()
    }

    fn complete(&mut self, metadata: W::Metadata, res: W::Res) -> (result: Result<(), W::Error>) {
        self.workload.complete(metadata, res)
    }
}

/// A workload that notes how long its operations take. It is told the time.
pub struct OpLatency<W> {
    inner: W,
    now: Duration,
    latencies: Vec<u64>,
}

/// The mathematical content of an [`OpLatency`].
#[verifier::ext_equal]
pub struct OpLatencyState<W> {
    pub inner: W,
    /// The time that it was told last.
    pub now: Duration,
    /// How many nanoseconds operations took, in the order of their results.
    pub latencies: Seq<u64>,
}

impl<W: View> View for OpLatency<W> {
    type V = OpLatencyState<W::V>;

    closed spec fn view(&self) -> OpLatencyState<W::V> {
        OpLatencyState { inner: self.inner@, now: self.now, latencies: self.latencies@ }
    }
}

/// Metadata with the time at which the operation was given out.
pub struct Started<M> {
    pub at: Duration,
    pub metadata: M,
}

impl<M: View> View for Started<M> {
    type V = Started<M::V>;

    open spec fn view(&self) -> Started<M::V> {
        Started { at: self.at, metadata: self.metadata@ }
    }
}

impl<W: View> OpLatency<W> {
    /// The workload, at the start.
    pub fn new(inner: W) -> (workload: Self)
        ensures
            workload@ == (OpLatencyState {
                inner: inner@,
                now: Duration { nanos: 0 },
                latencies: Seq::empty(),
            }),
    {
        OpLatency { inner, now: Duration::zero(), latencies: Vec::new() }
    }

    /// Tells the time since the start.
    pub fn set_now(&mut self, now: Duration)
        ensures
            final(self)@ == (OpLatencyState { now, ..old(self)@ }),
    {
        self.now = now;
    }

    /// The workload itself, and how many nanoseconds its operations took.
    pub fn into_parts(self) -> (parts: (W, Vec<u64>))
        ensures
            parts.0@ == self@.inner,
            parts.1@ == self@.latencies,
    {
        (self.inner, self.latencies)
    }
}

impl<W: AppProtocol> AppProtocol for OpLatency<W> {
    type Op = W::Op;

    type Res = W::Res;
}

impl<W: WorkloadState> WorkloadState for OpLatency<W> {
    type Metadata = Started<W::Metadata>;

    type Error = W::Error;

    open spec fn next_op_spec(state: OpLatencyState<W::V>) -> (
        OpLatencyState<W::V>,
        Option<(<W::Op as View>::V, Started<<W::Metadata as View>::V>)>,
    ) {
        let (inner, next) = W::next_op_spec(state.inner);
        (
            OpLatencyState { inner, ..state },
            match next {
                Some((op, metadata)) => Some((op, Started { at: state.now, metadata })),
                None => None,
            },
        )
    }

    open spec fn complete_spec(
        state: OpLatencyState<W::V>,
        metadata: Started<<W::Metadata as View>::V>,
        res: <W::Res as View>::V,
    ) -> (OpLatencyState<W::V>, Result<(), <W::Error as View>::V>) {
        let (inner, result) = W::complete_spec(state.inner, metadata.metadata, res);
        let latency = state.now.nanos_since(metadata.at);
        (
            OpLatencyState {
                inner,
                latencies: if result is Ok {
                    state.latencies.push(latency)
                } else {
                    state.latencies
                },
                ..state
            },
            result,
        )
    }

    fn next_op(&mut self) -> (next: Option<(W::Op, Started<W::Metadata>)>) {
        match self.inner.next_op() {
            Some((op, metadata)) => Some((op, Started { at: self.now, metadata })),
            None => None,
        }
    }

    fn complete(&mut self, metadata: Started<W::Metadata>, res: W::Res) -> (result: Result<
        (),
        W::Error,
    >) {
        match self.inner.complete(metadata.metadata, res) {
            Ok(()) => {
                let latency: u64 = self.now.since(metadata.at);
                self.latencies.push(latency);
                Ok(())
            },
            Err(err) => Err(err),
        }
    }
}

impl<W: WorkloadState, C: ClientState<OpLatency<W>>> CloseLoopWorker<OpLatency<W>, C> {
    /// Tells the workload the time since the start.
    pub fn set_now(&mut self, now: Duration)
        requires
            old(self).wf(),
        ensures
            final(self).wf(),
            final(self)@ == (CloseLoopState {
                workload: OpLatencyState { now, ..old(self)@.workload },
                ..old(self)@
            }),
    {
        self.workload.set_now(now);
    }
}

impl<W: WorkloadState, C: ClientState<OpLatency<W>>> OpenLoopWorker<OpLatency<W>, C> {
    /// Tells the workload the time since the start.
    pub fn set_now(&mut self, now: Duration)
        requires
            old(self).wf(),
        ensures
            final(self).wf(),
            final(self)@ == (OpenLoopState {
                workload: OpLatencyState { now, ..old(self)@.workload },
                ..old(self)@
            }),
    {
        self.workload.set_now(now);
    }
}

/// A workload of given operations that keeps their results.
pub struct Script<A: AppProtocol> {
    ops: VecDeque<A::Op>,
    results: Vec<A::Res>,
}

/// The mathematical content of a [`Script`].
#[verifier::ext_equal]
pub struct ScriptState<Op, Res> {
    /// The operations that are left.
    pub ops: Seq<Op>,
    /// The results so far, in the order in which they came.
    pub results: Seq<Res>,
}

impl<A: AppProtocol> View for Script<A> {
    type V = ScriptState<<A::Op as View>::V, <A::Res as View>::V>;

    closed spec fn view(&self) -> ScriptState<<A::Op as View>::V, <A::Res as View>::V> {
        ScriptState {
            ops: self.ops@.map_values(|op: A::Op| op@),
            results: self.results@.map_values(|res: A::Res| res@),
        }
    }
}

impl<A: AppProtocol> Script<A> {
    /// Operations to be executed in order.
    pub fn new(ops: VecDeque<A::Op>) -> (script: Self)
        ensures
            script@.ops == ops@.map_values(|op: A::Op| op@),
            script@.results.len() == 0,
    {
        Script { ops, results: Vec::new() }
    }

    /// The results.
    pub fn into_results(self) -> (results: Vec<A::Res>)
        ensures
            results@.map_values(|res: A::Res| res@) == self@.results,
    {
        self.results
    }
}

impl<A: AppProtocol> AppProtocol for Script<A> {
    type Op = A::Op;

    type Res = A::Res;
}

impl<A: AppProtocol> WorkloadState for Script<A> {
    type Metadata = ();

    type Error = Never;

    open spec fn next_op_spec(state: ScriptState<<A::Op as View>::V, <A::Res as View>::V>) -> (
        ScriptState<<A::Op as View>::V, <A::Res as View>::V>,
        Option<(<A::Op as View>::V, ())>,
    ) {
        if state.ops.len() == 0 {
            (state, None)
        } else {
            (ScriptState { ops: state.ops.drop_first(), ..state }, Some((state.ops[0], ())))
        }
    }

    open spec fn complete_spec(
        state: ScriptState<<A::Op as View>::V, <A::Res as View>::V>,
        metadata: (),
        res: <A::Res as View>::V,
    ) -> (ScriptState<<A::Op as View>::V, <A::Res as View>::V>, Result<(), Never>) {
        (ScriptState { results: state.results.push(res), ..state }, Ok(()))
    }

    fn next_op(&mut self) -> (next: Option<(A::Op, ())>) {
        let ghost before = self@;
        match self.ops.pop_front() {
            Some(op) => {
                assert(before.ops[0] == op@);
                assert(self@.ops =~= before.ops.drop_first());
                assert(self@ =~= ScriptState { ops: before.ops.drop_first(), ..before });
                let next = Some((op, ()));
                assert(next_view(next) == Some((op@, ())));
                next
            },
            None => {
                assert(self@.ops =~= before.ops);
                assert(self@ =~= before);
                None
            },
        }
    }

    fn complete(&mut self, metadata: (), res: A::Res) -> (result: Result<(), Never>) {
        let ghost before = self@;
        self.results.push(res);
        assert(self@.results =~= before.results.push(res@));
        assert(self@ =~= ScriptState { results: before.results.push(res@), ..before });
        Ok(())
    }
}

/// A worker that submits an operation at fixed intervals, whether or not those
/// before have their results.
pub struct OpenLoopWorker<W: WorkloadState, C: ClientState<W>> {
    workload: W,
    client: C,
    interval: Duration,
    submitted: SeqMap<W::Metadata>,
    next_submit: Option<Duration>,
}

/// The mathematical content of an [`OpenLoopWorker`].
#[verifier::ext_equal]
pub struct OpenLoopState<W, C, M> {
    pub workload: W,
    pub client: C,
    /// The time between two operations.
    pub interval: Duration,
    /// The metadata of the operations under way, by their numbers.
    pub submitted: Seq<(u64, M)>,
    /// When the next operation is due, if there are any left.
    pub next_submit: Option<Duration>,
}

/// The content of entries.
pub open spec fn submitted_view<M: View>(submitted: Seq<(u64, M)>) -> Seq<(u64, M::V)> {
    submitted.map_values(|entry: (u64, M)| (entry.0, entry.1@))
}

impl<W: WorkloadState, C: ClientState<W>> View for OpenLoopWorker<W, C> {
    type V = OpenLoopState<W::V, C::V, <W::Metadata as View>::V>;

    closed spec fn view(&self) -> OpenLoopState<W::V, C::V, <W::Metadata as View>::V> {
        OpenLoopState {
            workload: self.workload@,
            client: self.client@,
            interval: self.interval,
            submitted: submitted_view(self.submitted@),
            next_submit: self.next_submit,
        }
    }
}

/// The state of an open-loop worker.
pub type OpenLoopOf<W, C> = <OpenLoopWorker<W, C> as View>::V;

proof fn lemma_view_rank<M: View>(submitted: Seq<(u64, M)>, seq: u64)
    ensures
        rank(submitted_view(submitted), seq) == rank(submitted, seq),
    decreases submitted.len(),
{
    if submitted.len() == 0 || seq <= submitted[0].0 {
    } else {
        lemma_view_rank(submitted.drop_first(), seq);
        assert(submitted_view(submitted).drop_first() =~= submitted_view(submitted.drop_first()));
    }
}

/// Taking the content of entries goes along with finding, adding and taking
/// out entries.
proof fn lemma_view_entries<M: View>(submitted: Seq<(u64, M)>, seq: u64, metadata: M)
    requires
        ascending(submitted),
    ensures
        rank(submitted_view(submitted), seq) == rank(submitted, seq),
        has_seq(submitted_view(submitted), seq) == has_seq(submitted, seq),
        submitted_view(with_seq(submitted, seq, metadata)) == with_seq(
            submitted_view(submitted),
            seq,
            metadata@,
        ),
        submitted_view(without_seq(submitted, seq)) == without_seq(submitted_view(submitted), seq),
{
    lemma_view_rank(submitted, seq);
    rank_splits(submitted, seq);
    assert(submitted_view(with_seq(submitted, seq, metadata)) =~= with_seq(
        submitted_view(submitted),
        seq,
        metadata@,
    ));
    assert(submitted_view(without_seq(submitted, seq)) =~= without_seq(
        submitted_view(submitted),
        seq,
    ));
}

impl<W: WorkloadState, C: ClientState<W>> OpenLoopWorker<W, C> {
    /// Whether the next operation is due.
    pub open spec fn due(state: OpenLoopOf<W, C>, since_start: Duration) -> bool {
        state.next_submit matches Some(at) && at.nanos <= since_start.nanos
    }

    /// Submits the next operation, if there is one.
    pub open spec fn submit_due(state: OpenLoopOf<W, C>) -> OpenLoopOf<W, C> {
        let (workload, next) = W::next_op_spec(state.workload);
        match (next, state.next_submit) {
            (Some((op, metadata)), Some(at)) => {
                let (client, seq) = C::submit_spec(state.client, op);
                OpenLoopState {
                    workload,
                    client,
                    submitted: with_seq(state.submitted, seq, metadata),
                    next_submit: Some(at.plus_spec(state.interval)),
                    ..state
                }
            },
            _ => OpenLoopState { workload, next_submit: None, ..state },
        }
    }

    /// Takes a result. One that nothing waits for is ignored.
    pub open spec fn complete_step(
        state: OpenLoopOf<W, C>,
        seq: ClientSeq,
        res: <W::Res as View>::V,
    ) -> WorkerStep<OpenLoopOf<W, C>, WorkerAction<W, C>> {
        if has_seq(state.submitted, seq) {
            let metadata = state.submitted[rank(state.submitted, seq)].1;
            let (workload, result) = W::complete_spec(state.workload, metadata, res);
            let next = OpenLoopState {
                workload,
                submitted: without_seq(state.submitted, seq),
                ..state
            };
            match result {
                Ok(()) => WorkerStep::Continue(next),
                Err(err) => WorkerStep::Return(next, Action::Output(Outcome::Failed(err))),
            }
        } else {
            WorkerStep::Continue(state)
        }
    }

    pub open spec fn step(state: OpenLoopOf<W, C>, since_start: Duration) -> WorkerStep<
        OpenLoopOf<W, C>,
        WorkerAction<W, C>,
    > {
        if Self::due(state, since_start) {
            WorkerStep::Continue(Self::submit_due(state))
        } else {
            let (client, action) = C::proceed_spec(state.client, since_start);
            let next = OpenLoopState { client, ..state };
            match action {
                Action::Pending(tick_after) => {
                    let due_after = match next.next_submit {
                        Some(at) => Some(
                            Duration { nanos: (at.nanos - since_start.nanos) as u128 },
                        ),
                        None => None,
                    };
                    WorkerStep::Return(next, Action::Pending(sooner_spec(due_after, tick_after)))
                },
                Action::Perform(effect) => WorkerStep::Return(next, Action::Perform(effect)),
                Action::Output((seq, res)) => Self::complete_step(next, seq, res),
            }
        }
    }

    /// Goes on until there is something to ask for, or the given number of
    /// parts has been gone through; then the worker wants to be asked again at
    /// once.
    pub open spec fn run(state: OpenLoopOf<W, C>, since_start: Duration, limit: nat) -> (
        OpenLoopOf<W, C>,
        WorkerAction<W, C>,
    )
        decreases limit,
    {
        if limit == 0 {
            (state, Action::Pending(Some(Duration { nanos: 0 })))
        } else {
            match Self::step(state, since_start) {
                WorkerStep::Continue(next) => Self::run(next, since_start, (limit - 1) as nat),
                WorkerStep::Return(next, action) => (next, action),
            }
        }
    }

    /// What every worker keeps to.
    pub closed spec fn wf(&self) -> bool {
        &&& self.client.inv()
        &&& self.submitted.wf()
    }

    /// A worker whose first operation is due at once.
    pub fn new(workload: W, client: C, interval: Duration) -> (worker: Self)
        requires
            client.inv(),
        ensures
            worker.wf(),
            worker@ == (OpenLoopState {
                workload: workload@,
                client: client@,
                interval,
                submitted: Seq::<(u64, <W::Metadata as View>::V)>::empty(),
                next_submit: Some(Duration { nanos: 0 }),
            }),
    {
        let worker = OpenLoopWorker {
            workload,
            client,
            interval,
            submitted: SeqMap::new(),
            next_submit: Some(Duration::zero()),
        };
        assert(worker@.submitted =~= Seq::empty());
        worker
    }

    /// The workload, with what it was told.
    pub fn into_workload(self) -> (workload: W)
        ensures
            workload@ == self@.workload,
    {
        self.workload
    }

    fn submit_next(&mut self, at: Duration)
        requires
            old(self).wf(),
            old(self)@.next_submit == Some(at),
        ensures
            final(self).wf(),
            final(self)@ == Self::submit_due(old(self)@),
    {
        let ghost before = self@;
        match self.workload.next_op() {
            Some((op, metadata)) => {
                let seq: ClientSeq = self.client.submit(op);
                let ghost entries = self.submitted@;
                proof {
                    self.submitted.in_order();
                    lemma_view_entries(entries, seq, metadata);
                }
                self.submitted.insert(seq, metadata);
                self.next_submit = Some(at.plus(self.interval));
                proof {
                    assert(self@ =~= Self::submit_due(before));
                }
            },
            None => {
                self.next_submit = None;
                assert(self@ =~= Self::submit_due(before));
            },
        }
    }

    fn complete_submitted(&mut self, seq: ClientSeq, res: W::Res) -> (action: Option<
        Action<C::Effect, Outcome<W::Error>>,
    >)
        requires
            old(self).wf(),
        ensures
            final(self).wf(),
            Self::complete_step(old(self)@, seq, res@) == worker_stepped(final(self)@, action),
    {
        let ghost before = self@;
        let ghost entries = self.submitted@;
        proof {
            self.submitted.in_order();
            rank_splits(entries, seq);
        }
        match self.submitted.remove(seq) {
            None => {
                proof {
                    lemma_view_rank(entries, seq);
                }
                None
            },
            Some(metadata) => {
                proof {
                    lemma_view_entries(entries, seq, metadata);
                }
                match self.workload.complete(metadata, res) {
                    Ok(()) => None,
                    Err(err) => Some(Action::Output(Outcome::Failed(err))),
                }
            },
        }
    }

    fn take_step(&mut self, since_start: Duration) -> (action: Option<
        Action<C::Effect, Outcome<W::Error>>,
    >)
        requires
            old(self).wf(),
        ensures
            final(self).wf(),
            Self::step(old(self)@, since_start) == worker_stepped(final(self)@, action),
    {
        let mut due_after: Option<Duration> = None;
        match self.next_submit {
            Some(at) => {
                if at.nanos <= since_start.nanos {
                    self.submit_next(at);
                    return None;
                }
                due_after = Some(Duration { nanos: at.nanos - since_start.nanos });
            },
            None => {},
        }
        match self.client.proceed(since_start) {
            Action::Pending(tick_after) => Some(Action::Pending(sooner(due_after, tick_after))),
            Action::Perform(effect) => Some(Action::Perform(effect)),
            Action::Output((seq, res)) => self.complete_submitted(seq, res),
        }
    }
}

impl<W: WorkloadState, C: ClientState<W>> State for OpenLoopWorker<W, C> {
    type Effect = C::Effect;

    type Output = Outcome<W::Error>;

    type Message = C::Message;

    open spec fn inv(&self) -> bool {
        self.wf()
    }

    open spec fn proceed_spec(state: OpenLoopOf<W, C>, since_start: Duration) -> (
        OpenLoopOf<W, C>,
        WorkerAction<W, C>,
    ) {
        Self::run(state, since_start, u64::MAX as nat)
    }

    open spec fn receive_spec(
        state: OpenLoopOf<W, C>,
        message: <C::Message as View>::V,
    ) -> OpenLoopOf<W, C> {
        OpenLoopState { client: C::receive_spec(state.client, message), ..state }
    }

    fn proceed(&mut self, since_start: Duration) -> (action: Action<
        C::Effect,
        Outcome<W::Error>,
    >) {
        let mut limit: u64 = u64::MAX;
        while limit > 0
            invariant
                self.wf(),
                Self::run(old(self)@, since_start, u64::MAX as nat) == Self::run(
                    self@,
                    since_start,
                    limit as nat,
                ),
            decreases limit,
        {
            match self.take_step(since_start) {
                Some(action) => {
                    return action;
                },
                None => {},
            }
            limit -= 1;
        }
        Action::Pending(Some(Duration::zero()))
    }

    fn receive(&mut self, message: C::Message) {
        self.client.receive(message);
    }
}

} // verus!
