//! What a service does over any sequence of calls.
use super::big_service::{
    skip_more, storage_writes, BigService, BigServiceLog, BigState, Executing, LogEntry, Phase,
    Poll, ServiceMessage, StateOf, Step,
};
use super::config::StateVersion;
use super::storage::{StorageState, StorageStateOutput};
use crate::app::{DataShardingApp, DataShardingExecuteOutput, DataShardingExecuteState};
use crate::replication::ReplicationState;
use crate::service::{ClientId, ClientSeq, Effect, Message, Reply, Request, ServiceState};
use crate::state::{Action, Duration, State};
use vstd::prelude::*;

verus! {

/// Something that a service does, or that its storage tells it.
pub enum Event {
    /// An ordered request is taken.
    Taken(ClientId, ClientSeq),
    /// The first request is dropped, because its client was answered it or a
    /// later one.
    Duplicate(ClientId, ClientSeq),
    /// The first request is skipped.
    Skipped(ClientId, ClientSeq),
    /// Storage is asked for values that the first request needs.
    Asked,
    /// The first request is executed: storage starts a new version, and the
    /// client is answered.
    Executed(ClientId, ClientSeq),
    /// Storage has written the new version.
    Bumped,
    /// Storage wants the execution of a number of versions skipped.
    Skip(StateVersion),
}

/// What matters of a service for what it does next.
#[verifier::ext_equal]
pub struct Course {
    /// The ordered requests that are taken and not dealt with yet.
    pub queue: Seq<(ClientId, ClientSeq)>,
    /// The last request of each client that was answered.
    pub answered: Map<ClientId, ClientSeq>,
    pub bumping: bool,
    pub num_skip: StateVersion,
}

impl Course {
    /// A service that has not done anything yet.
    pub open spec fn initial() -> Course {
        Course { queue: Seq::empty(), answered: Map::empty(), bumping: false, num_skip: 0 }
    }

    /// Whether a request, or a later one of its client, was answered.
    pub open spec fn is_answered(self, request: (ClientId, ClientSeq)) -> bool {
        self.answered.contains_key(request.0) && self.answered[request.0] >= request.1
    }

    /// Whether the first request can be worked on: it is not answered, not to be
    /// skipped, and storage is not writing.
    pub open spec fn is_open(self) -> bool {
        &&& self.queue.len() > 0
        &&& !self.is_answered(self.queue[0])
        &&& self.num_skip == 0
        &&& !self.bumping
    }

    /// Whether something may happen.
    pub open spec fn allows(self, event: Event) -> bool {
        match event {
            Event::Taken(_, _) | Event::Bumped | Event::Skip(_) => true,
            Event::Duplicate(client_id, client_seq) => self.queue.len() > 0 && self.queue[0] == (
                client_id,
                client_seq,
            ) && self.is_answered(self.queue[0]),
            Event::Skipped(client_id, client_seq) => self.queue.len() > 0 && self.queue[0] == (
                client_id,
                client_seq,
            ) && !self.is_answered(self.queue[0]) && self.num_skip > 0,
            Event::Asked => self.is_open(),
            Event::Executed(client_id, client_seq) => self.is_open() && self.queue[0] == (
                client_id,
                client_seq,
            ),
        }
    }

    /// What it leads to.
    pub open spec fn after(self, event: Event) -> Course {
        match event {
            Event::Taken(client_id, client_seq) => Course {
                queue: self.queue.push((client_id, client_seq)),
                ..self
            },
            Event::Duplicate(_, _) => Course { queue: self.queue.drop_first(), ..self },
            Event::Skipped(_, _) => Course {
                queue: self.queue.drop_first(),
                num_skip: (self.num_skip - 1) as StateVersion,
                ..self
            },
            Event::Asked => self,
            Event::Executed(client_id, client_seq) => Course {
                queue: self.queue.drop_first(),
                answered: self.answered.insert(client_id, client_seq),
                bumping: true,
                ..self
            },
            Event::Bumped => Course { bumping: false, ..self },
            Event::Skip(num) => Course { num_skip: skip_more(self.num_skip, num), ..self },
        }
    }

    /// What events lead to, one after the other.
    pub open spec fn after_all(self, events: Seq<Event>) -> Course
        decreases events.len(),
    {
        if events.len() == 0 {
            self
        } else {
            self.after_all(events.drop_last()).after(events.last())
        }
    }

    /// Whether events may happen, one after the other.
    pub open spec fn allows_all(self, events: Seq<Event>) -> bool
        decreases events.len(),
    {
        events.len() > 0 ==> self.allows_all(events.drop_last()) && self.after_all(
            events.drop_last(),
        ).allows(events.last())
    }
}

proof fn lemma_concat(course: Course, a: Seq<Event>, b: Seq<Event>)
    ensures
        course.after_all(a + b) == course.after_all(a).after_all(b),
        course.allows_all(a + b) == (course.allows_all(a) && course.after_all(a).allows_all(b)),
    decreases b.len(),
{
    if b.len() == 0 {
        assert(a + b =~= a);
    } else {
        lemma_concat(course, a, b.drop_last());
        assert((a + b).drop_last() =~= a + b.drop_last());
        assert((a + b).last() == b.last());
    }
}

proof fn lemma_prefix(course: Course, events: Seq<Event>, i: int)
    requires
        course.allows_all(events),
        0 <= i <= events.len(),
    ensures
        course.allows_all(events.subrange(0, i)),
        i < events.len() ==> course.after_all(events.subrange(0, i)).allows(events[i]),
        i < events.len() ==> course.after_all(events.subrange(0, i + 1)) == course.after_all(
            events.subrange(0, i),
        ).after(events[i]),
    decreases events.len() - i,
{
    if i == events.len() {
        assert(events.subrange(0, i) =~= events);
    } else {
        lemma_prefix(course, events, i + 1);
        assert(events.subrange(0, i + 1).drop_last() =~= events.subrange(0, i));
        assert(events.subrange(0, i + 1).last() == events[i]);
    }
}

/// The requests that are taken.
pub open spec fn taken(events: Seq<Event>) -> Seq<(ClientId, ClientSeq)>
    decreases events.len(),
{
    if events.len() == 0 {
        Seq::empty()
    } else {
        match events.last() {
            Event::Taken(client_id, client_seq) => taken(events.drop_last()).push(
                (client_id, client_seq),
            ),
            _ => taken(events.drop_last()),
        }
    }
}

/// The requests that are dealt with: executed, dropped or skipped.
pub open spec fn dealt_with(events: Seq<Event>) -> Seq<(ClientId, ClientSeq)>
    decreases events.len(),
{
    if events.len() == 0 {
        Seq::empty()
    } else {
        let before = dealt_with(events.drop_last());
        match events.last() {
            Event::Duplicate(client_id, client_seq) => before.push((client_id, client_seq)),
            Event::Skipped(client_id, client_seq) => before.push((client_id, client_seq)),
            Event::Executed(client_id, client_seq) => before.push((client_id, client_seq)),
            _ => before,
        }
    }
}

/// Requests are dealt with in the order in which they were ordered: each of them
/// once, and none out of turn.
pub proof fn executed_in_order(course: Course, events: Seq<Event>)
    requires
        course.allows_all(events),
    ensures
        course.queue + taken(events) == dealt_with(events) + course.after_all(events).queue,
    decreases events.len(),
{
    let all = course.queue + taken(events);
    let after = course.after_all(events).queue;
    if events.len() == 0 {
        assert(all =~= dealt_with(events) + after);
    } else {
        let before = events.drop_last();
        executed_in_order(course, before);
        let queue = course.after_all(before).queue;
        assert(course.queue + taken(before) =~= dealt_with(before) + queue);
        match events.last() {
            Event::Taken(client_id, client_seq) => {
                assert(all =~= (course.queue + taken(before)).push((client_id, client_seq)));
                assert(all =~= dealt_with(events) + after);
            },
            Event::Duplicate(_, _) | Event::Skipped(_, _) | Event::Executed(_, _) => {
                assert(queue =~= seq![queue[0]] + queue.drop_first());
                assert(all =~= dealt_with(events) + after);
            },
            _ => {},
        }
    }
}

proof fn lemma_answered_grows(course: Course, events: Seq<Event>, i: int, client_id: ClientId)
    requires
        course.allows_all(events),
        0 <= i <= events.len(),
        course.after_all(events.subrange(0, i)).answered.contains_key(client_id),
    ensures
        course.after_all(events).answered.contains_key(client_id),
        course.after_all(events.subrange(0, i)).answered[client_id] <= course.after_all(
            events,
        ).answered[client_id],
    decreases events.len() - i,
{
    if i == events.len() {
        assert(events.subrange(0, i) =~= events);
    } else {
        lemma_prefix(course, events, i);
        lemma_answered_grows(course, events, i + 1, client_id);
    }
}

/// The requests of a client that are executed have higher and higher numbers,
/// and a request that is dropped is one that was executed before, or an earlier
/// one.
pub proof fn answers_increase(
    course: Course,
    events: Seq<Event>,
    i: int,
    j: int,
    client_id: ClientId,
    earlier: ClientSeq,
    later: ClientSeq,
)
    requires
        course.allows_all(events),
        0 <= i < j < events.len(),
        events[i] == Event::Executed(client_id, earlier),
    ensures
        events[j] == Event::Executed(client_id, later) ==> earlier < later,
        events[j] == Event::Duplicate(client_id, later) ==> course.after_all(
            events.subrange(0, j),
        ).is_answered((client_id, later)),
{
    lemma_prefix(course, events, i);
    lemma_prefix(course, events, j);
    let before = events.subrange(0, j);
    assert(before.subrange(0, i + 1) =~= events.subrange(0, i + 1));
    lemma_answered_grows(course, before, i + 1, client_id);
}

proof fn lemma_stays_bumping(course: Course, events: Seq<Event>, i: int)
    requires
        course.allows_all(events),
        0 <= i <= events.len(),
        course.after_all(events.subrange(0, i)).bumping,
        forall|k: int| i <= k < events.len() ==> !(#[trigger] events[k] is Bumped),
    ensures
        course.after_all(events).bumping,
    decreases events.len() - i,
{
    if i == events.len() {
        assert(events.subrange(0, i) =~= events);
    } else {
        lemma_prefix(course, events, i);
        lemma_stays_bumping(course, events, i + 1);
    }
}

/// Nothing is asked of storage, and no new version is started, until the version
/// that the last execution has started is written.
pub proof fn bumps_alternate(course: Course, events: Seq<Event>, i: int, j: int)
    requires
        course.allows_all(events),
        0 <= i < j < events.len(),
        events[i] is Executed,
        events[j] is Executed || events[j] is Asked,
    ensures
        exists|k: int| i < k < j && #[trigger] events[k] is Bumped,
{
    if forall|k: int| i < k < j ==> !(#[trigger] events[k] is Bumped) {
        lemma_prefix(course, events, i);
        lemma_prefix(course, events, j);
        let before = events.subrange(0, j);
        assert(before.subrange(0, i + 1) =~= events.subrange(0, i + 1));
        assert forall|k: int| i + 1 <= k < before.len() implies !(
        #[trigger] before[k] is Bumped) by {
            assert(events[k] == before[k]);
        }
        lemma_stays_bumping(course, before, i + 1);
    }
}

/// How many requests are skipped.
pub open spec fn num_skipped(events: Seq<Event>) -> nat
    decreases events.len(),
{
    if events.len() == 0 {
        0
    } else if events.last() is Skipped {
        num_skipped(events.drop_last()) + 1
    } else {
        num_skipped(events.drop_last())
    }
}

/// Where a number of versions is to be skipped, and no more are asked for, as
/// many requests are skipped and no more, and none is worked on before that.
/// Requests that were answered do not count.
pub proof fn skips_exactly(course: Course, events: Seq<Event>)
    requires
        course.allows_all(events),
        forall|k: int| 0 <= k < events.len() ==> !(#[trigger] events[k] is Skip),
    ensures
        num_skipped(events) <= course.num_skip,
        course.after_all(events).num_skip == course.num_skip - num_skipped(events),
        forall|k: int|
            0 <= k < events.len() && (#[trigger] events[k] is Asked || events[k] is Executed)
                ==> num_skipped(events.subrange(0, k)) == course.num_skip,
    decreases events.len(),
{
    if events.len() > 0 {
        let before = events.drop_last();
        assert forall|k: int| 0 <= k < before.len() implies !(#[trigger] before[k] is Skip) by {
            assert(events[k] == before[k]);
        }
        skips_exactly(course, before);
        assert(events[events.len() - 1] == events.last());
        assert forall|k: int|
            0 <= k < events.len() && (#[trigger] events[k] is Asked
                || events[k] is Executed) implies num_skipped(events.subrange(0, k))
            == course.num_skip by {
            if k < before.len() {
                assert(before[k] == events[k]);
                assert(before.subrange(0, k) =~= events.subrange(0, k));
            } else {
                assert(events.subrange(0, k) =~= before);
            }
        }
    }
}

/// The requests among ordered entries.
pub open spec fn taken_events<Op, M>(logs: Seq<LogEntry<Op, M>>) -> Seq<Event>
    decreases logs.len(),
{
    if logs.len() == 0 {
        Seq::empty()
    } else {
        match logs.last() {
            LogEntry::Request(request) => taken_events(logs.drop_last()).push(
                Event::Taken(request.client_id, request.client_seq),
            ),
            LogEntry::StorageOrderedMessage(_) => taken_events(logs.drop_last()),
        }
    }
}

/// A call of a service. `M` stands for a message.
pub enum Call<M> {
    Proceed(Duration),
    Receive(M),
    GetComplete(Seq<char>, Seq<u8>),
    PutComplete(Seq<char>),
}

/// A call of a service, over the values themselves.
pub type CallOf<A, R, S> = Call<
    Message<
        Request<<<A as crate::app::AppProtocol>::Op as View>::V>,
        ServiceMessage<<<R as State>::Message as View>::V, <<S as State>::Message as View>::V>,
    >,
>;

/// The requests that are being executed.
pub open spec fn requests_in<E, D>(executing: Seq<Executing<E, D>>) -> Seq<(ClientId, ClientSeq)> {
    executing.map_values(|entry: Executing<E, D>| (entry.client_id, entry.client_seq))
}

impl<A: DataShardingApp, R: ReplicationState<BigServiceLog<A, S>>, S: StorageState> BigService<
    A,
    R,
    S,
> {
    /// What matters of a service for what it does next.
    pub open spec fn course(state: StateOf<A, R, S>) -> Course {
        Course {
            queue: requests_in(state.executing),
            answered: state.replies.map_values(
                |reply: Reply<<A::Res as View>::V, <R::Metadata as View>::V>| reply.client_seq,
            ),
            bumping: state.bumping,
            num_skip: state.num_skip,
        }
    }

    /// What happens in one phase.
    pub open spec fn step_events(
        state: StateOf<A, R, S>,
        poll: Poll,
        since_start: Duration,
    ) -> Seq<Event> {
        match poll.phase {
            Phase::Start => Seq::empty(),
            Phase::Replication => if state.executing.len() > state.config.executing_buffer_size {
                Seq::empty()
            } else {
                match R::proceed_spec(state.replication, since_start).1 {
                    Action::Output(replicated) => taken_events(replicated.logs),
                    _ => Seq::empty(),
                }
            },
            Phase::Storage => match S::proceed_spec(state.storage, since_start).1 {
                Action::Output(StorageStateOutput::Bumped) => seq![Event::Bumped],
                Action::Output(StorageStateOutput::Skipped(num)) => seq![Event::Skip(num)],
                _ => Seq::empty(),
            },
            Phase::Execute => {
                let first = state.executing[0];
                if state.executing.len() == 0 {
                    Seq::empty()
                } else if Self::first_answered(state) {
                    seq![Event::Duplicate(first.client_id, first.client_seq)]
                } else if state.num_skip > 0 {
                    seq![Event::Skipped(first.client_id, first.client_seq)]
                } else if state.fetch_keys.len() > 0 || state.bumping {
                    Seq::empty()
                } else {
                    match <A::ExecuteState as DataShardingExecuteState>::proceed_spec(
                        first.execute,
                    ).1 {
                        DataShardingExecuteOutput::Pending(_) => seq![Event::Asked],
                        DataShardingExecuteOutput::Complete(_, _) => seq![
                            Event::Executed(first.client_id, first.client_seq),
                        ],
                    }
                }
            },
        }
    }

    /// What happens while the service runs.
    pub open spec fn run_events(
        state: StateOf<A, R, S>,
        poll: Poll,
        since_start: Duration,
        limit: nat,
    ) -> Seq<Event>
        decreases limit,
    {
        if limit == 0 {
            Seq::empty()
        } else {
            let events = Self::step_events(state, poll, since_start);
            match Self::step(state, poll, since_start) {
                Step::Continue(next, after) => events + Self::run_events(
                    next,
                    after,
                    since_start,
                    (limit - 1) as nat,
                ),
                Step::Return(_, _) => events,
            }
        }
    }

    /// What becomes of a service over some calls.
    pub open spec fn after_calls(
        state: StateOf<A, R, S>,
        calls: Seq<CallOf<A, R, S>>,
    ) -> StateOf<A, R, S>
        decreases calls.len(),
    {
        if calls.len() == 0 {
            state
        } else {
            let before = Self::after_calls(state, calls.drop_last());
            match calls.last() {
                Call::Proceed(since_start) => <Self as State>::proceed_spec(before, since_start).0,
                Call::Receive(message) => <Self as State>::receive_spec(before, message),
                Call::GetComplete(name, value) => <Self as ServiceState<A>>::get_complete_spec(
                    before,
                    name,
                    value,
                ),
                Call::PutComplete(name) => <Self as ServiceState<A>>::put_complete_spec(
                    before,
                    name,
                ),
            }
        }
    }

    /// What happens over some calls.
    pub open spec fn events(state: StateOf<A, R, S>, calls: Seq<CallOf<A, R, S>>) -> Seq<Event>
        decreases calls.len(),
    {
        if calls.len() == 0 {
            Seq::empty()
        } else {
            let before = Self::events(state, calls.drop_last());
            match calls.last() {
                Call::Proceed(since_start) => before + Self::run_events(
                    Self::after_calls(state, calls.drop_last()),
                    Poll::start(),
                    since_start,
                    u64::MAX as nat,
                ),
                _ => before,
            }
        }
    }

    proof fn lemma_take_logs_course(
        state: StateOf<A, R, S>,
        logs: Seq<LogEntry<<A::Op as View>::V, <S::OrderedMessage as View>::V>>,
        metadata: <R::Metadata as View>::V,
    )
        ensures
            Self::course(state).allows_all(taken_events(logs)),
            Self::course(Self::take_logs(state, logs, metadata)) == Self::course(state).after_all(
                taken_events(logs),
            ),
        decreases logs.len(),
    {
        if logs.len() > 0 {
            let before = Self::take_logs(state, logs.drop_last(), metadata);
            Self::lemma_take_logs_course(state, logs.drop_last(), metadata);
            match logs.last() {
                LogEntry::Request(request) => {
                    let events = taken_events(logs);
                    assert(events.drop_last() =~= taken_events(logs.drop_last()));
                    assert(events.last() == Event::Taken(request.client_id, request.client_seq));
                    assert(Self::course(Self::take_logs(state, logs, metadata))
                        =~= Self::course(before).after(events.last())) by {
                        assert(Self::course(Self::take_logs(state, logs, metadata)).queue
                            =~= Self::course(before).queue.push(
                            (request.client_id, request.client_seq),
                        ));
                    }
                },
                _ => {},
            }
        }
    }

    proof fn lemma_ask_all_course(state: StateOf<A, R, S>, keys: Seq<Seq<u8>>)
        ensures
            Self::course(Self::ask_all(state, keys)) == Self::course(state),
        decreases keys.len(),
    {
        if keys.len() > 0 {
            let before = Self::ask_all(state, keys.drop_last());
            Self::lemma_ask_all_course(state, keys.drop_last());
            let after = Self::ask_all(state, keys);
            assert(requests_in(after.executing) =~= requests_in(before.executing));
            assert(Self::course(after) =~= Self::course(before));
        }
    }

    proof fn lemma_single(course: Course, event: Event)
        ensures
            course.allows_all(seq![event]) == course.allows(event),
            course.after_all(seq![event]) == course.after(event),
    {
        assert(seq![event].drop_last() =~= Seq::empty());
        reveal_with_fuel(Course::allows_all, 2);
        reveal_with_fuel(Course::after_all, 2);
    }

    /// What happens in a phase is allowed, and leads to where the service is
    /// then.
    proof fn lemma_step_course(state: StateOf<A, R, S>, poll: Poll, since_start: Duration)
        ensures
            ({
                let events = Self::step_events(state, poll, since_start);
                &&& Self::course(state).allows_all(events)
                &&& match Self::step(state, poll, since_start) {
                    Step::Continue(next, _) => Self::course(next),
                    Step::Return(next, _) => Self::course(next),
                } == Self::course(state).after_all(events)
            }),
    {
        let course = Self::course(state);
        let events = Self::step_events(state, poll, since_start);
        if events.len() == 1 {
            assert(events =~= seq![events[0]]);
            Self::lemma_single(course, events[0]);
        }
        match poll.phase {
            Phase::Start => {},
            Phase::Replication => {
                if state.executing.len() <= state.config.executing_buffer_size {
                    let (replication, action) = R::proceed_spec(state.replication, since_start);
                    let next = BigState { replication, ..state };
                    assert(Self::course(next) =~= course);
                    match action {
                        Action::Output(replicated) => {
                            Self::lemma_take_logs_course(
                                next,
                                replicated.logs,
                                replicated.metadata,
                            );
                        },
                        _ => {},
                    }
                }
            },
            Phase::Storage => {
                let next = match Self::step(state, poll, since_start) {
                    Step::Continue(next, _) => next,
                    Step::Return(next, _) => next,
                };
                assert(requests_in(next.executing) =~= requests_in(state.executing));
                assert(Self::course(next) =~= course.after_all(events));
            },
            Phase::Execute => {
                if state.executing.len() > 0 {
                    let first = state.executing[0];
                    let rest = state.executing.drop_first();
                    assert(requests_in(rest) =~= requests_in(state.executing).drop_first());
                    assert(course.queue[0] == (first.client_id, first.client_seq));
                    assert(course.is_answered(course.queue[0]) == Self::first_answered(state));
                    if Self::first_answered(state) || state.num_skip > 0 || state.fetch_keys.len()
                        > 0 || state.bumping {
                    } else {
                        let (execute, output) =
                            <A::ExecuteState as DataShardingExecuteState>::proceed_spec(
                            first.execute,
                        );
                        let worked = Executing { execute, ..first };
                        let next = BigState {
                            executing: state.executing.update(0, worked),
                            ..state
                        };
                        assert(requests_in(next.executing) =~= course.queue);
                        assert(Self::course(next) =~= course);
                        match output {
                            DataShardingExecuteOutput::Pending(keys) => {
                                Self::lemma_ask_all_course(next, keys);
                            },
                            DataShardingExecuteOutput::Complete(res, writes) => {
                                let after = Self::complete(next, res, writes).0;
                                assert(next.executing.drop_first() =~= rest);
                                assert(Self::course(after).answered =~= course.answered.insert(
                                    first.client_id,
                                    first.client_seq,
                                ));
                                assert(Self::course(after) =~= course.after(events[0]));
                            },
                        }
                    }
                }
            },
        }
    }

    proof fn lemma_run_course(
        state: StateOf<A, R, S>,
        poll: Poll,
        since_start: Duration,
        limit: nat,
    )
        ensures
            ({
                let events = Self::run_events(state, poll, since_start, limit);
                &&& Self::course(state).allows_all(events)
                &&& Self::course(Self::run(state, poll, since_start, limit).0)
                    == Self::course(state).after_all(events)
            }),
        decreases limit,
    {
        if limit > 0 {
            Self::lemma_step_course(state, poll, since_start);
            match Self::step(state, poll, since_start) {
                Step::Continue(next, after) => {
                    Self::lemma_run_course(next, after, since_start, (limit - 1) as nat);
                    lemma_concat(
                        Self::course(state),
                        Self::step_events(state, poll, since_start),
                        Self::run_events(next, after, since_start, (limit - 1) as nat),
                    );
                },
                Step::Return(_, _) => {},
            }
        }
    }

    /// Over any sequence of calls, a service does only what is allowed, and is
    /// then where that leads to. So what holds of all allowed events holds of
    /// the service: requests are dealt with in their order, each once; those of
    /// a client that are executed have higher and higher numbers; storage is
    /// left alone while it writes; and skips are exact.
    pub proof fn calls_keep_the_course(state: StateOf<A, R, S>, calls: Seq<CallOf<A, R, S>>)
        ensures
            Self::course(state).allows_all(Self::events(state, calls)),
            Self::course(Self::after_calls(state, calls)) == Self::course(state).after_all(
                Self::events(state, calls),
            ),
        decreases calls.len(),
    {
        if calls.len() > 0 {
            Self::calls_keep_the_course(state, calls.drop_last());
            let before = Self::after_calls(state, calls.drop_last());
            match calls.last() {
                Call::Proceed(since_start) => {
                    Self::lemma_run_course(before, Poll::start(), since_start, u64::MAX as nat);
                    lemma_concat(
                        Self::course(state),
                        Self::events(state, calls.drop_last()),
                        Self::run_events(before, Poll::start(), since_start, u64::MAX as nat),
                    );
                },
                _ => {
                    let after = Self::after_calls(state, calls);
                    assert(Self::course(after) =~= Self::course(before));
                },
            }
        }
    }

    /// A service starts at the start.
    pub proof fn course_starts(
        app: A::V,
        replication: R::V,
        storage: S::V,
        config: super::big_service::ServiceConfig,
    )
        ensures
            Self::course(Self::initial(app, replication, storage, config)) == Course::initial(),
    {
        let course = Self::course(Self::initial(app, replication, storage, config));
        assert(course.queue =~= Seq::empty());
        assert(course.answered =~= Map::empty());
    }

    /// What the events are: a request that is executed makes storage start one
    /// version, with its writes, and its client gets one reply, which is newer
    /// than its last one; a request that is dropped or skipped leaves storage
    /// and the replies as they are, and nobody is answered; and other than by an
    /// execution, clients are only sent the replies that they have had.
    pub proof fn events_are_what_happens(
        state: StateOf<A, R, S>,
        poll: Poll,
        since_start: Duration,
    )
        ensures
            ({
                let events = Self::step_events(state, poll, since_start);
                let first = state.executing[0];
                let executed = poll.phase is Execute && events.len() == 1 && events[0] is Executed;
                let dropped = poll.phase is Execute && events.len() == 1 && (events[0] is Duplicate
                    || events[0] is Skipped);
                match Self::step(state, poll, since_start) {
                    Step::Continue(next, _) => {
                        &&& !executed
                        &&& next.replies == state.replies
                        &&& dropped ==> next.storage == state.storage && next.executing
                            == state.executing.drop_first()
                    },
                    Step::Return(next, action) => {
                        &&& !dropped
                        &&& executed ==> {
                            &&& exists|writes: Seq<(Seq<u8>, Seq<u8>)>| #[trigger]
                                S::bump_spec(state.storage, storage_writes(writes)) == next.storage
                            &&& action matches Action::Perform(Effect::Reply(client_id, reply))
                                && client_id == first.client_id && reply.client_seq
                                == first.client_seq && reply.metadata == first.metadata
                                && next.replies == state.replies.insert(client_id, reply)
                            &&& state.replies.contains_key(first.client_id)
                                ==> state.replies[first.client_id].client_seq < first.client_seq
                        }
                        &&& !executed ==> {
                            &&& next.replies == state.replies
                            &&& action matches Action::Perform(Effect::Reply(client_id, reply))
                                ==> state.resend.len() > 0 && state.resend.last() == (
                                client_id,
                                reply,
                            )
                        }
                    },
                }
            }),
    {
        let events = Self::step_events(state, poll, since_start);
        match poll.phase {
            Phase::Replication => {
                if state.executing.len() <= state.config.executing_buffer_size {
                    let (replication, action) = R::proceed_spec(state.replication, since_start);
                    match action {
                        Action::Output(replicated) => {
                            Self::lemma_take_logs_replies(
                                BigState { replication, ..state },
                                replicated.logs,
                                replicated.metadata,
                            );
                        },
                        _ => {},
                    }
                }
            },
            Phase::Execute => {
                if events.len() > 0 {
                    let first = state.executing[0];
                    let (execute, output) =
                        <A::ExecuteState as DataShardingExecuteState>::proceed_spec(first.execute);
                    let next = BigState {
                        executing: state.executing.update(0, Executing { execute, ..first }),
                        ..state
                    };
                    match output {
                        DataShardingExecuteOutput::Pending(keys) => {
                            Self::lemma_ask_all_replies(next, keys);
                        },
                        DataShardingExecuteOutput::Complete(res, writes) => {
                            let after = Self::complete(next, res, writes).0;
                            assert(after.storage == S::bump_spec(
                                state.storage,
                                storage_writes(writes),
                            ));
                        },
                    }
                }
            },
            _ => {},
        }
    }
}

} // verus!
