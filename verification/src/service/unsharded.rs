//! A service whose application keeps its state to itself.
use super::{
    admission, admission_spec, Admission, ClientId, ClientSeq, Effect, Message, Reply, Request,
    ServiceState,
};
use crate::app::{AppProtocol, AppState};
use crate::replication::ReplicationState;
use crate::shared::{reversed, Bytes};
use crate::state::{Action, Duplicate, Duration, Never, State};
use std::collections::HashMap;
use vstd::prelude::*;

verus! {

broadcast use vstd::std_specs::hash::group_hash_axioms;

/// A service that orders requests by `R`, and executes them in that order on
/// the application `A`.
pub struct Service<A: AppState, R: ReplicationState<Request<A::Op>>> {
    app: A,
    replication: R,
    replies: HashMap<ClientId, Reply<A::Res, R::Metadata>>,
    // ordered requests that are not executed yet, the last one first
    replicated: Option<(Vec<Request<A::Op>>, R::Metadata)>,
    submit_buffer: Vec<Request<A::Op>>,
    send_buffer: Vec<(ClientId, Reply<A::Res, R::Metadata>)>,
}

/// The mathematical content of a [`Service`].
#[verifier::ext_equal]
pub struct UnshardedState<A, R, Op, Res, D> {
    pub app: A,
    pub replication: R,
    /// The last reply to each client.
    pub replies: Map<ClientId, Reply<Res, D>>,
    /// Ordered requests that are not executed yet.
    pub replicated: Option<(Seq<Request<Op>>, D)>,
    /// Requests that are not submitted for ordering yet. The last one is
    /// submitted first.
    pub submit: Seq<Request<Op>>,
    /// Replies that were asked for again.
    pub resend: Seq<(ClientId, Reply<Res, D>)>,
}

/// The content of requests, in reverse order.
pub open spec fn requests_view<Op: View>(requests: Seq<Request<Op>>) -> Seq<Request<Op::V>> {
    Seq::new(requests.len(), |i: int| requests[requests.len() - 1 - i]@)
}

/// The state of a service.
pub type StateOf<A, R> = <Service<A, R> as View>::V;

/// What a service asks for, over the values themselves.
pub type ActionOf<A, R> = Action<
    Effect<
        Reply<
            <<A as AppProtocol>::Res as View>::V,
            <<R as ReplicationState<Request<<A as AppProtocol>::Op>>>::Metadata as View>::V,
        >,
        <<R as State>::Effect as View>::V,
    >,
    Never,
>;

/// An action of a service.
pub type ServiceAction<A, R> = Action<
    Effect<
        Reply<
            <A as AppProtocol>::Res,
            <R as ReplicationState<Request<<A as AppProtocol>::Op>>>::Metadata,
        >,
        <R as State>::Effect,
    >,
    Never,
>;

impl<A: AppState, R: ReplicationState<Request<A::Op>>> View for Service<A, R> {
    type V = UnshardedState<
        A::V,
        R::V,
        <A::Op as View>::V,
        <A::Res as View>::V,
        <R::Metadata as View>::V,
    >;

    closed spec fn view(&self) -> UnshardedState<
        A::V,
        R::V,
        <A::Op as View>::V,
        <A::Res as View>::V,
        <R::Metadata as View>::V,
    > {
        UnshardedState {
            app: self.app@,
            replication: self.replication@,
            replies: self.replies@.map_values(|reply: Reply<A::Res, R::Metadata>| reply@),
            replicated: match self.replicated {
                Some((requests, metadata)) => Some((requests_view(requests@), metadata@)),
                None => None,
            },
            submit: self.submit_buffer@.map_values(|request: Request<A::Op>| request@),
            resend: self.send_buffer@.map_values(
                |resend: (ClientId, Reply<A::Res, R::Metadata>)| (resend.0, resend.1@),
            ),
        }
    }
}

/// The outcome of one part of a step: go on, or ask for something. `T` stands
/// for the state, `O` for what is asked for.
pub enum Step<T, O> {
    Continue(T),
    Return(T, O),
}

/// The outcome of a part of a step: without an action, it is to go on.
pub open spec fn stepped<T, O: View>(state: T, action: Option<O>) -> Step<T, O::V> {
    match action {
        Some(action) => Step::Return(state, action@),
        None => Step::Continue(state),
    }
}

impl<A: AppState, R: ReplicationState<Request<A::Op>>> Service<A, R> {
    /// The state of a service that has not done anything yet.
    pub open spec fn initial(app: A::V, replication: R::V) -> StateOf<A, R> {
        UnshardedState {
            app,
            replication,
            replies: Map::empty(),
            replicated: None,
            submit: Seq::empty(),
            resend: Seq::empty(),
        }
    }

    /// Whether a request was answered already, or a later one of its client.
    pub open spec fn answered(
        state: StateOf<A, R>,
        request: Request<<A::Op as View>::V>,
    ) -> bool {
        state.replies.contains_key(request.client_id)
            && state.replies[request.client_id].client_seq >= request.client_seq
    }

    /// Submits requests for ordering, the last one first.
    pub open spec fn submit_all(
        replication: R::V,
        requests: Seq<Request<<A::Op as View>::V>>,
    ) -> R::V
        decreases requests.len(),
    {
        if requests.len() == 0 {
            replication
        } else {
            Self::submit_all(
                R::submit_spec(replication, requests.last()),
                requests.drop_last(),
            )
        }
    }

    /// Executes one ordered request, unless it was answered.
    pub open spec fn execute_step(
        state: StateOf<A, R>,
        requests: Seq<Request<<A::Op as View>::V>>,
        metadata: <R::Metadata as View>::V,
    ) -> Step<StateOf<A, R>, ActionOf<A, R>> {
        if requests.len() == 0 {
            Step::Continue(UnshardedState { replicated: None, ..state })
        } else {
            let request = requests[0];
            let next = UnshardedState {
                replicated: Some((requests.drop_first(), metadata)),
                ..state
            };
            if Self::answered(state, request) {
                Step::Continue(next)
            } else {
                let (app, res) = A::execute_spec(state.app, request.op);
                let reply = Reply { client_seq: request.client_seq, res, metadata };
                Step::Return(
                    UnshardedState {
                        app,
                        replies: state.replies.insert(request.client_id, reply),
                        ..next
                    },
                    Action::Perform(Effect::Reply(request.client_id, reply)),
                )
            }
        }
    }

    /// Submits what is to be ordered, and takes what was.
    pub open spec fn order_step(state: StateOf<A, R>, since_start: Duration) -> Step<
        StateOf<A, R>,
        ActionOf<A, R>,
    > {
        let (replication, action) = R::proceed_spec(
            Self::submit_all(state.replication, state.submit),
            since_start,
        );
        let next = UnshardedState { replication, submit: Seq::empty(), ..state };
        match action {
            Action::Pending(tick_after) => Step::Return(next, Action::Pending(tick_after)),
            Action::Perform(effect) => Step::Return(
                next,
                Action::Perform(Effect::Intermediate(effect)),
            ),
            Action::Output(replicated) => Step::Continue(
                UnshardedState {
                    replicated: Some((replicated.logs, replicated.metadata)),
                    ..next
                },
            ),
        }
    }

    pub open spec fn step(state: StateOf<A, R>, since_start: Duration) -> Step<
        StateOf<A, R>,
        ActionOf<A, R>,
    > {
        if state.resend.len() > 0 {
            let (client_id, reply) = state.resend.last();
            Step::Return(
                UnshardedState { resend: state.resend.drop_last(), ..state },
                Action::Perform(Effect::Reply(client_id, reply)),
            )
        } else {
            match state.replicated {
                Some((requests, metadata)) => Self::execute_step(state, requests, metadata),
                None => Self::order_step(state, since_start),
            }
        }
    }

    /// Goes on until there is something to ask for, or the given number of
    /// parts has been gone through; then the service wants to be asked again at
    /// once.
    pub open spec fn run(state: StateOf<A, R>, since_start: Duration, limit: nat) -> (
        StateOf<A, R>,
        ActionOf<A, R>,
    )
        decreases limit,
    {
        if limit == 0 {
            (state, Action::Pending(Some(Duration { nanos: 0 })))
        } else {
            match Self::step(state, since_start) {
                Step::Continue(next) => Self::run(next, since_start, (limit - 1) as nat),
                Step::Return(next, action) => (next, action),
            }
        }
    }

    /// What every service keeps to.
    pub closed spec fn wf(&self) -> bool {
        self.replication.inv()
    }

    /// A service that has not done anything yet.
    pub fn new(app: A, replication: R) -> (service: Self)
        requires
            replication.inv(),
        ensures
            service.wf(),
            service@ == Self::initial(app@, replication@),
    {
        let service = Service {
            app,
            replication,
            replies: HashMap::new(),
            replicated: None,
            submit_buffer: Vec::new(),
            send_buffer: Vec::new(),
        };
        proof {
            assert(service@.replies =~= Map::empty());
            assert(service@.submit =~= Seq::empty());
            assert(service@.resend =~= Seq::empty());
        }
        service
    }

    /// Executes one ordered request, unless it was answered.
    fn execute_next(
        &mut self,
        requests: Vec<Request<A::Op>>,
        metadata: R::Metadata,
    ) -> (action: Option<ServiceAction<A, R>>)
        requires
            old(self).wf(),
            old(self)@.replicated is None,
        ensures
            final(self).wf(),
            Self::execute_step(old(self)@, requests_view(requests@), metadata@) == stepped(
                final(self)@,
                action,
            ),
    {
        let ghost before = self@;
        let ghost view = requests_view(requests@);
        let mut requests = requests;
        match requests.pop() {
            None => {
                assert(self@ =~= UnshardedState { replicated: None, ..before });
                None
            },
            Some(request) => {
                assert(view[0] == request@);
                assert(requests_view(requests@) =~= view.drop_first());
                let answered = match self.replies.get(&request.client_id) {
                    Some(reply) => {
                        assert(before.replies[request.client_id] == reply@);
                        reply.client_seq >= request.client_seq
                    },
                    None => false,
                };
                if answered {
                    self.replicated = Some((requests, metadata));
                    assert(self@ =~= UnshardedState {
                        replicated: Some((view.drop_first(), metadata@)),
                        ..before
                    });
                    return None;
                }
                let res = self.app.execute(request.op);
                let reply = Reply {
                    client_seq: request.client_seq,
                    res,
                    metadata: metadata.duplicate(),
                };
                self.replies.insert(request.client_id, reply.duplicate());
                self.replicated = Some((requests, metadata));
                proof {
                    assert(self@.replies =~= before.replies.insert(request.client_id, reply@));
                    assert(self@ =~= UnshardedState {
                        app: self.app@,
                        replies: before.replies.insert(request.client_id, reply@),
                        replicated: Some((view.drop_first(), metadata@)),
                        ..before
                    });
                }
                Some(Action::Perform(Effect::Reply(request.client_id, reply)))
            },
        }
    }

    /// Submits what is to be ordered, and takes what was.
    fn order(&mut self, since_start: Duration) -> (action: Option<ServiceAction<A, R>>)
        requires
            old(self).wf(),
        ensures
            final(self).wf(),
            Self::order_step(old(self)@, since_start) == stepped(final(self)@, action),
    {
        let ghost before = self@;
        let ghost submitted = Self::submit_all(before.replication, before.submit);
        while self.submit_buffer.len() > 0
            invariant
                self.wf(),
                submitted == Self::submit_all(self@.replication, self@.submit),
                self@ == (UnshardedState {
                    replication: self@.replication,
                    submit: self@.submit,
                    ..before
                }),
            decreases self.submit_buffer@.len(),
        {
            let ghost this = self@;
            let request = self.submit_buffer.pop().unwrap();
            assert(this.submit.last() == request@);
            self.replication.submit(request);
            assert(self@.submit =~= this.submit.drop_last());
            assert(self@ =~= UnshardedState {
                replication: self@.replication,
                submit: self@.submit,
                ..before
            });
        }
        assert(self@.submit =~= Seq::empty());
        let action = self.replication.proceed(since_start);
        let ghost next = UnshardedState {
            replication: R::proceed_spec(submitted, since_start).0,
            submit: Seq::empty(),
            ..before
        };
        assert(self@ =~= next);
        match action {
            Action::Pending(tick_after) => Some(Action::Pending(tick_after)),
            Action::Perform(effect) => Some(Action::Perform(Effect::Intermediate(effect))),
            Action::Output(replicated) => {
                let ghost logs = replicated@.logs;
                let requests = reversed(replicated.logs);
                self.replicated = Some((requests, replicated.metadata));
                proof {
                    assert(requests_view(requests@) =~= logs);
                    assert(self@ =~= UnshardedState {
                        replicated: Some((logs, replicated.metadata@)),
                        ..next
                    });
                }
                None
            },
        }
    }

    /// One part of a step.
    fn take_step(&mut self, since_start: Duration) -> (action: Option<ServiceAction<A, R>>)
        requires
            old(self).wf(),
        ensures
            final(self).wf(),
            Self::step(old(self)@, since_start) == stepped(final(self)@, action),
    {
        let ghost before = self@;
        match self.send_buffer.pop() {
            Some((client_id, reply)) => {
                assert(before.resend.last() == (client_id, reply@));
                assert(self@.resend =~= before.resend.drop_last());
                assert(self@ =~= UnshardedState { resend: before.resend.drop_last(), ..before });
                return Some(Action::Perform(Effect::Reply(client_id, reply)));
            },
            None => {
                assert(self@.resend =~= before.resend);
                assert(self@ =~= before);
            },
        }
        let mut replicated: Option<(Vec<Request<A::Op>>, R::Metadata)> = None;
        std::mem::swap(&mut self.replicated, &mut replicated);
        match replicated {
            Some((requests, metadata)) => {
                assert(self@ =~= UnshardedState { replicated: None, ..before });
                self.execute_next(requests, metadata)
            },
            None => {
                assert(self@ =~= before);
                self.order(since_start)
            },
        }
    }
}

impl<A: AppState, R: ReplicationState<Request<A::Op>>> State for Service<A, R> {
    type Effect = Effect<Reply<A::Res, R::Metadata>, R::Effect>;

    type Output = Never;

    type Message = Message<Request<A::Op>, R::Message>;

    open spec fn inv(&self) -> bool {
        self.wf()
    }

    open spec fn proceed_spec(state: StateOf<A, R>, since_start: Duration) -> (
        StateOf<A, R>,
        ActionOf<A, R>,
    ) {
        Self::run(state, since_start, u64::MAX as nat)
    }

    /// A request is submitted unless the client was answered at least as late a
    /// request; the last reply is sent again to a client that asks for it.
    open spec fn receive_spec(
        state: StateOf<A, R>,
        message: Message<Request<<A::Op as View>::V>, <R::Message as View>::V>,
    ) -> StateOf<A, R> {
        match message {
            Message::Request(request) => {
                let last = if state.replies.contains_key(request.client_id) {
                    Some(state.replies[request.client_id].client_seq)
                } else {
                    None
                };
                match admission_spec(last, request.client_seq) {
                    Admission::Ignore => state,
                    Admission::Resend => UnshardedState {
                        resend: state.resend.push(
                            (request.client_id, state.replies[request.client_id]),
                        ),
                        ..state
                    },
                    Admission::Submit => UnshardedState {
                        submit: state.submit.push(request),
                        ..state
                    },
                }
            },
            Message::Intermediate(message) => UnshardedState {
                replication: R::receive_spec(state.replication, message),
                ..state
            },
        }
    }

    fn proceed(&mut self, since_start: Duration) -> (action: ServiceAction<A, R>) {
        let mut limit: u64 = u64::MAX;
        while limit > 0
            invariant
                self.wf(),
                Self::run(old(self)@, since_start, u64::MAX as nat) == Self::run(
                    self@,
                    since_start,
                    limit as nat,
                ),
            decreases limit,
        {
            match self.take_step(since_start) {
                Some(action) => {
                    return action;
                },
                None => {},
            }
            limit -= 1;
        }
        Action::Pending(Some(Duration::zero()))
    }

    fn receive(&mut self, message: Message<Request<A::Op>, R::Message>) {
        let ghost before = self@;
        match message {
            Message::Request(request) => {
                let last: Option<ClientSeq> = match self.replies.get(&request.client_id) {
                    Some(reply) => Some(reply.client_seq),
                    None => None,
                };
                match admission(last, request.client_seq) {
                    Admission::Ignore => {},
                    Admission::Resend => {
                        let reply = self.replies.get(&request.client_id).unwrap().duplicate();
                        self.send_buffer.push((request.client_id, reply));
                        assert(self@.resend =~= before.resend.push(
                            (request.client_id, before.replies[request.client_id]),
                        ));
                    },
                    Admission::Submit => {
                        self.submit_buffer.push(request);
                        assert(self@.submit =~= before.submit.push(request@));
                    },
                }
            },
            Message::Intermediate(message) => {
                self.replication.receive(message);
            },
        }
        assert(self@ =~= Self::receive_spec(before, message@));
    }
}

/// The service has no local store, so it is never told of one.
impl<A: AppState, R: ReplicationState<Request<A::Op>>> ServiceState<A> for Service<A, R> {
    type ServiceEffect = R::Effect;

    type ServiceMessage = R::Message;

    type Metadata = R::Metadata;

    open spec fn get_complete_spec(
        state: StateOf<A, R>,
        name: Seq<char>,
        value: Seq<u8>,
    ) -> StateOf<A, R> {
        state
    }

    open spec fn put_complete_spec(state: StateOf<A, R>, name: Seq<char>) -> StateOf<A, R> {
        state
    }

    fn get_complete(&mut self, name: String, value: Bytes) {
    }

    fn put_complete(&mut self, name: String) {
    }
}

/// Whether no client's last reply was replaced by one to an earlier request.
pub open spec fn replies_move_forward<Res, D>(
    before: Map<ClientId, Reply<Res, D>>,
    after: Map<ClientId, Reply<Res, D>>,
) -> bool {
    forall|client_id: ClientId| #[trigger]
        before.contains_key(client_id) ==> after.contains_key(client_id)
            && before[client_id].client_seq <= after[client_id].client_seq
}

impl<A: AppState, R: ReplicationState<Request<A::Op>>> Service<A, R> {
    /// However far the service runs, it never goes back to an earlier request
    /// of a client: a client's last reply is only ever replaced by one to a
    /// later request, so no request is executed twice.
    pub proof fn running_moves_replies_forward(
        state: StateOf<A, R>,
        since_start: Duration,
        limit: nat,
    )
        ensures
            replies_move_forward(state.replies, Self::run(state, since_start, limit).0.replies),
        decreases limit,
    {
        if limit > 0 {
            match Self::step(state, since_start) {
                Step::Continue(next) => {
                    Self::running_moves_replies_forward(next, since_start, (limit - 1) as nat);
                },
                Step::Return(_, _) => {},
            }
        }
    }
}

} // verus!
