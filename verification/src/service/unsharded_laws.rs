//! What a service on one application answers.
use super::unsharded::{ActionOf, Service, StateOf, Step, UnshardedState};
use super::{Effect, Message, Reply, Request};
use crate::app::AppState;
use crate::replication::unreplicated::UnreplicatedReplica;
use crate::replication::ReplicationState;
use crate::state::{Action, Duration, State};
use vstd::prelude::*;

verus! {

impl<A: AppState, R: ReplicationState<Request<A::Op>>> Service<A, R> {
    /// The first of some ordered requests that was not answered.
    pub open spec fn first_unanswered(
        state: StateOf<A, R>,
        requests: Seq<Request<<A::Op as View>::V>>,
    ) -> Option<Request<<A::Op as View>::V>>
        decreases requests.len(),
    {
        if requests.len() == 0 {
            None
        } else if Self::answered(state, requests[0]) {
            Self::first_unanswered(state, requests.drop_first())
        } else {
            Some(requests[0])
        }
    }

    /// Whether running answers a request with what the application gives for it,
    /// and remembers the reply; or else executes nothing.
    pub open spec fn answers_or_waits(
        state: StateOf<A, R>,
        after: StateOf<A, R>,
        action: ActionOf<A, R>,
    ) -> bool {
        ||| after.app == state.app && after.replies == state.replies
        ||| exists|request: Request<<A::Op as View>::V>, metadata: <R::Metadata as View>::V|
            #[trigger] Self::answers_with(state, after, action, request, metadata)
    }

    /// Whether a request is executed, and answered with the result.
    pub open spec fn answers_with(
        state: StateOf<A, R>,
        after: StateOf<A, R>,
        action: ActionOf<A, R>,
        request: Request<<A::Op as View>::V>,
        metadata: <R::Metadata as View>::V,
    ) -> bool {
        let (app, res) = A::execute_spec(state.app, request.op);
        let reply = Reply { client_seq: request.client_seq, res, metadata };
        &&& !Self::answered(state, request)
        &&& after.app == app
        &&& after.replies == state.replies.insert(request.client_id, reply)
        &&& action matches Action::Perform(Effect::Reply(client_id, given)) && client_id
            == request.client_id && given == reply
    }

    /// However far a service runs, it executes at most one request, one that was
    /// not answered, and then answers it with the application's result and
    /// remembers the reply. Without an answer the application stays as it is.
    pub proof fn executed_is_answered(state: StateOf<A, R>, since_start: Duration, limit: nat)
        ensures
            ({
                let (after, action) = Self::run(state, since_start, limit);
                Self::answers_or_waits(state, after, action)
            }),
        decreases limit,
    {
        if limit > 0 {
            match Self::step(state, since_start) {
                Step::Continue(next) => {
                    assert(next.app == state.app && next.replies == state.replies);
                    Self::executed_is_answered(next, since_start, (limit - 1) as nat);
                    let (after, action) = Self::run(next, since_start, (limit - 1) as nat);
                    if !(after.app == next.app && after.replies == next.replies) {
                        let (request, metadata) = choose|
                            request: Request<<A::Op as View>::V>,
                            metadata: <R::Metadata as View>::V,
                        | #[trigger]
                            Self::answers_with(next, after, action, request, metadata);
                        assert(Self::answers_with(state, after, action, request, metadata));
                    }
                },
                Step::Return(after, action) => {
                    if !(after.app == state.app && after.replies == state.replies) {
                        let (requests, metadata) = state.replicated->Some_0;
                        assert(Self::answers_with(state, after, action, requests[0], metadata));
                    }
                },
            }
        }
    }

    /// Ordered requests are executed in their order: the next one to be answered
    /// is the first that was not yet.
    pub proof fn executes_in_order(
        state: StateOf<A, R>,
        requests: Seq<Request<<A::Op as View>::V>>,
        metadata: <R::Metadata as View>::V,
        since_start: Duration,
        limit: nat,
    )
        requires
            state.resend.len() == 0,
            state.replicated == Some((requests, metadata)),
            limit > requests.len(),
            Self::first_unanswered(state, requests) is Some,
        ensures
            ({
                let (after, action) = Self::run(state, since_start, limit);
                Self::answers_with(
                    state,
                    after,
                    action,
                    Self::first_unanswered(state, requests)->Some_0,
                    metadata,
                )
            }),
        decreases requests.len(),
    {
        if Self::answered(state, requests[0]) {
            let next = UnshardedState {
                replicated: Some((requests.drop_first(), metadata)),
                ..state
            };
            assert(Self::step(state, since_start) == Step::<
                StateOf<A, R>,
                ActionOf<A, R>,
            >::Continue(next));
            Self::lemma_same_first(state, next, requests.drop_first());
            Self::executes_in_order(
                next,
                requests.drop_first(),
                metadata,
                since_start,
                (limit - 1) as nat,
            );
        }
    }

    proof fn lemma_same_first(
        state: StateOf<A, R>,
        other: StateOf<A, R>,
        requests: Seq<Request<<A::Op as View>::V>>,
    )
        requires
            state.replies == other.replies,
        ensures
            Self::first_unanswered(state, requests) == Self::first_unanswered(other, requests),
        decreases requests.len(),
    {
        if requests.len() > 0 {
            Self::lemma_same_first(state, other, requests.drop_first());
        }
    }

    /// A reply that was given is given again: a client that repeats its last
    /// request has the very reply that it was sent.
    pub proof fn repeated_request_is_answered(
        state: StateOf<A, R>,
        request: Request<<A::Op as View>::V>,
        since_start: Duration,
    )
        requires
            state.replies.contains_key(request.client_id),
            state.replies[request.client_id].client_seq == request.client_seq,
        ensures
            ({
                let asked = <Self as State>::receive_spec(state, Message::Request(request));
                let (after, action) = <Self as State>::proceed_spec(asked, since_start);
                &&& action matches Action::Perform(Effect::Reply(client_id, given)) && client_id
                    == request.client_id && given == state.replies[client_id]
                &&& after == state
            }),
    {
        let asked = <Self as State>::receive_spec(state, Message::Request(request));
        assert(asked.resend.drop_last() =~= state.resend);
        let (after, _) = <Self as State>::proceed_spec(asked, since_start);
        assert(after =~= state);
    }
}

/// On a single server, a new request is executed and answered with the
/// application's result, under its number and to its client; and the application
/// then has executed it.
pub proof fn new_request_is_answered<A: AppState>(
    state: StateOf<A, UnreplicatedReplica<Request<A::Op>>>,
    request: Request<<A::Op as View>::V>,
    since_start: Duration,
)
    requires
        state.replicated is None,
        state.submit.len() == 0,
        state.resend.len() == 0,
        state.replication.len() == 0,
        !Service::<A, UnreplicatedReplica<Request<A::Op>>>::answered(state, request),
    ensures
        ({
            let asked = <Service<
                A,
                UnreplicatedReplica<Request<A::Op>>,
            > as State>::receive_spec(state, Message::Request(request));
            let (after, action) = <Service<
                A,
                UnreplicatedReplica<Request<A::Op>>,
            > as State>::proceed_spec(asked, since_start);
            let (app, res) = A::execute_spec(state.app, request.op);
            let reply = Reply { client_seq: request.client_seq, res, metadata: () };
            &&& action matches Action::Perform(Effect::Reply(client_id, given)) && client_id
            == request.client_id && given == reply
            &&& after.app == app
            &&& after.replies == state.replies.insert(request.client_id, reply)
        }),
{
    let asked = <Service<A, UnreplicatedReplica<Request<A::Op>>> as State>::receive_spec(
        state,
        Message::Request(request),
    );
    let one = seq![request];
    assert(asked.submit =~= one);
    assert(one.drop_last() =~= Seq::empty());
    let ordered = Service::<A, UnreplicatedReplica<Request<A::Op>>>::submit_all(
        asked.replication,
        asked.submit,
    );
    assert(Service::<A, UnreplicatedReplica<Request<A::Op>>>::submit_all(
        state.replication.push(request),
        one.drop_last(),
    ) == state.replication.push(request));
    assert(ordered =~= one);
    let next = UnshardedState {
        replication: Seq::empty(),
        submit: Seq::empty(),
        replicated: Some((one, ())),
        ..asked
    };
    assert(Service::<A, UnreplicatedReplica<Request<A::Op>>>::step(asked, since_start)
        == Step::<
        StateOf<A, UnreplicatedReplica<Request<A::Op>>>,
        ActionOf<A, UnreplicatedReplica<Request<A::Op>>>,
    >::Continue(next));
    Service::<A, UnreplicatedReplica<Request<A::Op>>>::executes_in_order(
        next,
        one,
        (),
        since_start,
        (u64::MAX - 1) as nat,
    );
}

} // verus!
