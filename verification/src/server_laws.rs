//! What servers execute and answer.
use crate::app::AppState;
use crate::command::Command;
use crate::server::{
    session_step, CommandServerState, DispatcherState, ServiceTaskState, SessionStep, UnshardedServer,
    UnshardedServerState,
};
use crate::service::{admission_spec, Admission, ClientId, ClientSeq, Reply, Request};
use vstd::prelude::*;

verus! {

/// Whether a request is later than all of its client before it, those in `seqs`
/// and those among the first `i` ordered ones.
pub open spec fn is_later<Op>(
    seqs: Map<ClientId, ClientSeq>,
    requests: Seq<Request<Op>>,
    i: int,
    request: Request<Op>,
) -> bool {
    &&& seqs.contains_key(request.client_id) ==> seqs[request.client_id] < request.client_seq
    &&& forall|j: int|
        0 <= j < i && (#[trigger] requests[j]).client_id == request.client_id
            ==> requests[j].client_seq < request.client_seq
}

/// Whether the numbers are those of the last requests: at least those of all
/// requests, and each one that of a request or one known before.
spec fn last_seqs<Op>(
    before: Map<ClientId, ClientSeq>,
    after: Map<ClientId, ClientSeq>,
    requests: Seq<Request<Op>>,
) -> bool {
    &&& forall|id: ClientId| #[trigger]
        before.contains_key(id) ==> after.contains_key(id) && before[id] <= after[id]
    &&& forall|i: int|
        0 <= i < requests.len() ==> after.contains_key((#[trigger] requests[i]).client_id)
            && requests[i].client_seq <= after[requests[i].client_id]
    &&& forall|id: ClientId| #[trigger]
        after.contains_key(id) ==> (before.contains_key(id) && before[id] == after[id]) || exists|
            i: int,
        |
            0 <= i < requests.len() && (#[trigger] requests[i]).client_id == id
                && requests[i].client_seq == after[id]
}

proof fn lemma_last_seqs<A: AppState, D>(
    state: UnshardedServerState<A::V>,
    requests: Seq<Request<<A::Op as View>::V>>,
    metadata: D,
)
    ensures
        last_seqs(
            state.seqs,
            UnshardedServer::<A>::execute_all(state, requests, metadata).0.seqs,
            requests,
        ),
        UnshardedServer::<A>::execute_all(state, requests, metadata).0.clients == state.clients,
    decreases requests.len(),
{
    if requests.len() > 0 {
        let shorter = requests.drop_last();
        lemma_last_seqs::<A, D>(state, shorter, metadata);
        let before = UnshardedServer::<A>::execute_all(state, shorter, metadata).0;
        let request = requests.last();
        let after = UnshardedServer::<A>::execute_one(before, request, metadata).0;
        let last = requests.len() - 1;
        assert(requests[last] == request);
        assert forall|i: int| 0 <= i < requests.len() implies after.seqs.contains_key(
            (#[trigger] requests[i]).client_id,
        ) && requests[i].client_seq <= after.seqs[requests[i].client_id] by {
            if i < last {
                assert(shorter[i] == requests[i]);
            }
        }
        assert forall|id: ClientId| #[trigger] after.seqs.contains_key(id) implies (
        state.seqs.contains_key(id) && state.seqs[id] == after.seqs[id]) || exists|i: int|
            0 <= i < requests.len() && (#[trigger] requests[i]).client_id == id
                && requests[i].client_seq == after.seqs[id] by {
            if before.seqs.contains_key(id) && before.seqs[id] == after.seqs[id] {
                if !(state.seqs.contains_key(id) && state.seqs[id] == after.seqs[id]) {
                    let i = choose|i: int|
                        0 <= i < shorter.len() && (#[trigger] shorter[i]).client_id == id
                            && shorter[i].client_seq == before.seqs[id];
                    assert(requests[i] == shorter[i]);
                }
            } else {
                assert(requests[last].client_id == id);
            }
        }
    }
}

/// A server executes exactly the requests that are later than all of their
/// clients before, in the order in which they come, and answers each that is
/// executed with the application's result, under its number, if its client is
/// connected.
pub proof fn later_requests_are_executed<A: AppState, D>(
    state: UnshardedServerState<A::V>,
    requests: Seq<Request<<A::Op as View>::V>>,
    request: Request<<A::Op as View>::V>,
    metadata: D,
)
    ensures
        ({
            let (before, replies) = UnshardedServer::<A>::execute_all(state, requests, metadata);
            let (after, all) = UnshardedServer::<A>::execute_all(
                state,
                requests.push(request),
                metadata,
            );
            let (app, res) = A::execute_spec(before.app, request.op);
            let reply = Reply { client_seq: request.client_seq, res, metadata };
            if is_later(state.seqs, requests, requests.len() as int, request) {
                &&& after.app == app
                &&& all == if state.clients.contains(request.client_id) {
                    replies.push((request.client_id, reply))
                } else {
                    replies
                }
            } else {
                after.app == before.app && all == replies
            }
        }),
{
    let (before, replies) = UnshardedServer::<A>::execute_all(state, requests, metadata);
    let more = requests.push(request);
    let (after, all) = UnshardedServer::<A>::execute_all(state, more, metadata);
    lemma_last_seqs::<A, D>(state, requests, metadata);
    assert(more.drop_last() =~= requests);
    let id = request.client_id;
    let (_, added) = UnshardedServer::<A>::execute_one(before, request, metadata);
    assert(all == replies + added);
    if is_later(state.seqs, requests, requests.len() as int, request) {
        if before.seqs.contains_key(id) && request.client_seq <= before.seqs[id] {
            if !(state.seqs.contains_key(id) && state.seqs[id] == before.seqs[id]) {
                let i = choose|i: int|
                    0 <= i < requests.len() && (#[trigger] requests[i]).client_id == id
                        && requests[i].client_seq == before.seqs[id];
                assert(requests[i].client_seq < request.client_seq);
            }
        }
        if state.clients.contains(id) {
            assert(all =~= replies.push(added[0]));
        } else {
            assert(all =~= replies);
        }
    } else {
        if !(state.seqs.contains_key(id) ==> state.seqs[id] < request.client_seq) {
            assert(before.seqs.contains_key(id));
        } else {
            let j = choose|j: int|
                0 <= j < requests.len() && (#[trigger] requests[j]).client_id == id
                    && !(requests[j].client_seq < request.client_seq);
            assert(requests[j].client_seq <= before.seqs[id]);
        }
        assert(all =~= replies);
    }
}

/// A request is new if its client has no reply yet or one to an earlier request;
/// the last reply is for the same request; and earlier requests are done with.
pub proof fn requests_go_by_their_numbers<Res, D>(
    last: Option<Reply<Res, D>>,
    client_seq: ClientSeq,
)
    ensures
        match session_step(last, client_seq) {
            SessionStep::Submit => last is None || last->Some_0.client_seq < client_seq,
            SessionStep::Resend(reply) => last == Some(reply) && reply.client_seq == client_seq,
            SessionStep::Ignore => last is Some && client_seq < last->Some_0.client_seq,
        },
{
}

/// A finalized command is remembered: the same command again has its reply sent
/// again, a later one of its client is submitted and answered, and an earlier one
/// is ignored. Other clients are not concerned.
pub proof fn commands_go_by_their_numbers(
    state: ServiceTaskState,
    command: Command,
    other: Command,
)
    requires
        !state.answered(command),
    ensures
        ({
            let after = state.finalize(command);
            let id = command.client_id.0;
            &&& after.replies.contains_key(id) && after.replies[id] == command.seq
            &&& other.client_id == command.client_id ==> {
                &&& after.answered(other) <==> other.seq <= command.seq
                &&& match admission_spec(Some(after.replies[id]), other.seq) {
                    Admission::Submit => command.seq < other.seq,
                    Admission::Resend => command.seq == other.seq,
                    Admission::Ignore => other.seq < command.seq,
                }
            }
            &&& other.client_id != command.client_id ==> after.answered(other) == state.answered(
                other,
            )
            &&& after.clients == state.clients
        }),
{
    let after = state.finalize(command);
    if other.client_id != command.client_id {
        assert(other.client_id.0 != command.client_id.0);
    }
}

/// Commands are answered up to the first whose client is not connected.
pub proof fn answered_up_to_first_unreachable(
    state: CommandServerState,
    commands: Seq<Command>,
    i: int,
)
    ensures
        0 <= state.num_reachable(commands) <= commands.len(),
        0 <= i < state.num_reachable(commands) ==> state.clients.contains(commands[i].client_id.0),
        state.num_reachable(commands) < commands.len() ==> !state.clients.contains(
            commands[state.num_reachable(commands)].client_id.0,
        ),
    decreases commands.len(),
{
    if commands.len() > 0 && state.clients.contains(commands[0].client_id.0) {
        answered_up_to_first_unreachable(state, commands.drop_first(), i - 1);
    }
}

/// A dispatcher after some ordered requests.
pub open spec fn after_requests<Op>(state: DispatcherState, requests: Seq<Request<Op>>) -> DispatcherState
    decreases requests.len(),
{
    if requests.len() == 0 {
        state
    } else {
        let last = requests.last();
        after_requests(state, requests.drop_last()).take(last.client_id, last.client_seq).0
    }
}

proof fn lemma_dispatched_seqs<Op>(state: DispatcherState, requests: Seq<Request<Op>>)
    ensures
        last_seqs(state.seqs, after_requests(state, requests).seqs, requests),
        after_requests(state, requests).clients == state.clients,
    decreases requests.len(),
{
    if requests.len() > 0 {
        let shorter = requests.drop_last();
        lemma_dispatched_seqs(state, shorter);
        let before = after_requests(state, shorter);
        let request = requests.last();
        let after = after_requests(state, requests);
        let last = requests.len() - 1;
        assert(requests[last] == request);
        assert forall|i: int| 0 <= i < requests.len() implies after.seqs.contains_key(
            (#[trigger] requests[i]).client_id,
        ) && requests[i].client_seq <= after.seqs[requests[i].client_id] by {
            if i < last {
                assert(shorter[i] == requests[i]);
            }
        }
        assert forall|id: ClientId| #[trigger] after.seqs.contains_key(id) implies (
        state.seqs.contains_key(id) && state.seqs[id] == after.seqs[id]) || exists|i: int|
            0 <= i < requests.len() && (#[trigger] requests[i]).client_id == id
                && requests[i].client_seq == after.seqs[id] by {
            if before.seqs.contains_key(id) && before.seqs[id] == after.seqs[id] {
                if !(state.seqs.contains_key(id) && state.seqs[id] == after.seqs[id]) {
                    let i = choose|i: int|
                        0 <= i < shorter.len() && (#[trigger] shorter[i]).client_id == id
                            && shorter[i].client_seq == before.seqs[id];
                    assert(requests[i] == shorter[i]);
                }
            } else {
                assert(requests[last].client_id == id);
            }
        }
    }
}

/// Of ordered requests, exactly those are handed on to execution that are later
/// than all of their clients before.
pub proof fn later_requests_are_dispatched<Op>(
    state: DispatcherState,
    requests: Seq<Request<Op>>,
    request: Request<Op>,
)
    ensures
        after_requests(state, requests).take(request.client_id, request.client_seq).1 == is_later(
            state.seqs,
            requests,
            requests.len() as int,
            request,
        ),
{
    lemma_dispatched_seqs(state, requests);
    let before = after_requests(state, requests);
    let id = request.client_id;
    if is_later(state.seqs, requests, requests.len() as int, request) {
        if before.seqs.contains_key(id) && request.client_seq <= before.seqs[id] {
            if !(state.seqs.contains_key(id) && state.seqs[id] == before.seqs[id]) {
                let i = choose|i: int|
                    0 <= i < requests.len() && (#[trigger] requests[i]).client_id == id
                        && requests[i].client_seq == before.seqs[id];
                assert(requests[i].client_seq < request.client_seq);
            }
        }
    } else {
        if !(state.seqs.contains_key(id) ==> state.seqs[id] < request.client_seq) {
            assert(before.seqs.contains_key(id));
        } else {
            let j = choose|j: int|
                0 <= j < requests.len() && (#[trigger] requests[j]).client_id == id
                    && !(requests[j].client_seq < request.client_seq);
            assert(requests[j].client_seq <= before.seqs[id]);
        }
    }
}

} // verus!
