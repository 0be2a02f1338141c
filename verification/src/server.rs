//! The decisions of servers: which requests to execute, and whom to answer.
use crate::app::AppState;
use crate::command::Command;
use crate::pbft::message::Reply as CommandReply;
use crate::pbft::{ReplicaId, ViewNum};
use crate::replication::Replicated;
use crate::service::big2::BigServiceLog;
use crate::service::{
    admission, admission_spec, Admission, ClientId, ClientSeq, Reply, Request,
};
use crate::session::{is_new, ClientSeqs};
use crate::shared::reversed;
use crate::state::Duplicate;
use crate::unreplicated::{CommandReply as KitReply, ServiceKit};
use std::collections::HashSet;
use vstd::prelude::*;

verus! {

broadcast use vstd::std_specs::hash::group_hash_axioms;

/// The session of one client: the last reply it was sent.
pub struct Session<Res, D> {
    last_reply: Option<Reply<Res, D>>,
}

/// What to do about a request of a session's client. `R` stands for a reply.
#[derive(Debug)]
pub enum SessionStep<R> {
    /// A later request was answered already.
    Ignore,
    /// Send the last reply again.
    Resend(R),
    /// The request is new.
    Submit,
}

impl<R: View> View for SessionStep<R> {
    type V = SessionStep<R::V>;

    open spec fn view(&self) -> SessionStep<R::V> {
        match *self {
            SessionStep::Ignore => SessionStep::Ignore,
            SessionStep::Resend(reply) => SessionStep::Resend(reply@),
            SessionStep::Submit => SessionStep::Submit,
        }
    }
}

impl<Res: View, D: View> View for Session<Res, D> {
    type V = Option<Reply<Res::V, D::V>>;

    closed spec fn view(&self) -> Option<Reply<Res::V, D::V>> {
        match self.last_reply {
            Some(reply) => Some(reply@),
            None => None,
        }
    }
}

/// What to do about a request, given the last reply.
pub open spec fn session_step<Res, D>(last: Option<Reply<Res, D>>, client_seq: ClientSeq) -> SessionStep<
    Reply<Res, D>,
> {
    match last {
        None => SessionStep::Submit,
        Some(reply) => match admission_spec(Some(reply.client_seq), client_seq) {
            Admission::Ignore => SessionStep::Ignore,
            Admission::Resend => SessionStep::Resend(reply),
            Admission::Submit => SessionStep::Submit,
        },
    }
}

impl<Res: Duplicate, D: Duplicate> Session<Res, D> {
    /// The session of a client that was sent nothing yet.
    pub fn new() -> (session: Self)
        ensures
            session@ is None,
    {
        Session { last_reply: None }
    }

    /// What to do about a request of the client.
    pub fn request(&self, client_seq: ClientSeq) -> (step: SessionStep<Reply<Res, D>>)
        ensures
            step@ == session_step(self@, client_seq),
    {
        match &self.last_reply {
            None => SessionStep::Submit,
            Some(reply) => match admission(Some(reply.client_seq), client_seq) {
                Admission::Ignore => SessionStep::Ignore,
                Admission::Resend => SessionStep::Resend(reply.duplicate()),
                Admission::Submit => SessionStep::Submit,
            },
        }
    }

    /// Takes note of a reply that the client is sent.
    pub fn reply(&mut self, reply: &Reply<Res, D>)
        ensures
            final(self)@ == Some(reply@),
    {
        self.last_reply = Some(reply.duplicate());
    }
}

/// Executes ordered requests on an application that keeps its state to itself,
/// and answers the clients that are connected.
pub struct UnshardedServer<A: AppState> {
    app: A,
    client_seqs: ClientSeqs,
    clients: HashSet<ClientId>,
}

/// The mathematical content of an [`UnshardedServer`].
#[verifier::ext_equal]
pub struct UnshardedServerState<A> {
    pub app: A,
    /// The number of the last request of each client that was executed.
    pub seqs: Map<ClientId, ClientSeq>,
    /// The clients that are connected.
    pub clients: Set<ClientId>,
}

impl<A: AppState> View for UnshardedServer<A> {
    type V = UnshardedServerState<A::V>;

    closed spec fn view(&self) -> UnshardedServerState<A::V> {
        UnshardedServerState {
            app: self.app@,
            seqs: self.client_seqs@,
            clients: self.clients@,
        }
    }
}

/// The content of replies with their clients.
pub open spec fn replies_view<Res: View, D: View>(
    replies: Seq<(ClientId, Reply<Res, D>)>,
) -> Seq<(ClientId, Reply<Res::V, D::V>)> {
    replies.map_values(|entry: (ClientId, Reply<Res, D>)| (entry.0, entry.1@))
}

impl<A: AppState> UnshardedServer<A> {
    /// Executes a request that is later than all of its client before, and
    /// answers the client if it is connected.
    pub open spec fn execute_one<D>(
        state: UnshardedServerState<A::V>,
        request: Request<<A::Op as View>::V>,
        metadata: D,
    ) -> (UnshardedServerState<A::V>, Seq<(ClientId, Reply<<A::Res as View>::V, D>)>) {
        if !is_new(state.seqs, request.client_id, request.client_seq) {
            (state, Seq::empty())
        } else {
            let (app, res) = A::execute_spec(state.app, request.op);
            let reply = Reply { client_seq: request.client_seq, res, metadata };
            (
                UnshardedServerState {
                    app,
                    seqs: state.seqs.insert(request.client_id, request.client_seq),
                    ..state
                },
                if state.clients.contains(request.client_id) {
                    seq![(request.client_id, reply)]
                } else {
                    Seq::empty()
                },
            )
        }
    }

    /// Executes requests in order.
    pub open spec fn execute_all<D>(
        state: UnshardedServerState<A::V>,
        requests: Seq<Request<<A::Op as View>::V>>,
        metadata: D,
    ) -> (UnshardedServerState<A::V>, Seq<(ClientId, Reply<<A::Res as View>::V, D>)>)
        decreases requests.len(),
    {
        if requests.len() == 0 {
            (state, Seq::empty())
        } else {
            let (before, replies) = Self::execute_all(state, requests.drop_last(), metadata);
            let (after, more) = Self::execute_one(before, requests.last(), metadata);
            (after, replies + more)
        }
    }

    /// A server without clients.
    pub fn new(app: A) -> (server: Self)
        ensures
            server@ == (UnshardedServerState {
                app: app@,
                seqs: Map::empty(),
                clients: Set::empty(),
            }),
    {
        let server = UnshardedServer {
            app,
            client_seqs: ClientSeqs::new(),
            clients: HashSet::new(),
        };
        assert(server@.clients =~= Set::empty());
        server
    }

    /// A client has connected.
    pub fn accept(&mut self, client_id: ClientId)
        ensures
            final(self)@ == (UnshardedServerState {
                clients: old(self)@.clients.insert(client_id),
                ..old(self)@
            }),
    {
        self.clients.insert(client_id);
        assert(self@.clients =~= old(self)@.clients.insert(client_id));
    }

    /// A client has gone.
    pub fn close(&mut self, client_id: ClientId)
        ensures
            final(self)@ == (UnshardedServerState {
                clients: old(self)@.clients.remove(client_id),
                ..old(self)@
            }),
    {
        self.clients.remove(&client_id);
        assert(self@.clients =~= old(self)@.clients.remove(client_id));
    }

    /// Executes ordered requests, and gives the replies to be sent.
    pub fn replicated<D: Duplicate>(&mut self, replicated: Replicated<Request<A::Op>, D>) -> (
        replies: Vec<(ClientId, Reply<A::Res, D>)>)
        ensures
            (final(self)@, replies_view(replies@)) == Self::execute_all(
                old(self)@,
                replicated@.logs,
                replicated@.metadata,
            ),
    {
        let ghost requests = replicated@.logs;
        let ghost len = requests.len() as int;
        let metadata = replicated.metadata;
        let mut rest = reversed(replicated.logs);
        let mut replies: Vec<(ClientId, Reply<A::Res, D>)> = Vec::new();
        assert(requests.subrange(0, 0) =~= Seq::empty());
        assert(replies_view(replies@) =~= Seq::empty());
        while rest.len() > 0
            invariant
                0 <= rest@.len() <= len,
                len == requests.len(),
                forall|i: int|
                    0 <= i < rest@.len() ==> (#[trigger] rest@[i])@ == requests[len - 1 - i],
                (self@, replies_view(replies@)) == Self::execute_all(
                    old(self)@,
                    requests.subrange(0, len - rest@.len()),
                    metadata@,
                ),
            decreases rest@.len(),
        {
            let ghost done = len - rest@.len();
            let ghost before = self@;
            let ghost so_far = replies_view(replies@);
            assert(rest@[rest@.len() - 1]@ == requests[done]);
            assert(requests.subrange(0, done + 1).drop_last() =~= requests.subrange(0, done));
            assert(requests.subrange(0, done + 1).last() == requests[done]);
            let request = rest.pop().unwrap();
            let client_id: ClientId = request.client_id;
            let ghost step = Self::execute_one(before, request@, metadata@);
            if self.client_seqs.take_in(client_id, request.client_seq) {
                let reply = Reply {
                    client_seq: request.client_seq,
                    res: self.app.execute(request.op),
                    metadata: metadata.duplicate(),
                };
                if self.clients.contains(&client_id) {
                    replies.push((client_id, reply));
                    assert(replies_view(replies@) =~= so_far.push((client_id, reply@)));
                    assert(so_far.push((client_id, reply@)) =~= so_far + step.1);
                } else {
                    assert(so_far + step.1 =~= so_far);
                }
            } else {
                assert(so_far + step.1 =~= so_far);
            }
            assert(self@ =~= step.0);
        }
        assert(requests.subrange(0, len) =~= requests);
        replies
    }
}

/// What to do about an ordered entry. `Q` stands for a request, `M` for a
/// message of storage.
pub enum Dispatch<Q, M> {
    /// Hand the message to storage.
    Order(M),
    /// The request, or a later one of its client, was executed already.
    Ignore,
    /// Execute the request, and answer the client if it is connected.
    Execute(Q, bool),
}

/// Hands ordered entries on to execution and to storage.
pub struct Dispatcher {
    client_seqs: ClientSeqs,
    clients: HashSet<ClientId>,
}

/// The mathematical content of a [`Dispatcher`].
#[verifier::ext_equal]
pub struct DispatcherState {
    /// The number of the last request of each client that was handed on.
    pub seqs: Map<ClientId, ClientSeq>,
    /// The clients that are connected.
    pub clients: Set<ClientId>,
}

impl View for Dispatcher {
    type V = DispatcherState;

    closed spec fn view(&self) -> DispatcherState {
        DispatcherState { seqs: self.client_seqs@, clients: self.clients@ }
    }
}

impl DispatcherState {
    /// Takes note of an ordered request, and says whether it is to be executed.
    pub open spec fn take(self, client_id: ClientId, client_seq: ClientSeq) -> (
        DispatcherState,
        bool,
    ) {
        if is_new(self.seqs, client_id, client_seq) {
            (DispatcherState { seqs: self.seqs.insert(client_id, client_seq), ..self }, true)
        } else {
            (self, false)
        }
    }
}

impl Dispatcher {
    /// A dispatcher without clients.
    pub fn new() -> (dispatcher: Self)
        ensures
            dispatcher@ == (DispatcherState { seqs: Map::empty(), clients: Set::empty() }),
    {
        let dispatcher = Dispatcher { client_seqs: ClientSeqs::new(), clients: HashSet::new() };
        assert(dispatcher@.clients =~= Set::empty());
        dispatcher
    }

    /// A client has connected.
    pub fn accept(&mut self, client_id: ClientId)
        ensures
            final(self)@ == (DispatcherState {
                clients: old(self)@.clients.insert(client_id),
                ..old(self)@
            }),
    {
        self.clients.insert(client_id);
        assert(self@.clients =~= old(self)@.clients.insert(client_id));
    }

    /// A client has gone.
    pub fn close(&mut self, client_id: ClientId)
        ensures
            final(self)@ == (DispatcherState {
                clients: old(self)@.clients.remove(client_id),
                ..old(self)@
            }),
    {
        self.clients.remove(&client_id);
        assert(self@.clients =~= old(self)@.clients.remove(client_id));
    }

    /// What to do about an ordered entry.
    pub fn dispatch<Op, M>(&mut self, log: BigServiceLog<Op, M>) -> (dispatch: Dispatch<
        Request<Op>,
        M,
    >)
        ensures
            match log {
                BigServiceLog::StorageOrder(message) => {
                    &&& dispatch == Dispatch::<Request<Op>, M>::Order(message)
                    &&& final(self)@ == old(self)@
                },
                BigServiceLog::Request(request) => if is_new(
                    old(self)@.seqs,
                    request.client_id,
                    request.client_seq,
                ) {
                    &&& dispatch == Dispatch::<Request<Op>, M>::Execute(
                        request,
                        old(self)@.clients.contains(request.client_id),
                    )
                    &&& final(self)@ == DispatcherState {
                        seqs: old(self)@.seqs.insert(request.client_id, request.client_seq),
                        ..old(self)@
                    }
                } else {
                    &&& dispatch == Dispatch::<Request<Op>, M>::Ignore
                    &&& final(self)@ == old(self)@
                },
            },
            log matches BigServiceLog::Request(request) ==> (
                final(self)@,
                dispatch is Execute,
            ) == old(self)@.take(request.client_id, request.client_seq),
    {
        match log {
            BigServiceLog::StorageOrder(message) => Dispatch::Order(message),
            BigServiceLog::Request(request) => {
                if self.client_seqs.take_in(request.client_id, request.client_seq) {
                    let connected = self.clients.contains(&request.client_id);
                    Dispatch::Execute(request, connected)
                } else {
                    Dispatch::Ignore
                }
            },
        }
    }
}

/// Answers finalized commands with nothing, every one of them.
pub struct CommandServer {
    replica_id: ReplicaId,
    clients: HashSet<ClientId>,
}

/// The mathematical content of a [`CommandServer`].
#[verifier::ext_equal]
pub struct CommandServerState {
    pub replica_id: ReplicaId,
    /// The clients that are connected.
    pub clients: Set<ClientId>,
}

impl View for CommandServer {
    type V = CommandServerState;

    closed spec fn view(&self) -> CommandServerState {
        CommandServerState { replica_id: self.replica_id, clients: self.clients@ }
    }
}

/// Whether a reply is the answer to a command: it has no result.
pub open spec fn answers(
    reply: CommandReply,
    seq: ClientSeq,
    view_num: ViewNum,
    replica_id: ReplicaId,
) -> bool {
    &&& reply.seq == seq
    &&& reply.view_num == view_num
    &&& reply.replica_id == replica_id
    &&& reply.result@.len() == 0
}

/// The replies to be sent, and the first client that has none of them because it
/// is not connected. After that client nobody is answered.
pub struct Finalized<R> {
    pub replies: Vec<(ClientId, R)>,
    pub unreachable: Option<ClientId>,
}

impl CommandServerState {
    /// The number of commands before the first whose client is not connected.
    pub open spec fn num_reachable(self, commands: Seq<Command>) -> int
        decreases commands.len(),
    {
        if commands.len() == 0 || !self.clients.contains(commands[0].client_id.0) {
            0
        } else {
            1 + self.num_reachable(commands.drop_first())
        }
    }
}

impl CommandServer {
    /// A server without clients.
    pub fn new(replica_id: ReplicaId) -> (server: Self)
        ensures
            server@ == (CommandServerState { replica_id, clients: Set::empty() }),
    {
        let server = CommandServer { replica_id, clients: HashSet::new() };
        assert(server@.clients =~= Set::empty());
        server
    }

    /// A client has connected; one that was connected already is refused.
    pub fn accept(&mut self, client_id: ClientId) -> (accepted: bool)
        ensures
            accepted == !old(self)@.clients.contains(client_id),
            final(self)@ == (CommandServerState {
                clients: old(self)@.clients.insert(client_id),
                ..old(self)@
            }),
    {
        let accepted = self.clients.insert(client_id);
        assert(self@.clients =~= old(self)@.clients.insert(client_id));
        accepted
    }

    /// Answers finalized commands, every one of them, up to the first whose
    /// client is not connected.
    pub fn finalized(&self, commands: &Vec<Command>, view_num: ViewNum) -> (finalized: Finalized<
        CommandReply,
    >)
        ensures
            finalized.replies@.len() == self@.num_reachable(commands@),
            0 <= self@.num_reachable(commands@) <= commands@.len(),
            forall|i: int|
                0 <= i < finalized.replies@.len() ==> (#[trigger] finalized.replies@[i]).0
                    == commands@[i].client_id.0 && answers(
                    finalized.replies@[i].1,
                    commands@[i].seq,
                    view_num,
                    self@.replica_id,
                ),
            finalized.unreachable == if self@.num_reachable(commands@) < commands@.len() {
                Some(commands@[self@.num_reachable(commands@)].client_id.0)
            } else {
                None
            },
    {
        let mut replies: Vec<(ClientId, CommandReply)> = Vec::new();
        let mut i: usize = 0;
        assert(commands@.subrange(0, commands@.len() as int) =~= commands@);
        while i < commands.len()
            invariant
                i <= commands@.len(),
                self@.num_reachable(commands@) == i + self@.num_reachable(
                    commands@.subrange(i as int, commands@.len() as int),
                ),
                replies@.len() == i,
                forall|j: int|
                    0 <= j < i ==> (#[trigger] replies@[j]).0 == commands@[j].client_id.0
                        && answers(replies@[j].1, commands@[j].seq, view_num, self@.replica_id),
            decreases commands@.len() - i,
        {
            let ghost rest = commands@.subrange(i as int, commands@.len() as int);
            assert(rest[0] == commands@[i as int]);
            assert(rest.drop_first() =~= commands@.subrange(i + 1, commands@.len() as int));
            let command = &commands[i];
            let id: ClientId = command.client_id.0;
            if !self.clients.contains(&id) {
                return Finalized { replies, unreachable: Some(id) };
            }
            replies.push(
                (
                    id,
                    CommandReply {
                        seq: command.seq,
                        view_num,
                        result: Vec::new(),
                        replica_id: self.replica_id,
                    },
                ),
            );
            i += 1;
        }
        Finalized { replies, unreachable: None }
    }
}

/// What to do about a command.
#[derive(Debug)]
pub enum CommandStep<R> {
    /// A later command of the client was answered already.
    Ignore,
    /// Send the last reply again.
    Resend(R),
    /// The last reply would have to be sent again, but the client is not
    /// connected.
    Unreachable,
    /// The command is new.
    Submit,
}

/// What to do about a finalized command.
#[derive(Debug)]
pub enum FinalizedStep<R> {
    /// It, or a later one of its client, was answered already.
    Ignore,
    /// Answer it.
    Answer(R),
    /// It would have to be answered, but the client is not connected.
    Unreachable,
}

/// Answers finalized commands with nothing, each once, and remembers the last
/// reply to each client.
pub struct ServiceTask {
    kit: ServiceKit,
    clients: HashSet<ClientId>,
}

/// The mathematical content of a [`ServiceTask`].
#[verifier::ext_equal]
pub struct ServiceTaskState {
    /// The number of the last command of each client that was answered.
    pub replies: Map<ClientId, ClientSeq>,
    /// The clients that are connected.
    pub clients: Set<ClientId>,
}

impl View for ServiceTask {
    type V = ServiceTaskState;

    closed spec fn view(&self) -> ServiceTaskState {
        ServiceTaskState { replies: self.kit@, clients: self.clients@ }
    }
}

impl ServiceTaskState {
    /// Whether a command, or a later one of its client, was answered.
    pub open spec fn answered(self, command: Command) -> bool {
        let id = command.client_id.0;
        self.replies.contains_key(id) && self.replies[id] >= command.seq
    }

    /// Takes note of the answer to a command, unless it, or a later one, was
    /// answered.
    pub open spec fn finalize(self, command: Command) -> ServiceTaskState {
        if self.answered(command) {
            self
        } else {
            ServiceTaskState {
                replies: self.replies.insert(command.client_id.0, command.seq),
                ..self
            }
        }
    }
}

impl ServiceTask {
    /// A server that has answered nothing yet.
    pub fn new() -> (task: Self)
        ensures
            task@ == (ServiceTaskState { replies: Map::empty(), clients: Set::empty() }),
    {
        let task = ServiceTask { kit: ServiceKit::new(), clients: HashSet::new() };
        assert(task@.clients =~= Set::empty());
        task
    }

    /// A client has connected; one that was connected already is refused.
    pub fn accept(&mut self, client_id: ClientId) -> (accepted: bool)
        ensures
            accepted == !old(self)@.clients.contains(client_id),
            final(self)@ == (ServiceTaskState {
                clients: old(self)@.clients.insert(client_id),
                ..old(self)@
            }),
    {
        let accepted = self.clients.insert(client_id);
        assert(self@.clients =~= old(self)@.clients.insert(client_id));
        accepted
    }

    /// What to do about a command.
    pub fn command(&self, command: &Command) -> (step: CommandStep<KitReply>)
        ensures
            ({
                let id = command.client_id.0;
                let last = if self@.replies.contains_key(id) {
                    Some(self@.replies[id])
                } else {
                    None
                };
                match admission_spec(last, command.seq) {
                    Admission::Ignore => step is Ignore,
                    Admission::Resend => if self@.clients.contains(id) {
                        step matches CommandStep::Resend(reply) && reply.seq == command.seq
                            && reply.result@.len() == 0
                    } else {
                        step is Unreachable
                    },
                    Admission::Submit => step is Submit,
                }
            }),
    {
        let id: ClientId = command.client_id.0;
        match admission(self.kit.last_seq(id), command.seq) {
            Admission::Ignore => CommandStep::Ignore,
            Admission::Submit => CommandStep::Submit,
            Admission::Resend => if self.clients.contains(&id) {
                match self.kit.last_reply(id) {
                    Some(reply) => CommandStep::Resend(reply),
                    None => CommandStep::Submit,
                }
            } else {
                CommandStep::Unreachable
            },
        }
    }

    /// What to do about a finalized command.
    pub fn finalized(&mut self, command: &Command) -> (step: FinalizedStep<KitReply>)
        ensures
            final(self)@ == old(self)@.finalize(*command),
            if old(self)@.answered(*command) {
                step is Ignore
            } else if old(self)@.clients.contains(command.client_id.0) {
                step matches FinalizedStep::Answer(reply) && reply.seq == command.seq
                    && reply.result@.len() == 0
            } else {
                step is Unreachable
            },
    {
        let ghost before = self@;
        match self.kit.on_finalized(command) {
            None => FinalizedStep::Ignore,
            Some((id, reply)) => {
                assert(self@ =~= before.finalize(*command));
                if self.clients.contains(&id) {
                    FinalizedStep::Answer(reply)
                } else {
                    FinalizedStep::Unreachable
                }
            },
        }
    }
}

/// A command is answered once: once it is finalized, it is not answered again,
/// whatever else was finalized meanwhile, and is never submitted again.
pub proof fn answered_once(state: ServiceTaskState, command: Command, other: Command)
    ensures
        state.finalize(command).answered(command),
        state.answered(command) ==> state.finalize(other).answered(command),
        state.answered(command) ==> !(admission_spec(
            Some(state.replies[command.client_id.0]),
            command.seq,
        ) is Submit),
{
}

/// A request that was executed is not executed again, whoever is connected.
pub proof fn executed_once<A: AppState, D>(
    state: UnshardedServerState<A::V>,
    request: Request<<A::Op as View>::V>,
    metadata: D,
)
    ensures
        ({
            let after = UnshardedServer::<A>::execute_one(state, request, metadata).0;
            UnshardedServer::<A>::execute_one(after, request, metadata) == (
                after,
                Seq::<(ClientId, Reply<<A::Res as View>::V, D>)>::empty(),
            )
        }),
{
}

} // verus!
