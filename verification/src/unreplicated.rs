//! A single server and its clients, driven by a clock.
use crate::app::AppProtocol;
use crate::command::Command;
use crate::seq_map::{has_seq, rank, rank_splits, with_seq, without_seq, SeqMap};
use crate::service::{ClientId, ClientSeq, Reply, Request};
use crate::shared::same_bytes;
use crate::state::{Action, Duration};
use std::collections::HashMap;
use vstd::prelude::*;

verus! {

broadcast use vstd::std_specs::hash::group_hash_axioms;

/// The parameters of a client.
#[derive(Debug, Clone, Copy)]
pub struct ClientConfig {
    /// After which time a request is given up.
    pub timeout: Duration,
    /// How often the client wants to be told the time.
    pub tick_resolution: Duration,
}

/// A client that is told how time passes.
pub struct Client<A: AppProtocol> {
    id: ClientId,
    config: ClientConfig,
    seq: ClientSeq,
    now: Duration,
    submits: SeqMap<Duration>,
    send_buffer: Vec<Request<A::Op>>,
    output_buffer: Vec<(ClientSeq, A::Res)>,
}

/// The mathematical content of a [`Client`].
#[verifier::ext_equal]
pub struct TickingSession<Op, Res> {
    pub id: ClientId,
    pub config: ClientConfig,
    /// The number of the last request.
    pub seq: ClientSeq,
    pub now: Duration,
    /// When the requests under way are given up, by their numbers.
    pub submits: Seq<(u64, Duration)>,
    /// Requests that are not sent yet. The last one is sent first.
    pub to_send: Seq<Request<Op>>,
    /// Results that are not handed out yet. The last one is handed out first.
    pub outputs: Seq<(ClientSeq, Res)>,
}

impl<A: AppProtocol> View for Client<A> {
    type V = TickingSession<<A::Op as View>::V, <A::Res as View>::V>;

    closed spec fn view(&self) -> TickingSession<<A::Op as View>::V, <A::Res as View>::V> {
        TickingSession {
            id: self.id,
            config: self.config,
            seq: self.seq,
            now: self.now,
            submits: self.submits@,
            to_send: self.send_buffer@.map_values(|request: Request<A::Op>| request@),
            outputs: self.output_buffer@.map_values(
                |output: (ClientSeq, A::Res)| (output.0, output.1@),
            ),
        }
    }
}

impl<Op, Res> TickingSession<Op, Res> {
    pub open spec fn initial(id: ClientId, config: ClientConfig) -> Self {
        TickingSession {
            id,
            config,
            seq: 0,
            now: Duration { nanos: 0 },
            submits: Seq::empty(),
            to_send: Seq::empty(),
            outputs: Seq::empty(),
        }
    }

    /// When the client wants to be told the time next: at the latest when the
    /// first request under way is given up.
    pub open spec fn tick_at(self) -> Duration {
        if self.submits.len() > 0 {
            let left: int = if self.submits[0].1.nanos >= self.now.nanos {
                self.submits[0].1.nanos - self.now.nanos
            } else {
                0
            };
            if left < self.config.tick_resolution.nanos {
                Duration { nanos: left as u128 }
            } else {
                self.config.tick_resolution
            }
        } else {
            self.config.tick_resolution
        }
    }

    /// Numbers an operation. After the last number, nothing is taken any more.
    pub open spec fn submit(self, op: Op) -> (Self, ClientSeq) {
        if self.seq == u64::MAX {
            (self, self.seq)
        } else {
            let seq = (self.seq + 1) as ClientSeq;
            let timeout_at = self.now.plus_spec(self.config.timeout).plus_spec(
                self.config.tick_resolution,
            );
            (
                TickingSession {
                    seq,
                    submits: with_seq(self.submits, seq, timeout_at),
                    to_send: self.to_send.push(
                        Request { client_id: self.id, client_seq: seq, op },
                    ),
                    ..self
                },
                seq,
            )
        }
    }

    pub open spec fn proceed(self) -> (Self, Action<Request<Op>, (ClientSeq, Res)>) {
        if self.outputs.len() > 0 {
            (
                TickingSession { outputs: self.outputs.drop_last(), ..self },
                Action::Output(self.outputs.last()),
            )
        } else if self.to_send.len() > 0 {
            (
                TickingSession { to_send: self.to_send.drop_last(), ..self },
                Action::Perform(self.to_send.last()),
            )
        } else {
            (self, Action::Pending(Some(self.tick_at())))
        }
    }

    /// Takes a reply, if it is for a request under way.
    pub open spec fn receive(self, reply: Reply<Res, ()>) -> Self {
        if has_seq(self.submits, reply.client_seq) {
            TickingSession {
                submits: without_seq(self.submits, reply.client_seq),
                outputs: self.outputs.push((reply.client_seq, reply.res)),
                ..self
            }
        } else {
            self
        }
    }

    /// Gives up the requests whose time is over, from the first on.
    pub open spec fn expired(self) -> Self
        decreases self.submits.len(),
    {
        if self.submits.len() > 0 && self.submits[0].1.nanos <= self.now.nanos {
            TickingSession { submits: self.submits.drop_first(), ..self }.expired()
        } else {
            self
        }
    }

    pub open spec fn tick(self, elapsed: Duration) -> Self {
        TickingSession { now: self.now.plus_spec(elapsed), ..self }.expired()
    }
}

impl<A: AppProtocol> Client<A> {
    /// What every client keeps to.
    pub closed spec fn wf(&self) -> bool {
        self.submits.wf()
    }

    /// A client that has sent nothing yet.
    pub fn new(id: ClientId, config: ClientConfig) -> (client: Self)
        ensures
            client.wf(),
            client@ == TickingSession::<<A::Op as View>::V, <A::Res as View>::V>::initial(
                id,
                config,
            ),
    {
        let client = Client {
            id,
            config,
            seq: 0,
            now: Duration::zero(),
            submits: SeqMap::new(),
            send_buffer: Vec::new(),
            output_buffer: Vec::new(),
        };
        proof {
            assert(client@.to_send =~= Seq::empty());
            assert(client@.outputs =~= Seq::empty());
        }
        client
    }

    fn tick_at(&self) -> (tick_at: Duration)
        ensures
            tick_at == self@.tick_at(),
    {
        match self.submits.first() {
            Some(first) => {
                let left: u128 = if first.1.nanos >= self.now.nanos {
                    first.1.nanos - self.now.nanos
                } else {
                    0
                };
                if left < self.config.tick_resolution.nanos {
                    Duration { nanos: left }
                } else {
                    self.config.tick_resolution
                }
            },
            None => self.config.tick_resolution,
        }
    }

    /// Takes an operation to be executed, and numbers it.
    pub fn submit(&mut self, op: A::Op) -> (seq: ClientSeq)
        requires
            old(self).wf(),
        ensures
            final(self).wf(),
            (final(self)@, seq) == old(self)@.submit(op@),
    {
        let ghost before = self@;
        if self.seq == u64::MAX {
            return self.seq;
        }
        self.seq = self.seq + 1;
        let timeout_at = self.now.plus(self.config.timeout).plus(self.config.tick_resolution);
        self.submits.insert(self.seq, timeout_at);
        let request = Request { client_id: self.id, client_seq: self.seq, op };
        self.send_buffer.push(request);
        assert(self@.to_send =~= before.to_send.push(request@));
        assert(self@ =~= before.submit(op@).0);
        self.seq
    }

    /// Takes one step and says what is to be done next.
    pub fn proceed(&mut self) -> (action: Action<Request<A::Op>, (ClientSeq, A::Res)>)
        requires
            old(self).wf(),
        ensures
            final(self).wf(),
            (final(self)@, action@) == old(self)@.proceed(),
    {
        let ghost before = self@;
        match self.output_buffer.pop() {
            Some(output) => {
                assert(before.outputs.last() == output@);
                assert(self@.outputs =~= before.outputs.drop_last());
                assert(self@ =~= TickingSession { outputs: before.outputs.drop_last(), ..before });
                return Action::Output(output);
            },
            None => {
                assert(self@.outputs =~= before.outputs);
                assert(self@ =~= before);
            },
        }
        match self.send_buffer.pop() {
            Some(request) => {
                assert(before.to_send.last() == request@);
                assert(self@.to_send =~= before.to_send.drop_last());
                assert(self@ =~= TickingSession { to_send: before.to_send.drop_last(), ..before });
                Action::Perform(request)
            },
            None => {
                assert(self@.to_send =~= before.to_send);
                assert(self@ =~= before);
                Action::Pending(Some(self.tick_at()))
            },
        }
    }

    /// Takes a reply.
    pub fn receive(&mut self, reply: Reply<A::Res, ()>)
        requires
            old(self).wf(),
        ensures
            final(self).wf(),
            final(self)@ == old(self)@.receive(reply@),
    {
        let ghost before = self@;
        if self.submits.remove(reply.client_seq).is_none() {
            assert(self@ =~= before);
            return;
        }
        self.output_buffer.push((reply.client_seq, reply.res));
        assert(self@.outputs =~= before.outputs.push((reply.client_seq, reply.res@)));
        assert(self@ =~= before.receive(reply@));
    }

    /// Takes note of the time that has passed.
    pub fn tick(&mut self, elapsed: Duration)
        requires
            old(self).wf(),
        ensures
            final(self).wf(),
            final(self)@ == old(self)@.tick(elapsed),
    {
        let ghost before = self@;
        self.now = self.now.plus(elapsed);
        assert(self@ =~= TickingSession { now: before.now.plus_spec(elapsed), ..before });
        loop
            invariant
                self.wf(),
                before == old(self)@,
                self@.expired() == before.tick(elapsed),
            decreases self@.submits.len(),
        {
            let ghost this = self@;
            let over = match self.submits.first() {
                Some(first) => first.1.nanos <= self.now.nanos,
                None => false,
            };
            if !over {
                return;
            }
            let _ = self.submits.pop_first();
            assert(self@ =~= TickingSession { submits: this.submits.drop_first(), ..this });
        }
    }
}

/// Orders requests as they come, one by one.
pub struct Replica<A: AppProtocol> {
    output_buffer: Vec<Request<A::Op>>,
}

impl<A: AppProtocol> View for Replica<A> {
    type V = Seq<Request<<A::Op as View>::V>>;

    closed spec fn view(&self) -> Seq<Request<<A::Op as View>::V>> {
        self.output_buffer@.map_values(|request: Request<A::Op>| request@)
    }
}

impl<A: AppProtocol> Replica<A> {
    /// A replica without requests.
    pub fn new() -> (replica: Self)
        ensures
            replica@ == Seq::<Request<<A::Op as View>::V>>::empty(),
    {
        let replica = Replica { output_buffer: Vec::new() };
        assert(replica@ =~= Seq::empty());
        replica
    }

    /// Takes a request to be ordered.
    pub fn submit(&mut self, request: Request<A::Op>)
        ensures
            final(self)@ == old(self)@.push(request@),
    {
        self.output_buffer.push(request);
        assert(self@ =~= old(self)@.push(request@));
    }

    /// Hands out the last request that was taken, if there is one.
    pub fn proceed(&mut self) -> (request: Option<Request<A::Op>>)
        ensures
            match request {
                Some(request) => old(self)@.len() > 0 && request@ == old(self)@.last() && final(self)@ == old(self)@.drop_last(),
                None => old(self)@.len() == 0 && final(self)@ == old(self)@,
            },
    {
        let ghost before = self@;
        match self.output_buffer.pop() {
            Some(request) => {
                assert(before.last() == request@);
                assert(self@ =~= before.drop_last());
                Some(request)
            },
            None => {
                assert(self@ =~= before);
                None
            },
        }
    }
}

/// The reply of a service that answers every command with nothing.
#[derive(Debug, Clone)]
pub struct CommandReply {
    pub seq: ClientSeq,
    pub result: Vec<u8>,
}

/// A service that answers every command with nothing, once.
pub struct ServiceKit {
    replies: HashMap<u32, ClientSeq>,
}

impl View for ServiceKit {
    type V = Map<u32, ClientSeq>;

    closed spec fn view(&self) -> Map<u32, ClientSeq> {
        self.replies@
    }
}

impl ServiceKit {
    /// A service that has answered nothing yet.
    pub fn new() -> (kit: Self)
        ensures
            kit@ == Map::<u32, ClientSeq>::empty(),
    {
        ServiceKit { replies: HashMap::new() }
    }

    /// The number of the last command of a client that was answered.
    pub fn last_seq(&self, client_id: u32) -> (seq: Option<ClientSeq>)
        ensures
            seq == if self@.contains_key(client_id) {
                Some(self@[client_id])
            } else {
                None
            },
    {
        match self.replies.get(&client_id) {
            Some(seq) => Some(*seq),
            None => None,
        }
    }

    /// The last reply to a client.
    pub fn last_reply(&self, client_id: u32) -> (reply: Option<CommandReply>)
        ensures
            match reply {
                Some(reply) => self@.contains_key(client_id) && reply.seq == self@[client_id]
                    && reply.result@.len() == 0,
                None => !self@.contains_key(client_id),
            },
    {
        match self.replies.get(&client_id) {
            Some(seq) => Some(CommandReply { seq: *seq, result: Vec::new() }),
            None => None,
        }
    }

    /// Answers a finalized command, unless it or a later one of its client was
    /// answered.
    pub fn on_finalized(&mut self, command: &Command) -> (reply: Option<(u32, CommandReply)>)
        ensures
            ({
                let client_id = command.client_id.0;
                if old(self)@.contains_key(client_id) && old(self)@[client_id] >= command.seq {
                    reply is None && final(self)@ == old(self)@
                } else {
                    &&& reply matches Some((id, reply)) && id == client_id && reply.seq
                        == command.seq && reply.result@.len() == 0
                    &&& final(self)@ == old(self)@.insert(client_id, command.seq)
                }
            }),
    {
        let client_id: u32 = command.client_id.0;
        match self.replies.get(&client_id) {
            Some(seq) => {
                if *seq >= command.seq {
                    return None;
                }
            },
            None => {},
        }
        self.replies.insert(client_id, command.seq);
        Some((client_id, CommandReply { seq: command.seq, result: Vec::new() }))
    }
}

/// How a client sends its commands.
#[derive(Debug, Clone, Copy)]
pub enum Pace {
    /// One after the other.
    CloseLoop,
    /// Several at a time. The oldest is given up for one too many.
    OpenLoop(usize),
}

/// What became of a reply.
#[derive(Debug, Clone, Copy, PartialEq, Eq)]
pub enum Settled {
    /// Nothing waits for it.
    Ignored,
    /// The result is as expected.
    Committed,
    /// The result is not as expected.
    Unexpected,
}

/// The commands of a client that are under way, with the results that are
/// expected.
pub struct CommandWindow {
    pace: Pace,
    seq: ClientSeq,
    expected: SeqMap<Option<Vec<u8>>>,
}

/// The mathematical content of a [`CommandWindow`].
#[verifier::ext_equal]
pub struct WindowState {
    pub pace: Pace,
    /// The number of the last command.
    pub seq: ClientSeq,
    pub expected: Seq<(u64, Option<Vec<u8>>)>,
}

impl View for CommandWindow {
    type V = WindowState;

    closed spec fn view(&self) -> WindowState {
        WindowState { pace: self.pace, seq: self.seq, expected: self.expected@ }
    }
}

impl WindowState {
    /// Whether a command may be sent.
    pub open spec fn admits(self) -> bool {
        &&& self.seq < u64::MAX
        &&& self.pace is CloseLoop ==> self.expected.len() == 0
    }

    /// Makes room for one more command.
    pub open spec fn with_room(self) -> WindowState {
        match self.pace {
            Pace::OpenLoop(num_max) => if self.expected.len() == num_max && num_max > 0 {
                WindowState { expected: self.expected.drop_first(), ..self }
            } else {
                self
            },
            Pace::CloseLoop => self,
        }
    }

    /// Takes a command with the result that is expected of it.
    pub open spec fn send(self, expected: Option<Vec<u8>>) -> WindowState {
        let seq = (self.seq + 1) as ClientSeq;
        let room = self.with_room();
        WindowState { seq, expected: with_seq(room.expected, seq, expected), ..room }
    }

    /// What becomes of a reply.
    pub open spec fn settled(self, seq: ClientSeq, result: Seq<u8>) -> Settled {
        if !has_seq(self.expected, seq) {
            Settled::Ignored
        } else {
            match self.expected[rank(self.expected, seq)].1 {
                Some(expected) => if expected@ == result {
                    Settled::Committed
                } else {
                    Settled::Unexpected
                },
                None => Settled::Committed,
            }
        }
    }
}

impl CommandWindow {
    /// What every window keeps to.
    pub closed spec fn wf(&self) -> bool {
        self.expected.wf()
    }

    /// No command is under way.
    pub fn new(pace: Pace) -> (window: Self)
        ensures
            window.wf(),
            window@ == (WindowState { pace, seq: 0, expected: Seq::empty() }),
    {
        CommandWindow { pace, seq: 0, expected: SeqMap::new() }
    }

    /// Numbers a command, if it may be sent, and waits for its reply.
    pub fn send(&mut self, expected: Option<Vec<u8>>) -> (seq: Option<ClientSeq>)
        requires
            old(self).wf(),
        ensures
            final(self).wf(),
            if old(self)@.admits() {
                seq == Some((old(self)@.seq + 1) as ClientSeq) && final(self)@ == old(self)@.send(expected)
            } else {
                seq is None && final(self)@ == old(self)@
            },
    {
        if self.seq == u64::MAX {
            return None;
        }
        match self.pace {
            Pace::CloseLoop => {
                if self.expected.len() > 0 {
                    return None;
                }
            },
            Pace::OpenLoop(num_max) => {
                if self.expected.len() == num_max {
                    let _ = self.expected.pop_first();
                }
            },
        }
        self.seq = self.seq + 1;
        self.expected.insert(self.seq, expected);
        Some(self.seq)
    }

    /// Takes a reply.
    pub fn receive(&mut self, seq: ClientSeq, result: &[u8]) -> (settled: Settled)
        requires
            old(self).wf(),
        ensures
            final(self).wf(),
            settled == old(self)@.settled(seq, result@),
            final(self)@ == (WindowState {
                expected: without_seq(old(self)@.expected, seq),
                ..old(self)@
            }),
    {
        match self.expected.remove(seq) {
            None => Settled::Ignored,
            Some(Some(expected)) => if same_bytes(expected.as_slice(), result) {
                Settled::Committed
            } else {
                Settled::Unexpected
            },
            Some(None) => Settled::Committed,
        }
    }
}

/// No more commands are under way than the pace allows.
pub proof fn window_bounded(state: WindowState, expected: Option<Vec<u8>>)
    requires
        state.admits(),
        crate::seq_map::ascending(state.expected),
        state.pace matches Pace::OpenLoop(num_max) ==> num_max > 0 && state.expected.len()
            <= num_max,
    ensures
        match state.pace {
            Pace::CloseLoop => state.send(expected).expected.len() <= 1,
            Pace::OpenLoop(num_max) => state.send(expected).expected.len() <= num_max,
        },
{
    let room = state.with_room();
    assert(crate::seq_map::ascending(room.expected));
    rank_splits(room.expected, (state.seq + 1) as ClientSeq);
}

} // verus!
