//! A single server that orders entries as they come.
use super::{Dest, Replicated, ReplicatedLogs, ReplicationState};
use crate::app::AppProtocol;
use crate::seq_map::{has_seq, with_seq, without_seq, SeqMap};
use crate::service::{ClientId, ClientSeq, Reply, Request};
use crate::state::{Action, Duration, Never, State};
use crate::workload::ClientState;
use vstd::prelude::*;

verus! {

/// Orders entries as they come.
pub struct UnreplicatedReplica<T> {
    submit_buffer: Vec<T>,
}

impl<T: View> View for UnreplicatedReplica<T> {
    type V = Seq<T::V>;

    closed spec fn view(&self) -> Seq<T::V> {
        self.submit_buffer@.map_values(|entry: T| entry@)
    }
}

impl<T: View> UnreplicatedReplica<T> {
    /// A replica without entries.
    pub fn new() -> (replica: Self)
        ensures
            replica.inv(),
            replica@ == Seq::<T::V>::empty(),
    {
        let replica = UnreplicatedReplica { submit_buffer: Vec::new() };
        assert(replica@ =~= Seq::empty());
        replica
    }
}

impl<T: View> Default for UnreplicatedReplica<T> {
    fn default() -> (replica: Self)
        ensures
            replica.inv(),
            replica@ == Seq::<T::V>::empty(),
    {
        Self::new()
    }
}

impl<T: View> State for UnreplicatedReplica<T> {
    type Effect = Never;

    type Output = Replicated<T, ()>;

    type Message = Never;

    open spec fn inv(&self) -> bool {
        true
    }

    open spec fn proceed_spec(state: Seq<T::V>, since_start: Duration) -> (
        Seq<T::V>,
        Action<Never, ReplicatedLogs<T::V, ()>>,
    ) {
        if state.len() == 0 {
            (state, Action::Pending(None))
        } else {
            (Seq::empty(), Action::Output(ReplicatedLogs { logs: state, metadata: () }))
        }
    }

    open spec fn receive_spec(state: Seq<T::V>, message: Never) -> Seq<T::V> {
        state
    }

    fn proceed(&mut self, since_start: Duration) -> (action: Action<Never, Replicated<T, ()>>) {
        if self.submit_buffer.len() == 0 {
            let action = Action::Pending(None);
            assert(self@.len() == 0);
            assert(action@ == Action::<Never, ReplicatedLogs<T::V, ()>>::Pending(None));
            return action;
        }
        let mut logs: Vec<T> = Vec::new();
        std::mem::swap(&mut self.submit_buffer, &mut logs);
        assert(self@ =~= Seq::empty());
        Action::Output(Replicated { logs, metadata: () })
    }

    fn receive(&mut self, message: Never) {
    }
}

impl<T: View> ReplicationState<T> for UnreplicatedReplica<T> {
    type Metadata = ();

    open spec fn submit_spec(state: Seq<T::V>, entry: T::V) -> Seq<T::V> {
        state.push(entry)
    }

    fn submit(&mut self, entry: T) {
        self.submit_buffer.push(entry);
        assert(self@ =~= old(self)@.push(entry@));
    }
}

/// The parameters of a client.
#[derive(Debug, Clone, Copy)]
pub struct UnreplicatedClientConfig {
    /// After which time a request is given up.
    pub timeout: Duration,
}

/// A client of a single server.
pub struct UnreplicatedClient<A: AppProtocol> {
    id: ClientId,
    config: UnreplicatedClientConfig,
    seq: ClientSeq,
    // when requests are given up, by their numbers
    submits: SeqMap<Duration>,
    submit_buffer: Vec<(ClientSeq, A::Op)>,
    receive_buffer: Vec<Reply<A::Res, ()>>,
}

/// The mathematical content of an [`UnreplicatedClient`].
#[verifier::ext_equal]
pub struct ClientSession<Op, Res> {
    pub id: ClientId,
    pub timeout: Duration,
    /// The number of the last request.
    pub seq: ClientSeq,
    /// When the requests under way are given up, by their numbers.
    pub submits: Seq<(u64, Duration)>,
    /// Requests that are not sent yet. The last one is sent first.
    pub to_send: Seq<(ClientSeq, Op)>,
    /// Replies that are not looked at yet. The last one is looked at first.
    pub received: Seq<Reply<Res, ()>>,
}

impl<A: AppProtocol> View for UnreplicatedClient<A> {
    type V = ClientSession<<A::Op as View>::V, <A::Res as View>::V>;

    closed spec fn view(&self) -> ClientSession<<A::Op as View>::V, <A::Res as View>::V> {
        ClientSession {
            id: self.id,
            timeout: self.config.timeout,
            seq: self.seq,
            submits: self.submits@,
            to_send: self.submit_buffer@.map_values(
                |entry: (ClientSeq, A::Op)| (entry.0, entry.1@),
            ),
            received: self.receive_buffer@.map_values(|reply: Reply<A::Res, ()>| reply@),
        }
    }
}

impl<Op, Res> ClientSession<Op, Res> {
    /// A client that has sent nothing yet.
    pub open spec fn initial(id: ClientId, config: UnreplicatedClientConfig) -> Self {
        ClientSession {
            id,
            timeout: config.timeout,
            seq: 0,
            submits: Seq::empty(),
            to_send: Seq::empty(),
            received: Seq::empty(),
        }
    }

    /// Numbers an operation. After the last number, nothing is taken any more.
    pub open spec fn submit(self, op: Op) -> (Self, ClientSeq) {
        if self.seq == u64::MAX {
            (self, self.seq)
        } else {
            let seq = (self.seq + 1) as ClientSeq;
            (ClientSession { seq, to_send: self.to_send.push((seq, op)), ..self }, seq)
        }
    }

    /// Looks at replies until one is for a request under way. Others are
    /// dropped.
    pub open spec fn without_strays(self) -> Self
        decreases self.received.len(),
    {
        if self.received.len() == 0 || has_seq(self.submits, self.received.last().client_seq) {
            self
        } else {
            ClientSession { received: self.received.drop_last(), ..self }.without_strays()
        }
    }

    /// Gives up the requests whose time is over, from the first on.
    pub open spec fn expired(self, now: Duration) -> Self
        decreases self.submits.len(),
    {
        if self.submits.len() > 0 && self.submits[0].1.nanos <= now.nanos {
            ClientSession { submits: self.submits.drop_first(), ..self }.expired(now)
        } else {
            self
        }
    }

    /// Sends the next request.
    pub open spec fn proceed_send(self, now: Duration) -> (
        Self,
        Action<(Dest, Request<Op>), (ClientSeq, Res)>,
    ) {
        let (seq, op) = self.to_send.last();
        (
            ClientSession {
                submits: with_seq(self.submits, seq, now.plus_spec(self.timeout)),
                to_send: self.to_send.drop_last(),
                ..self
            },
            Action::Perform(
                (Dest::One(0), Request { client_id: self.id, client_seq: seq, op }),
            ),
        )
    }

    pub open spec fn proceed(self, now: Duration) -> (
        Self,
        Action<(Dest, Request<Op>), (ClientSeq, Res)>,
    ) {
        let looked = self.without_strays();
        if looked.received.len() > 0 {
            let reply = looked.received.last();
            (
                ClientSession {
                    submits: without_seq(looked.submits, reply.client_seq),
                    received: looked.received.drop_last(),
                    ..looked
                },
                Action::Output((reply.client_seq, reply.res)),
            )
        } else if looked.to_send.len() > 0 {
            looked.proceed_send(now)
        } else {
            let waiting = looked.expired(now);
            (
                waiting,
                if waiting.submits.len() > 0 {
                    Action::Pending(
                        Some(
                            Duration { nanos: (waiting.submits[0].1.nanos - now.nanos) as u128 },
                        ),
                    )
                } else {
                    Action::Pending(None)
                },
            )
        }
    }
}

impl<A: AppProtocol> UnreplicatedClient<A> {
    /// What every client keeps to.
    pub closed spec fn wf(&self) -> bool {
        self.submits.wf()
    }

    /// A client that has sent nothing yet.
    pub fn new(id: ClientId, config: UnreplicatedClientConfig) -> (client: Self)
        ensures
            client.wf(),
            client@ == ClientSession::<<A::Op as View>::V, <A::Res as View>::V>::initial(
                id,
                config,
            ),
    {
        let client = UnreplicatedClient {
            id,
            config,
            seq: 0,
            submits: SeqMap::new(),
            submit_buffer: Vec::new(),
            receive_buffer: Vec::new(),
        };
        proof {
            assert(client@.to_send =~= Seq::empty());
            assert(client@.received =~= Seq::empty());
        }
        client
    }

    /// Looks at replies until one is for a request under way.
    fn next_reply(&mut self) -> (reply: Option<Reply<A::Res, ()>>)
        requires
            old(self).wf(),
        ensures
            final(self).wf(),
            ({
                let looked = old(self)@.without_strays();
                match reply {
                    Some(reply) => {
                        &&& looked.received.len() > 0
                        &&& reply@ == looked.received.last()
                        &&& final(self)@ == ClientSession {
                            submits: without_seq(looked.submits, reply.client_seq),
                            received: looked.received.drop_last(),
                            ..looked
                        }
                    },
                    None => looked.received.len() == 0 && final(self)@ == looked,
                }
            }),
    {
        while self.receive_buffer.len() > 0
            invariant
                self.wf(),
                self@.without_strays() == old(self)@.without_strays(),
            decreases self.receive_buffer@.len(),
        {
            let ghost before = self@;
            let reply = self.receive_buffer.pop().unwrap();
            assert(before.received.last() == reply@);
            assert(self@.received =~= before.received.drop_last());
            assert(self@ =~= ClientSession { received: before.received.drop_last(), ..before });
            match self.submits.remove(reply.client_seq) {
                Some(_) => {
                    assert(self@ =~= ClientSession {
                        submits: without_seq(before.submits, reply.client_seq),
                        received: before.received.drop_last(),
                        ..before
                    });
                    return Some(reply);
                },
                None => {
                    assert(self@ =~= ClientSession {
                        received: before.received.drop_last(),
                        ..before
                    });
                },
            }
        }
        assert(self@.received.len() == 0);
        None
    }

    /// Gives up the requests whose time is over.
    fn expire(&mut self, now: Duration)
        requires
            old(self).wf(),
        ensures
            final(self).wf(),
            final(self)@ == old(self)@.expired(now),
    {
        loop
            invariant
                self.wf(),
                self@.expired(now) == old(self)@.expired(now),
            decreases self@.submits.len(),
        {
            let ghost before = self@;
            let over = match self.submits.first() {
                Some(first) => first.1.nanos <= now.nanos,
                None => false,
            };
            if !over {
                return;
            }
            let _ = self.submits.pop_first();
            assert(self@ =~= ClientSession { submits: before.submits.drop_first(), ..before });
        }
    }
}

impl<A: AppProtocol> State for UnreplicatedClient<A> {
    type Effect = (Dest, Request<A::Op>);

    type Output = (ClientSeq, A::Res);

    type Message = Reply<A::Res, ()>;

    open spec fn inv(&self) -> bool {
        self.wf()
    }

    open spec fn proceed_spec(state: Self::V, since_start: Duration) -> (
        Self::V,
        Action<(Dest, Request<<A::Op as View>::V>), (ClientSeq, <A::Res as View>::V)>,
    ) {
        state.proceed(since_start)
    }

    open spec fn receive_spec(state: Self::V, message: Reply<<A::Res as View>::V, ()>) -> Self::V {
        ClientSession { received: state.received.push(message), ..state }
    }

    fn proceed(&mut self, since_start: Duration) -> (action: Action<
        (Dest, Request<A::Op>),
        (ClientSeq, A::Res),
    >) {
        match self.next_reply() {
            Some(reply) => {
                let output = (reply.client_seq, reply.res);
                assert(output@ == (reply@.client_seq, reply@.res));
                return Action::Output(output);
            },
            None => {},
        }
        let ghost looked = self@;
        match self.submit_buffer.pop() {
            Some((seq, op)) => {
                assert(looked.to_send.last() == (seq, op@));
                self.submits.insert(seq, since_start.plus(self.config.timeout));
                assert(self@.to_send =~= looked.to_send.drop_last());
                let request = Request { client_id: self.id, client_seq: seq, op };
                let effect = (Dest::One(0), request);
                assert(effect@ == (Dest::One(0), request@));
                assert(self@ =~= looked.proceed_send(since_start).0);
                return Action::Perform(effect);
            },
            None => {
                assert(self@.to_send =~= looked.to_send);
                assert(self@ =~= looked);
            },
        }
        self.expire(since_start);
        proof {
            lemma_expired(looked, since_start);
        }
        match self.submits.first() {
            Some(first) => Action::Pending(
                Some(Duration { nanos: first.1.nanos - since_start.nanos }),
            ),
            None => Action::Pending(None),
        }
    }

    fn receive(&mut self, message: Reply<A::Res, ()>) {
        let ghost before = self@;
        self.receive_buffer.push(message);
        assert(self@.received =~= before.received.push(message@));
        assert(self@ =~= ClientSession { received: before.received.push(message@), ..before });
    }
}

impl<A: AppProtocol> ClientState<A> for UnreplicatedClient<A> {
    open spec fn submit_spec(state: Self::V, op: <A::Op as View>::V) -> (Self::V, ClientSeq) {
        state.submit(op)
    }

    fn submit(&mut self, op: A::Op) -> (seq: ClientSeq) {
        let ghost before = self@;
        if self.seq == u64::MAX {
            return self.seq;
        }
        self.seq = self.seq + 1;
        self.submit_buffer.push((self.seq, op));
        assert(self@.to_send =~= before.to_send.push((self.seq, op@)));
        assert(self@ =~= before.submit(op@).0);
        self.seq
    }
}

/// A result is handed out only for a request that is under way, and only once:
/// afterwards that request is not under way any more.
pub proof fn results_are_for_requests<Op, Res>(session: ClientSession<Op, Res>, now: Duration)
    requires
        crate::seq_map::ascending(session.submits),
    ensures
        session.proceed(now).1 matches Action::Output((seq, _)) ==> has_seq(session.submits, seq)
            && !has_seq(session.proceed(now).0.submits, seq),
{
    lemma_strays(session);
    match session.proceed(now).1 {
        Action::Output((seq, _)) => {
            let looked = session.without_strays();
            crate::seq_map::rank_splits(looked.submits, seq);
            let after = without_seq(looked.submits, seq);
            assert(crate::seq_map::ascending(after));
            crate::seq_map::rank_splits(after, seq);
            if has_seq(after, seq) {
                let i = crate::seq_map::rank(after, seq);
                let at = crate::seq_map::rank(looked.submits, seq);
                let j = if i < at {
                    i
                } else {
                    i + 1
                };
                assert(looked.submits[j] == after[i]);
                assert(looked.submits[at].0 == seq);
            }
        },
        _ => {},
    }
}

/// What is still under way is not over.
proof fn lemma_expired<Op, Res>(session: ClientSession<Op, Res>, now: Duration)
    ensures
        session.expired(now).submits.len() > 0 ==> session.expired(now).submits[0].1.nanos
            > now.nanos,
    decreases session.submits.len(),
{
    if session.submits.len() > 0 && session.submits[0].1.nanos <= now.nanos {
        lemma_expired(
            ClientSession { submits: session.submits.drop_first(), ..session },
            now,
        );
    }
}

proof fn lemma_strays<Op, Res>(session: ClientSession<Op, Res>)
    ensures
        session.without_strays().submits == session.submits,
        session.without_strays().received.len() > 0 ==> has_seq(
            session.submits,
            session.without_strays().received.last().client_seq,
        ),
    decreases session.received.len(),
{
    if session.received.len() == 0 || has_seq(
        session.submits,
        session.received.last().client_seq,
    ) {
    } else {
        lemma_strays(ClientSession { received: session.received.drop_last(), ..session });
    }
}

} // verus!
