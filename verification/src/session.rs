//! What a server remembers of its clients, and a client of its requests.
use crate::service::{ClientId, ClientSeq, Request};
use std::collections::{HashMap, HashSet};
use vstd::prelude::*;

verus! {

broadcast use vstd::std_specs::hash::group_hash_axioms;

/// The number of the last request of each client that was executed.
pub struct ClientSeqs {
    seqs: HashMap<ClientId, ClientSeq>,
}

impl View for ClientSeqs {
    type V = Map<ClientId, ClientSeq>;

    closed spec fn view(&self) -> Map<ClientId, ClientSeq> {
        self.seqs@
    }
}

/// Whether a request is later than all of its client before.
pub open spec fn is_new(seqs: Map<ClientId, ClientSeq>, client_id: ClientId, seq: ClientSeq) -> bool {
    !seqs.contains_key(client_id) || seqs[client_id] < seq
}

impl ClientSeqs {
    /// Nothing was executed yet.
    pub fn new() -> (seqs: Self)
        ensures
            seqs@ == Map::<ClientId, ClientSeq>::empty(),
    {
        ClientSeqs { seqs: HashMap::new() }
    }

    /// Whether an ordered request is to be executed: only if it is later than
    /// all of its client before. Then it is remembered.
    pub fn take_in(&mut self, client_id: ClientId, seq: ClientSeq) -> (taken: bool)
        ensures
            taken == is_new(old(self)@, client_id, seq),
            final(self)@ == if taken {
                old(self)@.insert(client_id, seq)
            } else {
                old(self)@
            },
    {
        match self.seqs.get(&client_id) {
            Some(last) => {
                if *last >= seq {
                    return false;
                }
            },
            None => {},
        }
        self.seqs.insert(client_id, seq);
        true
    }
}

/// The requests of a client that are under way.
pub struct OpenRequests {
    id: ClientId,
    seq: ClientSeq,
    waiting: HashSet<ClientSeq>,
}

/// The mathematical content of [`OpenRequests`].
#[verifier::ext_equal]
pub struct OpenRequestsState {
    pub id: ClientId,
    /// The number of the last request.
    pub seq: ClientSeq,
    /// The numbers of the requests that wait for a reply.
    pub waiting: Set<ClientSeq>,
}

impl View for OpenRequests {
    type V = OpenRequestsState;

    closed spec fn view(&self) -> OpenRequestsState {
        OpenRequestsState { id: self.id, seq: self.seq, waiting: self.waiting@ }
    }
}

impl OpenRequestsState {
    /// Requests are numbered from one on.
    pub open spec fn wf(self) -> bool {
        forall|seq: ClientSeq| #[trigger] self.waiting.contains(seq) ==> 0 < seq <= self.seq
    }

    /// Numbers a request.
    pub open spec fn invoke(self) -> OpenRequestsState {
        let seq = (self.seq + 1) as ClientSeq;
        OpenRequestsState { seq, waiting: self.waiting.insert(seq), ..self }
    }

    /// Numbers some requests, one after the other.
    pub open spec fn invoke_all(self, num: nat) -> OpenRequestsState
        decreases num,
    {
        if num == 0 {
            self
        } else {
            self.invoke_all((num - 1) as nat).invoke()
        }
    }

    /// Does not wait for a request any more.
    pub open spec fn settle(self, seq: ClientSeq) -> OpenRequestsState {
        OpenRequestsState { waiting: self.waiting.remove(seq), ..self }
    }
}

impl OpenRequests {
    /// A client without requests.
    pub fn new(id: ClientId) -> (requests: Self)
        ensures
            requests@ == (OpenRequestsState { id, seq: 0, waiting: Set::empty() }),
            requests@.wf(),
    {
        let requests = OpenRequests { id, seq: 0, waiting: HashSet::new() };
        assert(requests@.waiting =~= Set::empty());
        requests
    }

    /// Makes an operation a request, unless the client has run out of numbers.
    pub fn invoke<Op>(&mut self, op: Op) -> (request: Option<Request<Op>>)
        requires
            old(self)@.wf(),
        ensures
            final(self)@.wf(),
            if old(self)@.seq == ClientSeq::MAX {
                request is None && final(self)@ == old(self)@
            } else {
                &&& request == Some(
                    (Request {
                        client_id: old(self)@.id,
                        client_seq: (old(self)@.seq + 1) as ClientSeq,
                        op,
                    }),
                )
                &&& final(self)@ == old(self)@.invoke()
            },
    {
        if self.seq == ClientSeq::MAX {
            return None;
        }
        self.seq = self.seq + 1;
        self.waiting.insert(self.seq);
        assert(self@ =~= old(self)@.invoke());
        Some(Request { client_id: self.id, client_seq: self.seq, op })
    }

    /// Takes a reply, and says whether it was waited for.
    pub fn reply(&mut self, seq: ClientSeq) -> (expected: bool)
        requires
            old(self)@.wf(),
        ensures
            final(self)@.wf(),
            expected == old(self)@.waiting.contains(seq),
            final(self)@ == old(self)@.settle(seq),
    {
        let expected = self.waiting.remove(&seq);
        assert(self@ =~= old(self)@.settle(seq));
        expected
    }
}

/// Every request gets a number that none before it had.
pub proof fn numbers_are_fresh(state: OpenRequestsState)
    requires
        state.wf(),
        state.seq < ClientSeq::MAX,
    ensures
        !state.waiting.contains(state.invoke().seq),
        state.invoke().waiting.contains(state.invoke().seq),
        state.invoke().seq > state.seq,
        state.invoke().wf(),
{
}

/// A request gets one reply: after that, or once it was given up, another one
/// is not expected, however many requests were made meanwhile.
pub proof fn replied_once(state: OpenRequestsState, seq: ClientSeq, num: nat)
    requires
        state.wf(),
        state.waiting.contains(seq),
        state.seq + num <= ClientSeq::MAX,
    ensures
        !state.settle(seq).invoke_all(num).waiting.contains(seq),
        state.settle(seq).invoke_all(num).seq == state.seq + num,
    decreases num,
{
    if num > 0 {
        replied_once(state, seq, (num - 1) as nat);
    }
}

/// A request is taken in once: the same one, or an earlier one of the client,
/// is not taken in again.
pub proof fn taken_once(
    seqs: Map<ClientId, ClientSeq>,
    client_id: ClientId,
    seq: ClientSeq,
    again: ClientSeq,
)
    requires
        again <= seq,
    ensures
        !is_new(seqs.insert(client_id, seq), client_id, again),
{
}

} // verus!
