//! Services: what clients talk to.
use crate::app::AppProtocol;
use crate::shared::Bytes;
use crate::state::{Duplicate, State};
use vstd::prelude::*;

pub mod big;
pub mod big2;
pub mod unsharded;
pub mod unsharded_laws;

verus! {

/// Identifies a server. Indices are assigned statically, while identifiers are
/// dynamic.
pub type ServiceIndex = u16;

/// Identifies a client. Identifiers carry no order.
pub type ClientId = u32;

/// Orders the requests of one client: a greater number comes later.
pub type ClientSeq = u64;

/// What a service asks for: to answer a client, or something on the way to
/// that.
#[derive(Debug)]
pub enum Effect<R, S> {
    Reply(ClientId, R),
    Intermediate(S),
}

impl<R: View, S: View> View for Effect<R, S> {
    type V = Effect<R::V, S::V>;

    open spec fn view(&self) -> Effect<R::V, S::V> {
        match *self {
            Effect::Reply(client_id, reply) => Effect::Reply(client_id, reply@),
            Effect::Intermediate(effect) => Effect::Intermediate(effect@),
        }
    }
}

/// Where a message goes. `N` stands for a list of servers.
#[derive(Debug, Clone)]
pub enum Dest<N = Vec<ServiceIndex>> {
    One(ServiceIndex),
    Multi(N),
    All,
}

impl View for Dest {
    type V = Dest<Seq<ServiceIndex>>;

    open spec fn view(&self) -> Dest<Seq<ServiceIndex>> {
        match *self {
            Dest::One(index) => Dest::One(index),
            Dest::Multi(indices) => Dest::Multi(indices@),
            Dest::All => Dest::All,
        }
    }
}

impl Dest {
    /// Whether a message goes to a server. A server sends nothing to itself,
    /// unless it names itself alone.
    pub open spec fn reaches(
        self,
        sender: ServiceIndex,
        num_service: ServiceIndex,
        index: ServiceIndex,
    ) -> bool {
        match self {
            Dest::One(one) => index == one,
            Dest::Multi(indices) => index != sender && indices@.contains(index),
            Dest::All => index != sender && index < num_service,
        }
    }

    /// The servers that a message goes to, in order.
    pub fn indices(&self, sender: ServiceIndex, num_service: ServiceIndex) -> (indices: Vec<
        ServiceIndex,
    >)
        ensures
            forall|index: ServiceIndex| #[trigger]
                indices@.contains(index) <==> self.reaches(sender, num_service, index),
            *self matches Dest::One(one) ==> indices@ == seq![one],
            *self matches Dest::Multi(multi) ==> indices@ == multi@.filter(
                |index: ServiceIndex| index != sender,
            ),
            *self is All ==> forall|i: int, j: int|
                0 <= i < j < indices@.len() ==> indices@[i] < indices@[j],
    {
        let mut indices: Vec<ServiceIndex> = Vec::new();
        match self {
            Dest::One(one) => {
                indices.push(*one);
                assert(indices@[0] == *one);
                assert(indices@ =~= seq![*one]);
            },
            Dest::Multi(multi) => {
                let mut i: usize = 0;
                let ghost other = |index: ServiceIndex| index != sender;
                assert(multi@.subrange(0, 0).filter(other) =~= Seq::empty()) by {
                    reveal(Seq::filter);
                }
                while i < multi.len()
                    invariant
                        i <= multi@.len(),
                        other == (|index: ServiceIndex| index != sender),
                        indices@ == multi@.subrange(0, i as int).filter(other),
                    decreases multi@.len() - i,
                {
                    proof {
                        assert(multi@.subrange(0, i + 1).drop_last() =~= multi@.subrange(
                            0,
                            i as int,
                        ));
                        reveal(Seq::filter);
                    }
                    if multi[i] != sender {
                        indices.push(multi[i]);
                    }
                    i += 1;
                }
                proof {
                    assert(multi@.subrange(0, i as int) =~= multi@);
                    assert forall|index: ServiceIndex| #[trigger]
                        indices@.contains(index) <==> index != sender && multi@.contains(index) by {
                        if indices@.contains(index) {
                            let k = indices@.index_of(index);
                            multi@.lemma_filter_pred(other, k);
                            multi@.lemma_filter_contains_rev(other, index);
                        }
                        if index != sender && multi@.contains(index) {
                            let k = multi@.index_of(index);
                            multi@.lemma_filter_contains(other, k);
                        }
                    }
                }
            },
            Dest::All => {
                let mut index: ServiceIndex = 0;
                while index < num_service
                    invariant
                        index <= num_service,
                        forall|other: ServiceIndex| #[trigger]
                            indices@.contains(other) <==> other != sender && other < index,
                        forall|i: int, j: int|
                            0 <= i < j < indices@.len() ==> indices@[i] < indices@[j],
                    decreases num_service - index,
                {
                    if index != sender {
                        let ghost before = indices@;
                        indices.push(index);
                        proof {
                            assert forall|other: ServiceIndex| #[trigger]
                                indices@.contains(other) <==> before.contains(other) || other
                                == index by {
                                if before.contains(other) {
                                    assert(indices@[before.index_of(other)] == other);
                                }
                                assert(indices@[before.len() as int] == index);
                            }
                            assert forall|i: int| 0 <= i < before.len() implies before[i]
                                < index by {
                                assert(before.contains(before[i]));
                            }
                        }
                    }
                    index += 1;
                }
            },
        }
        indices
    }
}

/// What the local store is asked to do. `K` stands for a name, `B` for a byte
/// string.
#[derive(Debug, Clone)]
pub enum Store<K = String, B = Bytes> {
    /// Read a value.
    Get(K),
    /// Write a value.
    Put(K, B),
    /// Forget a value.
    Delete(K),
}

impl View for Store {
    type V = Store<Seq<char>, Seq<u8>>;

    open spec fn view(&self) -> Store<Seq<char>, Seq<u8>> {
        match *self {
            Store::Get(name) => Store::Get(name@),
            Store::Put(name, value) => Store::Put(name@, (*value)@),
            Store::Delete(name) => Store::Delete(name@),
        }
    }
}

/// What a service is told: a client's request, or something on the way.
#[derive(Debug)]
pub enum Message<R, M> {
    Request(R),
    Intermediate(M),
}

impl<R: View, M: View> View for Message<R, M> {
    type V = Message<R::V, M::V>;

    open spec fn view(&self) -> Message<R::V, M::V> {
        match *self {
            Message::Request(request) => Message::Request(request@),
            Message::Intermediate(message) => Message::Intermediate(message@),
        }
    }
}

/// A client's request.
#[derive(Debug, Clone)]
pub struct Request<Op> {
    pub client_id: ClientId,
    pub client_seq: ClientSeq,
    pub op: Op,
}

impl<Op: View> View for Request<Op> {
    type V = Request<Op::V>;

    open spec fn view(&self) -> Request<Op::V> {
        Request { client_id: self.client_id, client_seq: self.client_seq, op: self.op@ }
    }
}

/// The answer to a request.
#[derive(Debug, Clone)]
pub struct Reply<Res, D> {
    pub client_seq: ClientSeq,
    pub res: Res,
    pub metadata: D,
}

impl<Res: View, D: View> View for Reply<Res, D> {
    type V = Reply<Res::V, D::V>;

    open spec fn view(&self) -> Reply<Res::V, D::V> {
        Reply { client_seq: self.client_seq, res: self.res@, metadata: self.metadata@ }
    }
}

/// What to do about a request, given the number of the client's last answered
/// request.
#[derive(Debug, Clone, Copy, PartialEq, Eq)]
pub enum Admission {
    /// A later request was answered already.
    Ignore,
    /// This very request was answered last: send the answer again.
    Resend,
    /// The request is new.
    Submit,
}

pub open spec fn admission_spec(last: Option<ClientSeq>, client_seq: ClientSeq) -> Admission {
    match last {
        Some(seq) => if seq > client_seq {
            Admission::Ignore
        } else if seq == client_seq {
            Admission::Resend
        } else {
            Admission::Submit
        },
        None => Admission::Submit,
    }
}

/// What to do about a request, given the number of the client's last answered
/// request.
pub fn admission(last: Option<ClientSeq>, client_seq: ClientSeq) -> (admission: Admission)
    ensures
        admission == admission_spec(last, client_seq),
{
    match last {
        Some(seq) => if seq > client_seq {
            Admission::Ignore
        } else if seq == client_seq {
            Admission::Resend
        } else {
            Admission::Submit
        },
        None => Admission::Submit,
    }
}

impl<Res: Duplicate, D: Duplicate> Duplicate for Reply<Res, D> {
    fn duplicate(&self) -> (copy: Self) {
        Reply {
            client_seq: self.client_seq,
            res: self.res.duplicate(),
            metadata: self.metadata.duplicate(),
        }
    }
}

/// A service for an application, with a local store.
pub trait ServiceState<A: AppProtocol>: State<
    Effect = Effect<Reply<A::Res, Self::Metadata>, Self::ServiceEffect>,
    Message = Message<Request<A::Op>, Self::ServiceMessage>,
> {
    type ServiceEffect: View;

    type ServiceMessage: View;

    type Metadata: Duplicate;

    spec fn get_complete_spec(state: Self::V, name: Seq<char>, value: Seq<u8>) -> Self::V;

    spec fn put_complete_spec(state: Self::V, name: Seq<char>) -> Self::V;

    /// The local store has read a value.
    fn get_complete(&mut self, name: String, value: Bytes)
        requires
            old(self).inv(),
        ensures
            final(self).inv(),
            final(self)@ == Self::get_complete_spec(old(self)@, name@, (*value)@),
    ;

    /// The local store has written a value.
    fn put_complete(&mut self, name: String)
        requires
            old(self).inv(),
        ensures
            final(self).inv(),
            final(self)@ == Self::put_complete_spec(old(self)@, name@),
    ;
}

} // verus!
