//! A workload that takes the place of clients and replication.
use super::{Replicated, ReplicatedLogs, ReplicationState};
use crate::service::{ClientSeq, Request};
use crate::state::{Action, Duration, Never, State};
use crate::workload::WorkloadState;
use vstd::prelude::*;

verus! {

/// Turns the operations of a workload into ordered requests of one client.
pub struct Replica<W> {
    workload: W,
    batch_size: usize,
    seq: ClientSeq,
}

/// The mathematical content of a [`Replica`].
#[verifier::ext_equal]
pub struct InMemoryState<W> {
    pub workload: W,
    pub batch_size: usize,
    /// The number of the last request.
    pub seq: ClientSeq,
}

impl<W: View> View for Replica<W> {
    type V = InMemoryState<W::V>;

    closed spec fn view(&self) -> InMemoryState<W::V> {
        InMemoryState { workload: self.workload@, batch_size: self.batch_size, seq: self.seq }
    }
}

impl<W: View> Replica<W> {
    /// A replica that has not taken any operation yet.
    pub fn new(workload: W, batch_size: usize) -> (replica: Self)
        ensures
            replica@ == (InMemoryState { workload: workload@, batch_size, seq: 0 }),
    {
        Replica { workload, batch_size, seq: 0 }
    }
}

impl<W: WorkloadState<Metadata = ()>> Replica<W> {
    /// Takes operations and numbers them, at most a given number of them. After
    /// the last number, none are taken any more.
    pub open spec fn take_ops(state: InMemoryState<W::V>, count: nat) -> (
        InMemoryState<W::V>,
        Seq<Request<<W::Op as View>::V>>,
    )
        decreases count,
    {
        if count == 0 || state.seq == u64::MAX {
            (state, Seq::empty())
        } else {
            let (workload, next) = W::next_op_spec(state.workload);
            match next {
                None => (InMemoryState { workload, ..state }, Seq::empty()),
                Some((op, _)) => {
                    let seq = (state.seq + 1) as ClientSeq;
                    let (rest, requests) = Self::take_ops(
                        InMemoryState { workload, seq, ..state },
                        (count - 1) as nat,
                    );
                    (rest, seq![Request { client_id: 0, client_seq: seq, op }] + requests)
                },
            }
        }
    }
}

impl<W: WorkloadState<Metadata = ()>> State for Replica<W> {
    type Effect = Never;

    type Output = Replicated<Request<W::Op>, ()>;

    type Message = Never;

    open spec fn inv(&self) -> bool {
        true
    }

    open spec fn proceed_spec(state: InMemoryState<W::V>, since_start: Duration) -> (
        InMemoryState<W::V>,
        Action<Never, ReplicatedLogs<Request<<W::Op as View>::V>, ()>>,
    ) {
        let (next, logs) = Self::take_ops(state, state.batch_size as nat);
        (
            next,
            if logs.len() == 0 {
                Action::Pending(None)
            } else {
                Action::Output(ReplicatedLogs { logs, metadata: () })
            },
        )
    }

    open spec fn receive_spec(state: InMemoryState<W::V>, message: Never) -> InMemoryState<W::V> {
        state
    }

    fn proceed(&mut self, since_start: Duration) -> (action: Action<
        Never,
        Replicated<Request<W::Op>, ()>,
    >) {
        let ghost before = self@;
        let ghost whole = Self::take_ops(before, before.batch_size as nat);
        let mut logs: Vec<Request<W::Op>> = Vec::new();
        let mut count: usize = self.batch_size;
        let mut ended = false;
        assert(logs@.map_values(|request: Request<W::Op>| request@) + whole.1 =~= whole.1);
        while count > 0 && !ended && self.seq < u64::MAX
            invariant
                !ended ==> ({
                    let rest = Self::take_ops(self@, count as nat);
                    &&& whole.0 == rest.0
                    &&& whole.1 == logs@.map_values(|request: Request<W::Op>| request@) + rest.1
                }),
                ended ==> whole.0 == self@ && whole.1 == logs@.map_values(
                    |request: Request<W::Op>| request@,
                ),
            decreases count,
        {
            let ghost this = self@;
            let ghost done = logs@.map_values(|request: Request<W::Op>| request@);
            let ghost rest = Self::take_ops(this, count as nat);
            match self.workload.next_op() {
                None => {
                    ended = true;
                    proof {
                        assert(self@ =~= rest.0);
                        assert(done + Seq::<Request<<W::Op as View>::V>>::empty() =~= done);
                    }
                },
                Some((op, _)) => {
                    self.seq = self.seq + 1;
                    let request = Request { client_id: 0, client_seq: self.seq, op };
                    logs.push(request);
                    proof {
                        let after = logs@.map_values(|request: Request<W::Op>| request@);
                        assert(after =~= done.push(request@));
                        let next = Self::take_ops(self@, (count - 1) as nat);
                        assert(rest.1 == seq![request@] + next.1);
                        assert(done + (seq![request@] + next.1) =~= after + next.1);
                    }
                },
            }
            count -= 1;
        }
        proof {
            let done = logs@.map_values(|request: Request<W::Op>| request@);
            assert(done + Seq::<Request<<W::Op as View>::V>>::empty() =~= done);
        }
        if logs.len() == 0 {
            let action = Action::Pending(None);
            assert(action@ == Action::<
                Never,
                ReplicatedLogs<Request<<W::Op as View>::V>, ()>,
            >::Pending(None));
            return action;
        }
        Action::Output(Replicated { logs, metadata: () })
    }

    fn receive(&mut self, message: Never) {
    }
}

/// Requests come from the workload alone: others are ignored.
impl<W: WorkloadState<Metadata = ()>> ReplicationState<Request<W::Op>> for Replica<W> {
    type Metadata = ();

    open spec fn submit_spec(
        state: InMemoryState<W::V>,
        request: Request<<W::Op as View>::V>,
    ) -> InMemoryState<W::V> {
        state
    }

    fn submit(&mut self, request: Request<W::Op>) {
    }
}

/// Requests are numbered one after the other, without gaps.
pub proof fn numbered_without_gaps<W: WorkloadState<Metadata = ()>>(
    state: InMemoryState<W::V>,
    count: nat,
)
    ensures
        ({
            let (after, requests) = Replica::<W>::take_ops(state, count);
            &&& requests.len() <= count
            &&& after.seq == state.seq + requests.len()
            &&& forall|i: int|
                0 <= i < requests.len() ==> (#[trigger] requests[i]).client_seq == state.seq + 1
                    + i && requests[i].client_id == 0
        }),
    decreases count,
{
    if count == 0 || state.seq == u64::MAX {
    } else {
        let (workload, next) = W::next_op_spec(state.workload);
        match next {
            None => {},
            Some((op, _)) => {
                let seq = (state.seq + 1) as ClientSeq;
                let moved = InMemoryState { workload, seq, ..state };
                numbered_without_gaps::<W>(moved, (count - 1) as nat);
                let (after, rest) = Replica::<W>::take_ops(moved, (count - 1) as nat);
                let first = Request { client_id: 0, client_seq: seq, op };
                let requests = seq![first] + rest;
                assert forall|i: int| 0 <= i < requests.len() implies (
                #[trigger] requests[i]).client_seq == state.seq + 1 + i && requests[i].client_id
                    == 0 by {
                    if i > 0 {
                        assert(requests[i] == rest[i - 1]);
                    }
                }
            },
        }
    }
}

} // verus!
