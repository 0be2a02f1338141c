//! A log that is known in advance.
use super::{Replicated, ReplicatedLogs, ReplicationState};
use crate::state::{Action, Duration, Never, State};
use std::collections::VecDeque;
use vstd::prelude::*;

verus! {

/// Replays a log in batches.
pub struct ReplayReplica<L> {
    logs: VecDeque<L>,
    batch_size: usize,
}

/// The mathematical content of a [`ReplayReplica`].
#[verifier::ext_equal]
pub struct ReplayState<L> {
    pub logs: Seq<L>,
    pub batch_size: usize,
}

impl<L: View> View for ReplayReplica<L> {
    type V = ReplayState<L::V>;

    closed spec fn view(&self) -> ReplayState<L::V> {
        ReplayState {
            logs: self.logs@.map_values(|log: L| log@),
            batch_size: self.batch_size,
        }
    }
}

impl<L> ReplayState<L> {
    /// How many entries the next batch has.
    pub open spec fn batch_len(self) -> int {
        if self.logs.len() <= self.batch_size {
            self.logs.len() as int
        } else {
            self.batch_size as int
        }
    }
}

impl<L: View> ReplayReplica<L> {
    /// A replica that replays a log.
    pub fn new(logs: VecDeque<L>, batch_size: usize) -> (replica: Self)
        ensures
            replica.inv(),
            replica@ == (ReplayState { logs: logs@.map_values(|log: L| log@), batch_size }),
    {
        ReplayReplica { logs, batch_size }
    }
}

impl<L: View> State for ReplayReplica<L> {
    type Effect = Never;

    type Output = Replicated<L, ()>;

    type Message = Never;

    open spec fn inv(&self) -> bool {
        true
    }

    open spec fn proceed_spec(state: ReplayState<L::V>, since_start: Duration) -> (
        ReplayState<L::V>,
        Action<Never, ReplicatedLogs<L::V, ()>>,
    ) {
        let n = state.batch_len();
        if n == 0 {
            (state, Action::Pending(None))
        } else {
            (
                ReplayState { logs: state.logs.subrange(n, state.logs.len() as int), ..state },
                Action::Output(
                    ReplicatedLogs { logs: state.logs.subrange(0, n), metadata: () },
                ),
            )
        }
    }

    open spec fn receive_spec(state: ReplayState<L::V>, message: Never) -> ReplayState<L::V> {
        state
    }

    fn proceed(&mut self, since_start: Duration) -> (action: Action<Never, Replicated<L, ()>>) {
        let ghost before = self@;
        let ghost all = self.logs@;
        let mut logs: Vec<L> = Vec::new();
        while logs.len() < self.batch_size && self.logs.len() > 0
            invariant
                logs@.len() <= self.batch_size,
                logs@.len() + self.logs@.len() == all.len(),
                logs@ == all.subrange(0, logs@.len() as int),
                self.logs@ == all.subrange(logs@.len() as int, all.len() as int),
                self.batch_size == before.batch_size,
            decreases self.logs@.len(),
        {
            let log = self.logs.pop_front().unwrap();
            logs.push(log);
        }
        let ghost n = before.batch_len();
        assert(logs@.len() == n);
        assert(self@.logs =~= before.logs.subrange(n, before.logs.len() as int));
        if logs.len() == 0 {
            assert(self@ =~= before);
            let action = Action::Pending(None);
            assert(action@ == Action::<Never, ReplicatedLogs<L::V, ()>>::Pending(None));
            return action;
        }
        let replicated = Replicated { logs, metadata: () };
        assert(replicated@.logs =~= before.logs.subrange(0, n));
        assert(self@ =~= ReplayState {
            logs: before.logs.subrange(n, before.logs.len() as int),
            ..before
        });
        Action::Output(replicated)
    }

    fn receive(&mut self, message: Never) {
    }
}

/// Entries cannot be added to the log: they are ignored.
impl<L: View> ReplicationState<L> for ReplayReplica<L> {
    type Metadata = ();

    open spec fn submit_spec(state: ReplayState<L::V>, log: L::V) -> ReplayState<L::V> {
        state
    }

    fn submit(&mut self, log: L) {
    }
}

/// Replaying takes nothing out of order: a batch and what is left make up what
/// was there.
pub proof fn replays_in_order<L>(state: ReplayState<L>)
    ensures
        ({
            let n = state.batch_len();
            state.logs.subrange(0, n) + state.logs.subrange(n, state.logs.len() as int)
                == state.logs
        }),
        state.batch_len() <= state.batch_size,
{
    let n = state.batch_len();
    assert(state.logs.subrange(0, n) + state.logs.subrange(n, state.logs.len() as int)
        =~= state.logs);
}

} // verus!
