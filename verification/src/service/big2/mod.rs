//! A sharded service that is driven by messages between tasks.
use super::big::big_service::storage_key;
use super::big::config::{Key, StateVersion};
use super::{ClientSeq, Reply, Request};
use crate::app::{
    contents, optional_content, pair_contents, AppProtocol, DataShardingApp,
    DataShardingExecuteOutput, DataShardingExecuteState,
};
use crate::crypto::Digest;
use crate::shared::{reversed, share, Bytes};
use vstd::prelude::*;

pub mod laws;
pub mod names;
pub mod storage;
pub mod storage_laws;

verus! {

/// What the service has ordered: client requests, and messages of its storage.
pub enum BigServiceLog<Op, M> {
    Request(Request<Op>),
    StorageOrder(M),
}

/// What storage answers when it is asked for values.
pub enum FetchResult {
    /// The values of the keys, in order.
    Values(Vec<Option<Bytes>>),
    /// The execution of a number of versions, from the current one on, is to
    /// be skipped.
    Skip(StateVersion),
}

/// The content of values.
pub open spec fn values_content(values: Seq<Option<Bytes>>) -> Seq<Option<Seq<u8>>> {
    values.map_values(|value: Option<Bytes>| optional_content(value))
}

/// A request whose execution has begun.
pub struct ExecuteRequest<E, D> {
    pub state: E,
    pub client_seq: ClientSeq,
    pub metadata: D,
}

impl<E: View, D: View> View for ExecuteRequest<E, D> {
    type V = ExecuteRequest<E::V, D::V>;

    open spec fn view(&self) -> ExecuteRequest<E::V, D::V> {
        ExecuteRequest {
            state: self.state@,
            client_seq: self.client_seq,
            metadata: self.metadata@,
        }
    }
}

/// What an executor asks for. `K` stands for keys, `R` for a reply, `U` for
/// updates.
pub enum ExecuteStep<R, K = Vec<Key>, U = Vec<(Key, Bytes)>> {
    /// Take the next request.
    Next,
    /// Ask storage for the values of some keys.
    Fetch(K),
    /// Answer the client, and have storage start a new version with updates.
    Complete(R, U),
}

/// What storage calls keys.
pub open spec fn storage_keys(keys: Seq<Seq<u8>>) -> Seq<Key> {
    keys.map_values(|key: Seq<u8>| storage_key(key))
}

/// Updates by what storage calls their keys.
pub open spec fn storage_updates(updates: Seq<(Seq<u8>, Seq<u8>)>) -> Seq<(Key, Seq<u8>)> {
    updates.map_values(|update: (Seq<u8>, Seq<u8>)| (storage_key(update.0), update.1))
}

impl<R: View> View for ExecuteStep<R> {
    type V = ExecuteStep<R::V, Seq<Key>, Seq<(Key, Seq<u8>)>>;

    open spec fn view(&self) -> ExecuteStep<R::V, Seq<Key>, Seq<(Key, Seq<u8>)>> {
        match *self {
            ExecuteStep::Next => ExecuteStep::Next,
            ExecuteStep::Fetch(keys) => ExecuteStep::Fetch(keys@),
            ExecuteStep::Complete(reply, updates) => ExecuteStep::Complete(
                reply@,
                super::big::erasure::values_view(updates@),
            ),
        }
    }
}

/// Executes requests one after the other on storage that is asked for values.
pub struct Executor<A: DataShardingApp, D> {
    num_skip_version: StateVersion,
    current: Option<(ExecuteRequest<A::ExecuteState, D>, Vec<Bytes>)>,
}

/// The mathematical content of an [`Executor`].
#[verifier::ext_equal]
pub struct ExecutorState<E, D> {
    /// How many more requests are to be skipped.
    pub num_skip: StateVersion,
    /// The request that waits for values, with their keys.
    pub current: Option<(ExecuteRequest<E, D>, Seq<Seq<u8>>)>,
}

impl<A: DataShardingApp, D: View> View for Executor<A, D> {
    type V = ExecutorState<<A::ExecuteState as View>::V, D::V>;

    closed spec fn view(&self) -> ExecutorState<<A::ExecuteState as View>::V, D::V> {
        ExecutorState {
            num_skip: self.num_skip_version,
            current: match self.current {
                Some((request, keys)) => Some((request@, contents(keys@))),
                None => None,
            },
        }
    }
}

/// The state of an executor.
pub type ExecutorOf<A, D> = <Executor<A, D> as View>::V;

/// What an executor asks for, over the values themselves.
pub type StepOf<A, D> = ExecuteStep<
    Reply<<<A as AppProtocol>::Res as View>::V, <D as View>::V>,
    Seq<Key>,
    Seq<(Key, Seq<u8>)>,
>;

impl<A: DataShardingApp, D: View> Executor<A, D> {
    /// Goes on with a request.
    pub open spec fn run(
        num_skip: StateVersion,
        request: ExecuteRequest<<A::ExecuteState as View>::V, D::V>,
    ) -> (ExecutorOf<A, D>, StepOf<A, D>) {
        let (state, output) = <A::ExecuteState as DataShardingExecuteState>::proceed_spec(
            request.state,
        );
        match output {
            DataShardingExecuteOutput::Pending(keys) => (
                ExecutorState {
                    num_skip,
                    current: Some((ExecuteRequest { state, ..request }, keys)),
                },
                ExecuteStep::Fetch(storage_keys(keys)),
            ),
            DataShardingExecuteOutput::Complete(res, updates) => (
                ExecutorState { num_skip, current: None },
                ExecuteStep::Complete(
                    Reply { client_seq: request.client_seq, res, metadata: request.metadata },
                    storage_updates(updates),
                ),
            ),
        }
    }

    /// Begins with a request, or skips it.
    pub open spec fn begin_spec(
        state: ExecutorOf<A, D>,
        request: ExecuteRequest<<A::ExecuteState as View>::V, D::V>,
    ) -> (ExecutorOf<A, D>, StepOf<A, D>) {
        if state.num_skip > 0 {
            (
                ExecutorState { num_skip: (state.num_skip - 1) as StateVersion, ..state },
                ExecuteStep::Next,
            )
        } else {
            Self::run(state.num_skip, request)
        }
    }

    /// Installs values, as many as there are keys for.
    pub open spec fn install_all(
        execute: <A::ExecuteState as View>::V,
        keys: Seq<Seq<u8>>,
        values: Seq<Option<Seq<u8>>>,
    ) -> <A::ExecuteState as View>::V
        decreases keys.len(),
    {
        if keys.len() == 0 || values.len() == 0 {
            execute
        } else {
            Self::install_all(
                <A::ExecuteState as DataShardingExecuteState>::install_spec(
                    execute,
                    keys[0],
                    values[0],
                ),
                keys.drop_first(),
                values.drop_first(),
            )
        }
    }

    /// Takes the values that were asked for.
    pub open spec fn values_spec(state: ExecutorOf<A, D>, values: Seq<Option<Seq<u8>>>) -> (
        ExecutorOf<A, D>,
        StepOf<A, D>,
    ) {
        match state.current {
            None => (state, ExecuteStep::Next),
            Some((request, keys)) => Self::run(
                state.num_skip,
                ExecuteRequest {
                    state: Self::install_all(request.state, keys, values),
                    ..request
                },
            ),
        }
    }

    /// Gives up the current request and skips more.
    pub open spec fn skip_spec(state: ExecutorOf<A, D>, num_version: StateVersion) -> ExecutorOf<
        A,
        D,
    > {
        ExecutorState { num_skip: (num_version - 1) as StateVersion, current: None }
    }

    /// An executor that has not executed anything yet.
    pub fn new() -> (executor: Self)
        ensures
            executor@ == (ExecutorState {
                num_skip: 0,
                current: None::<
                    (ExecuteRequest<<A::ExecuteState as View>::V, D::V>, Seq<Seq<u8>>),
                >,
            }),
    {
        Executor { num_skip_version: 0, current: None }
    }

    fn proceed(&mut self, request: ExecuteRequest<A::ExecuteState, D>) -> (step: ExecuteStep<
        Reply<A::Res, D>,
    >)
        ensures
            (final(self)@, step@) == Self::run(old(self)@.num_skip, request@),
    {
        let mut request = request;
        match request.state.proceed() {
            DataShardingExecuteOutput::Pending(keys) => {
                let mut asked: Vec<Key> = Vec::new();
                let mut i: usize = 0;
                while i < keys.len()
                    invariant
                        i <= keys@.len(),
                        asked@.len() == i,
                        forall|j: int|
                            0 <= j < i ==> #[trigger] asked@[j] == storage_keys(
                                contents(keys@),
                            )[j],
                    decreases keys@.len() - i,
                {
                    asked.push(Key(Digest::of(keys[i].as_slice()).0));
                    i += 1;
                }
                assert(asked@ =~= storage_keys(contents(keys@)));
                self.current = Some((request, keys));
                ExecuteStep::Fetch(asked)
            },
            DataShardingExecuteOutput::Complete(res, writes) => {
                self.current = None;
                let mut updates: Vec<(Key, Bytes)> = Vec::new();
                let mut i: usize = 0;
                while i < writes.len()
                    invariant
                        i <= writes@.len(),
                        updates@.len() == i,
                        forall|j: int|
                            0 <= j < i ==> ((#[trigger] updates@[j]).0, (*updates@[j].1)@)
                                == storage_updates(pair_contents(writes@))[j],
                    decreases writes@.len() - i,
                {
                    let key = Key(Digest::of(writes[i].0.as_slice()).0);
                    updates.push((key, share(&writes[i].1)));
                    i += 1;
                }
                assert(super::big::erasure::values_view(updates@) =~= storage_updates(
                    pair_contents(writes@),
                ));
                let reply = Reply {
                    client_seq: request.client_seq,
                    res,
                    metadata: request.metadata,
                };
                ExecuteStep::Complete(reply, updates)
            },
        }
    }

    /// Begins with a request, or skips it.
    pub fn begin(&mut self, request: ExecuteRequest<A::ExecuteState, D>) -> (step: ExecuteStep<
        Reply<A::Res, D>,
    >)
        ensures
            (final(self)@, step@) == Self::begin_spec(old(self)@, request@),
    {
        if self.num_skip_version > 0 {
            self.num_skip_version = self.num_skip_version - 1;
            return ExecuteStep::Next;
        }
        self.proceed(request)
    }

    /// Takes the values that were asked for.
    pub fn fetched(&mut self, values: Vec<Option<Bytes>>) -> (step: ExecuteStep<Reply<A::Res, D>>)
        ensures
            (final(self)@, step@) == Self::values_spec(old(self)@, values_content(values@)),
    {
        let mut current: Option<(ExecuteRequest<A::ExecuteState, D>, Vec<Bytes>)> = None;
        std::mem::swap(&mut self.current, &mut current);
        match current {
            None => {
                assert(self@ =~= old(self)@);
                ExecuteStep::Next
            },
            Some((request, keys)) => {
                let mut request = request;
                let ghost start = request.state@;
                let ghost all_keys = contents(keys@);
                let ghost all_values = values_content(values@);
                let ghost goal = Self::install_all(start, all_keys, all_values);
                let mut rest_keys = reversed(keys);
                let mut rest_values = reversed(values);
                let ghost mut done: int = 0;
                assert(all_keys.subrange(0, all_keys.len() as int) =~= all_keys);
                assert(all_values.subrange(0, all_values.len() as int) =~= all_values);
                while rest_keys.len() > 0 && rest_values.len() > 0
                    invariant
                        0 <= done <= all_keys.len(),
                        done <= all_values.len(),
                        rest_keys@.len() == all_keys.len() - done,
                        rest_values@.len() == all_values.len() - done,
                        forall|i: int|
                            0 <= i < rest_keys@.len() ==> (*(#[trigger] rest_keys@[i]))@
                                == all_keys[all_keys.len() - 1 - i],
                        forall|i: int|
                            0 <= i < rest_values@.len() ==> optional_content(
                                #[trigger] rest_values@[i],
                            ) == all_values[all_values.len() - 1 - i],
                        request.client_seq == old(self)@.current->Some_0.0.client_seq,
                        request.metadata@ == old(self)@.current->Some_0.0.metadata,
                        goal == Self::install_all(
                            request.state@,
                            all_keys.subrange(done, all_keys.len() as int),
                            all_values.subrange(done, all_values.len() as int),
                        ),
                    decreases rest_keys@.len(),
                {
                    let ghost ahead_keys = all_keys.subrange(done, all_keys.len() as int);
                    let ghost ahead_values = all_values.subrange(done, all_values.len() as int);
                    assert((*rest_keys@[rest_keys@.len() - 1])@ == all_keys[done]);
                    assert(optional_content(rest_values@[rest_values@.len() - 1])
                        == all_values[done]);
                    let key = rest_keys.pop().unwrap();
                    let value = rest_values.pop().unwrap();
                    request.state.install(key, value);
                    proof {
                        assert(ahead_keys[0] == all_keys[done]);
                        assert(ahead_values[0] == all_values[done]);
                        assert(ahead_keys.drop_first() =~= all_keys.subrange(
                            done + 1,
                            all_keys.len() as int,
                        ));
                        assert(ahead_values.drop_first() =~= all_values.subrange(
                            done + 1,
                            all_values.len() as int,
                        ));
                        done = done + 1;
                    }
                }
                assert(request.state@ == goal);
                self.proceed(request)
            },
        }
    }

    /// Gives up the current request and skips more.
    pub fn skip(&mut self, num_version: StateVersion)
        requires
            num_version > 0,
        ensures
            final(self)@ == Self::skip_spec(old(self)@, num_version),
    {
        // minus the current one
        self.num_skip_version = num_version - 1;
        self.current = None;
    }
}

/// Skipping a number of versions skips exactly that many requests: the current
/// one and those after it, one by one.
pub proof fn skips_as_many<A: DataShardingApp, D: View>(
    state: ExecutorOf<A, D>,
    request: ExecuteRequest<<A::ExecuteState as View>::V, D::V>,
)
    ensures
        state.num_skip > 0 ==> {
            let (after, step) = Executor::<A, D>::begin_spec(state, request);
            step is Next && after.num_skip == state.num_skip - 1
        },
        state.num_skip == 0 ==> !(Executor::<A, D>::begin_spec(state, request).1 is Next),
{
}

} // verus!
