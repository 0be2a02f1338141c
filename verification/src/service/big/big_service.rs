//! A service that executes operations on storage.
use super::cache::{
    cache_get, cache_put, cache_view, can_cache, entry_value, new_cache, put, used, CacheState,
};
use super::config::{Key, StateVersion};
use super::erasure::{values_view, Values};
use super::storage::{
    keys_distinct, StorageState, StorageStateEffect, StorageStateOutput,
};
use crate::app::{
    contents, optional_content, pair_contents, AppProtocol, DataShardingApp,
    DataShardingExecuteOutput, DataShardingExecuteState,
};
use crate::crypto::Digest;
use crate::replication::{Replicated, ReplicationState};
use crate::service::{
    admission, admission_spec, Admission, ClientId, ClientSeq, Effect, Message, Reply, Request,
    ServiceState, Store,
};
use crate::shared::{reversed, share, Bytes};
use crate::state::{sooner, sooner_spec, Action, Duplicate, Duration, Never, State};
use lru::LruCache;
use std::collections::{HashMap, VecDeque};
use vstd::prelude::*;

verus! {

broadcast use vstd::std_specs::hash::group_hash_axioms;

/// The parameters of the service.
#[derive(Debug, Clone, Copy)]
pub struct ServiceConfig {
    /// How many values are cached.
    pub num_cached_value: usize,
    /// How many operations may wait for execution while more are taken.
    pub executing_buffer_size: usize,
}

impl ServiceConfig {
    /// There can be a cache for so many values.
    pub open spec fn wf(self) -> bool {
        can_cache(self.num_cached_value)
    }

    /// Whether the parameters are well-formed.
    pub fn is_wf(&self) -> (is_wf: bool)
        ensures
            is_wf == self.wf(),
    {
        self.num_cached_value <= isize::MAX as usize / 64
    }
}

/// What the service has ordered: client requests, and messages of its storage.
pub enum BigServiceLog<A: AppProtocol, S: StorageState> {
    Request(Request<A::Op>),
    StorageOrderedMessage(S::OrderedMessage),
}

/// The mathematical content of a [`BigServiceLog`].
pub enum LogEntry<Op, M> {
    Request(Request<Op>),
    StorageOrderedMessage(M),
}

impl<A: AppProtocol, S: StorageState> View for BigServiceLog<A, S> {
    type V = LogEntry<<A::Op as View>::V, <S::OrderedMessage as View>::V>;

    open spec fn view(&self) -> LogEntry<<A::Op as View>::V, <S::OrderedMessage as View>::V> {
        match *self {
            BigServiceLog::Request(request) => LogEntry::Request(request@),
            BigServiceLog::StorageOrderedMessage(message) => LogEntry::StorageOrderedMessage(
                message@,
            ),
        }
    }
}

/// What the service asks for on behalf of its parts.
#[derive(Debug)]
pub enum ServiceEffect<R, S> {
    Replication(R),
    Storage(S),
}

impl<R: View, S: View> View for ServiceEffect<R, S> {
    type V = ServiceEffect<R::V, S::V>;

    open spec fn view(&self) -> ServiceEffect<R::V, S::V> {
        match *self {
            ServiceEffect::Replication(effect) => ServiceEffect::Replication(effect@),
            ServiceEffect::Storage(effect) => ServiceEffect::Storage(effect@),
        }
    }
}

/// What the parts of the service are told.
#[derive(Debug)]
pub enum ServiceMessage<RM, SM> {
    Replication(RM),
    Storage(SM),
}

impl<RM: View, SM: View> View for ServiceMessage<RM, SM> {
    type V = ServiceMessage<RM::V, SM::V>;

    open spec fn view(&self) -> ServiceMessage<RM::V, SM::V> {
        match *self {
            ServiceMessage::Replication(message) => ServiceMessage::Replication(message@),
            ServiceMessage::Storage(message) => ServiceMessage::Storage(message@),
        }
    }
}

/// An operation that is being executed.
pub struct Executing<E, M> {
    pub execute: E,
    pub client_id: ClientId,
    pub client_seq: ClientSeq,
    pub metadata: M,
}

impl<E: View, M: View> View for Executing<E, M> {
    type V = Executing<E::V, M::V>;

    open spec fn view(&self) -> Executing<E::V, M::V> {
        Executing {
            execute: self.execute@,
            client_id: self.client_id,
            client_seq: self.client_seq,
            metadata: self.metadata@,
        }
    }
}

/// A service that orders requests by `R`, and executes them in that order on
/// the storage `S`.
pub struct BigService<A: DataShardingApp, R: ReplicationState<BigServiceLog<A, S>>, S: StorageState> {
    config: ServiceConfig,
    // parts
    app: A,
    replication: R,
    storage: S,
    // essential data
    replies: HashMap<ClientId, Reply<A::Res, R::Metadata>>,
    executing: VecDeque<Executing<A::ExecuteState, R::Metadata>>,
    fetch_keys: Vec<(Key, Bytes)>,
    bumping: bool,
    num_skip: StateVersion,
    // additional data for optimization
    value_cache: Option<LruCache<Bytes, Bytes>>,
    // buffers
    resend_replies: Vec<(ClientId, Reply<A::Res, R::Metadata>)>,
}

/// The mathematical content of a [`BigService`].
#[verifier::ext_equal]
pub struct BigState<A, E, R, S, Res, D> {
    pub config: ServiceConfig,
    pub app: A,
    pub replication: R,
    pub storage: S,
    /// The last reply to each client.
    pub replies: Map<ClientId, Reply<Res, D>>,
    /// The operations to execute, in order. The first is being executed.
    pub executing: Seq<Executing<E, D>>,
    /// The keys that the first operation waits for, with what storage calls
    /// them.
    pub fetch_keys: Seq<(Key, Seq<u8>)>,
    /// Whether the writes of the last operation are not done yet.
    pub bumping: bool,
    /// How many operations are to be skipped.
    pub num_skip: StateVersion,
    pub cache: Option<CacheState>,
    /// Replies that were asked for again.
    pub resend: Seq<(ClientId, Reply<Res, D>)>,
}

/// The state of a service.
pub type StateOf<A, R, S> = <BigService<A, R, S> as View>::V;

/// What a service asks for, over the values themselves.
pub type ActionOf<A, R, S> = Action<
    Effect<
        Reply<
            <<A as AppProtocol>::Res as View>::V,
            <<R as ReplicationState<BigServiceLog<A, S>>>::Metadata as View>::V,
        >,
        ServiceEffect<
            <<R as State>::Effect as View>::V,
            StorageStateEffect<
                <<S as StorageState>::StorageSend as View>::V,
                <<S as StorageState>::OrderedMessage as View>::V,
                Store<Seq<char>, Seq<u8>>,
            >,
        >,
    >,
    Never,
>;

impl<A: DataShardingApp, R: ReplicationState<BigServiceLog<A, S>>, S: StorageState> View for BigService<
    A,
    R,
    S,
> {
    type V = BigState<
        A::V,
        <A::ExecuteState as View>::V,
        R::V,
        S::V,
        <A::Res as View>::V,
        <R::Metadata as View>::V,
    >;

    closed spec fn view(&self) -> BigState<
        A::V,
        <A::ExecuteState as View>::V,
        R::V,
        S::V,
        <A::Res as View>::V,
        <R::Metadata as View>::V,
    > {
        BigState {
            config: self.config,
            app: self.app@,
            replication: self.replication@,
            storage: self.storage@,
            replies: self.replies@.map_values(|reply: Reply<A::Res, R::Metadata>| reply@),
            executing: self.executing@.map_values(
                |executing: Executing<A::ExecuteState, R::Metadata>| executing@,
            ),
            fetch_keys: values_view(self.fetch_keys@),
            bumping: self.bumping,
            num_skip: self.num_skip,
            cache: cache_view(self.value_cache),
            resend: self.resend_replies@.map_values(
                |resend: (ClientId, Reply<A::Res, R::Metadata>)| (resend.0, resend.1@),
            ),
        }
    }
}

/// Where the service is in taking a step.
#[derive(Debug, Clone, Copy)]
pub enum Phase {
    Start,
    Replication,
    Storage,
    Execute,
}

/// Where the service is in taking a step, and when its parts want to be asked
/// again.
#[derive(Debug, Clone, Copy)]
pub struct Poll {
    pub phase: Phase,
    pub tick_after: Option<Duration>,
}

impl Poll {
    pub open spec fn start() -> Poll {
        Poll { phase: Phase::Start, tick_after: None }
    }

    pub open spec fn at(self, phase: Phase) -> Poll {
        Poll { phase, ..self }
    }

    /// The next phase, and a point in time to come back at.
    pub open spec fn after(self, phase: Phase, tick_after: Option<Duration>) -> Poll {
        Poll { phase, tick_after: sooner_spec(tick_after, self.tick_after) }
    }
}

/// The outcome of one phase: go on, or ask for something. `T` stands for the
/// state, `O` for what is asked for.
pub enum Step<T, O> {
    Continue(T, Poll),
    Return(T, O),
}

/// What storage calls a key.
pub open spec fn storage_key(key: Seq<u8>) -> Key {
    Key(Digest::of_spec(key).0)
}

/// What storage calls a key.
fn digest_key(key: &Bytes) -> (storage_key: Key)
    ensures
        storage_key == self::storage_key((**key)@),
{
    Key(Digest::of(key.as_slice()).0)
}

/// The position of a key among those that are waited for, or their number.
pub open spec fn key_position(list: Values, key: Key) -> int
    decreases list.len(),
{
    if list.len() == 0 || list[0].0 == key {
        0
    } else {
        1 + key_position(list.drop_first(), key)
    }
}

/// Sets the entry of a key.
pub open spec fn with_key(list: Values, key: Key, value: Seq<u8>) -> Values {
    let i = key_position(list, key);
    if i < list.len() {
        list.update(i, (key, value))
    } else {
        list.push((key, value))
    }
}

proof fn lemma_key_position(list: Values, key: Key)
    ensures
        0 <= key_position(list, key) <= list.len(),
        forall|i: int| 0 <= i < key_position(list, key) ==> (#[trigger] list[i]).0 != key,
        key_position(list, key) < list.len() ==> list[key_position(list, key)].0 == key,
    decreases list.len(),
{
    if list.len() == 0 || list[0].0 == key {
    } else {
        let rest = list.drop_first();
        lemma_key_position(rest, key);
        assert forall|i: int| 0 <= i < key_position(list, key) implies (#[trigger] list[i]).0
            != key by {
            if i > 0 {
                assert(list[i] == rest[i - 1]);
            }
        }
    }
}

/// Setting an entry keeps the keys distinct.
proof fn lemma_with_key_distinct(list: Values, key: Key, value: Seq<u8>)
    requires
        keys_distinct(list),
    ensures
        keys_distinct(with_key(list, key, value)),
{
    lemma_key_position(list, key);
}

/// The position of a key among those that are waited for.
fn find_key(list: &Vec<(Key, Bytes)>, key: &Key) -> (i: usize)
    ensures
        i == key_position(values_view(list@), *key),
        i <= list@.len(),
{
    let ghost view = values_view(list@);
    let mut i: usize = 0;
    assert(view.subrange(0, view.len() as int) =~= view);
    while i < list.len()
        invariant
            i <= list@.len(),
            view == values_view(list@),
            key_position(view, *key) == i + key_position(
                view.subrange(i as int, view.len() as int),
                *key,
            ),
        decreases list@.len() - i,
    {
        let ghost rest = view.subrange(i as int, view.len() as int);
        assert(rest[0] == view[i as int]);
        if list[i].0.same(key) {
            return i;
        }
        assert(rest.drop_first() =~= view.subrange(i + 1, view.len() as int));
        i += 1;
    }
    i
}

/// Sets the entry of a key.
fn set_key(list: &mut Vec<(Key, Bytes)>, key: Key, value: Bytes)
    ensures
        values_view(final(list)@) == with_key(values_view(old(list)@), key, (*value)@),
{
    let i: usize = find_key(list, &key);
    if i < list.len() {
        list[i] = (key, value);
    } else {
        list.push((key, value));
    }
    assert(values_view(list@) =~= with_key(values_view(old(list)@), key, (*value)@));
}

/// The writes of an operation, by what storage calls the keys. Of several
/// writes to one key, the last counts.
pub open spec fn storage_writes(writes: Seq<(Seq<u8>, Seq<u8>)>) -> Values
    decreases writes.len(),
{
    if writes.len() == 0 {
        Seq::empty()
    } else {
        with_key(
            storage_writes(writes.drop_last()),
            storage_key(writes.last().0),
            writes.last().1,
        )
    }
}

/// A cache after some writes.
pub open spec fn cached_writes(
    cache: Option<CacheState>,
    writes: Seq<(Seq<u8>, Seq<u8>)>,
) -> Option<CacheState>
    decreases writes.len(),
{
    if writes.len() == 0 {
        cache
    } else {
        match cached_writes(cache, writes.drop_last()) {
            Some(state) => Some(
                CacheState {
                    entries: put(
                        state.entries,
                        state.capacity,
                        writes.last().0,
                        writes.last().1,
                    ),
                    ..state
                },
            ),
            None => None,
        }
    }
}

/// A number of versions to skip, on top of another.
pub open spec fn skip_more(num_skip: StateVersion, more: StateVersion) -> StateVersion {
    if num_skip + more <= u64::MAX {
        (num_skip + more) as StateVersion
    } else {
        u64::MAX
    }
}

/// The cache has the value of a key.
pub open spec fn cache_hit(cache: Option<CacheState>, key: Seq<u8>) -> Option<Seq<u8>> {
    match cache {
        Some(state) => entry_value(state.entries, key),
        None => None,
    }
}

/// A cache after it was asked for a key.
pub open spec fn cache_asked(cache: Option<CacheState>, key: Seq<u8>) -> Option<CacheState> {
    match cache {
        Some(state) => Some(CacheState { entries: used(state.entries, key), ..state }),
        None => None,
    }
}

impl<A: DataShardingApp, R: ReplicationState<BigServiceLog<A, S>>, S: StorageState> BigService<
    A,
    R,
    S,
> {
    /// Tells storage which keys will be asked for.
    pub open spec fn hint(storage: S::V, keys: Seq<Seq<u8>>) -> S::V
        decreases keys.len(),
    {
        if keys.len() == 0 {
            storage
        } else {
            S::will_fetch_spec(Self::hint(storage, keys.drop_last()), storage_key(keys.last()))
        }
    }

    /// Takes one ordered entry.
    pub open spec fn take_log(
        state: StateOf<A, R, S>,
        log: LogEntry<<A::Op as View>::V, <S::OrderedMessage as View>::V>,
        metadata: <R::Metadata as View>::V,
    ) -> StateOf<A, R, S> {
        match log {
            LogEntry::Request(request) => {
                let execute = A::new_execute_spec(state.app, request.op);
                let (next, output) = <A::ExecuteState as DataShardingExecuteState>::proceed_spec(
                    execute,
                );
                let executing = Executing {
                    execute: next,
                    client_id: request.client_id,
                    client_seq: request.client_seq,
                    metadata,
                };
                BigState {
                    storage: match output {
                        DataShardingExecuteOutput::Pending(keys) => Self::hint(
                            state.storage,
                            keys,
                        ),
                        _ => state.storage,
                    },
                    executing: state.executing.push(executing),
                    ..state
                }
            },
            LogEntry::StorageOrderedMessage(message) => BigState {
                storage: S::receive_ordered_spec(state.storage, message),
                ..state
            },
        }
    }

    /// Takes ordered entries.
    pub open spec fn take_logs(
        state: StateOf<A, R, S>,
        logs: Seq<LogEntry<<A::Op as View>::V, <S::OrderedMessage as View>::V>>,
        metadata: <R::Metadata as View>::V,
    ) -> StateOf<A, R, S>
        decreases logs.len(),
    {
        if logs.len() == 0 {
            state
        } else {
            Self::take_log(
                Self::take_logs(state, logs.drop_last(), metadata),
                logs.last(),
                metadata,
            )
        }
    }

    /// Installs a value in the operation that is being executed.
    pub open spec fn install(
        state: StateOf<A, R, S>,
        key: Seq<u8>,
        value: Option<Seq<u8>>,
    ) -> StateOf<A, R, S> {
        if state.executing.len() == 0 {
            state
        } else {
            let executing = Executing {
                execute: <A::ExecuteState as DataShardingExecuteState>::install_spec(
                    state.executing[0].execute,
                    key,
                    value,
                ),
                ..state.executing[0]
            };
            BigState { executing: state.executing.update(0, executing), ..state }
        }
    }

    /// Takes a value from storage. One that is not waited for is ignored.
    pub open spec fn take_fetched(
        state: StateOf<A, R, S>,
        key: Key,
        value: Option<Seq<u8>>,
    ) -> StateOf<A, R, S> {
        let i = key_position(state.fetch_keys, key);
        if i < state.fetch_keys.len() {
            Self::install(
                BigState { fetch_keys: state.fetch_keys.remove(i), ..state },
                state.fetch_keys[i].1,
                value,
            )
        } else {
            state
        }
    }

    /// Asks for the value of a key, of the cache first.
    pub open spec fn ask(state: StateOf<A, R, S>, key: Seq<u8>) -> StateOf<A, R, S> {
        let asked = BigState { cache: cache_asked(state.cache, key), ..state };
        match cache_hit(state.cache, key) {
            Some(value) => Self::install(asked, key, Some(value)),
            None => BigState {
                fetch_keys: with_key(state.fetch_keys, storage_key(key), key),
                storage: S::fetch_spec(state.storage, storage_key(key)),
                ..asked
            },
        }
    }

    /// Asks for the values of some keys.
    pub open spec fn ask_all(state: StateOf<A, R, S>, keys: Seq<Seq<u8>>) -> StateOf<A, R, S>
        decreases keys.len(),
    {
        if keys.len() == 0 {
            state
        } else {
            Self::ask(Self::ask_all(state, keys.drop_last()), keys.last())
        }
    }

    /// Completes the operation that is being executed: writes, and answers the
    /// client.
    pub open spec fn complete(
        state: StateOf<A, R, S>,
        res: <A::Res as View>::V,
        writes: Seq<(Seq<u8>, Seq<u8>)>,
    ) -> (StateOf<A, R, S>, ActionOf<A, R, S>) {
        let executing = state.executing[0];
        let reply = Reply { client_seq: executing.client_seq, res, metadata: executing.metadata };
        (
            BigState {
                executing: state.executing.drop_first(),
                storage: S::bump_spec(state.storage, storage_writes(writes)),
                cache: cached_writes(state.cache, writes),
                bumping: true,
                replies: state.replies.insert(executing.client_id, reply),
                ..state
            },
            Action::Perform(Effect::Reply(executing.client_id, reply)),
        )
    }

    /// Sends replies that were asked for again.
    pub open spec fn start_step(state: StateOf<A, R, S>) -> Step<
        StateOf<A, R, S>,
        ActionOf<A, R, S>,
    > {
        if state.resend.len() > 0 {
            let (client_id, reply) = state.resend.last();
            Step::Return(
                BigState { resend: state.resend.drop_last(), ..state },
                Action::Perform(Effect::Reply(client_id, reply)),
            )
        } else {
            Step::Continue(state, Poll { phase: Phase::Replication, tick_after: None })
        }
    }

    /// Takes ordered entries while there is room for more operations.
    pub open spec fn replication_step(
        state: StateOf<A, R, S>,
        poll: Poll,
        since_start: Duration,
    ) -> Step<StateOf<A, R, S>, ActionOf<A, R, S>> {
        if state.executing.len() > state.config.executing_buffer_size {
            Step::Continue(state, poll.at(Phase::Storage))
        } else {
            let (replication, action) = R::proceed_spec(state.replication, since_start);
            let next = BigState { replication, ..state };
            match action {
                Action::Pending(tick_after) => Step::Continue(
                    next,
                    poll.after(Phase::Storage, tick_after),
                ),
                Action::Perform(effect) => Step::Return(
                    next,
                    Action::Perform(Effect::Intermediate(ServiceEffect::Replication(effect))),
                ),
                Action::Output(replicated) => Step::Continue(
                    Self::take_logs(next, replicated.logs, replicated.metadata),
                    poll,
                ),
            }
        }
    }

    /// Takes what storage has to say.
    pub open spec fn storage_step(
        state: StateOf<A, R, S>,
        poll: Poll,
        since_start: Duration,
    ) -> Step<StateOf<A, R, S>, ActionOf<A, R, S>> {
        let (storage, action) = S::proceed_spec(state.storage, since_start);
        let next = BigState { storage, ..state };
        match action {
            Action::Pending(tick_after) => Step::Continue(
                next,
                poll.after(Phase::Execute, tick_after),
            ),
            Action::Perform(StorageStateEffect::Order(message)) => Step::Continue(
                BigState {
                    replication: R::submit_spec(
                        next.replication,
                        LogEntry::StorageOrderedMessage(message),
                    ),
                    ..next
                },
                poll.at(Phase::Start),
            ),
            Action::Perform(effect) => Step::Return(
                next,
                Action::Perform(Effect::Intermediate(ServiceEffect::Storage(effect))),
            ),
            Action::Output(StorageStateOutput::Fetched(key, value)) => Step::Continue(
                Self::take_fetched(next, key, value),
                poll,
            ),
            Action::Output(StorageStateOutput::Bumped) => Step::Continue(
                BigState { bumping: false, ..next },
                poll,
            ),
            Action::Output(StorageStateOutput::Skipped(num_skipped)) => Step::Continue(
                BigState { num_skip: skip_more(next.num_skip, num_skipped), ..next },
                poll,
            ),
        }
    }

    /// Whether the client of the first operation has had its reply, or a later
    /// one.
    pub open spec fn first_answered(state: StateOf<A, R, S>) -> bool {
        let first = state.executing[0];
        state.replies.contains_key(first.client_id) && state.replies[first.client_id].client_seq
            >= first.client_seq
    }

    /// Executes the first operation as far as possible.
    pub open spec fn execute_step(state: StateOf<A, R, S>, poll: Poll) -> Step<
        StateOf<A, R, S>,
        ActionOf<A, R, S>,
    > {
        if state.executing.len() == 0 {
            Step::Return(state, Action::Pending(poll.tick_after))
        } else if Self::first_answered(state) {
            Step::Continue(BigState { executing: state.executing.drop_first(), ..state }, poll)
        } else if state.num_skip > 0 {
            Step::Continue(
                BigState {
                    executing: state.executing.drop_first(),
                    num_skip: (state.num_skip - 1) as StateVersion,
                    ..state
                },
                poll,
            )
        } else if state.fetch_keys.len() > 0 || state.bumping {
            Step::Return(state, Action::Pending(poll.tick_after))
        } else {
            let (execute, output) = <A::ExecuteState as DataShardingExecuteState>::proceed_spec(
                state.executing[0].execute,
            );
            let first = Executing { execute, ..state.executing[0] };
            let next = BigState { executing: state.executing.update(0, first), ..state };
            match output {
                DataShardingExecuteOutput::Pending(keys) => Step::Continue(
                    Self::ask_all(next, keys),
                    poll.at(Phase::Start),
                ),
                DataShardingExecuteOutput::Complete(res, writes) => {
                    let (after, action) = Self::complete(next, res, writes);
                    Step::Return(after, action)
                },
            }
        }
    }

    pub open spec fn step(state: StateOf<A, R, S>, poll: Poll, since_start: Duration) -> Step<
        StateOf<A, R, S>,
        ActionOf<A, R, S>,
    > {
        match poll.phase {
            Phase::Start => Self::start_step(state),
            Phase::Replication => Self::replication_step(state, poll, since_start),
            Phase::Storage => Self::storage_step(state, poll, since_start),
            Phase::Execute => Self::execute_step(state, poll),
        }
    }

    /// Goes on until there is something to ask for, or the given number of
    /// phases has been gone through; then the service wants to be asked again
    /// at once.
    pub open spec fn run(
        state: StateOf<A, R, S>,
        poll: Poll,
        since_start: Duration,
        limit: nat,
    ) -> (StateOf<A, R, S>, ActionOf<A, R, S>)
        decreases limit,
    {
        if limit == 0 {
            (state, Action::Pending(Some(Duration { nanos: 0 })))
        } else {
            match Self::step(state, poll, since_start) {
                Step::Continue(next, after) => Self::run(
                    next,
                    after,
                    since_start,
                    (limit - 1) as nat,
                ),
                Step::Return(next, action) => (next, action),
            }
        }
    }

    /// What every service keeps to.
    pub closed spec fn wf(&self) -> bool {
        &&& self.replication.inv()
        &&& self.storage.inv()
    }

    /// The state of a service that has not done anything yet.
    pub open spec fn initial(
        app: A::V,
        replication: R::V,
        storage: S::V,
        config: ServiceConfig,
    ) -> StateOf<A, R, S> {
        BigState {
            config,
            app,
            replication,
            storage,
            replies: Map::empty(),
            executing: Seq::empty(),
            fetch_keys: Seq::empty(),
            bumping: false,
            num_skip: 0,
            cache: if config.num_cached_value == 0 {
                None
            } else {
                Some(
                    CacheState {
                        entries: Seq::empty(),
                        capacity: config.num_cached_value as nat,
                    },
                )
            },
            resend: Seq::empty(),
        }
    }

    /// A service that has not done anything yet.
    pub fn new(app: A, replication: R, storage: S, config: ServiceConfig) -> (service: Self)
        requires
            replication.inv(),
            storage.inv(),
            config.wf(),
        ensures
            service.wf(),
            service@ == Self::initial(app@, replication@, storage@, config),
    {
        let service = BigService {
            config,
            app,
            replication,
            storage,
            replies: HashMap::new(),
            executing: VecDeque::new(),
            fetch_keys: Vec::new(),
            bumping: false,
            num_skip: 0,
            value_cache: new_cache(config.num_cached_value),
            resend_replies: Vec::new(),
        };
        proof {
            assert(service@.replies =~= Map::empty());
            assert(service@.executing =~= Seq::empty());
            assert(service@.fetch_keys =~= Seq::empty());
            assert(service@.resend =~= Seq::empty());
        }
        service
    }

    /// Takes one ordered entry.
    fn receive_log(&mut self, log: BigServiceLog<A, S>, metadata: &R::Metadata)
        requires
            old(self).wf(),
        ensures
            final(self).wf(),
            final(self)@ == Self::take_log(old(self)@, log@, metadata@),
    {
        match log {
            BigServiceLog::Request(request) => {
                let mut execute = self.app.new_execute(request.op);
                let output = execute.proceed();
                match output {
                    DataShardingExecuteOutput::Pending(keys) => {
                        let ghost view = contents(keys@);
                        let mut i: usize = 0;
                        assert(view.subrange(0, 0) =~= Seq::empty());
                        assert(self@ =~= BigState {
                            storage: Self::hint(old(self)@.storage, view.subrange(0, 0)),
                            ..old(self)@
                        });
                        while i < keys.len()
                            invariant
                                i <= keys@.len(),
                                view == contents(keys@),
                                self.wf(),
                                self@ == (BigState {
                                    storage: Self::hint(
                                        old(self)@.storage,
                                        view.subrange(0, i as int),
                                    ),
                                    ..old(self)@
                                }),
                            decreases keys@.len() - i,
                        {
                            let key = digest_key(&keys[i]);
                            self.storage.will_fetch(key);
                            i += 1;
                            proof {
                                assert(view.subrange(0, i as int).drop_last() =~= view.subrange(
                                    0,
                                    i - 1,
                                ));
                                assert(view.subrange(0, i as int).last() == view[i - 1]);
                                assert(self@ =~= BigState {
                                    storage: Self::hint(
                                        old(self)@.storage,
                                        view.subrange(0, i as int),
                                    ),
                                    ..old(self)@
                                });
                            }
                        }
                        assert(view.subrange(0, i as int) =~= view);
                    },
                    _ => (),
                }
                self.executing.push_back(
                    Executing {
                        execute,
                        client_id: request.client_id,
                        client_seq: request.client_seq,
                        metadata: metadata.duplicate(),
                    },
                );
                assert(self@ =~= Self::take_log(old(self)@, log@, metadata@));
            },
            BigServiceLog::StorageOrderedMessage(message) => {
                self.storage.receive_ordered(message);
                assert(self@ =~= Self::take_log(old(self)@, log@, metadata@));
            },
        }
    }

    /// Takes ordered entries.
    fn receive_logs(&mut self, replicated: Replicated<BigServiceLog<A, S>, R::Metadata>)
        requires
            old(self).wf(),
        ensures
            final(self).wf(),
            final(self)@ == Self::take_logs(
                old(self)@,
                replicated@.logs,
                replicated@.metadata,
            ),
    {
        let ghost logs = replicated@.logs;
        let ghost len = logs.len() as int;
        let metadata = replicated.metadata;
        let mut rest = reversed(replicated.logs);
        assert(logs.subrange(0, 0) =~= Seq::empty());
        while rest.len() > 0
            invariant
                0 <= rest@.len() <= len,
                len == logs.len(),
                self.wf(),
                forall|i: int| 0 <= i < rest@.len() ==> (#[trigger] rest@[i])@ == logs[len - 1 - i],
                self@ == Self::take_logs(
                    old(self)@,
                    logs.subrange(0, len - rest@.len()),
                    metadata@,
                ),
            decreases rest@.len(),
        {
            let ghost done = len - rest@.len();
            assert(rest@[rest@.len() - 1]@ == logs[done]);
            let log = rest.pop().unwrap();
            self.receive_log(log, &metadata);
            assert(logs.subrange(0, done + 1).drop_last() =~= logs.subrange(0, done));
            assert(logs.subrange(0, done + 1).last() == logs[done]);
        }
        assert(logs.subrange(0, len) =~= logs);
    }

    /// Installs a value in the operation that is being executed.
    fn install_value(&mut self, key: Bytes, value: Option<Bytes>)
        requires
            old(self).wf(),
        ensures
            final(self).wf(),
            final(self)@ == Self::install(old(self)@, (*key)@, optional_content(value)),
    {
        let ghost before = self@;
        match self.executing.pop_front() {
            Some(executing) => {
                let mut executing = executing;
                assert(before.executing[0] == executing@);
                executing.execute.install(key, value);
                self.executing.push_front(executing);
                assert(self@.executing =~= before.executing.update(0, executing@));
                assert(self@ =~= Self::install(before, (*key)@, optional_content(value)));
            },
            None => {
                assert(self@.executing =~= before.executing);
                assert(self@ =~= before);
            },
        }
    }

    /// Takes a value from storage.
    fn receive_fetched(&mut self, key: Key, value: Option<Bytes>)
        requires
            old(self).wf(),
        ensures
            final(self).wf(),
            final(self)@ == Self::take_fetched(old(self)@, key, optional_content(value)),
    {
        let i: usize = find_key(&self.fetch_keys, &key);
        if i >= self.fetch_keys.len() {
            return;
        }
        let ghost before = self@;
        let (_, app_key) = self.fetch_keys.remove(i);
        assert(before.fetch_keys[i as int].1 == (*app_key)@);
        assert(self@.fetch_keys =~= before.fetch_keys.remove(i as int));
        assert(self@ =~= BigState { fetch_keys: before.fetch_keys.remove(i as int), ..before });
        self.install_value(app_key, value);
    }

    /// Asks for the value of a key, of the cache first.
    fn ask_key(&mut self, key: &Bytes)
        requires
            old(self).wf(),
        ensures
            final(self).wf(),
            final(self)@ == Self::ask(old(self)@, (**key)@),
    {
        let ghost before = self@;
        let mut cached: Option<Bytes> = None;
        let mut value_cache: Option<LruCache<Bytes, Bytes>> = None;
        std::mem::swap(&mut self.value_cache, &mut value_cache);
        match value_cache {
            Some(cache) => {
                let mut cache = cache;
                cached = cache_get(&mut cache, key);
                self.value_cache = Some(cache);
            },
            None => {},
        }
        assert(self@ =~= BigState { cache: cache_asked(before.cache, (**key)@), ..before });
        assert(optional_content(cached) == cache_hit(before.cache, (**key)@));
        match cached {
            Some(value) => {
                self.install_value(share(key), Some(value));
            },
            None => {
                let storage_key = digest_key(key);
                set_key(&mut self.fetch_keys, storage_key, share(key));
                self.storage.fetch(storage_key);
                assert(self@ =~= Self::ask(before, (**key)@));
            },
        }
    }

    /// Asks for the values of some keys.
    fn ask_keys(&mut self, keys: &Vec<Bytes>)
        requires
            old(self).wf(),
        ensures
            final(self).wf(),
            final(self)@ == Self::ask_all(old(self)@, contents(keys@)),
    {
        let ghost view = contents(keys@);
        let mut i: usize = 0;
        assert(view.subrange(0, 0) =~= Seq::empty());
        while i < keys.len()
            invariant
                i <= keys@.len(),
                view == contents(keys@),
                self.wf(),
                self@ == Self::ask_all(old(self)@, view.subrange(0, i as int)),
            decreases keys@.len() - i,
        {
            self.ask_key(&keys[i]);
            i += 1;
            assert(view.subrange(0, i as int).drop_last() =~= view.subrange(0, i - 1));
            assert(view.subrange(0, i as int).last() == view[i - 1]);
        }
        assert(view.subrange(0, i as int) =~= view);
    }

    /// Remembers writes in the cache, and collects them for storage.
    fn cache_writes(&mut self, writes: &Vec<(Bytes, Bytes)>) -> (bump_writes: Vec<(Key, Bytes)>)
        requires
            old(self).wf(),
        ensures
            final(self).wf(),
            final(self)@ == (BigState {
                cache: cached_writes(old(self)@.cache, pair_contents(writes@)),
                ..old(self)@
            }),
            values_view(bump_writes@) == storage_writes(pair_contents(writes@)),
            keys_distinct(values_view(bump_writes@)),
    {
        let ghost view = pair_contents(writes@);
        let mut bump_writes: Vec<(Key, Bytes)> = Vec::new();
        let mut i: usize = 0;
        assert(view.subrange(0, 0) =~= Seq::empty());
        assert(values_view(bump_writes@) =~= Seq::empty());
        while i < writes.len()
            invariant
                i <= writes@.len(),
                view == pair_contents(writes@),
                self.wf(),
                values_view(bump_writes@) == storage_writes(view.subrange(0, i as int)),
                keys_distinct(values_view(bump_writes@)),
                self@ == (BigState {
                    cache: cached_writes(old(self)@.cache, view.subrange(0, i as int)),
                    ..old(self)@
                }),
            decreases writes@.len() - i,
        {
            let ghost before = self@;
            proof {
                lemma_with_key_distinct(
                    values_view(bump_writes@),
                    storage_key((*writes@[i as int].0)@),
                    (*writes@[i as int].1)@,
                );
            }
            set_key(&mut bump_writes, digest_key(&writes[i].0), share(&writes[i].1));
            let mut value_cache: Option<LruCache<Bytes, Bytes>> = None;
            std::mem::swap(&mut self.value_cache, &mut value_cache);
            match value_cache {
                Some(cache) => {
                    let mut cache = cache;
                    cache_put(&mut cache, share(&writes[i].0), share(&writes[i].1));
                    self.value_cache = Some(cache);
                },
                None => {},
            }
            i += 1;
            proof {
                assert(view.subrange(0, i as int).drop_last() =~= view.subrange(0, i - 1));
                assert(view.subrange(0, i as int).last() == view[i - 1]);
                assert(self@ =~= BigState {
                    cache: cached_writes(old(self)@.cache, view.subrange(0, i as int)),
                    ..old(self)@
                });
            }
        }
        assert(view.subrange(0, i as int) =~= view);
        bump_writes
    }

    /// Sends replies that were asked for again.
    fn poll_start(&mut self, poll: &mut Poll) -> (action: Option<ServiceAction<A, R, S>>)
        requires
            old(self).wf(),
        ensures
            final(self).wf(),
            Self::start_step(old(self)@) == stepped(final(self)@, *final(poll), action),
    {
        let ghost before = self@;
        match self.resend_replies.pop() {
            Some((client_id, reply)) => {
                assert(before.resend.last() == (client_id, reply@));
                assert(self@.resend =~= before.resend.drop_last());
                assert(self@ =~= BigState { resend: before.resend.drop_last(), ..before });
                Some(Action::Perform(Effect::Reply(client_id, reply)))
            },
            None => {
                assert(self@.resend =~= before.resend);
                assert(self@ =~= before);
                *poll = Poll { phase: Phase::Replication, tick_after: None };
                None
            },
        }
    }

    /// Takes ordered entries while there is room for more operations.
    fn poll_replication(&mut self, poll: &mut Poll, since_start: Duration) -> (action: Option<
        ServiceAction<A, R, S>,
    >)
        requires
            old(self).wf(),
        ensures
            final(self).wf(),
            Self::replication_step(old(self)@, *old(poll), since_start) == stepped(
                final(self)@,
                *final(poll),
                action,
            ),
    {
        let ghost before = self@;
        assert(self.executing@.len() == before.executing.len());
        if self.executing.len() > self.config.executing_buffer_size {
            poll.phase = Phase::Storage;
            return None;
        }
        let action = self.replication.proceed(since_start);
        assert(self@ =~= BigState {
            replication: R::proceed_spec(before.replication, since_start).0,
            ..before
        });
        match action {
            Action::Pending(tick_after) => {
                *poll = Poll {
                    phase: Phase::Storage,
                    tick_after: sooner(tick_after, poll.tick_after),
                };
                None
            },
            Action::Perform(effect) => {
                Some(
                    Action::Perform(Effect::Intermediate(ServiceEffect::Replication(effect))),
                )
            },
            Action::Output(replicated) => {
                self.receive_logs(replicated);
                None
            },
        }
    }

    /// Takes what storage has to say.
    fn poll_storage(&mut self, poll: &mut Poll, since_start: Duration) -> (action: Option<
        ServiceAction<A, R, S>,
    >)
        requires
            old(self).wf(),
        ensures
            final(self).wf(),
            Self::storage_step(old(self)@, *old(poll), since_start) == stepped(
                final(self)@,
                *final(poll),
                action,
            ),
    {
        let ghost before = self@;
        let action = self.storage.proceed(since_start);
        let ghost next = self@;
        assert(next =~= BigState {
            storage: S::proceed_spec(before.storage, since_start).0,
            ..before
        });
        assert(S::proceed_spec(before.storage, since_start).1 == action@);
        match action {
            Action::Pending(tick_after) => {
                assert(Self::storage_step(before, *poll, since_start) == Step::<
                    StateOf<A, R, S>,
                    ActionOf<A, R, S>,
                >::Continue(next, poll.after(Phase::Execute, tick_after)));
                *poll = Poll {
                    phase: Phase::Execute,
                    tick_after: sooner(tick_after, poll.tick_after),
                };
                None
            },
            Action::Perform(StorageStateEffect::Order(message)) => {
                self.replication.submit(BigServiceLog::StorageOrderedMessage(message));
                poll.phase = Phase::Start;
                assert(self@ =~= BigState { replication: self.replication@, ..next });
                None
            },
            Action::Perform(StorageStateEffect::Send(send)) => {
                Some(
                    Action::Perform(
                        Effect::Intermediate(
                            ServiceEffect::Storage(StorageStateEffect::Send(send)),
                        ),
                    ),
                )
            },
            Action::Perform(StorageStateEffect::Store(store)) => {
                Some(
                    Action::Perform(
                        Effect::Intermediate(
                            ServiceEffect::Storage(StorageStateEffect::Store(store)),
                        ),
                    ),
                )
            },
            Action::Output(StorageStateOutput::Fetched(key, value)) => {
                assert(optional_content(value) == super::storage::optional_bytes(value));
                self.receive_fetched(key, value);
                None
            },
            Action::Output(StorageStateOutput::Bumped) => {
                self.bumping = false;
                assert(self@ =~= BigState { bumping: false, ..next });
                None
            },
            Action::Output(StorageStateOutput::Skipped(num_skipped)) => {
                self.num_skip = if self.num_skip <= u64::MAX - num_skipped {
                    self.num_skip + num_skipped
                } else {
                    u64::MAX
                };
                assert(self@ =~= BigState {
                    num_skip: skip_more(next.num_skip, num_skipped),
                    ..next
                });
                None
            },
        }
    }

    /// Whether the first operation was answered already.
    fn is_first_answered(&self) -> (answered: bool)
        requires
            self.wf(),
            self@.executing.len() > 0,
        ensures
            answered == Self::first_answered(self@),
    {
        let first = &self.executing[0];
        assert(self@.executing[0] == first@);
        match self.replies.get(&first.client_id) {
            Some(reply) => {
                assert(self@.replies[first.client_id] == reply@);
                reply.client_seq >= first.client_seq
            },
            None => false,
        }
    }

    /// Takes out the first operation.
    fn pop_first(&mut self) -> (first: Executing<A::ExecuteState, R::Metadata>)
        requires
            old(self).wf(),
            old(self)@.executing.len() > 0,
        ensures
            final(self).wf(),
            first@ == old(self)@.executing[0],
            final(self)@ == (BigState {
                executing: old(self)@.executing.drop_first(),
                ..old(self)@
            }),
    {
        let ghost before = self@;
        let first = self.executing.pop_front().unwrap();
        assert(before.executing[0] == first@);
        assert(self@.executing =~= before.executing.drop_first());
        assert(self@ =~= BigState { executing: before.executing.drop_first(), ..before });
        first
    }

    /// Executes the first operation as far as possible.
    fn poll_execute(&mut self, poll: &mut Poll) -> (action: Option<ServiceAction<A, R, S>>)
        requires
            old(self).wf(),
        ensures
            final(self).wf(),
            Self::execute_step(old(self)@, *old(poll)) == stepped(
                final(self)@,
                *final(poll),
                action,
            ),
    {
        let ghost before = self@;
        assert(self.executing@.len() == before.executing.len());
        if self.executing.len() == 0 {
            return Some(Action::Pending(poll.tick_after));
        }
        if self.is_first_answered() {
            let _ = self.pop_first();
            return None;
        }
        if self.num_skip > 0 {
            let _ = self.pop_first();
            self.num_skip = self.num_skip - 1;
            assert(self@ =~= BigState {
                executing: before.executing.drop_first(),
                num_skip: (before.num_skip - 1) as StateVersion,
                ..before
            });
            return None;
        }
        if self.fetch_keys.len() > 0 || self.bumping {
            return Some(Action::Pending(poll.tick_after));
        }
        let mut first = self.pop_first();
        let output = first.execute.proceed();
        let ghost asked = Executing {
            execute: <A::ExecuteState as DataShardingExecuteState>::proceed_spec(
                before.executing[0].execute,
            ).0,
            ..before.executing[0]
        };
        assert(first@ == asked);
        let ghost next = BigState { executing: before.executing.update(0, asked), ..before };
        match output {
            DataShardingExecuteOutput::Pending(keys) => {
                let ghost popped = self@;
                self.executing.push_front(first);
                proof {
                    assert(self@.executing =~= seq![asked] + popped.executing);
                    assert(seq![asked] + before.executing.drop_first()
                        =~= before.executing.update(0, asked));
                }
                assert(self@ =~= next);
                self.ask_keys(&keys);
                poll.phase = Phase::Start;
                None
            },
            DataShardingExecuteOutput::Complete(res, writes) => {
                let bump_writes = self.cache_writes(&writes);
                self.storage.bump(bump_writes);
                self.bumping = true;
                let reply = Reply {
                    client_seq: first.client_seq,
                    res,
                    metadata: first.metadata,
                };
                self.replies.insert(first.client_id, reply.duplicate());
                proof {
                    assert(self@.replies =~= before.replies.insert(first.client_id, reply@));
                    assert(next.executing.drop_first() =~= before.executing.drop_first());
                    assert(self@ =~= Self::complete(
                        next,
                        res@,
                        pair_contents(writes@),
                    ).0);
                }
                Some(Action::Perform(Effect::Reply(first.client_id, reply)))
            },
        }
    }
}

/// An action of a service.
pub type ServiceAction<A, R, S> = Action<
    Effect<
        Reply<
            <A as AppProtocol>::Res,
            <R as ReplicationState<BigServiceLog<A, S>>>::Metadata,
        >,
        ServiceEffect<
            <R as State>::Effect,
            StorageStateEffect<
                <S as StorageState>::StorageSend,
                <S as StorageState>::OrderedMessage,
            >,
        >,
    >,
    Never,
>;

/// The outcome of a phase: without an action, it is to go on.
pub open spec fn stepped<T, O: View>(state: T, poll: Poll, action: Option<O>) -> Step<T, O::V> {
    match action {
        Some(action) => Step::Return(state, action@),
        None => Step::Continue(state, poll),
    }
}

impl<A: DataShardingApp, R: ReplicationState<BigServiceLog<A, S>>, S: StorageState> State for BigService<
    A,
    R,
    S,
> {
    type Effect = Effect<
        Reply<A::Res, R::Metadata>,
        ServiceEffect<R::Effect, StorageStateEffect<S::StorageSend, S::OrderedMessage>>,
    >;

    type Output = Never;

    type Message = Message<Request<A::Op>, ServiceMessage<R::Message, S::Message>>;

    open spec fn inv(&self) -> bool {
        self.wf()
    }

    open spec fn proceed_spec(state: StateOf<A, R, S>, since_start: Duration) -> (
        StateOf<A, R, S>,
        ActionOf<A, R, S>,
    ) {
        Self::run(state, Poll::start(), since_start, u64::MAX as nat)
    }

    /// A request is submitted unless the client was answered at least as late a
    /// request; the last reply is sent again to a client that asks for it.
    open spec fn receive_spec(
        state: StateOf<A, R, S>,
        message: Message<
            Request<<A::Op as View>::V>,
            ServiceMessage<<R::Message as View>::V, <S::Message as View>::V>,
        >,
    ) -> StateOf<A, R, S> {
        match message {
            Message::Request(request) => {
                let last = if state.replies.contains_key(request.client_id) {
                    Some(state.replies[request.client_id].client_seq)
                } else {
                    None
                };
                match admission_spec(last, request.client_seq) {
                    Admission::Ignore => state,
                    Admission::Resend => BigState {
                        resend: state.resend.push(
                            (request.client_id, state.replies[request.client_id]),
                        ),
                        ..state
                    },
                    Admission::Submit => BigState {
                        replication: R::submit_spec(
                            state.replication,
                            LogEntry::Request(request),
                        ),
                        ..state
                    },
                }
            },
            Message::Intermediate(ServiceMessage::Storage(message)) => BigState {
                storage: S::receive_spec(state.storage, message),
                ..state
            },
            Message::Intermediate(ServiceMessage::Replication(message)) => BigState {
                replication: R::receive_spec(state.replication, message),
                ..state
            },
        }
    }

    fn proceed(&mut self, since_start: Duration) -> (action: ServiceAction<A, R, S>) {
        let mut poll = Poll { phase: Phase::Start, tick_after: None };
        let mut limit: u64 = u64::MAX;
        while limit > 0
            invariant
                self.wf(),
                Self::run(old(self)@, Poll::start(), since_start, u64::MAX as nat) == Self::run(
                    self@,
                    poll,
                    since_start,
                    limit as nat,
                ),
            decreases limit,
        {
            let action = match poll.phase {
                Phase::Start => self.poll_start(&mut poll),
                Phase::Replication => self.poll_replication(&mut poll, since_start),
                Phase::Storage => self.poll_storage(&mut poll, since_start),
                Phase::Execute => self.poll_execute(&mut poll),
            };
            match action {
                Some(action) => {
                    return action;
                },
                None => {},
            }
            limit -= 1;
        }
        Action::Pending(Some(Duration::zero()))
    }

    fn receive(
        &mut self,
        message: Message<Request<A::Op>, ServiceMessage<R::Message, S::Message>>,
    ) {
        let ghost before = self@;
        match message {
            Message::Request(request) => {
                let last: Option<ClientSeq> = match self.replies.get(&request.client_id) {
                    Some(reply) => Some(reply.client_seq),
                    None => None,
                };
                match admission(last, request.client_seq) {
                    Admission::Ignore => {},
                    Admission::Resend => {
                        let reply = self.replies.get(&request.client_id).unwrap().duplicate();
                        self.resend_replies.push((request.client_id, reply));
                        assert(self@.resend =~= before.resend.push(
                            (request.client_id, before.replies[request.client_id]),
                        ));
                    },
                    Admission::Submit => {
                        self.replication.submit(BigServiceLog::Request(request));
                    },
                }
            },
            Message::Intermediate(ServiceMessage::Storage(message)) => {
                self.storage.receive(message);
            },
            Message::Intermediate(ServiceMessage::Replication(message)) => {
                self.replication.receive(message);
            },
        }
        assert(self@ =~= Self::receive_spec(before, message@));
    }
}

impl<
    A: DataShardingApp,
    R: ReplicationState<BigServiceLog<A, S>>,
    S: StorageState,
> ServiceState<A> for BigService<A, R, S> {
    type ServiceEffect = ServiceEffect<
        R::Effect,
        StorageStateEffect<S::StorageSend, S::OrderedMessage>,
    >;

    type ServiceMessage = ServiceMessage<R::Message, S::Message>;

    type Metadata = R::Metadata;

    open spec fn get_complete_spec(
        state: StateOf<A, R, S>,
        name: Seq<char>,
        value: Seq<u8>,
    ) -> StateOf<A, R, S> {
        BigState { storage: S::get_complete_spec(state.storage, name, value), ..state }
    }

    open spec fn put_complete_spec(state: StateOf<A, R, S>, name: Seq<char>) -> StateOf<A, R, S> {
        BigState { storage: S::put_complete_spec(state.storage, name), ..state }
    }

    fn get_complete(&mut self, name: String, value: Bytes) {
        let ghost before = self@;
        self.storage.get_complete(name, value);
        assert(self@ =~= Self::get_complete_spec(before, name@, (*value)@));
    }

    fn put_complete(&mut self, name: String) {
        let ghost before = self@;
        self.storage.put_complete(name);
        assert(self@ =~= Self::put_complete_spec(before, name@));
    }
}

} // verus!
