//! What the cache of a service holds, and what storage is told to write.
use super::big_service::{
    cache_asked, cache_hit, cached_writes, key_position, storage_key, storage_writes, with_key,
    BigService, BigServiceLog, BigState, Executing, LogEntry, Phase, Poll, StateOf, Step,
};
use super::cache::{entry_position, entry_value, put, used, without_entry, CacheState, Entries};
use super::config::Key;
use super::erasure::Values;
use super::service_laws::{Call, CallOf};
use super::storage::{keys_distinct, StorageState};
use crate::app::{DataShardingApp, DataShardingExecuteOutput, DataShardingExecuteState};
use crate::replication::ReplicationState;
use crate::state::{Action, Duration, State};
use vstd::prelude::*;

verus! {

/// The last value that was written under each key.
pub type Written = Map<Seq<u8>, Seq<u8>>;

/// The last values after some more writes.
pub open spec fn after_writes(written: Written, writes: Seq<(Seq<u8>, Seq<u8>)>) -> Written
    decreases writes.len(),
{
    if writes.len() == 0 {
        written
    } else {
        after_writes(written, writes.drop_last()).insert(writes.last().0, writes.last().1)
    }
}

/// Whether a cache is coherent: it holds no key twice, and under every key the
/// last value that was written, and no more entries than it was made for.
pub open spec fn coherent(cache: Option<CacheState>, written: Written) -> bool {
    cache matches Some(state) ==> {
        &&& forall|i: int|
            0 <= i < state.entries.len() ==> written.contains_key((#[trigger] state.entries[i]).0)
                && written[state.entries[i].0] == state.entries[i].1
        &&& forall|i: int, j: int|
            0 <= i < j < state.entries.len() ==> (#[trigger] state.entries[i]).0 != (
            #[trigger] state.entries[j]).0
        &&& state.capacity > 0
        &&& state.entries.len() <= state.capacity
    }
}

proof fn lemma_position(entries: Entries, key: Seq<u8>)
    ensures
        0 <= entry_position(entries, key) <= entries.len(),
        forall|i: int| 0 <= i < entry_position(entries, key) ==> (#[trigger] entries[i]).0 != key,
        entry_position(entries, key) < entries.len() ==> entries[entry_position(entries, key)].0
            == key,
    decreases entries.len(),
{
    if entries.len() == 0 || entries[0].0 == key {
    } else {
        let rest = entries.drop_first();
        lemma_position(rest, key);
        assert forall|i: int| 0 <= i < entry_position(entries, key) implies (
        #[trigger] entries[i]).0 != key by {
            if i > 0 {
                assert(entries[i] == rest[i - 1]);
            }
        }
    }
}

/// Where no key is there twice, taking one out leaves the others and not that
/// one.
proof fn lemma_without(entries: Entries, key: Seq<u8>)
    requires
        forall|i: int, j: int|
            0 <= i < j < entries.len() ==> (#[trigger] entries[i]).0 != (#[trigger] entries[j]).0,
    ensures
        ({
            let others = without_entry(entries, key);
            &&& others.len() <= entries.len()
            &&& forall|i: int|
                0 <= i < others.len() ==> (#[trigger] others[i]).0 != key && entries.contains(
                    others[i],
                )
            &&& forall|i: int, j: int|
                0 <= i < j < others.len() ==> (#[trigger] others[i]).0 != (#[trigger] others[j]).0
        }),
{
    lemma_position(entries, key);
    let at = entry_position(entries, key);
    let others = without_entry(entries, key);
    assert forall|i: int| 0 <= i < others.len() implies (#[trigger] others[i]).0 != key
        && entries.contains(others[i]) by {
        let k = if i < at {
            i
        } else {
            i + 1
        };
        if at < entries.len() {
            assert(others[i] == entries[k]);
            assert(entries[at].0 == key);
        } else {
            assert(others[i] == entries[i]);
        }
    }
    assert forall|i: int, j: int| 0 <= i < j < others.len() implies (#[trigger] others[i]).0 != (
    #[trigger] others[j]).0 by {
        if at < entries.len() {
            let k = if i < at {
                i
            } else {
                i + 1
            };
            let l = if j < at {
                j
            } else {
                j + 1
            };
            assert(others[i] == entries[k] && others[j] == entries[l]);
        }
    }
}

proof fn lemma_put(state: CacheState, written: Written, key: Seq<u8>, value: Seq<u8>)
    requires
        coherent(Some(state), written),
    ensures
        coherent(
            Some(
                CacheState {
                    entries: put(state.entries, state.capacity, key, value),
                    capacity: state.capacity,
                },
            ),
            written.insert(key, value),
        ),
        entry_value(put(state.entries, state.capacity, key, value), key) == Some(value),
{
    lemma_without(state.entries, key);
    let others = without_entry(state.entries, key);
    let after = put(state.entries, state.capacity, key, value);
    let next = written.insert(key, value);
    assert(after[0] == (key, value));
    assert forall|i: int| 0 <= i < after.len() implies next.contains_key((#[trigger] after[i]).0)
        && next[after[i].0] == after[i].1 by {
        if i > 0 {
            assert(after[i] == others[i - 1]);
            let k = state.entries.index_of(others[i - 1]);
            assert(state.entries[k] == others[i - 1]);
        }
    }
    assert forall|i: int, j: int| 0 <= i < j < after.len() implies (#[trigger] after[i]).0 != (
    #[trigger] after[j]).0 by {
        assert(after[j] == others[j - 1]);
        if i > 0 {
            assert(after[i] == others[i - 1]);
        }
    }
}

/// Writing keeps a cache coherent: for every written key it holds the last value
/// that was written, or none, and for all others what it held, or none.
pub proof fn writes_keep_cache_coherent(
    cache: Option<CacheState>,
    written: Written,
    writes: Seq<(Seq<u8>, Seq<u8>)>,
)
    requires
        coherent(cache, written),
    ensures
        coherent(cached_writes(cache, writes), after_writes(written, writes)),
        cached_writes(cache, writes) is Some == cache is Some,
    decreases writes.len(),
{
    if writes.len() > 0 {
        writes_keep_cache_coherent(cache, written, writes.drop_last());
        match cached_writes(cache, writes.drop_last()) {
            Some(state) => {
                lemma_put(
                    state,
                    after_writes(written, writes.drop_last()),
                    writes.last().0,
                    writes.last().1,
                );
            },
            None => {},
        }
    }
}

/// What was just written is in the cache: the last write is found there.
pub proof fn last_write_is_cached(
    cache: Option<CacheState>,
    written: Written,
    writes: Seq<(Seq<u8>, Seq<u8>)>,
)
    requires
        coherent(cache, written),
        cache is Some,
        writes.len() > 0,
    ensures
        cache_hit(cached_writes(cache, writes), writes.last().0) == Some(writes.last().1),
{
    writes_keep_cache_coherent(cache, written, writes.drop_last());
    let before = cached_writes(cache, writes.drop_last())->Some_0;
    lemma_put(
        before,
        after_writes(written, writes.drop_last()),
        writes.last().0,
        writes.last().1,
    );
}

/// Asking keeps a cache coherent, changes no value that it holds, and what it
/// answers is the last value that was written.
pub proof fn cached_is_last_written(
    cache: Option<CacheState>,
    written: Written,
    key: Seq<u8>,
    other: Seq<u8>,
)
    requires
        coherent(cache, written),
    ensures
        coherent(cache_asked(cache, key), written),
        cache_hit(cache_asked(cache, key), other) == cache_hit(cache, other),
        cache_hit(cache, key) matches Some(value) ==> written.contains_key(key) && written[key]
            == value,
{
    match cache {
        Some(state) => {
            let entries = state.entries;
            lemma_position(entries, key);
            lemma_position(entries, other);
            lemma_without(entries, key);
            let at = entry_position(entries, key);
            let others = without_entry(entries, key);
            let after = used(entries, key);
            if at < entries.len() {
                assert(entries[at].0 == key);
                assert(after[0] == (key, entries[at].1));
                assert forall|i: int| 0 <= i < after.len() implies written.contains_key(
                    (#[trigger] after[i]).0,
                ) && written[after[i].0] == after[i].1 by {
                    if i > 0 {
                        assert(after[i] == others[i - 1]);
                        let k = entries.index_of(others[i - 1]);
                        assert(entries[k] == others[i - 1]);
                    }
                }
                assert forall|i: int, j: int| 0 <= i < j < after.len() implies (
                #[trigger] after[i]).0 != (#[trigger] after[j]).0 by {
                    assert(after[j] == others[j - 1]);
                    if i > 0 {
                        assert(after[i] == others[i - 1]);
                    }
                }
                lemma_position(after, other);
                let i = entry_position(entries, other);
                let j = entry_position(after, other);
                if i < entries.len() {
                    // it is still there, once
                    let k = if i == at {
                        0
                    } else if i < at {
                        i + 1
                    } else {
                        i
                    };
                    if i != at {
                        assert(after[k] == others[k - 1]);
                    }
                    assert(after[k] == entries[i]);
                    assert(j <= k);
                    if j < k {
                        assert(after[j].0 != after[k].0);
                    }
                } else if j < after.len() {
                    if j > 0 {
                        assert(after[j] == others[j - 1]);
                        let k = entries.index_of(others[j - 1]);
                        assert(entries[k].0 == other);
                    }
                }
            }
        },
        None => {},
    }
}

impl<A: DataShardingApp, R: ReplicationState<BigServiceLog<A, S>>, S: StorageState> BigService<
    A,
    R,
    S,
> {
    /// What is written in one phase: the writes of the operation that completes.
    pub open spec fn step_writes(
        state: StateOf<A, R, S>,
        poll: Poll,
        since_start: Duration,
    ) -> Seq<(Seq<u8>, Seq<u8>)> {
        if poll.phase is Execute && state.executing.len() > 0 && !Self::first_answered(state)
            && state.num_skip == 0 && state.fetch_keys.len() == 0 && !state.bumping {
            match <A::ExecuteState as DataShardingExecuteState>::proceed_spec(
                state.executing[0].execute,
            ).1 {
                DataShardingExecuteOutput::Complete(_, writes) => writes,
                DataShardingExecuteOutput::Pending(_) => Seq::empty(),
            }
        } else {
            Seq::empty()
        }
    }

    /// What is written while the service runs.
    pub open spec fn run_writes(
        state: StateOf<A, R, S>,
        poll: Poll,
        since_start: Duration,
        limit: nat,
        written: Written,
    ) -> Written
        decreases limit,
    {
        if limit == 0 {
            written
        } else {
            let next_written = after_writes(
                written,
                Self::step_writes(state, poll, since_start),
            );
            match Self::step(state, poll, since_start) {
                Step::Continue(next, after) => Self::run_writes(
                    next,
                    after,
                    since_start,
                    (limit - 1) as nat,
                    next_written,
                ),
                Step::Return(_, _) => next_written,
            }
        }
    }

    /// The last values that were written over some calls.
    pub open spec fn written_over(
        state: StateOf<A, R, S>,
        calls: Seq<CallOf<A, R, S>>,
        written: Written,
    ) -> Written
        decreases calls.len(),
    {
        if calls.len() == 0 {
            written
        } else {
            let before = Self::written_over(state, calls.drop_last(), written);
            match calls.last() {
                Call::Proceed(since_start) => Self::run_writes(
                    Self::after_calls(state, calls.drop_last()),
                    Poll::start(),
                    since_start,
                    u64::MAX as nat,
                    before,
                ),
                _ => before,
            }
        }
    }

    proof fn lemma_take_logs_cache(
        state: StateOf<A, R, S>,
        logs: Seq<LogEntry<<A::Op as View>::V, <S::OrderedMessage as View>::V>>,
        metadata: <R::Metadata as View>::V,
    )
        ensures
            Self::take_logs(state, logs, metadata).cache == state.cache,
        decreases logs.len(),
    {
        if logs.len() > 0 {
            Self::lemma_take_logs_cache(state, logs.drop_last(), metadata);
        }
    }

    proof fn lemma_ask_all_coherent(
        state: StateOf<A, R, S>,
        keys: Seq<Seq<u8>>,
        written: Written,
    )
        requires
            coherent(state.cache, written),
        ensures
            coherent(Self::ask_all(state, keys).cache, written),
        decreases keys.len(),
    {
        if keys.len() > 0 {
            Self::lemma_ask_all_coherent(state, keys.drop_last(), written);
            let before = Self::ask_all(state, keys.drop_last());
            cached_is_last_written(before.cache, written, keys.last(), keys.last());
        }
    }

    proof fn lemma_step_coherent(
        state: StateOf<A, R, S>,
        poll: Poll,
        since_start: Duration,
        written: Written,
    )
        requires
            coherent(state.cache, written),
        ensures
            coherent(
                match Self::step(state, poll, since_start) {
                    Step::Continue(next, _) => next.cache,
                    Step::Return(next, _) => next.cache,
                },
                after_writes(written, Self::step_writes(state, poll, since_start)),
            ),
    {
        match poll.phase {
            Phase::Start => {},
            Phase::Replication => {
                if state.executing.len() <= state.config.executing_buffer_size {
                    let (replication, action) = R::proceed_spec(state.replication, since_start);
                    match action {
                        Action::Output(replicated) => {
                            Self::lemma_take_logs_cache(
                                BigState { replication, ..state },
                                replicated.logs,
                                replicated.metadata,
                            );
                        },
                        _ => {},
                    }
                }
            },
            Phase::Storage => {},
            Phase::Execute => {
                if state.executing.len() > 0 && !Self::first_answered(state) && state.num_skip == 0
                    && state.fetch_keys.len() == 0 && !state.bumping {
                    let (execute, output) =
                        <A::ExecuteState as DataShardingExecuteState>::proceed_spec(
                        state.executing[0].execute,
                    );
                    let next = BigState {
                        executing: state.executing.update(
                            0,
                            Executing { execute, ..state.executing[0] },
                        ),
                        ..state
                    };
                    match output {
                        DataShardingExecuteOutput::Pending(keys) => {
                            Self::lemma_ask_all_coherent(next, keys, written);
                        },
                        DataShardingExecuteOutput::Complete(_, writes) => {
                            writes_keep_cache_coherent(state.cache, written, writes);
                        },
                    }
                }
            },
        }
    }

    proof fn lemma_run_coherent(
        state: StateOf<A, R, S>,
        poll: Poll,
        since_start: Duration,
        limit: nat,
        written: Written,
    )
        requires
            coherent(state.cache, written),
        ensures
            coherent(
                Self::run(state, poll, since_start, limit).0.cache,
                Self::run_writes(state, poll, since_start, limit, written),
            ),
        decreases limit,
    {
        if limit > 0 {
            Self::lemma_step_coherent(state, poll, since_start, written);
            match Self::step(state, poll, since_start) {
                Step::Continue(next, after) => {
                    Self::lemma_run_coherent(
                        next,
                        after,
                        since_start,
                        (limit - 1) as nat,
                        after_writes(written, Self::step_writes(state, poll, since_start)),
                    );
                },
                Step::Return(_, _) => {},
            }
        }
    }

    /// Over any sequence of calls, the cache holds nothing but the last values
    /// that completed operations have written. So a value that an operation gets
    /// from the cache is the last one written under its key.
    pub proof fn cache_stays_coherent(
        state: StateOf<A, R, S>,
        calls: Seq<CallOf<A, R, S>>,
        written: Written,
    )
        requires
            coherent(state.cache, written),
        ensures
            coherent(
                Self::after_calls(state, calls).cache,
                Self::written_over(state, calls, written),
            ),
        decreases calls.len(),
    {
        if calls.len() > 0 {
            Self::cache_stays_coherent(state, calls.drop_last(), written);
            match calls.last() {
                Call::Proceed(since_start) => {
                    Self::lemma_run_coherent(
                        Self::after_calls(state, calls.drop_last()),
                        Poll::start(),
                        since_start,
                        u64::MAX as nat,
                        Self::written_over(state, calls.drop_last(), written),
                    );
                },
                _ => {},
            }
        }
    }

    /// A service that has not done anything yet has an empty cache.
    pub proof fn initially_coherent(
        app: A::V,
        replication: R::V,
        storage: S::V,
        config: super::big_service::ServiceConfig,
    )
        ensures
            coherent(Self::initial(app, replication, storage, config).cache, Map::empty()),
    {
    }

    /// An operation gets the value of a key from the cache only if that is the
    /// last one written, and else storage is asked: it then waits for the key.
    pub proof fn asked_of_cache_or_storage(
        state: StateOf<A, R, S>,
        key: Seq<u8>,
        written: Written,
    )
        requires
            coherent(state.cache, written),
            state.executing.len() > 0,
        ensures
            ({
                let asked = Self::ask(state, key);
                let execute = state.executing[0].execute;
                ||| {
                    &&& written.contains_key(key)
                    &&& asked.executing[0].execute == <
                        A::ExecuteState as DataShardingExecuteState>::install_spec(
                        execute,
                        key,
                        Some(written[key]),
                    )
                    &&& asked.fetch_keys == state.fetch_keys
                }
                ||| {
                    &&& asked.executing == state.executing
                    &&& asked.storage == S::fetch_spec(state.storage, storage_key(key))
                    &&& key_position(asked.fetch_keys, storage_key(key)) < asked.fetch_keys.len()
                    &&& asked.fetch_keys[key_position(asked.fetch_keys, storage_key(key))].1 == key
                }
            }),
    {
        cached_is_last_written(state.cache, written, key, key);
        lemma_with_key(state.fetch_keys, storage_key(key), key);
    }
}

proof fn lemma_key_position(list: Values, key: Key)
    ensures
        0 <= key_position(list, key) <= list.len(),
        forall|i: int| 0 <= i < key_position(list, key) ==> (#[trigger] list[i]).0 != key,
        key_position(list, key) < list.len() ==> list[key_position(list, key)].0 == key,
    decreases list.len(),
{
    if list.len() == 0 || list[0].0 == key {
    } else {
        let rest = list.drop_first();
        lemma_key_position(rest, key);
        assert forall|i: int| 0 <= i < key_position(list, key) implies (#[trigger] list[i]).0
            != key by {
            if i > 0 {
                assert(list[i] == rest[i - 1]);
            }
        }
    }
}

proof fn lemma_with_key(list: Values, key: Key, value: Seq<u8>)
    ensures
        ({
            let after = with_key(list, key, value);
            let i = key_position(after, key);
            &&& 0 <= i < after.len()
            &&& after[i] == (key, value)
        }),
{
    lemma_key_position(list, key);
    let after = with_key(list, key, value);
    lemma_key_position(after, key);
    let at = key_position(list, key);
    let i = key_position(after, key);
    assert(after[at] == (key, value));
    if i < at {
        assert(after[i] == list[i]);
    }
}

/// The last value that is written under what storage calls a key.
pub open spec fn last_stored(writes: Seq<(Seq<u8>, Seq<u8>)>, key: Key) -> Option<Seq<u8>>
    decreases writes.len(),
{
    if writes.len() == 0 {
        None
    } else if storage_key(writes.last().0) == key {
        Some(writes.last().1)
    } else {
        last_stored(writes.drop_last(), key)
    }
}

/// Storage is told to write the last value of every written key, and nothing
/// else, and no key twice.
pub proof fn storage_gets_last_writes(writes: Seq<(Seq<u8>, Seq<u8>)>, key: Key)
    ensures
        keys_distinct(storage_writes(writes)),
        last_stored(writes, key) matches Some(value) ==> storage_writes(writes).contains(
            (key, value),
        ),
        forall|value: Seq<u8>| #[trigger]
            storage_writes(writes).contains((key, value)) ==> last_stored(writes, key) == Some(
                value,
            ),
    decreases writes.len(),
{
    if writes.len() > 0 {
        let before = storage_writes(writes.drop_last());
        let last = storage_key(writes.last().0);
        let value = writes.last().1;
        storage_gets_last_writes(writes.drop_last(), key);
        lemma_key_position(before, last);
        let at = key_position(before, last);
        let after = storage_writes(writes);
        assert(after == with_key(before, last, value));
        if key == last {
            assert(after[at] == (key, value));
            assert forall|other: Seq<u8>| #[trigger] after.contains((key, other)) implies other
                == value by {
                let i = after.index_of((key, other));
                assert(after[i].0 == after[at].0);
                if i != at {
                    assert(after[i] == before[i]);
                }
            }
        } else {
            if last_stored(writes.drop_last(), key) is Some {
                let kept = (key, last_stored(writes.drop_last(), key)->Some_0);
                let i = before.index_of(kept);
                assert(before[i] == kept);
                assert(after[i] == kept);
            }
            assert forall|other: Seq<u8>| #[trigger] after.contains((key, other)) implies
                before.contains((key, other)) by {
                let i = after.index_of((key, other));
                assert(after[i] == (key, other));
                if i != at {
                    assert(before[i] == (key, other));
                }
            }
        }
    }
}

/// Whether no key is waited for twice.
pub open spec fn waits_once(list: Values) -> bool {
    forall|i: int, j: int| 0 <= i < j < list.len() ==> (#[trigger] list[i]).0 != (#[trigger] list[j]).0
}

impl<A: DataShardingApp, R: ReplicationState<BigServiceLog<A, S>>, S: StorageState> BigService<
    A,
    R,
    S,
> {
    /// A value from storage goes to the key that storage was asked for: it is
    /// installed in the operation under that key, which is then not waited for
    /// any more, and what else is waited for stays. A value that is not waited
    /// for changes nothing.
    pub proof fn fetched_goes_to_its_key(
        state: StateOf<A, R, S>,
        key: Seq<u8>,
        value: Option<Seq<u8>>,
        other: Key,
        stray: Key,
    )
        requires
            waits_once(state.fetch_keys),
            state.executing.len() > 0,
            cache_hit(state.cache, key) is None,
        ensures
            ({
                let asked = Self::ask(state, key);
                let after = Self::take_fetched(asked, storage_key(key), value);
                let waits = key_position(asked.fetch_keys, other) < asked.fetch_keys.len();
                &&& waits_once(asked.fetch_keys)
                &&& waits_once(after.fetch_keys)
                &&& after.executing[0].execute
                    == <A::ExecuteState as DataShardingExecuteState>::install_spec(
                    state.executing[0].execute,
                    key,
                    value,
                )
                &&& key_position(after.fetch_keys, storage_key(key)) == after.fetch_keys.len()
                &&& other != storage_key(key) ==> (key_position(after.fetch_keys, other)
                    < after.fetch_keys.len() <==> waits)
                &&& key_position(asked.fetch_keys, stray) == asked.fetch_keys.len()
                    ==> Self::take_fetched(asked, stray, value) == asked
            }),
    {
        let own = storage_key(key);
        let asked = Self::ask(state, key);
        let after = Self::take_fetched(asked, own, value);
        let list = state.fetch_keys;
        let waiting = asked.fetch_keys;
        lemma_key_position(list, own);
        lemma_with_key(list, own, key);
        lemma_key_position(waiting, own);
        lemma_key_position(waiting, other);
        lemma_key_position(after.fetch_keys, own);
        lemma_key_position(after.fetch_keys, other);
        let at = key_position(list, own);
        assert(waits_once(waiting)) by {
            assert forall|i: int, j: int| 0 <= i < j < waiting.len() implies (
            #[trigger] waiting[i]).0 != (#[trigger] waiting[j]).0 by {
                if i != at && j != at {
                    assert(waiting[i] == list[i] && waiting[j] == list[j]);
                } else if at < list.len() {
                    assert(list[i].0 != list[j].0);
                } else {
                    assert(waiting[i] == list[i]);
                }
            }
        }
        let k = key_position(waiting, own);
        assert(after.fetch_keys == waiting.remove(k));
        assert forall|i: int| 0 <= i < after.fetch_keys.len() implies #[trigger] after.fetch_keys[i]
            == waiting[if i < k {
            i
        } else {
            i + 1
        }] by {}
        let i = key_position(after.fetch_keys, own);
        if i < after.fetch_keys.len() {
            let l = if i < k {
                i
            } else {
                i + 1
            };
            assert(waiting[l].0 == waiting[k].0);
        }
        if other != own {
            let m = key_position(waiting, other);
            if m < waiting.len() {
                let l = if m < k {
                    m
                } else {
                    m - 1
                };
                assert(after.fetch_keys[l] == waiting[m]);
            }
            let n = key_position(after.fetch_keys, other);
            if n < after.fetch_keys.len() {
                let l = if n < k {
                    n
                } else {
                    n + 1
                };
                assert(waiting[l].0 == other);
            }
        }
    }

    /// An operation goes on only when nothing is waited for: no value of it, no
    /// write of the one before it, and no version to be skipped.
    pub proof fn goes_on_when_nothing_is_waited_for(
        state: StateOf<A, R, S>,
        poll: Poll,
        since_start: Duration,
    )
        requires
            state.executing.len() > 0,
            !Self::first_answered(state),
            poll.phase is Execute,
        ensures
            ({
                let waits = state.fetch_keys.len() > 0 || state.bumping || state.num_skip > 0;
                &&& waits ==> Self::step_writes(state, poll, since_start).len() == 0
                &&& waits ==> match Self::step(state, poll, since_start) {
                    Step::Continue(next, _) => next.storage == state.storage && next.replies
                        == state.replies && state.num_skip > 0,
                    Step::Return(next, action) => next == state && action is Pending,
                }
            }),
    {
    }

    /// A new request is handed to replication as it is, and one that its client
    /// was answered later than is not.
    pub proof fn new_request_is_submitted(
        state: StateOf<A, R, S>,
        request: crate::service::Request<<A::Op as View>::V>,
    )
        ensures
            ({
                let after = <Self as State>::receive_spec(
                    state,
                    crate::service::Message::Request(request),
                );
                let answered = state.replies.contains_key(request.client_id)
                    && state.replies[request.client_id].client_seq >= request.client_seq;
                &&& !answered ==> after == BigState {
                    replication: R::submit_spec(state.replication, LogEntry::Request(request)),
                    ..state
                }
                &&& answered ==> after.replication == state.replication
            }),
    {
    }
}

/// Whether exactly the last value of every written key is in a list.
pub open spec fn holds_last_writes(list: Values, writes: Seq<(Seq<u8>, Seq<u8>)>) -> bool {
    &&& keys_distinct(list)
    &&& forall|key: Key, value: Seq<u8>| #[trigger]
        list.contains((key, value)) <==> last_stored(writes, key) == Some(value)
}

proof fn lemma_with_key_keeps(list: Values, key: Key, value: Seq<u8>, other: Key)
    requires
        key_position(list, other) < list.len(),
    ensures
        key_position(with_key(list, key, value), other) < with_key(list, key, value).len(),
{
    let after = with_key(list, key, value);
    lemma_key_position(list, key);
    lemma_key_position(list, other);
    lemma_key_position(after, other);
    let i = key_position(list, other);
    let at = key_position(list, key);
    if i == at {
        assert(after[i].0 == other);
    } else {
        assert(after[i] == list[i]);
    }
    if key_position(after, other) == after.len() {
        assert(after[i].0 != other);
    }
}

impl<A: DataShardingApp, R: ReplicationState<BigServiceLog<A, S>>, S: StorageState> BigService<
    A,
    R,
    S,
> {
    /// Where an operation completes, storage is told to write the last value of
    /// every key that it has written, and the client is answered with the result
    /// under the request's number.
    pub proof fn completion_is_stored_and_answered(
        state: StateOf<A, R, S>,
        res: <A::Res as View>::V,
        writes: Seq<(Seq<u8>, Seq<u8>)>,
    )
        requires
            state.executing.len() > 0,
        ensures
            ({
                let (after, action) = Self::complete(state, res, writes);
                let first = state.executing[0];
                &&& exists|list: Values| #[trigger]
                    holds_last_writes(list, writes) && after.storage == S::bump_spec(
                        state.storage,
                        list,
                    )
                &&& after.bumping
                &&& action matches Action::Perform(
                    crate::service::Effect::Reply(client_id, reply),
                ) && client_id == first.client_id && reply.client_seq == first.client_seq
                    && reply.res == res && reply.metadata == first.metadata
                    && after.replies.contains_key(client_id) && after.replies[client_id] == reply
                &&& after.executing == state.executing.drop_first()
            }),
    {
        let list = storage_writes(writes);
        assert(holds_last_writes(list, writes)) by {
            assert forall|key: Key, value: Seq<u8>| #[trigger]
                list.contains((key, value)) <==> last_stored(writes, key) == Some(value) by {
                storage_gets_last_writes(writes, key);
            }
            if writes.len() > 0 {
                storage_gets_last_writes(writes, storage_key(writes[0].0));
            } else {
                assert(list.len() == 0);
            }
        }
    }

    /// Of the keys that an operation needs, each is in the cache or is waited for.
    pub proof fn every_key_is_asked_for(
        state: StateOf<A, R, S>,
        keys: Seq<Seq<u8>>,
        written: Written,
        i: int,
    )
        requires
            coherent(state.cache, written),
            0 <= i < keys.len(),
        ensures
            ({
                let after = Self::ask_all(state, keys);
                ||| cache_hit(state.cache, keys[i]) is Some
                ||| key_position(after.fetch_keys, storage_key(keys[i])) < after.fetch_keys.len()
            }),
        decreases keys.len(),
    {
        let shorter = keys.drop_last();
        let before = Self::ask_all(state, shorter);
        let last = keys.last();
        Self::lemma_ask_all_coherent(state, shorter, written);
        Self::lemma_ask_all_hits(state, shorter, written, last);
        if i < shorter.len() {
            assert(shorter[i] == keys[i]);
            Self::every_key_is_asked_for(state, shorter, written, i);
            if key_position(before.fetch_keys, storage_key(keys[i])) < before.fetch_keys.len() {
                lemma_with_key_keeps(
                    before.fetch_keys,
                    storage_key(last),
                    last,
                    storage_key(keys[i]),
                );
            }
        } else {
            lemma_with_key(before.fetch_keys, storage_key(last), last);
        }
    }

    proof fn lemma_ask_all_hits(
        state: StateOf<A, R, S>,
        keys: Seq<Seq<u8>>,
        written: Written,
        key: Seq<u8>,
    )
        requires
            coherent(state.cache, written),
        ensures
            cache_hit(Self::ask_all(state, keys).cache, key) == cache_hit(state.cache, key),
        decreases keys.len(),
    {
        if keys.len() > 0 {
            Self::lemma_ask_all_hits(state, keys.drop_last(), written, key);
            Self::lemma_ask_all_coherent(state, keys.drop_last(), written);
            let before = Self::ask_all(state, keys.drop_last());
            cached_is_last_written(before.cache, written, keys.last(), key);
        }
    }

    /// Ordered requests are executed as they are: each is queued behind those
    /// before it, with its own operation, and is answered to its client.
    pub proof fn ordered_request_is_queued(
        state: StateOf<A, R, S>,
        request: crate::service::Request<<A::Op as View>::V>,
        metadata: <R::Metadata as View>::V,
    )
        ensures
            ({
                let after = Self::take_log(state, LogEntry::Request(request), metadata);
                let last = after.executing.last();
                &&& after.executing.len() == state.executing.len() + 1
                &&& after.executing.drop_last() == state.executing
                &&& last.client_id == request.client_id
                &&& last.client_seq == request.client_seq
                &&& last.metadata == metadata
                &&& last.execute == <A::ExecuteState as DataShardingExecuteState>::proceed_spec(
                    A::new_execute_spec(state.app, request.op),
                ).0
                &&& after.replies == state.replies
                &&& after.fetch_keys == state.fetch_keys
            }),
    {
        let after = Self::take_log(state, LogEntry::Request(request), metadata);
        assert(after.executing.drop_last() =~= state.executing);
    }
}

/// The values that storage holds after it was told to write some.
pub open spec fn after_stores(stored: Map<Key, Seq<u8>>, list: Values) -> Map<Key, Seq<u8>>
    decreases list.len(),
{
    if list.len() == 0 {
        stored
    } else {
        after_stores(stored, list.drop_last()).insert(list.last().0, list.last().1)
    }
}

/// Whether storage holds the last value that was written under each key.
pub open spec fn stores_last(stored: Map<Key, Seq<u8>>, written: Written) -> bool {
    forall|key: Seq<u8>| #[trigger]
        written.contains_key(key) ==> stored.contains_key(storage_key(key))
            && stored[storage_key(key)] == written[key]
}

/// Whether a key is written, now or before.
pub open spec fn is_known(
    written: Written,
    writes: Seq<(Seq<u8>, Seq<u8>)>,
    key: Seq<u8>,
) -> bool {
    written.contains_key(key) || exists|i: int|
        0 <= i < writes.len() && (#[trigger] writes[i]).0 == key
}

/// Whether storage tells all written keys apart: no two of them have one digest.
pub open spec fn keys_apart(written: Written, writes: Seq<(Seq<u8>, Seq<u8>)>) -> bool {
    forall|a: Seq<u8>, b: Seq<u8>|
        #![trigger is_known(written, writes, a), is_known(written, writes, b)]
        is_known(written, writes, a) && is_known(written, writes, b) && storage_key(a)
            == storage_key(b) ==> a == b
}

proof fn lemma_after_stores(stored: Map<Key, Seq<u8>>, list: Values, key: Key)
    requires
        keys_distinct(list),
    ensures
        forall|value: Seq<u8>| #[trigger]
            list.contains((key, value)) ==> after_stores(stored, list).contains_key(key)
                && after_stores(stored, list)[key] == value,
        (forall|value: Seq<u8>| !#[trigger] list.contains((key, value))) ==> (after_stores(
            stored,
            list,
        ).contains_key(key) <==> stored.contains_key(key)) && (stored.contains_key(key)
            ==> after_stores(stored, list)[key] == stored[key]),
    decreases list.len(),
{
    if list.len() > 0 {
        let shorter = list.drop_last();
        let last = list.last();
        let end = list.len() - 1;
        assert(keys_distinct(shorter)) by {
            assert forall|i: int, j: int| 0 <= i < j < shorter.len() implies (
            #[trigger] shorter[i]).0 != (#[trigger] shorter[j]).0 by {
                assert(list[i].0 != list[j].0);
            }
        }
        lemma_after_stores(stored, shorter, key);
        assert(list[end] == last);
        assert forall|value: Seq<u8>| #[trigger] list.contains((key, value)) implies after_stores(
            stored,
            list,
        ).contains_key(key) && after_stores(stored, list)[key] == value by {
            let i = list.index_of((key, value));
            if i < end {
                assert(list[i].0 != list[end].0);
                assert(shorter[i] == (key, value));
                assert(shorter.contains((key, value)));
            }
        }
        if forall|value: Seq<u8>| !#[trigger] list.contains((key, value)) {
            assert(last.0 != key) by {
                if last.0 == key {
                    assert(list.contains((key, last.1)));
                }
            }
            assert forall|value: Seq<u8>| !#[trigger] shorter.contains((key, value)) by {
                if shorter.contains((key, value)) {
                    let i = shorter.index_of((key, value));
                    assert(list[i] == (key, value));
                    assert(list.contains((key, value)));
                }
            }
        }
    }
}

/// The last value that is written under a key.
pub open spec fn last_written(writes: Seq<(Seq<u8>, Seq<u8>)>, key: Seq<u8>) -> Option<Seq<u8>>
    decreases writes.len(),
{
    if writes.len() == 0 {
        None
    } else if writes.last().0 == key {
        Some(writes.last().1)
    } else {
        last_written(writes.drop_last(), key)
    }
}

proof fn lemma_after_writes(written: Written, writes: Seq<(Seq<u8>, Seq<u8>)>, key: Seq<u8>)
    ensures
        match last_written(writes, key) {
            Some(value) => after_writes(written, writes).contains_key(key) && after_writes(
                written,
                writes,
            )[key] == value,
            None => (after_writes(written, writes).contains_key(key) <==> written.contains_key(key))
                && (written.contains_key(key) ==> after_writes(written, writes)[key]
                == written[key]),
        },
        last_written(writes, key) is Some ==> exists|i: int|
            0 <= i < writes.len() && (#[trigger] writes[i]).0 == key,
    decreases writes.len(),
{
    if writes.len() > 0 {
        let shorter = writes.drop_last();
        lemma_after_writes(written, shorter, key);
        let end = writes.len() - 1;
        if writes.last().0 == key {
            assert(writes[end].0 == key);
        } else if last_written(writes, key) is Some {
            let i = choose|i: int| 0 <= i < shorter.len() && (#[trigger] shorter[i]).0 == key;
            assert(writes[i].0 == key);
        }
    }
}

proof fn lemma_last_stored(
    written: Written,
    all: Seq<(Seq<u8>, Seq<u8>)>,
    num: int,
    key: Seq<u8>,
)
    requires
        keys_apart(written, all),
        is_known(written, all, key),
        0 <= num <= all.len(),
    ensures
        last_stored(all.subrange(0, num), storage_key(key)) == last_written(
            all.subrange(0, num),
            key,
        ),
    decreases num,
{
    if num > 0 {
        let writes = all.subrange(0, num);
        assert(writes.drop_last() =~= all.subrange(0, num - 1));
        lemma_last_stored(written, all, num - 1, key);
        let last = writes.last().0;
        assert(all[num - 1].0 == last);
        assert(is_known(written, all, last));
    }
}

/// Storage holds the last value that was written under each key, as long as no two
/// keys have one digest: what an operation writes reaches it, and what was written
/// before stays.
pub proof fn storage_holds_last_written(
    stored: Map<Key, Seq<u8>>,
    written: Written,
    writes: Seq<(Seq<u8>, Seq<u8>)>,
)
    requires
        stores_last(stored, written),
        keys_apart(written, writes),
    ensures
        stores_last(after_stores(stored, storage_writes(writes)), after_writes(written, writes)),
{
    let list = storage_writes(writes);
    let after = after_writes(written, writes);
    let held = after_stores(stored, list);
    assert(writes.subrange(0, writes.len() as int) =~= writes);
    assert forall|key: Seq<u8>| #[trigger] after.contains_key(key) implies held.contains_key(
        storage_key(key),
    ) && held[storage_key(key)] == after[key] by {
        let own = storage_key(key);
        lemma_after_writes(written, writes, key);
        assert(is_known(written, writes, key));
        lemma_last_stored(written, writes, writes.len() as int, key);
        storage_gets_last_writes(writes, own);
        lemma_after_stores(stored, list, own);
        match last_stored(writes, own) {
            Some(value) => {
                assert(list.contains((own, value)));
            },
            None => {
                assert forall|value: Seq<u8>| !#[trigger] list.contains((own, value)) by {}
            },
        }
    }
}

/// With a cache an operation reads what it would read without: what the cache
/// holds for a key is what storage holds for it.
pub proof fn cache_agrees_with_storage(
    cache: Option<CacheState>,
    stored: Map<Key, Seq<u8>>,
    written: Written,
    key: Seq<u8>,
)
    requires
        coherent(cache, written),
        stores_last(stored, written),
    ensures
        cache_hit(cache, key) matches Some(value) ==> stored.contains_key(storage_key(key))
            && stored[storage_key(key)] == value,
{
    cached_is_last_written(cache, written, key, key);
}

impl<A: DataShardingApp, R: ReplicationState<BigServiceLog<A, S>>, S: StorageState> BigService<
    A,
    R,
    S,
> {
    /// What storage wants ordered is handed to replication, and comes back to
    /// storage when it is ordered; what else storage wants done is handed out.
    pub proof fn storage_is_served(
        state: StateOf<A, R, S>,
        poll: Poll,
        since_start: Duration,
        message: <S::OrderedMessage as View>::V,
        metadata: <R::Metadata as View>::V,
    )
        requires
            poll.phase is Storage,
        ensures
            ({
                let (storage, action) = S::proceed_spec(state.storage, since_start);
                let step = Self::step(state, poll, since_start);
                match action {
                    Action::Perform(super::storage::StorageStateEffect::Order(order)) => {
                        step matches Step::Continue(next, _) && next.replication == R::submit_spec(
                            state.replication,
                            LogEntry::StorageOrderedMessage(order),
                        ) && next.storage == storage
                    },
                    Action::Perform(effect) => {
                        step matches Step::Return(next, asked) && {
                            &&& next.storage == storage
                            &&& next.replication == state.replication
                            &&& asked matches Action::Perform(
                                crate::service::Effect::Intermediate(
                                    super::big_service::ServiceEffect::Storage(given),
                                ),
                            ) && given == effect
                        }
                    },
                    _ => true,
                }
            }),
            ({
                let after = Self::take_log(
                    state,
                    LogEntry::StorageOrderedMessage(message),
                    metadata,
                );
                &&& after.storage == S::receive_ordered_spec(state.storage, message)
                &&& after.executing == state.executing
                &&& after.replies == state.replies
            }),
    {
    }
}

} // verus!
