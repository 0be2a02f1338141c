//! Storage that a service runs on.
use super::config::{Key, StateVersion};
use super::erasure::{values_view, Values};
use super::text::{hex_bytes, hex_name, hex_text, is_hex_key, key_digits, parse_key};
use crate::list_set::{ListSet, Same};
use crate::service::Store;
use crate::shared::{share, Bytes};
use crate::state::{Action, Duration, Never, State};
use std::collections::VecDeque;
use vstd::prelude::*;

verus! {

impl Same for Key {
    fn is_same(&self, other: &Self) -> (same: bool) {
        self.same(other)
    }
}

/// What storage asks for. `D` stands for messages with their destination, `M`
/// for ordered messages, `S` for requests to the local store.
#[derive(Debug)]
pub enum StorageStateEffect<D, M, S = Store> {
    /// Send a message to other storage nodes.
    Send(D),
    /// Submit a message for ordering.
    Order(M),
    /// Access the local store.
    Store(S),
}

impl<D: View, M: View> View for StorageStateEffect<D, M> {
    type V = StorageStateEffect<D::V, M::V, Store<Seq<char>, Seq<u8>>>;

    open spec fn view(&self) -> StorageStateEffect<D::V, M::V, Store<Seq<char>, Seq<u8>>> {
        match *self {
            StorageStateEffect::Send(send) => StorageStateEffect::Send(send@),
            StorageStateEffect::Order(message) => StorageStateEffect::Order(message@),
            StorageStateEffect::Store(store) => StorageStateEffect::Store(store@),
        }
    }
}

/// What storage hands to its service. `B` stands for a byte string.
#[derive(Debug)]
pub enum StorageStateOutput<B = Bytes> {
    /// The value of a key, if it has one.
    Fetched(Key, Option<B>),
    /// The writes of the last bump are done.
    Bumped,
    /// The number of versions whose execution is to be skipped.
    Skipped(StateVersion),
}

/// The content of a value, if there is one.
pub open spec fn optional_bytes(value: Option<Bytes>) -> Option<Seq<u8>> {
    match value {
        Some(bytes) => Some((*bytes)@),
        None => None,
    }
}

impl View for StorageStateOutput {
    type V = StorageStateOutput<Seq<u8>>;

    open spec fn view(&self) -> StorageStateOutput<Seq<u8>> {
        match *self {
            StorageStateOutput::Fetched(key, value) => StorageStateOutput::Fetched(
                key,
                optional_bytes(value),
            ),
            StorageStateOutput::Bumped => StorageStateOutput::Bumped,
            StorageStateOutput::Skipped(num) => StorageStateOutput::Skipped(num),
        }
    }
}

/// Whether no key is written twice.
pub open spec fn keys_distinct(writes: Values) -> bool {
    forall|i: int, j: int|
        0 <= i < j < writes.len() ==> (#[trigger] writes[i]).0 != (#[trigger] writes[j]).0
}

/// Storage of versioned values. Each bump starts a new version.
pub trait StorageState: State<
    Effect = StorageStateEffect<Self::StorageSend, Self::OrderedMessage>,
    Output = StorageStateOutput,
> {
    type StorageSend: View;

    type OrderedMessage: View;

    spec fn fetch_spec(state: Self::V, key: Key) -> Self::V;

    spec fn bump_spec(state: Self::V, writes: Values) -> Self::V;

    spec fn will_fetch_spec(state: Self::V, key: Key) -> Self::V;

    spec fn get_complete_spec(state: Self::V, name: Seq<char>, value: Seq<u8>) -> Self::V;

    spec fn put_complete_spec(state: Self::V, name: Seq<char>) -> Self::V;

    spec fn receive_ordered_spec(
        state: Self::V,
        message: <Self::OrderedMessage as View>::V,
    ) -> Self::V;

    /// Asks for the value of a key at the current version.
    fn fetch(&mut self, key: Key)
        requires
            old(self).inv(),
        ensures
            final(self).inv(),
            final(self)@ == Self::fetch_spec(old(self)@, key),
    ;

    /// Starts a new version with some writes.
    fn bump(&mut self, writes: Vec<(Key, Bytes)>)
        requires
            old(self).inv(),
            keys_distinct(values_view(writes@)),
        ensures
            final(self).inv(),
            final(self)@ == Self::bump_spec(old(self)@, values_view(writes@)),
    ;

    /// Hints that the value of a key will be asked for.
    fn will_fetch(&mut self, key: Key)
        requires
            old(self).inv(),
        ensures
            final(self).inv(),
            final(self)@ == Self::will_fetch_spec(old(self)@, key),
    ;

    /// The local store has read a value.
    fn get_complete(&mut self, name: String, value: Bytes)
        requires
            old(self).inv(),
        ensures
            final(self).inv(),
            final(self)@ == Self::get_complete_spec(old(self)@, name@, (*value)@),
    ;

    /// The local store has written a value.
    fn put_complete(&mut self, name: String)
        requires
            old(self).inv(),
        ensures
            final(self).inv(),
            final(self)@ == Self::put_complete_spec(old(self)@, name@),
    ;

    /// Takes a message that was ordered.
    fn receive_ordered(&mut self, message: Self::OrderedMessage)
        requires
            old(self).inv(),
        ensures
            final(self).inv(),
            final(self)@ == Self::receive_ordered_spec(old(self)@, message@),
    ;
}

/// What full replication asks for.
pub type FullEffect = StorageStateEffect<Never, Never>;

/// An effect of full replication, over names and values themselves.
pub type FullEffectModel = StorageStateEffect<Never, Never, Store<Seq<char>, Seq<u8>>>;

/// Storage that keeps all values in the local store, each only in its last
/// version.
pub struct FullReplicationStorage {
    outputs: VecDeque<StorageStateOutput>,
    effects: Vec<FullEffect>,
    keys: ListSet<Key>,
    writing_keys: ListSet<String>,
}

/// The mathematical content of [`FullReplicationStorage`].
#[verifier::ext_equal]
pub struct FullState {
    pub outputs: Seq<StorageStateOutput<Seq<u8>>>,
    pub effects: Seq<FullEffectModel>,
    /// The keys that have a value.
    pub keys: Set<Key>,
    /// The names of the values that are being written.
    pub writing: Set<Seq<char>>,
}

impl View for FullReplicationStorage {
    type V = FullState;

    closed spec fn view(&self) -> FullState {
        FullState {
            outputs: self.outputs@.map_values(|output: StorageStateOutput| output@),
            effects: self.effects@.map_values(|effect: FullEffect| effect@),
            keys: self.keys@,
            writing: self.writing_keys@,
        }
    }
}

impl FullState {
    pub open spec fn initial() -> FullState {
        FullState {
            outputs: Seq::empty(),
            effects: Seq::empty(),
            keys: Set::empty(),
            writing: Set::empty(),
        }
    }

    pub open spec fn output(self, output: StorageStateOutput<Seq<u8>>) -> FullState {
        FullState { outputs: self.outputs.push(output), ..self }
    }

    /// Writes values to the local store.
    pub open spec fn put_all(self, writes: Values) -> FullState
        decreases writes.len(),
    {
        if writes.len() == 0 {
            self
        } else {
            let before = self.put_all(writes.drop_last());
            let (key, value) = writes.last();
            let name = hex_text(key.0@);
            FullState {
                keys: before.keys.insert(key),
                writing: before.writing.insert(name),
                effects: before.effects.push(StorageStateEffect::Store(Store::Put(name, value))),
                ..before
            }
        }
    }

    /// Tells that the bump is done once nothing is being written.
    pub open spec fn bumped_if_written(self) -> FullState {
        if self.writing == Set::<Seq<char>>::empty() {
            self.output(StorageStateOutput::Bumped)
        } else {
            self
        }
    }
}

impl FullReplicationStorage {
    /// Storage without values.
    pub fn new() -> (storage: Self)
        ensures
            storage.inv(),
            storage@ == FullState::initial(),
    {
        let storage = FullReplicationStorage {
            outputs: VecDeque::new(),
            effects: Vec::new(),
            keys: ListSet::new(),
            writing_keys: ListSet::new(),
        };
        assert(storage@ =~= FullState::initial());
        storage
    }

    fn output(&mut self, output: StorageStateOutput)
        ensures
            final(self)@ == old(self)@.output(output@),
    {
        self.outputs.push_back(output);
        assert(self@ =~= old(self)@.output(output@));
    }

    fn perform(&mut self, store: Store)
        ensures
            final(self)@ == (FullState {
                effects: old(self)@.effects.push(StorageStateEffect::Store(store@)),
                ..old(self)@
            }),
    {
        self.effects.push(StorageStateEffect::Store(store));
        assert(self@ =~= FullState {
            effects: old(self)@.effects.push(StorageStateEffect::Store(store@)),
            ..old(self)@
        });
    }
}

impl Default for FullReplicationStorage {
    fn default() -> (storage: Self)
        ensures
            storage.inv(),
            storage@ == FullState::initial(),
    {
        Self::new()
    }
}

impl State for FullReplicationStorage {
    type Effect = FullEffect;

    type Output = StorageStateOutput;

    type Message = Never;

    open spec fn inv(&self) -> bool {
        true
    }

    open spec fn proceed_spec(state: FullState, since_start: Duration) -> (
        FullState,
        Action<FullEffectModel, StorageStateOutput<Seq<u8>>>,
    ) {
        if state.outputs.len() > 0 {
            (
                FullState { outputs: state.outputs.drop_first(), ..state },
                Action::Output(state.outputs[0]),
            )
        } else if state.effects.len() > 0 {
            (
                FullState { effects: state.effects.drop_last(), ..state },
                Action::Perform(state.effects.last()),
            )
        } else {
            (state, Action::Pending(None))
        }
    }

    open spec fn receive_spec(state: FullState, message: Never) -> FullState {
        state
    }

    fn proceed(&mut self, since_start: Duration) -> (action: Action<
        FullEffect,
        StorageStateOutput,
    >) {
        match self.outputs.pop_front() {
            Some(output) => {
                assert(self@ =~= FullState { outputs: old(self)@.outputs.drop_first(), ..old(self)@ });
                Action::Output(output)
            },
            None => match self.effects.pop() {
                Some(effect) => {
                    assert(self@ =~= FullState {
                        effects: old(self)@.effects.drop_last(),
                        ..old(self)@
                    });
                    Action::Perform(effect)
                },
                None => {
                    assert(self@ =~= old(self)@);
                    Action::Pending(None)
                },
            },
        }
    }

    fn receive(&mut self, message: Never) {
    }
}

impl StorageState for FullReplicationStorage {
    type StorageSend = Never;

    type OrderedMessage = Never;

    open spec fn fetch_spec(state: FullState, key: Key) -> FullState {
        if state.keys.contains(key) {
            FullState {
                effects: state.effects.push(
                    StorageStateEffect::Store(Store::Get(hex_text(key.0@))),
                ),
                ..state
            }
        } else {
            state.output(StorageStateOutput::Fetched(key, None))
        }
    }

    open spec fn bump_spec(state: FullState, writes: Values) -> FullState {
        state.put_all(writes).bumped_if_written()
    }

    open spec fn will_fetch_spec(state: FullState, key: Key) -> FullState {
        state
    }

    /// A name that is no key is not one of this storage, and is ignored.
    open spec fn get_complete_spec(state: FullState, name: Seq<char>, value: Seq<u8>) -> FullState {
        if is_hex_key(name) {
            state.output(
                StorageStateOutput::Fetched(named_key(name), Some(value)),
            )
        } else {
            state
        }
    }

    /// The name of a value that is not being written is ignored.
    open spec fn put_complete_spec(state: FullState, name: Seq<char>) -> FullState {
        if state.writing.contains(name) {
            FullState { writing: state.writing.remove(name), ..state }.bumped_if_written()
        } else {
            state
        }
    }

    open spec fn receive_ordered_spec(state: FullState, message: Never) -> FullState {
        state
    }

    fn fetch(&mut self, key: Key) {
        if !self.keys.contains(&key) {
            self.output(StorageStateOutput::Fetched(key, None));
            return;
        }
        self.perform(Store::Get(hex_name(&key.0)));
    }

    fn bump(&mut self, writes: Vec<(Key, Bytes)>) {
        let ghost view = values_view(writes@);
        let mut i: usize = 0;
        assert(view.subrange(0, 0) =~= Seq::empty());
        while i < writes.len()
            invariant
                i <= writes@.len(),
                view == values_view(writes@),
                self@ == old(self)@.put_all(view.subrange(0, i as int)),
            decreases writes@.len() - i,
        {
            let key = writes[i].0;
            let name = hex_name(&key.0);
            self.keys.insert(key);
            self.writing_keys.insert(name.clone());
            self.perform(Store::Put(name, share(&writes[i].1)));
            i += 1;
            proof {
                assert(view.subrange(0, i as int).drop_last() =~= view.subrange(0, i - 1));
                assert(view.subrange(0, i as int).last() == view[i - 1]);
                assert(self@ =~= old(self)@.put_all(view.subrange(0, i as int)));
            }
        }
        assert(view.subrange(0, i as int) =~= view);
        if self.writing_keys.is_empty() {
            self.output(StorageStateOutput::Bumped);
        }
    }

    fn will_fetch(&mut self, key: Key) {
    }

    fn get_complete(&mut self, name: String, value: Bytes) {
        match parse_key(name.as_str()) {
            Some(key) => {
                proof {
                    let chosen = named_key(name@);
                    assert(key.0@ == hex_bytes(key_digits(name@)));
                    assert(chosen.0@ == key.0@);
                    assert(chosen.0 =~= key.0);
                }
                self.output(StorageStateOutput::Fetched(key, Some(value)));
            },
            None => (),
        }
    }

    fn put_complete(&mut self, name: String) {
        let removed = self.writing_keys.remove(&name);
        if !removed {
            assert(self.writing_keys@ =~= old(self).writing_keys@);
            return;
        }
        if self.writing_keys.is_empty() {
            self.output(StorageStateOutput::Bumped);
        }
    }

    fn receive_ordered(&mut self, message: Never) {
    }
}

/// The key that a name stands for.
pub open spec fn named_key(name: Seq<char>) -> Key {
    choose|key: Key| key.0@ == hex_bytes(key_digits(name))
}

} // verus!
