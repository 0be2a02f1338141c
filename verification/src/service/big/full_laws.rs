//! What full replication keeps and waits for.
use super::config::Key;
use super::erasure::Values;
use super::laws::is_written;
use super::storage::{
    FullEffectModel, FullReplicationStorage, FullState, StorageState, StorageStateEffect,
    StorageStateOutput,
};
use super::text::hex_text;
use crate::service::Store;
use crate::state::{Action, Duration, State};
use vstd::prelude::*;

verus! {

/// A bump tells the store to write every value under the name of its key, all of
/// them and nothing else, waits for exactly those, and remembers the keys.
pub proof fn every_write_is_stored(state: FullState, writes: Values, key: Key, i: int)
    ensures
        ({
            let after = state.put_all(writes);
            let n = state.effects.len() as int;
            &&& after.effects.len() == n + writes.len()
            &&& 0 <= i < n ==> after.effects[i] == state.effects[i]
            &&& 0 <= i < writes.len() ==> after.effects[n + i] == FullEffectModel::Store(
                Store::Put(hex_text(writes[i].0.0@), writes[i].1),
            ) && after.writing.contains(hex_text(writes[i].0.0@))
            &&& after.keys.contains(key) <==> state.keys.contains(key) || is_written(writes, key)
            &&& after.outputs == state.outputs
        }),
    decreases writes.len(),
{
    if writes.len() > 0 {
        let shorter = writes.drop_last();
        every_write_is_stored(state, shorter, key, i);
        let last = writes.len() - 1;
        assert(writes[last] == writes.last());
        if is_written(shorter, key) {
            let j = choose|j: int| 0 <= j < shorter.len() && (#[trigger] shorter[j]).0 == key;
            assert(writes[j].0 == key);
        }
        if is_written(writes, key) {
            let j = choose|j: int| 0 <= j < writes.len() && (#[trigger] writes[j]).0 == key;
            if j < last {
                assert(shorter[j].0 == key);
            }
        }
        if 0 <= i < last {
            assert(shorter[i] == writes[i]);
        }
    }
}

/// What a bump waits for is what was waited for and the names of what it writes.
pub proof fn waits_for_its_writes(state: FullState, writes: Values, name: Seq<char>)
    ensures
        state.put_all(writes).writing.contains(name) <==> state.writing.contains(name) || exists|
            i: int,
        |
            0 <= i < writes.len() && name == hex_text((#[trigger] writes[i]).0.0@),
    decreases writes.len(),
{
    if writes.len() > 0 {
        let shorter = writes.drop_last();
        waits_for_its_writes(state, shorter, name);
        let last = writes.len() - 1;
        let before = state.put_all(shorter);
        if exists|i: int| 0 <= i < writes.len() && name == hex_text((#[trigger] writes[i]).0.0@) {
            let i = choose|i: int|
                0 <= i < writes.len() && name == hex_text((#[trigger] writes[i]).0.0@);
            if i < last {
                assert(shorter[i] == writes[i]);
            }
        }
        if before.writing.contains(name) && !state.writing.contains(name) {
            let i = choose|i: int|
                0 <= i < shorter.len() && name == hex_text((#[trigger] shorter[i]).0.0@);
            assert(writes[i] == shorter[i]);
        }
        assert(writes[last] == writes.last());
    }
}

/// The service is told that a bump is done exactly when its last value is
/// written, or at once where there is nothing to write.
pub proof fn done_when_all_is_written(state: FullState, writes: Values, name: Seq<char>)
    ensures
        ({
            let started = <FullReplicationStorage as StorageState>::bump_spec(state, writes);
            let done = <FullReplicationStorage as StorageState>::put_complete_spec(state, name);
            &&& started.outputs == if writes.len() == 0 && state.writing == Set::<
                Seq<char>,
            >::empty() {
                state.outputs.push(StorageStateOutput::Bumped)
            } else {
                state.outputs
            }
            &&& done.writing == state.writing.remove(name)
            &&& done.outputs == if state.writing == set![name] {
                state.outputs.push(StorageStateOutput::Bumped)
            } else {
                state.outputs
            }
        }),
{
    let put = state.put_all(writes);
    if writes.len() > 0 {
        every_write_is_stored(state, writes, writes[0].0, 0);
        assert(put.writing.contains(hex_text(writes[0].0.0@)));
    }
    let left = state.writing.remove(name);
    if state.writing.contains(name) {
        if left == Set::<Seq<char>>::empty() {
            assert(state.writing =~= set![name]);
        }
        if state.writing == set![name] {
            assert(left =~= Set::empty());
        }
    } else {
        assert(left =~= state.writing);
        assert(set![name].contains(name));
    }
}

/// A key that was never written has no value, and the service is told so at once;
/// the store is asked for no other.
pub proof fn unwritten_has_no_value(state: FullState, key: Key)
    ensures
        ({
            let after = <FullReplicationStorage as StorageState>::fetch_spec(state, key);
            if state.keys.contains(key) {
                &&& after.effects == state.effects.push(
                    StorageStateEffect::Store(Store::Get(hex_text(key.0@))),
                )
                &&& after.outputs == state.outputs
            } else {
                &&& after.outputs == state.outputs.push(StorageStateOutput::Fetched(key, None))
                &&& after.effects == state.effects
            }
        }),
{
}

/// Everything that is asked for or told is handed out, outputs in their order
/// first, and only then storage waits.
pub proof fn all_is_handed_out(state: FullState, since_start: Duration)
    ensures
        ({
            let (after, action) = <FullReplicationStorage as State>::proceed_spec(
                state,
                since_start,
            );
            match action {
                Action::Output(output) => state.outputs == seq![output] + after.outputs
                    && after.effects == state.effects,
                Action::Perform(effect) => state.effects == after.effects.push(effect)
                    && state.outputs.len() == 0 && after.outputs == state.outputs,
                Action::Pending(_) => state.outputs.len() == 0 && state.effects.len() == 0 && after
                    == state,
            }
        }),
{
    let (after, _) = <FullReplicationStorage as State>::proceed_spec(state, since_start);
    if state.outputs.len() > 0 {
        assert(state.outputs =~= seq![state.outputs[0]] + after.outputs);
    } else if state.effects.len() > 0 {
        assert(state.effects =~= after.effects.push(state.effects.last()));
    }
}

} // verus!
