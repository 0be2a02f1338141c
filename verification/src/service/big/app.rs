//! Applications whose state is divided into shards.
use crate::app::kv::{optional_text, KvOp, KvRes};
use crate::app::utxo::{
    spent, total_value, without_spent, worth, UtxoData, UtxoError, UtxoId, UtxoOp, UtxoOpInput,
};
use crate::app::ycsb::{YcsbOp, YcsbRes};
use crate::app::AppProtocol;
use crate::state::Duplicate;
use crate::workload::{WorkloadState};
use std::collections::{HashMap, HashSet};
use std::hash::{DefaultHasher, Hasher};
use vstd::prelude::*;
use vstd::std_specs::hash::DefaultHasherAdditionalSpecFns;

verus! {

broadcast use vstd::std_specs::hash::group_hash_axioms;

/// Identifies a shard.
pub type ShardIndex = u32;

/// How shards start.
pub trait InitDataShard<S> {
    spec fn num_shard_spec(&self) -> ShardIndex;

    /// Whether a shard can be what a shard starts as.
    spec fn starts_as(&self, index: ShardIndex, shard: S) -> bool;

    /// How many shards there are.
    fn num_shard(&self) -> (num_shard: ShardIndex)
        ensures
            num_shard == self.num_shard_spec(),
    ;

    /// What a shard starts as.
    fn init(&self, index: ShardIndex) -> (shard: S)
        ensures
            self.starts_as(index, shard),
    ;
}

/// A number of shards that start as the default.
pub struct DefaultShard(pub ShardIndex);

impl<S: Default> InitDataShard<S> for DefaultShard {
    open spec fn num_shard_spec(&self) -> ShardIndex {
        self.0
    }

    open spec fn starts_as(&self, index: ShardIndex, shard: S) -> bool {
        call_ensures(S::default, (), shard)
    }

    fn num_shard(&self) -> (num_shard: ShardIndex) {
        self.0
    }

    fn init(&self, index: ShardIndex) -> (shard: S) {
        S::default()
    }
}

/// How far the execution of an operation has come. `K` stands for a set of
/// shards.
#[derive(Debug)]
pub enum DataShardingExecuteOutput<R, K = HashSet<ShardIndex>> {
    /// Some shards are needed.
    RequireAccess(K),
    Complete(R),
}

impl<R: View> View for DataShardingExecuteOutput<R> {
    type V = DataShardingExecuteOutput<R::V, Set<ShardIndex>>;

    open spec fn view(&self) -> DataShardingExecuteOutput<R::V, Set<ShardIndex>> {
        match *self {
            DataShardingExecuteOutput::RequireAccess(shards) => {
                DataShardingExecuteOutput::RequireAccess(shards@)
            },
            DataShardingExecuteOutput::Complete(res) => DataShardingExecuteOutput::Complete(res@),
        }
    }
}

/// The hash of a text.
pub uninterp spec fn text_hash(text: Seq<char>) -> u64;

/// Calls `BuildHasher::hash_one` with a `BuildHasherDefault` of std's
/// `DefaultHasher`, which always starts from the same state. The result is a
/// function of the text alone.
#[verifier::external_body]
fn hash_text(text: &String) -> (hash: u64)
    ensures
        hash == text_hash(text@),
{
    std::hash::BuildHasher::hash_one(
        &std::hash::BuildHasherDefault::<std::hash::DefaultHasher>::default(),
        text,
    )
}

/// How data is divided into shards.
#[derive(Debug, Clone, Copy)]
pub struct DataShardingSchema {
    num_shard: ShardIndex,
}

impl View for DataShardingSchema {
    type V = ShardIndex;

    closed spec fn view(&self) -> ShardIndex {
        self.num_shard
    }
}

/// The shard of a text.
pub open spec fn shard_of_text(num_shard: ShardIndex, text: Seq<char>) -> ShardIndex {
    (text_hash(text) as int % num_shard as int) as ShardIndex
}

impl DataShardingSchema {
    /// A number of shards.
    pub fn new(num_shard: ShardIndex) -> (schema: Self)
        ensures
            schema@ == num_shard,
    {
        DataShardingSchema { num_shard }
    }

    /// The shard of a text.
    pub fn shard_index_from_hash(&self, key: &String) -> (index: ShardIndex)
        requires
            self@ > 0,
        ensures
            index == shard_of_text(self@, key@),
            index < self@,
    {
        self.shard_index(hash_text(key))
    }

    /// The shard of what has a hash.
    pub fn shard_index(&self, hash: u64) -> (index: ShardIndex)
        requires
            self@ > 0,
        ensures
            index == hash as int % self@ as int,
            index < self@,
    {
        let index: u64 = hash % self.num_shard as u64;
        index as ShardIndex
    }
}

/// A shard of texts by texts.
pub struct TextShard {
    entries: Vec<(String, String)>,
}

impl View for TextShard {
    type V = Map<Seq<char>, Seq<char>>;

    closed spec fn view(&self) -> Map<Seq<char>, Seq<char>> {
        entries_map(self.entries@)
    }
}

/// The map that entries stand for: a later entry hides an earlier one.
pub open spec fn entries_map(entries: Seq<(String, String)>) -> Map<Seq<char>, Seq<char>>
    decreases entries.len(),
{
    if entries.len() == 0 {
        Map::empty()
    } else {
        entries_map(entries.drop_last()).insert(entries.last().0@, entries.last().1@)
    }
}

impl TextShard {
    /// A shard without texts.
    pub fn new() -> (shard: Self)
        ensures
            shard@ == Map::<Seq<char>, Seq<char>>::empty(),
    {
        TextShard { entries: Vec::new() }
    }

    /// Sets the text of a key.
    pub fn insert(&mut self, key: String, value: String)
        ensures
            final(self)@ == old(self)@.insert(key@, value@),
    {
        let mut i: usize = 0;
        while i < self.entries.len()
            invariant
                i <= self.entries@.len(),
                self.entries@ == old(self).entries@,
                forall|j: int| 0 <= j < i ==> (#[trigger] self.entries@[j]).0@ != key@,
            decreases self.entries@.len() - i,
        {
            if self.entries[i].0 == key {
                let ghost before = self.entries@;
                self.entries.remove(i);
                let ghost removed = self.entries@;
                self.entries.push((key, value));
                proof {
                    assert(removed == before.remove(i as int));
                    lemma_remove(before, i as int, key@);
                    assert(self.entries@.drop_last() =~= removed);
                    let less = entries_map(removed);
                    let more = entries_map(before);
                    assert(less.insert(key@, value@) =~= less.remove(key@).insert(key@, value@));
                    assert(more.insert(key@, value@) =~= more.remove(key@).insert(key@, value@));
                }
                return;
            }
            i += 1;
        }
        self.entries.push((key, value));
        assert(self.entries@.drop_last() =~= old(self).entries@);
    }

    /// The text of a key.
    pub fn get(&self, key: &String) -> (value: Option<String>)
        ensures
            optional_text(value) == if self@.contains_key(key@) {
                Some(self@[key@])
            } else {
                None
            },
    {
        let mut i: usize = self.entries.len();
        let ghost all = self.entries@;
        assert(all.subrange(0, all.len() as int) =~= all);
        while i > 0
            invariant
                i <= self.entries@.len(),
                all == self.entries@,
                self@.contains_key(key@) == entries_map(all.subrange(0, i as int)).contains_key(
                    key@,
                ),
                self@.contains_key(key@) ==> self@[key@] == entries_map(
                    all.subrange(0, i as int),
                )[key@],
            decreases i,
        {
            let ghost earlier = all.subrange(0, i as int);
            assert(earlier.last() == all[i - 1]);
            assert(earlier.drop_last() =~= all.subrange(0, i - 1));
            if self.entries[i - 1].0 == *key {
                return Some(self.entries[i - 1].1.clone());
            }
            i -= 1;
        }
        None
    }
}

/// Taking out an entry of a key leaves all other keys as they are.
proof fn lemma_remove(entries: Seq<(String, String)>, i: int, key: Seq<char>)
    requires
        0 <= i < entries.len(),
        entries[i].0@ == key,
    ensures
        entries_map(entries.remove(i)).remove(key) == entries_map(entries).remove(key),
    decreases entries.len(),
{
    let last = entries.len() - 1;
    if i == last {
        assert(entries.remove(i) =~= entries.drop_last());
        assert(entries_map(entries).remove(key) =~= entries_map(entries.drop_last()).remove(key));
    } else {
        let shorter = entries.drop_last();
        lemma_remove(shorter, i, key);
        assert(entries.remove(i).drop_last() =~= shorter.remove(i));
        assert(entries.remove(i).last() == entries.last());
        let name = entries.last().0@;
        let text = entries.last().1@;
        assert(entries_map(entries.remove(i)).remove(key) =~= entries_map(shorter.remove(i)).remove(
            key,
        ).insert(name, text).remove(key));
        assert(entries_map(entries).remove(key) =~= entries_map(shorter).remove(key).insert(
            name,
            text,
        ).remove(key));
    }
}

/// A key-value store of texts, in shards.
pub struct Kv(pub DataShardingSchema);

/// Several operations.
pub struct KvOps(pub Vec<KvOp>);

impl View for KvOps {
    type V = Seq<KvOp<Seq<char>>>;

    open spec fn view(&self) -> Seq<KvOp<Seq<char>>> {
        self.0@.map_values(|op: KvOp| op@)
    }
}

/// The results of several operations.
pub struct KvResults(pub Vec<KvRes>);

impl View for KvResults {
    type V = Seq<KvRes<Seq<char>>>;

    open spec fn view(&self) -> Seq<KvRes<Seq<char>>> {
        self.0@.map_values(|res: KvRes| res@)
    }
}

impl Duplicate for KvResults {
    fn duplicate(&self) -> (copy: Self) {
        let mut copy: Vec<KvRes> = Vec::new();
        let mut i: usize = 0;
        while i < self.0.len()
            invariant
                i <= self.0@.len(),
                copy@.len() == i,
                forall|j: int| 0 <= j < i ==> (#[trigger] copy@[j])@ == self.0@[j]@,
            decreases self.0@.len() - i,
        {
            copy.push(self.0[i].duplicate());
            i += 1;
        }
        let copy = KvResults(copy);
        assert(copy@ =~= self@);
        copy
    }
}

impl AppProtocol for Kv {
    type Op = KvOps;

    type Res = KvResults;
}

/// The key of an operation.
pub open spec fn key_of(op: KvOp<Seq<char>>) -> Seq<char> {
    match op {
        KvOp::Put(key, _) => key,
        KvOp::Get(key) => key,
    }
}

/// Operations with the shards they are for.
pub type ShardedOps = Seq<(ShardIndex, KvOp<Seq<char>>)>;

/// Shards of texts.
pub type TextShards = Map<ShardIndex, Map<Seq<char>, Seq<char>>>;

/// The shards that operations are for and that are not at hand.
pub open spec fn required(ops: ShardedOps, shards: Set<ShardIndex>) -> Set<ShardIndex> {
    Set::new(
        |index: ShardIndex|
            !shards.contains(index) && exists|i: int|
                0 <= i < ops.len() && (#[trigger] ops[i]).0 == index,
    )
}

/// Runs one operation.
pub open spec fn run_op(shards: TextShards, index: ShardIndex, op: KvOp<Seq<char>>) -> (
    TextShards,
    KvRes<Seq<char>>,
) {
    match op {
        KvOp::Put(key, value) => (
            shards.insert(index, shards[index].insert(key, value)),
            KvRes::Put,
        ),
        KvOp::Get(key) => (
            shards,
            KvRes::Get(
                if shards[index].contains_key(key) {
                    Some(shards[index][key])
                } else {
                    None
                },
            ),
        ),
    }
}

/// Runs operations in order.
pub open spec fn run_ops(shards: TextShards, ops: ShardedOps) -> (
    TextShards,
    Seq<KvRes<Seq<char>>>,
)
    decreases ops.len(),
{
    if ops.len() == 0 {
        (shards, Seq::empty())
    } else {
        let (before, results) = run_ops(shards, ops.drop_last());
        let (after, res) = run_op(before, ops.last().0, ops.last().1);
        (after, results.push(res))
    }
}

/// Operations that are being executed, with the shards they are for.
pub struct KvExecute(Vec<(ShardIndex, KvOp)>);

impl View for KvExecute {
    type V = ShardedOps;

    closed spec fn view(&self) -> ShardedOps {
        sharded_view(self.0@)
    }
}

/// The content of operations with their shards.
pub open spec fn sharded_view(ops: Seq<(ShardIndex, KvOp)>) -> ShardedOps {
    ops.map_values(|entry: (ShardIndex, KvOp)| (entry.0, entry.1@))
}

/// The content of shards.
pub open spec fn shards_view(shards: Map<ShardIndex, TextShard>) -> TextShards {
    shards.map_values(|shard: TextShard| shard@)
}

impl Kv {
    /// The shard that an operation is for.
    pub fn shard_of(&self, op: &KvOp) -> (index: ShardIndex)
        requires
            self.0@ > 0,
        ensures
            index == shard_of_text(self.0@, key_of(op@)),
    {
        match op {
            KvOp::Put(key, _) => self.0.shard_index_from_hash(key),
            KvOp::Get(key) => self.0.shard_index_from_hash(key),
        }
    }

    /// Starts to execute operations.
    pub fn new_execute(&self, ops: KvOps) -> (execute: KvExecute)
        requires
            self.0@ > 0,
        ensures
            execute@ == ops@.map_values(
                |op: KvOp<Seq<char>>| (shard_of_text(self.0@, key_of(op)), op),
            ),
    {
        let ghost all = ops@;
        let mut rest = crate::shared::reversed(ops.0);
        let mut sharded: Vec<(ShardIndex, KvOp)> = Vec::new();
        while rest.len() > 0
            invariant
                self.0@ > 0,
                rest@.len() + sharded@.len() == all.len(),
                forall|i: int|
                    0 <= i < rest@.len() ==> (#[trigger] rest@[i])@ == all[all.len() - 1 - i],
                forall|i: int|
                    0 <= i < sharded@.len() ==> (#[trigger] sharded@[i]).0 == shard_of_text(
                        self.0@,
                        key_of(all[i]),
                    ) && sharded@[i].1@ == all[i],
            decreases rest@.len(),
        {
            let ghost done = sharded@.len() as int;
            assert(rest@[rest@.len() - 1]@ == all[done]);
            let op = rest.pop().unwrap();
            let index: ShardIndex = self.shard_of(&op);
            sharded.push((index, op));
        }
        let execute = KvExecute(sharded);
        assert(execute@ =~= all.map_values(
            |op: KvOp<Seq<char>>| (shard_of_text(self.0@, key_of(op)), op),
        ));
        execute
    }
}

impl KvExecute {
    /// The shards that are needed and not at hand.
    fn required_indices(&self, shards: &HashMap<ShardIndex, TextShard>) -> (found: Option<
        HashSet<ShardIndex>,
    >)
        ensures
            match found {
                Some(indices) => indices@ == required(self@, shards@.dom()) && indices@
                    != Set::<ShardIndex>::empty(),
                None => required(self@, shards@.dom()) == Set::<ShardIndex>::empty(),
            },
    {
        let mut indices: HashSet<ShardIndex> = HashSet::new();
        let mut any = false;
        let mut i: usize = 0;
        assert(indices@ =~= required(self@.subrange(0, 0), shards@.dom()));
        while i < self.0.len()
            invariant
                i <= self.0@.len(),
                indices@ == required(self@.subrange(0, i as int), shards@.dom()),
                any == (indices@ != Set::<ShardIndex>::empty()),
            decreases self.0@.len() - i,
        {
            let index: ShardIndex = self.0[i].0;
            let ghost before = indices@;
            let ghost ops = self@.subrange(0, i as int);
            let ghost next = self@.subrange(0, i + 1);
            assert(next =~= ops.push(self@[i as int]));
            if !shards.contains_key(&index) {
                indices.insert(index);
                any = true;
                assert(indices@.contains(index));
            }
            proof {
                let expected = required(next, shards@.dom());
                assert forall|other: ShardIndex| indices@.contains(other) == expected.contains(
                    other,
                ) by {
                    if before.contains(other) {
                        let k = choose|k: int| 0 <= k < ops.len() && (#[trigger] ops[k]).0 == other;
                        assert(next[k].0 == other);
                    }
                    if expected.contains(other) {
                        let k = choose|k: int|
                            0 <= k < next.len() && (#[trigger] next[k]).0 == other;
                        if k < i {
                            assert(ops[k].0 == other);
                        }
                    }
                    assert(next[i as int].0 == index);
                }
                assert(indices@ =~= expected);
            }
            i += 1;
        }
        assert(self@.subrange(0, i as int) =~= self@);
        if any {
            Some(indices)
        } else {
            None
        }
    }

    /// Goes on with the execution: asks for shards that are not at hand, or
    /// runs all operations in order.
    pub fn proceed(&mut self, shards: &mut HashMap<ShardIndex, TextShard>) -> (output:
        DataShardingExecuteOutput<KvResults>)
        ensures
            ({
                let missing = required(old(self)@, old(shards)@.dom());
                let (after, results) = run_ops(shards_view(old(shards)@), old(self)@);
                if missing != Set::<ShardIndex>::empty() {
                    &&& output@ == DataShardingExecuteOutput::<
                        Seq<KvRes<Seq<char>>>,
                        Set<ShardIndex>,
                    >::RequireAccess(missing)
                    &&& final(shards)@ == old(shards)@
                    &&& final(self)@ == old(self)@
                } else {
                    &&& output@ == DataShardingExecuteOutput::<
                        Seq<KvRes<Seq<char>>>,
                        Set<ShardIndex>,
                    >::Complete(results)
                    &&& shards_view(final(shards)@) == after
                    &&& final(self)@ == ShardedOps::empty()
                }
            }),
    {
        match self.required_indices(shards) {
            Some(indices) => {
                return DataShardingExecuteOutput::RequireAccess(indices);
            },
            None => {},
        }
        let mut ops: Vec<(ShardIndex, KvOp)> = Vec::new();
        std::mem::swap(&mut self.0, &mut ops);
        let ghost all = sharded_view(ops@);
        let ghost len = all.len() as int;
        assert(all == old(self)@);
        assert(self@ =~= ShardedOps::empty());
        assert forall|i: int| 0 <= i < len implies old(shards)@.contains_key(
            (#[trigger] all[i]).0,
        ) by {
            if !old(shards)@.contains_key(all[i].0) {
                assert(required(all, old(shards)@.dom()).contains(all[i].0));
            }
        }
        let mut rest = crate::shared::reversed(ops);
        let mut results: Vec<KvRes> = Vec::new();
        assert(all.subrange(0, 0) =~= ShardedOps::empty());
        assert(results@.map_values(|res: KvRes| res@) =~= Seq::empty());
        while rest.len() > 0
            invariant
                rest@.len() + results@.len() == len,
                len == all.len(),
                forall|i: int|
                    0 <= i < rest@.len() ==> ((#[trigger] rest@[i]).0, rest@[i].1@) == all[len - 1
                        - i],
                forall|i: int|
                    0 <= i < len ==> old(shards)@.contains_key((#[trigger] all[i]).0),
                shards@.dom() == old(shards)@.dom(),
                ({
                    let (after, outcome) = run_ops(
                        shards_view(old(shards)@),
                        all.subrange(0, len - rest@.len()),
                    );
                    &&& shards_view(shards@) == after
                    &&& results@.map_values(|res: KvRes| res@) == outcome
                }),
            decreases rest@.len(),
        {
            let ghost done = len - rest@.len();
            let ghost before = shards_view(shards@);
            let ghost so_far = results@.map_values(|res: KvRes| res@);
            assert((rest@[rest@.len() - 1].0, rest@[rest@.len() - 1].1@) == all[done]);
            assert(all.subrange(0, done + 1).drop_last() =~= all.subrange(0, done));
            assert(all.subrange(0, done + 1).last() == all[done]);
            let (index, op) = rest.pop().unwrap();
            assert(shards@.dom().contains(index));
            let mut shard = shards.remove(&index).unwrap();
            assert(before[index] == shard@);
            let res = match op {
                KvOp::Put(key, value) => {
                    shard.insert(key, value);
                    KvRes::Put
                },
                KvOp::Get(key) => KvRes::Get(shard.get(&key)),
            };
            shards.insert(index, shard);
            results.push(res);
            proof {
                assert(shards@.dom() =~= old(shards)@.dom());
                assert(shards_view(shards@) =~= run_op(before, index, all[done].1).0);
                assert(results@.map_values(|res: KvRes| res@) =~= so_far.push(res@));
            }
        }
        assert(all.subrange(0, len) =~= all);
        DataShardingExecuteOutput::Complete(KvResults(results))
    }
}

/// A text that was put is what is read, as long as nothing else is put under
/// its key.
pub proof fn put_is_read(
    shards: TextShards,
    index: ShardIndex,
    key: Seq<char>,
    value: Seq<char>,
    other: Seq<char>,
    text: Seq<char>,
)
    requires
        other != key,
    ensures
        ({
            let (after, _) = run_op(shards, index, KvOp::Put(key, value));
            let (later, _) = run_op(after, index, KvOp::Put(other, text));
            &&& run_op(after, index, KvOp::Get(key)).1 == KvRes::Get(Some(value))
            &&& run_op(later, index, KvOp::Get(key)).1 == KvRes::Get(Some(value))
            &&& run_op(after, index, KvOp::Get(key)).0 == after
        }),
{
}

/// A workload of a key-value benchmark, as one for [`Kv`].
pub struct AdaptKv<W>(pub W);

impl<W: View> View for AdaptKv<W> {
    type V = W::V;

    open spec fn view(&self) -> W::V {
        self.0@
    }
}

impl<W> AppProtocol for AdaptKv<W> {
    type Op = KvOps;

    type Res = KvResults;
}

/// Why results are not as expected.
#[derive(Debug)]
pub enum AdaptError<E> {
    /// There is not exactly one result.
    NotOne,
    Workload(E),
}

impl<E: View> View for AdaptError<E> {
    type V = AdaptError<E::V>;

    open spec fn view(&self) -> AdaptError<E::V> {
        match *self {
            AdaptError::NotOne => AdaptError::NotOne,
            AdaptError::Workload(err) => AdaptError::Workload(err@),
        }
    }
}

/// The operation that an operation of the benchmark stands for.
pub open spec fn adapted_op(op: YcsbOp<Seq<char>>) -> KvOp<Seq<char>> {
    match op {
        YcsbOp::Insert(key, value) => KvOp::Put(key, value),
        YcsbOp::Update(key, value) => KvOp::Put(key, value),
        YcsbOp::Get(key) => KvOp::Get(key),
    }
}

/// The result for the benchmark that a result stands for.
pub open spec fn adapted_res(res: KvRes<Seq<char>>) -> YcsbRes<Seq<char>> {
    match res {
        KvRes::Put => YcsbRes::Done,
        KvRes::Get(Some(value)) => YcsbRes::Get(value),
        KvRes::Get(None) => YcsbRes::NotFound,
    }
}

impl<W: WorkloadState<Op = YcsbOp, Res = YcsbRes>> WorkloadState for AdaptKv<W> {
    type Metadata = W::Metadata;

    type Error = AdaptError<W::Error>;

    open spec fn next_op_spec(state: W::V) -> (
        W::V,
        Option<(Seq<KvOp<Seq<char>>>, <W::Metadata as View>::V)>,
    ) {
        let (after, next) = W::next_op_spec(state);
        (
            after,
            match next {
                Some((op, metadata)) => Some((seq![adapted_op(op)], metadata)),
                None => None,
            },
        )
    }

    open spec fn complete_spec(
        state: W::V,
        metadata: <W::Metadata as View>::V,
        res: Seq<KvRes<Seq<char>>>,
    ) -> (W::V, Result<(), AdaptError<<W::Error as View>::V>>) {
        if res.len() != 1 {
            (state, Err(AdaptError::NotOne))
        } else {
            let (after, result) = W::complete_spec(state, metadata, adapted_res(res[0]));
            (
                after,
                match result {
                    Ok(()) => Ok(()),
                    Err(err) => Err(AdaptError::Workload(err)),
                },
            )
        }
    }

    fn next_op(&mut self) -> (next: Option<(KvOps, W::Metadata)>) {
        match self.0.next_op() {
            None => None,
            Some((op, metadata)) => {
                let op = match op {
                    YcsbOp::Insert(key, value) => KvOp::Put(key, value),
                    YcsbOp::Update(key, value) => KvOp::Put(key, value),
                    YcsbOp::Get(key) => KvOp::Get(key),
                };
                let mut list: Vec<KvOp> = Vec::new();
                list.push(op);
                let ops = KvOps(list);
                assert(ops@ =~= seq![op@]);
                Some((ops, metadata))
            },
        }
    }

    fn complete(&mut self, metadata: W::Metadata, res: KvResults) -> (result: Result<
        (),
        AdaptError<W::Error>,
    >) {
        let mut res = res;
        if res.0.len() != 1 {
            return Err(AdaptError::NotOne);
        }
        let ghost all = res@;
        let first = res.0.remove(0);
        assert(all[0] == first@);
        let adapted = match first {
            KvRes::Put => YcsbRes::Done,
            KvRes::Get(Some(value)) => YcsbRes::Get(value),
            KvRes::Get(None) => YcsbRes::NotFound,
        };
        match self.0.complete(metadata, adapted) {
            Ok(()) => Ok(()),
            Err(err) => Err(AdaptError::Workload(err)),
        }
    }
}

/// A ledger of unspent outputs, in shards.
pub struct Utxo(pub DataShardingSchema);

/// The hash of an output's identifier: of the length of its transaction's digest,
/// the digest, and its number, each with its lowest byte first.
pub open spec fn id_hash(id: UtxoId) -> u64 {
    DefaultHasher::spec_finish(
        seq![
            vstd::bytes::spec_u64_to_le_bytes(32),
            id.0.0@,
            vstd::bytes::spec_u32_to_le_bytes(id.1),
        ],
    )
}

/// The hash of an output's identifier, by std's `DefaultHasher`.
fn hash_id(id: &UtxoId) -> (hash: u64)
    ensures
        hash == id_hash(*id),
{
    let mut hasher = DefaultHasher::new();
    hasher.write(vstd::bytes::u64_to_le_bytes(32).as_slice());
    hasher.write(id.0.0.as_slice());
    hasher.write(vstd::bytes::u32_to_le_bytes(id.1).as_slice());
    assert(hasher@ =~= seq![
        vstd::bytes::spec_u64_to_le_bytes(32),
        id.0.0@,
        vstd::bytes::spec_u32_to_le_bytes(id.1),
    ]);
    hasher.finish()
}

/// A transaction that is being executed, with the shards that it concerns.
pub struct UtxoExecute {
    op: UtxoOp,
    input_shards: Vec<ShardIndex>,
    outputs: Vec<(ShardIndex, UtxoId, UtxoData)>,
}

/// The mathematical content of a [`UtxoExecute`].
#[verifier::ext_equal]
pub struct UtxoPlan {
    /// What is spent, `None` if the value is made up.
    pub spend: Option<Seq<(UtxoId, UtxoData)>>,
    /// The shards of what is spent.
    pub input_shards: Seq<ShardIndex>,
    /// What is made, with its shards.
    pub outputs: Seq<(ShardIndex, UtxoId, UtxoData)>,
    pub total_output: nat,
}

impl View for UtxoExecute {
    type V = UtxoPlan;

    closed spec fn view(&self) -> UtxoPlan {
        UtxoPlan {
            spend: match self.op.input {
                UtxoOpInput::Mint => None,
                UtxoOpInput::Spend(spend) => Some(spend@),
            },
            input_shards: self.input_shards@,
            outputs: self.outputs@,
            total_output: total_value(self.op.outputs@),
        }
    }
}

/// Shards of the ledger.
pub type LedgerShards = Map<ShardIndex, Map<UtxoId, UtxoData>>;

/// What outputs are worth in some shards.
pub open spec fn worth_in(
    shards: LedgerShards,
    indices: Seq<ShardIndex>,
    spend: Seq<(UtxoId, UtxoData)>,
) -> nat
    decreases indices.len(),
{
    if indices.len() == 0 {
        0
    } else {
        worth_in(shards, indices.drop_last(), spend) + worth(shards[indices.last()], spend)
    }
}

/// Takes spent outputs out of some shards.
pub open spec fn spend_in(
    shards: LedgerShards,
    indices: Seq<ShardIndex>,
    spend: Seq<(UtxoId, UtxoData)>,
) -> LedgerShards
    decreases indices.len(),
{
    if indices.len() == 0 {
        shards
    } else {
        let before = spend_in(shards, indices.drop_last(), spend);
        before.insert(indices.last(), without_spent(before[indices.last()], spend))
    }
}

/// Adds outputs to their shards.
pub open spec fn make_in(
    shards: LedgerShards,
    outputs: Seq<(ShardIndex, UtxoId, UtxoData)>,
) -> LedgerShards
    decreases outputs.len(),
{
    if outputs.len() == 0 {
        shards
    } else {
        let before = make_in(shards, outputs.drop_last());
        let (index, id, data) = outputs.last();
        before.insert(index, before[index].insert(id, data))
    }
}

impl UtxoPlan {
    /// The shards that are needed.
    pub open spec fn concerns(self, index: ShardIndex) -> bool {
        ||| self.input_shards.contains(index)
        ||| exists|i: int| 0 <= i < self.outputs.len() && (#[trigger] self.outputs[i]).0 == index
    }

    /// The shards that are needed and not at hand.
    pub open spec fn required(self, shards: Set<ShardIndex>) -> Set<ShardIndex> {
        Set::new(|index: ShardIndex| self.concerns(index) && !shards.contains(index))
    }

    /// Whether what is spent is worth less than what is made.
    pub open spec fn insufficient(self, shards: LedgerShards) -> bool {
        self.spend matches Some(spend) && worth_in(shards, self.input_shards, spend)
            < self.total_output
    }

    /// The shards after the transaction.
    pub open spec fn execute(self, shards: LedgerShards) -> LedgerShards {
        let spend = match self.spend {
            Some(spend) => spend,
            None => Seq::empty(),
        };
        make_in(spend_in(shards, self.input_shards, spend), self.outputs)
    }
}

/// The content of shards.
pub open spec fn ledger_view(shards: Map<ShardIndex, crate::app::utxo::Utxo>) -> LedgerShards {
    shards.map_values(|shard: crate::app::utxo::Utxo| shard@)
}

/// The outputs of a transaction, with given shards.
pub open spec fn outputs_with(op: UtxoOp, shards: Seq<ShardIndex>) -> Seq<
    (ShardIndex, UtxoId, UtxoData),
> {
    Seq::new(
        op.outputs@.len(),
        |i: int| (shards[i], UtxoId(op.tx_id_spec(), i as u32), op.outputs@[i]),
    )
}

/// Whether every output that is spent has one of the given shards, in order.
pub open spec fn are_shards_of(
    shards: Seq<ShardIndex>,
    spend: Seq<(UtxoId, UtxoData)>,
    num_shard: ShardIndex,
) -> bool {
    &&& shards.len() == spend.len()
    &&& forall|i: int| 0 <= i < shards.len() ==> #[trigger] shards[i] < num_shard
}

/// The shard of an output.
pub open spec fn shard_of_id(num_shard: ShardIndex, id: UtxoId) -> ShardIndex {
    (id_hash(id) as int % num_shard as int) as ShardIndex
}

/// Whether a plan has the shards of the outputs that a transaction spends and
/// makes.
pub open spec fn has_shards(plan: UtxoPlan, num_shard: ShardIndex) -> bool {
    &&& forall|i: int|
        0 <= i < plan.outputs.len() ==> (#[trigger] plan.outputs[i]).0 == shard_of_id(
            num_shard,
            plan.outputs[i].1,
        )
    &&& plan.input_shards.no_duplicates()
    &&& forall|index: ShardIndex| #[trigger]
        plan.input_shards.contains(index) <==> plan.spend is Some && exists|i: int|
            0 <= i < plan.spend->Some_0.len() && shard_of_id(
                num_shard,
                (#[trigger] plan.spend->Some_0[i]).0,
            ) == index
}

impl Utxo {
    /// The shard of an output.
    fn shard_of(&self, id: &UtxoId) -> (index: ShardIndex)
        requires
            self.0@ > 0,
        ensures
            index < self.0@,
            index == shard_of_id(self.0@, *id),
    {
        self.0.shard_index(hash_id(id))
    }

    /// Starts to execute a transaction. Its outputs are numbered in order.
    pub fn new_execute(&self, op: UtxoOp) -> (execute: UtxoExecute)
        requires
            self.0@ > 0,
            op.outputs@.len() <= u32::MAX,
        ensures
            execute@.spend == match op.input {
                UtxoOpInput::Mint => None,
                UtxoOpInput::Spend(spend) => Some(spend@),
            },
            execute@.total_output == total_value(op.outputs@),
            execute@.outputs.len() == op.outputs@.len(),
            execute@.outputs == outputs_with(
                op,
                execute@.outputs.map_values(|output: (ShardIndex, UtxoId, UtxoData)| output.0),
            ),
            forall|i: int|
                0 <= i < execute@.outputs.len() ==> (#[trigger] execute@.outputs[i]).0 < self.0@,
            execute@.input_shards.no_duplicates(),
            match op.input {
                UtxoOpInput::Mint => execute@.input_shards.len() == 0,
                UtxoOpInput::Spend(spend) => exists|shards: Seq<ShardIndex>| #[trigger]
                    are_shards_of(shards, spend@, self.0@) && execute@.input_shards.to_set()
                        == shards.to_set(),
            },
            has_shards(execute@, self.0@),
    {
        let mut input_shards: Vec<ShardIndex> = Vec::new();
        match &op.input {
            UtxoOpInput::Mint => {},
            UtxoOpInput::Spend(spend) => {
                let mut i: usize = 0;
                while i < spend.len()
                    invariant
                        i <= spend@.len(),
                        self.0@ > 0,
                        input_shards@.len() == i,
                        forall|j: int|
                            0 <= j < input_shards@.len() ==> #[trigger] input_shards@[j] < self.0@
                                && input_shards@[j] == shard_of_id(self.0@, spend@[j].0),
                    decreases spend@.len() - i,
                {
                    input_shards.push(self.shard_of(&spend[i].0));
                    i += 1;
                }
            },
        }
        let tx_id = op.tx_id();
        let mut output_shards: Vec<ShardIndex> = Vec::new();
        let mut i: usize = 0;
        while i < op.outputs.len()
            invariant
                i <= op.outputs@.len() <= u32::MAX,
                self.0@ > 0,
                output_shards@.len() == i,
                tx_id == op.tx_id_spec(),
                forall|j: int|
                    0 <= j < output_shards@.len() ==> #[trigger] output_shards@[j] < self.0@
                        && output_shards@[j] == shard_of_id(self.0@, UtxoId(tx_id, j as u32)),
            decreases op.outputs@.len() - i,
        {
            output_shards.push(self.shard_of(&UtxoId(tx_id, i as u32)));
            i += 1;
        }
        let execute = UtxoExecute::with_shards(op, input_shards, output_shards);
        proof {
            let chosen = execute@.outputs.map_values(
                |output: (ShardIndex, UtxoId, UtxoData)| output.0,
            );
            assert(chosen =~= output_shards@);
            assert forall|j: int| 0 <= j < execute@.outputs.len() implies (
            #[trigger] execute@.outputs[j]).0 < self.0@ by {
                assert(execute@.outputs[j].0 == output_shards@[j]);
            }
            match execute@.spend {
                None => {
                    if execute@.input_shards.len() > 0 {
                        assert(input_shards@.contains(execute@.input_shards[0]));
                    }
                },
                Some(spend) => {
                    assert(are_shards_of(input_shards@, spend, self.0@));
                },
            }
            assert forall|index: ShardIndex| #[trigger]
                execute@.input_shards.contains(index) <==> execute@.spend is Some && exists|i: int|
                    0 <= i < execute@.spend->Some_0.len() && shard_of_id(
                        self.0@,
                        (#[trigger] execute@.spend->Some_0[i]).0,
                    ) == index by {
                assert(execute@.input_shards.contains(index)
                    == execute@.input_shards.to_set().contains(index));
                assert(input_shards@.contains(index) == input_shards@.to_set().contains(index));
                if input_shards@.contains(index) {
                    let i = input_shards@.index_of(index);
                    assert(input_shards@[i] == shard_of_id(
                        self.0@,
                        execute@.spend->Some_0[i].0,
                    ));
                }
                if execute@.spend is Some && exists|i: int|
                    0 <= i < execute@.spend->Some_0.len() && shard_of_id(
                        self.0@,
                        (#[trigger] execute@.spend->Some_0[i]).0,
                    ) == index {
                    let i = choose|i: int|
                        0 <= i < execute@.spend->Some_0.len() && shard_of_id(
                            self.0@,
                            (#[trigger] execute@.spend->Some_0[i]).0,
                        ) == index;
                    assert(input_shards@[i] == index);
                }
            }
        }
        execute
    }
}

impl UtxoExecute {
    /// A transaction with the shards of what it spends and makes.
    pub fn with_shards(
        op: UtxoOp,
        input_shards: Vec<ShardIndex>,
        output_shards: Vec<ShardIndex>,
    ) -> (execute: Self)
        requires
            output_shards@.len() == op.outputs@.len(),
            op.outputs@.len() <= u32::MAX,
        ensures
            execute@.spend == match op.input {
                UtxoOpInput::Mint => None,
                UtxoOpInput::Spend(spend) => Some(spend@),
            },
            execute@.total_output == total_value(op.outputs@),
            execute@.outputs == outputs_with(op, output_shards@),
            execute@.input_shards.no_duplicates(),
            execute@.input_shards.to_set() == input_shards@.to_set(),
            forall|i: int|
                0 <= i < execute@.input_shards.len() ==> input_shards@.contains(
                    #[trigger] execute@.input_shards[i],
                ),
    {
        let tx_id = op.tx_id();
        let mut outputs: Vec<(ShardIndex, UtxoId, UtxoData)> = Vec::new();
        let mut i: usize = 0;
        while i < op.outputs.len()
            invariant
                i <= op.outputs@.len() <= u32::MAX,
                output_shards@.len() == op.outputs@.len(),
                tx_id == op.tx_id_spec(),
                outputs@.len() == i,
                forall|j: int|
                    0 <= j < i ==> #[trigger] outputs@[j] == outputs_with(op, output_shards@)[j],
            decreases op.outputs@.len() - i,
        {
            outputs.push((output_shards[i], UtxoId(tx_id, i as u32), op.outputs[i]));
            i += 1;
        }
        assert(outputs@ =~= outputs_with(op, output_shards@));
        let distinct = distinct_shards(&input_shards);
        UtxoExecute { op, input_shards: distinct, outputs }
    }

    /// The shards that are needed and not at hand.
    fn required_indices(&self, shards: &HashMap<ShardIndex, crate::app::utxo::Utxo>) -> (found:
        Option<HashSet<ShardIndex>>)
        ensures
            match found {
                Some(indices) => indices@ == self@.required(shards@.dom()) && indices@
                    != Set::<ShardIndex>::empty(),
                None => self@.required(shards@.dom()) == Set::<ShardIndex>::empty(),
            },
    {
        let mut indices: HashSet<ShardIndex> = HashSet::new();
        let mut any = false;
        let mut i: usize = 0;
        assert(indices@ =~= Set::empty());
        while i < self.input_shards.len()
            invariant
                i <= self.input_shards@.len(),
                forall|index: ShardIndex| #[trigger]
                    indices@.contains(index) <==> !shards@.contains_key(index) && exists|j: int|
                        0 <= j < i && #[trigger] self.input_shards@[j] == index,
                any == (indices@ != Set::<ShardIndex>::empty()),
            decreases self.input_shards@.len() - i,
        {
            let index: ShardIndex = self.input_shards[i];
            if !shards.contains_key(&index) {
                indices.insert(index);
                any = true;
                assert(indices@.contains(index));
            }
            assert(self.input_shards@[i as int] == index);
            i += 1;
        }
        let mut k: usize = 0;
        while k < self.outputs.len()
            invariant
                k <= self.outputs@.len(),
                forall|index: ShardIndex| #[trigger]
                    indices@.contains(index) <==> !shards@.contains_key(index) && ((exists|j: int|
                        0 <= j < self.input_shards@.len() && #[trigger] self.input_shards@[j]
                            == index) || (exists|j: int|
                        0 <= j < k && (#[trigger] self.outputs@[j]).0 == index)),
                any == (indices@ != Set::<ShardIndex>::empty()),
            decreases self.outputs@.len() - k,
        {
            let index: ShardIndex = self.outputs[k].0;
            if !shards.contains_key(&index) {
                indices.insert(index);
                any = true;
                assert(indices@.contains(index));
            }
            assert(self.outputs@[k as int].0 == index);
            k += 1;
        }
        proof {
            let expected = self@.required(shards@.dom());
            assert forall|index: ShardIndex| indices@.contains(index) == expected.contains(
                index,
            ) by {
                if self@.input_shards.contains(index) {
                    let j = self.input_shards@.index_of(index);
                    assert(self.input_shards@[j] == index);
                }
                if exists|j: int|
                    0 <= j < self@.outputs.len() && (#[trigger] self@.outputs[j]).0 == index {
                    let j = choose|j: int|
                        0 <= j < self@.outputs.len() && (#[trigger] self@.outputs[j]).0 == index;
                    assert(self.outputs@[j].0 == index);
                }
                if exists|j: int|
                    0 <= j < self.outputs@.len() && (#[trigger] self.outputs@[j]).0 == index {
                    let j = choose|j: int|
                        0 <= j < self.outputs@.len() && (#[trigger] self.outputs@[j]).0 == index;
                    assert(self@.outputs[j].0 == index);
                }
                if exists|j: int|
                    0 <= j < self.input_shards@.len() && #[trigger] self.input_shards@[j]
                        == index {
                    assert(self@.input_shards.contains(index));
                }
            }
            assert(indices@ =~= expected);
        }
        if any {
            Some(indices)
        } else {
            None
        }
    }

    /// Whether what is spent is worth less than what is made.
    fn is_insufficient(&self, shards: &HashMap<ShardIndex, crate::app::utxo::Utxo>) -> (
        insufficient: bool)
        requires
            forall|i: int|
                0 <= i < self@.input_shards.len() ==> shards@.contains_key(
                    #[trigger] self@.input_shards[i],
                ),
        ensures
            insufficient == self@.insufficient(ledger_view(shards@)),
    {
        match &self.op.input {
            UtxoOpInput::Mint => {
                return false;
            },
            UtxoOpInput::Spend(_) => {},
        }
        let ghost spend = spent(self.op.input);
        let ghost view = ledger_view(shards@);
        let needed: u128 = self.op.total_output();
        let mut total: u128 = 0;
        let mut i: usize = 0;
        assert(self.input_shards@.subrange(0, 0) =~= Seq::empty());
        while i < self.input_shards.len()
            invariant
                i <= self.input_shards@.len(),
                self.input_shards@ == self@.input_shards,
                view == ledger_view(shards@),
                spend == spent(self.op.input),
                self@.spend == Some(spend),
                needed == self@.total_output,
                total == worth_in(view, self.input_shards@.subrange(0, i as int), spend),
                forall|j: int|
                    0 <= j < self@.input_shards.len() ==> shards@.contains_key(
                        #[trigger] self@.input_shards[j],
                    ),
            decreases self.input_shards@.len() - i,
        {
            let ghost next = self.input_shards@.subrange(0, i + 1);
            assert(next.drop_last() =~= self.input_shards@.subrange(0, i as int));
            assert(next.last() == self@.input_shards[i as int]);
            if total >= needed {
                proof {
                    lemma_worth_in_grows(view, self.input_shards@, spend, i as int);
                }
                return false;
            }
            let shard = shards.get(&self.input_shards[i]).unwrap();
            assert(view[self.input_shards@[i as int]] == shard@);
            match shard.total_input(&self.op.input, needed - total) {
                None => {
                    proof {
                        lemma_worth_in_grows(view, self.input_shards@, spend, i + 1);
                    }
                    return false;
                },
                Some(more) => {
                    total = total + more;
                },
            }
            i += 1;
        }
        assert(self.input_shards@.subrange(0, i as int) =~= self.input_shards@);
        total < needed
    }

    /// Goes on with the execution: asks for shards that are not at hand, or
    /// refuses the transaction, or carries it out.
    pub fn proceed(&mut self, shards: &mut HashMap<ShardIndex, crate::app::utxo::Utxo>) -> (output:
        DataShardingExecuteOutput<UtxoResult>)
        ensures
            final(self)@ == old(self)@,
            ({
                let missing = old(self)@.required(old(shards)@.dom());
                let before = ledger_view(old(shards)@);
                if missing != Set::<ShardIndex>::empty() {
                    &&& output@ == DataShardingExecuteOutput::<
                        Result<(), UtxoError>,
                        Set<ShardIndex>,
                    >::RequireAccess(missing)
                    &&& final(shards)@ == old(shards)@
                } else if old(self)@.insufficient(before) {
                    &&& output@ == DataShardingExecuteOutput::<
                        Result<(), UtxoError>,
                        Set<ShardIndex>,
                    >::Complete(Err(UtxoError::InsufficientFunds))
                    &&& final(shards)@ == old(shards)@
                } else {
                    &&& output@ == DataShardingExecuteOutput::<
                        Result<(), UtxoError>,
                        Set<ShardIndex>,
                    >::Complete(Ok(()))
                    &&& ledger_view(final(shards)@) == old(self)@.execute(before)
                }
            }),
    {
        match self.required_indices(shards) {
            Some(indices) => {
                return DataShardingExecuteOutput::RequireAccess(indices);
            },
            None => {},
        }
        let ghost before = ledger_view(shards@);
        let ghost plan = self@;
        assert forall|index: ShardIndex| plan.concerns(index) implies shards@.contains_key(
            index,
        ) by {
            if !shards@.contains_key(index) {
                assert(plan.required(shards@.dom()).contains(index));
            }
        }
        assert forall|i: int| 0 <= i < plan.input_shards.len() implies shards@.contains_key(
            #[trigger] plan.input_shards[i],
        ) by {
            assert(plan.concerns(plan.input_shards[i]));
        }
        assert forall|i: int| 0 <= i < plan.outputs.len() implies shards@.contains_key(
            (#[trigger] plan.outputs[i]).0,
        ) by {
            assert(plan.concerns(plan.outputs[i].0));
        }
        if self.is_insufficient(shards) {
            return DataShardingExecuteOutput::Complete(
                UtxoResult(Err(UtxoError::InsufficientFunds)),
            );
        }
        let ghost spend = spent(self.op.input);
        let mut i: usize = 0;
        assert(self.input_shards@.subrange(0, 0) =~= Seq::empty());
        while i < self.input_shards.len()
            invariant
                i <= self.input_shards@.len(),
                self@ == plan,
                self.input_shards@ == plan.input_shards,
                spend == spent(self.op.input),
                shards@.dom() == old(shards)@.dom(),
                forall|j: int|
                    0 <= j < plan.input_shards.len() ==> old(shards)@.contains_key(
                        #[trigger] plan.input_shards[j],
                    ),
                ledger_view(shards@) == spend_in(
                    before,
                    plan.input_shards.subrange(0, i as int),
                    spend,
                ),
            decreases self.input_shards@.len() - i,
        {
            let index: ShardIndex = self.input_shards[i];
            let ghost next = plan.input_shards.subrange(0, i + 1);
            let ghost this = ledger_view(shards@);
            assert(next.drop_last() =~= plan.input_shards.subrange(0, i as int));
            assert(next.last() == index);
            assert(old(shards)@.contains_key(plan.input_shards[i as int]));
            assert(shards@.dom().contains(index));
            let mut shard = shards.remove(&index).unwrap();
            assert(this[index] == shard@);
            shard.remove_input(&self.op.input);
            shards.insert(index, shard);
            assert(shards@.dom() =~= old(shards)@.dom());
            assert(ledger_view(shards@) =~= this.insert(index, shard@));
            i += 1;
        }
        assert(plan.input_shards.subrange(0, i as int) =~= plan.input_shards);
        let ghost spent_shards = ledger_view(shards@);
        let mut k: usize = 0;
        assert(plan.outputs.subrange(0, 0) =~= Seq::empty());
        while k < self.outputs.len()
            invariant
                k <= self.outputs@.len(),
                self@ == plan,
                self.outputs@ == plan.outputs,
                shards@.dom() == old(shards)@.dom(),
                forall|j: int|
                    0 <= j < plan.outputs.len() ==> old(shards)@.contains_key(
                        (#[trigger] plan.outputs[j]).0,
                    ),
                ledger_view(shards@) == make_in(
                    spent_shards,
                    plan.outputs.subrange(0, k as int),
                ),
            decreases self.outputs@.len() - k,
        {
            let (index, id, data) = self.outputs[k];
            let ghost next = plan.outputs.subrange(0, k + 1);
            let ghost this = ledger_view(shards@);
            assert(next.drop_last() =~= plan.outputs.subrange(0, k as int));
            assert(next.last() == plan.outputs[k as int]);
            assert(old(shards)@.contains_key(plan.outputs[k as int].0));
            assert(shards@.dom().contains(index));
            let mut shard = shards.remove(&index).unwrap();
            assert(this[index] == shard@);
            shard.insert_output(id, data);
            shards.insert(index, shard);
            assert(shards@.dom() =~= old(shards)@.dom());
            assert(ledger_view(shards@) =~= this.insert(index, shard@));
            k += 1;
        }
        assert(plan.outputs.subrange(0, k as int) =~= plan.outputs);
        DataShardingExecuteOutput::Complete(UtxoResult(Ok(())))
    }
}

/// Whether a transaction was carried out.
pub struct UtxoResult(pub Result<(), UtxoError>);

impl View for UtxoResult {
    type V = Result<(), UtxoError>;

    open spec fn view(&self) -> Result<(), UtxoError> {
        self.0
    }
}

proof fn lemma_worth_in_grows(
    shards: LedgerShards,
    indices: Seq<ShardIndex>,
    spend: Seq<(UtxoId, UtxoData)>,
    i: int,
)
    requires
        0 <= i <= indices.len(),
    ensures
        worth_in(shards, indices.subrange(0, i), spend) <= worth_in(shards, indices, spend),
    decreases indices.len() - i,
{
    if i == indices.len() {
        assert(indices.subrange(0, i) =~= indices);
    } else {
        assert(indices.subrange(0, i + 1).drop_last() =~= indices.subrange(0, i));
        lemma_worth_in_grows(shards, indices, spend, i + 1);
    }
}

/// The shards of a list, each once.
fn distinct_shards(shards: &Vec<ShardIndex>) -> (distinct: Vec<ShardIndex>)
    ensures
        distinct@.no_duplicates(),
        distinct@.to_set() == shards@.to_set(),
        forall|i: int| 0 <= i < distinct@.len() ==> shards@.contains(#[trigger] distinct@[i]),
{
    let mut distinct: Vec<ShardIndex> = Vec::new();
    let mut i: usize = 0;
    while i < shards.len()
        invariant
            i <= shards@.len(),
            distinct@.no_duplicates(),
            forall|index: ShardIndex| #[trigger]
                distinct@.contains(index) <==> exists|j: int|
                    0 <= j < i && #[trigger] shards@[j] == index,
        decreases shards@.len() - i,
    {
        let index: ShardIndex = shards[i];
        let mut seen = false;
        let mut k: usize = 0;
        while k < distinct.len()
            invariant
                k <= distinct@.len(),
                seen == exists|j: int| 0 <= j < k && #[trigger] distinct@[j] == index,
            decreases distinct@.len() - k,
        {
            if distinct[k] == index {
                seen = true;
            }
            assert(distinct@[k as int] == index || distinct@[k as int] != index);
            k += 1;
        }
        let ghost before = distinct@;
        assert(seen == before.contains(index));
        if !seen {
            distinct.push(index);
            assert(distinct@ == before.push(index));
        }
        proof {
            assert forall|other: ShardIndex| #[trigger]
                distinct@.contains(other) <==> exists|j: int|
                    0 <= j < i + 1 && #[trigger] shards@[j] == other by {
                if before.contains(other) {
                    let at = before.index_of(other);
                    assert(distinct@[at] == other);
                    let j = choose|j: int| 0 <= j < i && #[trigger] shards@[j] == other;
                    assert(shards@[j] == other);
                }
                if other == index {
                    assert(shards@[i as int] == other);
                    if !seen {
                        assert(distinct@[before.len() as int] == other);
                    }
                }
                if distinct@.contains(other) && other != index {
                    let at = distinct@.index_of(other);
                    assert(before[at] == other);
                }
                if exists|j: int| 0 <= j < i + 1 && #[trigger] shards@[j] == other {
                    let j = choose|j: int| 0 <= j < i + 1 && #[trigger] shards@[j] == other;
                    if j < i {
                        assert(before.contains(other));
                    }
                }
            }
        }
        i += 1;
    }
    proof {
        assert forall|index: ShardIndex| distinct@.to_set().contains(index)
            == shards@.to_set().contains(index) by {
            if shards@.contains(index) {
                let j = shards@.index_of(index);
                assert(shards@[j] == index);
            }
            assert(distinct@.contains(index) == distinct@.to_set().contains(index));
        }
        assert(distinct@.to_set() =~= shards@.to_set());
        assert forall|k: int| 0 <= k < distinct@.len() implies shards@.contains(
            #[trigger] distinct@[k],
        ) by {
            assert(distinct@.contains(distinct@[k]));
            let j = choose|j: int| 0 <= j < shards@.len() && #[trigger] shards@[j] == distinct@[k];
            assert(shards@[j] == distinct@[k]);
        }
    }
    distinct
}

/// What a part of the ledger is worth.
pub open spec fn shard_value(shard: Map<UtxoId, UtxoData>) -> nat
    decreases shard.dom().len(),
    when shard.dom().finite()
{
    if shard.dom().len() == 0 {
        0
    } else {
        let id = shard.dom().choose();
        shard[id].value as nat + shard_value(shard.remove(id))
    }
}

/// What the ledger is worth.
pub open spec fn ledger_value(shards: LedgerShards) -> nat
    decreases shards.dom().len(),
    when shards.dom().finite()
{
    if shards.dom().len() == 0 {
        0
    } else {
        let index = shards.dom().choose();
        shard_value(shards[index]) + ledger_value(shards.remove(index))
    }
}

/// Whether the ledger is finite.
pub open spec fn ledger_finite(shards: LedgerShards) -> bool {
    &&& shards.dom().finite()
    &&& forall|index: ShardIndex| #[trigger]
        shards.contains_key(index) ==> shards[index].dom().finite()
}

/// What outputs are worth.
pub open spec fn outputs_value(outputs: Seq<(ShardIndex, UtxoId, UtxoData)>) -> nat
    decreases outputs.len(),
{
    if outputs.len() == 0 {
        0
    } else {
        outputs_value(outputs.drop_last()) + outputs.last().2.value as nat
    }
}

/// Whether no output is listed twice.
pub open spec fn ids_differ(spend: Seq<(UtxoId, UtxoData)>) -> bool {
    forall|i: int, j: int|
        0 <= i < j < spend.len() ==> (#[trigger] spend[i]).0 != (#[trigger] spend[j]).0
}

proof fn lemma_shard_value(shard: Map<UtxoId, UtxoData>, id: UtxoId)
    requires
        shard.dom().finite(),
        shard.contains_key(id),
    ensures
        shard_value(shard) == shard[id].value as nat + shard_value(shard.remove(id)),
    decreases shard.dom().len(),
{
    let chosen = shard.dom().choose();
    assert(shard.dom().contains(chosen));
    if chosen != id {
        let rest = shard.remove(chosen);
        lemma_shard_value(rest, id);
        lemma_shard_value(shard.remove(id), chosen);
        assert(rest.remove(id) =~= shard.remove(id).remove(chosen));
    }
}

proof fn lemma_ledger_value(shards: LedgerShards, index: ShardIndex)
    requires
        shards.dom().finite(),
        shards.contains_key(index),
    ensures
        ledger_value(shards) == shard_value(shards[index]) + ledger_value(shards.remove(index)),
    decreases shards.dom().len(),
{
    let chosen = shards.dom().choose();
    assert(shards.dom().contains(chosen));
    if chosen != index {
        let rest = shards.remove(chosen);
        lemma_ledger_value(rest, index);
        lemma_ledger_value(shards.remove(index), chosen);
        assert(rest.remove(index) =~= shards.remove(index).remove(chosen));
    }
}

/// A shard in the place of another.
proof fn lemma_shard_replaced(
    shards: LedgerShards,
    index: ShardIndex,
    shard: Map<UtxoId, UtxoData>,
)
    requires
        shards.dom().finite(),
        shards.contains_key(index),
    ensures
        ledger_value(shards.insert(index, shard)) + shard_value(shards[index]) == ledger_value(
            shards,
        ) + shard_value(shard),
{
    let after = shards.insert(index, shard);
    lemma_ledger_value(shards, index);
    lemma_ledger_value(after, index);
    assert(after.remove(index) =~= shards.remove(index));
}

/// What is spent is not there any more, and what is left is worth so much less.
proof fn lemma_without_spent(shard: Map<UtxoId, UtxoData>, spend: Seq<(UtxoId, UtxoData)>)
    requires
        shard.dom().finite(),
        ids_differ(spend),
    ensures
        without_spent(shard, spend).dom().finite(),
        shard_value(without_spent(shard, spend)) + worth(shard, spend) == shard_value(shard),
        forall|id: UtxoId|
            (forall|i: int| 0 <= i < spend.len() ==> (#[trigger] spend[i]).0 != id) ==> (
            #[trigger] without_spent(shard, spend).contains_key(id) == shard.contains_key(id)
                && without_spent(shard, spend)[id] == shard[id]),
        forall|id: UtxoId| #[trigger]
            without_spent(shard, spend).contains_key(id) ==> shard.contains_key(id),
    decreases spend.len(),
{
    if spend.len() > 0 {
        let shorter = spend.drop_last();
        let last = spend.last().0;
        assert forall|i: int, j: int| 0 <= i < j < shorter.len() implies (
        #[trigger] shorter[i]).0 != (#[trigger] shorter[j]).0 by {
            assert(spend[i].0 != spend[j].0);
        }
        lemma_without_spent(shard, shorter);
        let before = without_spent(shard, shorter);
        assert forall|i: int| 0 <= i < shorter.len() implies (#[trigger] shorter[i]).0 != last by {
            assert(spend[i].0 != spend[spend.len() - 1].0);
        }
        assert(before.contains_key(last) == shard.contains_key(last));
        if before.contains_key(last) {
            lemma_shard_value(before, last);
        } else {
            assert(before.remove(last) =~= before);
        }
        assert forall|id: UtxoId|
            (forall|i: int| 0 <= i < spend.len() ==> (#[trigger] spend[i]).0 != id) implies (
        #[trigger] without_spent(shard, spend).contains_key(id) == shard.contains_key(id)
            && without_spent(shard, spend)[id] == shard[id]) by {
            assert(spend[spend.len() - 1].0 != id);
            assert forall|i: int| 0 <= i < shorter.len() implies (#[trigger] shorter[i]).0
                != id by {
                assert(spend[i].0 != id);
            }
            assert(before.contains_key(id) == shard.contains_key(id));
        }
    }
}

proof fn lemma_spend_in(
    shards: LedgerShards,
    indices: Seq<ShardIndex>,
    spend: Seq<(UtxoId, UtxoData)>,
)
    requires
        ledger_finite(shards),
        ids_differ(spend),
        indices.no_duplicates(),
        forall|i: int| 0 <= i < indices.len() ==> shards.contains_key(#[trigger] indices[i]),
    ensures
        ({
            let after = spend_in(shards, indices, spend);
            &&& ledger_finite(after)
            &&& after.dom() == shards.dom()
            &&& ledger_value(after) + worth_in(shards, indices, spend) == ledger_value(shards)
            &&& forall|index: ShardIndex|
                !indices.contains(index) ==> #[trigger] after[index] == shards[index]
        }),
    decreases indices.len(),
{
    let after = spend_in(shards, indices, spend);
    if indices.len() > 0 {
        let shorter = indices.drop_last();
        let last = indices.last();
        assert(shards.contains_key(indices[indices.len() - 1]));
        assert forall|i: int| 0 <= i < shorter.len() implies shards.contains_key(
            #[trigger] shorter[i],
        ) by {
            assert(shorter[i] == indices[i]);
        }
        lemma_spend_in(shards, shorter, spend);
        let before = spend_in(shards, shorter, spend);
        assert(!shorter.contains(last)) by {
            if shorter.contains(last) {
                let i = shorter.index_of(last);
                assert(indices[i] == indices[indices.len() - 1]);
            }
        }
        assert(before[last] == shards[last]);
        lemma_without_spent(before[last], spend);
        lemma_shard_replaced(before, last, without_spent(before[last], spend));
        assert(after.dom() =~= shards.dom());
        assert forall|index: ShardIndex| !indices.contains(index) implies #[trigger] after[index]
            == shards[index] by {
            assert(indices[indices.len() - 1] == last);
            if shorter.contains(index) {
                let i = shorter.index_of(index);
                assert(indices[i] == index);
            }
            assert(before[index] == shards[index]);
        }
    }
}

proof fn lemma_make_in(shards: LedgerShards, outputs: Seq<(ShardIndex, UtxoId, UtxoData)>)
    requires
        ledger_finite(shards),
        forall|i: int| 0 <= i < outputs.len() ==> shards.contains_key((#[trigger] outputs[i]).0),
    ensures
        ledger_finite(make_in(shards, outputs)),
        make_in(shards, outputs).dom() == shards.dom(),
        ledger_value(make_in(shards, outputs)) <= ledger_value(shards) + outputs_value(outputs),
    decreases outputs.len(),
{
    if outputs.len() > 0 {
        let shorter = outputs.drop_last();
        let (index, id, data) = outputs.last();
        assert(shards.contains_key(outputs[outputs.len() - 1].0));
        assert forall|i: int| 0 <= i < shorter.len() implies shards.contains_key(
            (#[trigger] shorter[i]).0,
        ) by {
            assert(shorter[i] == outputs[i]);
        }
        lemma_make_in(shards, shorter);
        let before = make_in(shards, shorter);
        let shard = before[index];
        let made = shard.insert(id, data);
        assert(made.dom().finite());
        lemma_shard_value(made, id);
        if shard.contains_key(id) {
            lemma_shard_value(shard, id);
            assert(made.remove(id) =~= shard.remove(id));
        } else {
            assert(made.remove(id) =~= shard);
        }
        lemma_shard_replaced(before, index, made);
        assert(make_in(shards, outputs).dom() =~= shards.dom());
    }
}

/// The outputs of a transaction are worth what it says, whatever their shards.
pub proof fn outputs_add_up(op: UtxoOp, shards: Seq<ShardIndex>)
    ensures
        outputs_value(outputs_with(op, shards)) == total_value(op.outputs@),
{
    lemma_outputs_add_up(op, shards, op.outputs@.len() as int);
    let all = outputs_with(op, shards);
    assert(all.subrange(0, all.len() as int) =~= all);
    assert(op.outputs@.subrange(0, op.outputs@.len() as int) =~= op.outputs@);
}

proof fn lemma_outputs_add_up(op: UtxoOp, shards: Seq<ShardIndex>, num: int)
    requires
        0 <= num <= op.outputs@.len(),
    ensures
        outputs_value(outputs_with(op, shards).subrange(0, num)) == total_value(
            op.outputs@.subrange(0, num),
        ),
    decreases num,
{
    if num > 0 {
        let some = outputs_with(op, shards).subrange(0, num);
        let values = op.outputs@.subrange(0, num);
        lemma_outputs_add_up(op, shards, num - 1);
        assert(some.drop_last() =~= outputs_with(op, shards).subrange(0, num - 1));
        assert(values.drop_last() =~= op.outputs@.subrange(0, num - 1));
    }
}

/// Spending makes no value: a transaction that spends outputs, each listed once,
/// and is carried out leaves the ledger worth no more than before.
pub proof fn spending_makes_no_value(plan: UtxoPlan, shards: LedgerShards)
    requires
        plan.spend is Some,
        ids_differ(plan.spend->Some_0),
        plan.total_output == outputs_value(plan.outputs),
        plan.input_shards.no_duplicates(),
        ledger_finite(shards),
        plan.required(shards.dom()) == Set::<ShardIndex>::empty(),
        !plan.insufficient(shards),
    ensures
        ledger_value(plan.execute(shards)) <= ledger_value(shards),
{
    let spend = plan.spend->Some_0;
    assert forall|i: int| 0 <= i < plan.input_shards.len() implies shards.contains_key(
        #[trigger] plan.input_shards[i],
    ) by {
        let index = plan.input_shards[i];
        assert(plan.input_shards.contains(index));
        assert(!plan.required(shards.dom()).contains(index));
    }
    lemma_spend_in(shards, plan.input_shards, spend);
    let spent = spend_in(shards, plan.input_shards, spend);
    assert forall|i: int| 0 <= i < plan.outputs.len() implies spent.contains_key(
        (#[trigger] plan.outputs[i]).0,
    ) by {
        let index = plan.outputs[i].0;
        assert(plan.concerns(index));
        assert(!plan.required(shards.dom()).contains(index));
    }
    lemma_make_in(spent, plan.outputs);
}

} // verus!
