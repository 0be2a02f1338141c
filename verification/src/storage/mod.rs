//! Storage on a local database: names, versions, tries and their proofs.
use crate::crypto::Digest;
use crate::service::big::config::{
    ActiveGroupIndex, Key, NodeIndex, ShardedStorageConfig, StateVersion, StripeIndex,
};
use crate::service::big::text::{hex_digit, hex_name, hex_text};
use crate::service::Store;
use crate::shared::{share, Bytes};
use vstd::prelude::*;
use vstd::string::StringExecFns;

pub mod access_laws;
pub mod binding_laws;
pub mod message;
pub mod trie;
pub mod trie_laws;

verus! {

broadcast use vstd::array::group_array_axioms;

/// The name of a stored value.
pub type StorageKey = Digest;

/// What a storage node answers.
#[derive(Debug)]
pub enum StorageRes<T> {
    Done(T),
    /// Another node has to be asked.
    Forward(usize),
}

/// What a new version changes.
pub struct Bump {
    pub inserts: Vec<(StorageKey, Bytes)>,
    pub deletes: Vec<StorageKey>,
}

/// What storage is asked to do.
pub enum StorageOp {
    Fetch(StorageKey),
    Bump(Bump),
}

/// A number below 65536 in four hexadecimal digits.
pub open spec fn hex4_text(value: u16) -> Seq<char> {
    seq![
        hex_digit(value as int / 4096),
        hex_digit(value as int / 256 % 16),
        hex_digit(value as int / 16 % 16),
        hex_digit(value as int % 16),
    ]
}

/// Formats with std's `format`: two numbers in four hexadecimal digits and a
/// text, with slashes in between.
#[verifier::external_body]
fn slashed(first: u16, second: u16, text: &str) -> (name: String)
    ensures
        name@ == hex4_text(first) + seq!['/'] + hex4_text(second) + seq!['/'] + text@,
{
    format!("{first:04x}/{second:04x}/{text}")
}

/// The stripe of a key: the first eight of its bytes in little-endian order,
/// modulo the number of stripes.
pub open spec fn stripe_of_spec(config: ShardedStorageConfig, key: StorageKey) -> StripeIndex {
    (vstd::bytes::spec_u64_from_le_bytes(key.0@.subrange(0, 8)) as int % config.num_stripe as int)
        as StripeIndex
}

/// The stripe of a key. Keys are assumed to be uniformly distributed, by
/// hashing.
pub fn stripe_of(config: &ShardedStorageConfig, key: &StorageKey) -> (stripe: StripeIndex)
    requires
        config.wf(),
    ensures
        stripe == stripe_of_spec(*config, *key),
        stripe < config.num_stripe,
{
    let mut bytes: Vec<u8> = Vec::new();
    let mut i: usize = 0;
    while i < 8
        invariant
            i <= 8,
            bytes@ == key.0@.subrange(0, i as int),
        decreases 8 - i,
    {
        bytes.push(key.0[i]);
        i += 1;
    }
    let low: u64 = vstd::bytes::u64_from_le_bytes(bytes.as_slice());
    let stripe: u64 = low % config.num_stripe as u64;
    stripe as StripeIndex
}

/// The name of a value in the database: its group, its stripe and its key.
pub open spec fn db_name_text(config: ShardedStorageConfig, key: StorageKey) -> Seq<char> {
    seq!['/'] + (hex4_text(config.group_of_spec(Key(key.0))) + seq!['/'] + hex4_text(
        stripe_of_spec(config, key),
    ) + seq!['/'] + hex_text(key.0@))
}

/// The name of a value in the database.
pub fn db_name(config: &ShardedStorageConfig, key: &StorageKey) -> (name: String)
    requires
        config.wf(),
    ensures
        name@ == db_name_text(*config, *key),
{
    let group: ActiveGroupIndex = config.group_of(&Key(key.0));
    let name = slashed(group, stripe_of(config, key), hex_name(&key.0).as_str());
    let mut rooted = String::from_str("/");
    rooted.append(name.as_str());
    proof {
        reveal_strlit("/");
        assert("/"@ =~= seq!['/']);
    }
    rooted
}

/// The name under which a value is loaded ahead of time.
pub fn preload_name(config: &ShardedStorageConfig, key: &StorageKey) -> (name: String)
    requires
        config.wf(),
    ensures
        name@ == hex4_text(stripe_of_spec(*config, *key)) + seq!['/'] + hex4_text(0) + seq!['/']
            + hex_text(key.0@),
{
    slashed(stripe_of(config, key), 0, hex_name(&key.0).as_str())
}

/// A storage node: turns operations into accesses to the database.
pub struct Storage {
    config: ShardedStorageConfig,
    version: StateVersion,
}

/// The mathematical content of a [`Storage`].
#[verifier::ext_equal]
pub struct StorageState {
    pub config: ShardedStorageConfig,
    pub version: StateVersion,
}

impl View for Storage {
    type V = StorageState;

    closed spec fn view(&self) -> StorageState {
        StorageState { config: self.config, version: self.version }
    }
}

/// Accesses to the database, over the names and values themselves.
pub open spec fn accesses_view(accesses: Seq<Store>) -> Seq<Store<Seq<char>, Seq<u8>>> {
    accesses.map_values(|access: Store| access@)
}

/// The accesses of a bump: the insertions in order, then the deletions.
pub open spec fn bump_accesses(config: ShardedStorageConfig, bump: Bump) -> Seq<
    Store<Seq<char>, Seq<u8>>,
> {
    bump.inserts@.map_values(
        |insert: (StorageKey, Bytes)|
            Store::Put(db_name_text(config, insert.0), (*insert.1)@),
    ) + bump.deletes@.map_values(|key: StorageKey| Store::Delete(db_name_text(config, key)))
}

/// The access that reads the value of a key.
pub open spec fn fetch_access(config: ShardedStorageConfig, key: StorageKey) -> Store<
    Seq<char>,
    Seq<u8>,
> {
    Store::Get(db_name_text(config, key))
}

impl Storage {
    /// What every node keeps to.
    pub closed spec fn wf(&self) -> bool {
        self.config.wf()
    }

    /// A node without values.
    pub fn new(config: ShardedStorageConfig) -> (storage: Self)
        requires
            config.wf(),
        ensures
            storage.wf(),
            storage@ == (StorageState { config, version: 0 }),
    {
        Storage { config, version: 0 }
    }

    /// The number of versions started so far.
    pub fn version(&self) -> (version: StateVersion)
        ensures
            version == self@.version,
    {
        self.version
    }

    /// The access that reads a value.
    pub fn fetch(&self, key: &StorageKey) -> (access: Store)
        requires
            self.wf(),
        ensures
            access@ == Store::<Seq<char>, Seq<u8>>::Get(db_name_text(self@.config, *key)),
            access@ == fetch_access(self@.config, *key),
    {
        Store::Get(db_name(&self.config, key))
    }

    /// Starts a new version, and gives the accesses that carry it out.
    pub fn bump(&mut self, bump: &Bump) -> (accesses: Vec<Store>)
        requires
            old(self).wf(),
            old(self)@.version < u64::MAX,
        ensures
            final(self).wf(),
            final(self)@ == (StorageState {
                version: (old(self)@.version + 1) as StateVersion,
                ..old(self)@
            }),
            accesses_view(accesses@) == bump_accesses(old(self)@.config, *bump),
    {
        self.version = self.version + 1;
        let ghost goal = bump_accesses(self.config, *bump);
        let mut accesses: Vec<Store> = Vec::new();
        let mut i: usize = 0;
        while i < bump.inserts.len()
            invariant
                i <= bump.inserts@.len(),
                self.config.wf(),
                goal == bump_accesses(self.config, *bump),
                accesses@.len() == i,
                forall|j: int| 0 <= j < i ==> (#[trigger] accesses@[j])@ == goal[j],
            decreases bump.inserts@.len() - i,
        {
            let name = db_name(&self.config, &bump.inserts[i].0);
            accesses.push(Store::Put(name, share(&bump.inserts[i].1)));
            i += 1;
        }
        let ghost first = bump.inserts@.len() as int;
        let mut k: usize = 0;
        while k < bump.deletes.len()
            invariant
                k <= bump.deletes@.len(),
                self.config.wf(),
                first == bump.inserts@.len(),
                goal == bump_accesses(self.config, *bump),
                accesses@.len() == first + k,
                forall|j: int| 0 <= j < first + k ==> (#[trigger] accesses@[j])@ == goal[j],
            decreases bump.deletes@.len() - k,
        {
            let name = db_name(&self.config, &bump.deletes[k]);
            accesses.push(Store::Delete(name));
            assert(goal[first + k] == Store::<Seq<char>, Seq<u8>>::Delete(name@));
            k += 1;
        }
        assert(accesses_view(accesses@) =~= goal);
        accesses
    }
}

/// The groups that the given nodes are the primaries of.
pub fn as_primary_in_groups(
    config: &ShardedStorageConfig,
    node_indices: &Vec<NodeIndex>,
) -> (groups: Vec<ActiveGroupIndex>)
    ensures
        groups@ == node_indices@,
{
    config.is_primary_of(node_indices)
}

/// A value that was inserted is read under the name that it was written under.
pub proof fn inserts_are_fetched(config: ShardedStorageConfig, bump: Bump, i: int)
    requires
        0 <= i < bump.inserts@.len(),
    ensures
        bump_accesses(config, bump)[i] == Store::Put(
            db_name_text(config, bump.inserts@[i].0),
            (*bump.inserts@[i].1)@,
        ),
{
}

/// Different values have different names.
pub proof fn db_names_differ(config: ShardedStorageConfig, a: StorageKey, b: StorageKey)
    requires
        db_name_text(config, a) == db_name_text(config, b),
    ensures
        a == b,
{
    let text = db_name_text(config, a);
    assert(text.subrange(11, 75) =~= hex_text(a.0@));
    assert(text.subrange(11, 75) =~= hex_text(b.0@));
    crate::service::big::text::hex_name_parses_back(Key(a.0));
    crate::service::big::text::hex_name_parses_back(Key(b.0));
    assert(a.0 =~= b.0);
}

/// Formats with std's `format`: the word `key` and a number in at least eight
/// decimal digits.
#[verifier::external_body]
fn numbered_key(number: u64) -> (text: String)
    ensures
        text@ == seq!['k', 'e', 'y'] + padded_decimal(number as nat, 8),
{
    format!("key{number:08}")
}

/// A number in decimal digits, at least so many.
pub open spec fn padded_decimal(value: nat, width: nat) -> Seq<char>
    decreases value + width,
{
    if width <= 1 && value < 10 {
        seq![(48 + value) as char]
    } else {
        padded_decimal(
            value / 10,
            if width > 1 {
                (width - 1) as nat
            } else {
                1
            },
        ).push((48 + value % 10) as char)
    }
}

/// The key of a benchmark's record.
pub fn record_key(number: u64) -> (key: StorageKey)
    ensures
        key == Digest::of_spec(
            vstd::utf8::encode_utf8(seq!['k', 'e', 'y'] + padded_decimal(number as nat, 8)),
        ),
{
    let text = numbered_key(number);
    Digest::of(text.as_str().as_bytes())
}

} // verus!
