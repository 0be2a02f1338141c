//! A cache of recently used values.
use crate::shared::Bytes;
use lru::LruCache;
use std::num::NonZeroUsize;
use vstd::prelude::*;

verus! {

/// The cache of the crate `lru`.
#[verifier::external_type_specification]
#[verifier::external_body]
#[verifier::reject_recursive_types(K)]
#[verifier::reject_recursive_types(V)]
#[verifier::reject_recursive_types(H)]
pub struct ExLruCache<K, V, H>(LruCache<K, V, H>);

/// The hasher that the crate `lru` uses unless told otherwise.
#[verifier::external_type_specification]
#[verifier::external_body]
pub struct ExDefaultHasher(lru::DefaultHasher);

/// Keys and values, the most recently used first.
pub type Entries = Seq<(Seq<u8>, Seq<u8>)>;

/// What a cache holds, the most recently used first.
pub uninterp spec fn cache_entries(cache: LruCache<Bytes, Bytes>) -> Entries;

/// How many entries a cache was made for.
pub uninterp spec fn cache_capacity(cache: LruCache<Bytes, Bytes>) -> nat;

/// The position of a key, or the number of entries if it is not there.
pub open spec fn entry_position(entries: Entries, key: Seq<u8>) -> int
    decreases entries.len(),
{
    if entries.len() == 0 || entries[0].0 == key {
        0
    } else {
        1 + entry_position(entries.drop_first(), key)
    }
}

/// The value of a key.
pub open spec fn entry_value(entries: Entries, key: Seq<u8>) -> Option<Seq<u8>> {
    if entry_position(entries, key) < entries.len() {
        Some(entries[entry_position(entries, key)].1)
    } else {
        None
    }
}

/// The entries without that of a key.
pub open spec fn without_entry(entries: Entries, key: Seq<u8>) -> Entries {
    if entry_position(entries, key) < entries.len() {
        entries.remove(entry_position(entries, key))
    } else {
        entries
    }
}

/// The entries after the value of a key was used.
pub open spec fn used(entries: Entries, key: Seq<u8>) -> Entries {
    match entry_value(entries, key) {
        Some(value) => seq![(key, value)] + without_entry(entries, key),
        None => entries,
    }
}

/// The entries after a value was put: a new one takes the place of the least
/// recently used one if the cache is full.
pub open spec fn put(entries: Entries, capacity: nat, key: Seq<u8>, value: Seq<u8>) -> Entries {
    let others = without_entry(entries, key);
    let room = if others.len() >= capacity {
        others.drop_last()
    } else {
        others
    };
    seq![(key, value)] + room
}

/// The content of a cache and its capacity.
pub struct CacheState {
    pub entries: Entries,
    pub capacity: nat,
}

/// The mathematical content of a cache, if there is one.
pub open spec fn cache_view(cache: Option<LruCache<Bytes, Bytes>>) -> Option<CacheState> {
    match cache {
        Some(cache) => Some(
            CacheState { entries: cache_entries(cache), capacity: cache_capacity(cache) },
        ),
        None => None,
    }
}

/// Whether there can be a cache for so many entries. Room for all of them is
/// reserved at once, at most 64 bytes for each.
pub open spec fn can_cache(capacity: usize) -> bool {
    capacity * 64 <= isize::MAX
}

/// Calls `LruCache::new`: a cache without entries, for `capacity` of them; a
/// capacity of zero is none. The cache reserves room for all entries at once,
/// which fails for a capacity beyond what can be addressed.
#[verifier::external_body]
pub(crate) fn new_cache(capacity: usize) -> (cache: Option<LruCache<Bytes, Bytes>>)
    requires
        can_cache(capacity),
    ensures
        cache_view(cache) == if capacity == 0 {
            None
        } else {
            Some(CacheState { entries: Seq::empty(), capacity: capacity as nat })
        },
{
    NonZeroUsize::new(capacity).map(LruCache::new)
}

/// Calls `LruCache::get`: the value of a key, if it is there, which makes it the
/// most recently used one.
#[verifier::external_body]
pub(crate) fn cache_get(cache: &mut LruCache<Bytes, Bytes>, key: &Bytes) -> (value: Option<Bytes>)
    ensures
        crate::app::optional_content(value) == entry_value(cache_entries(*old(cache)), (**key)@),
        cache_entries(*final(cache)) == used(cache_entries(*old(cache)), (**key)@),
        cache_capacity(*final(cache)) == cache_capacity(*old(cache)),
{
    cache.get(key).cloned()
}

/// Calls `LruCache::put`: the value becomes the most recently used one. If the
/// key was not there and the cache is full, the least recently used entry
/// leaves.
#[verifier::external_body]
pub(crate) fn cache_put(cache: &mut LruCache<Bytes, Bytes>, key: Bytes, value: Bytes)
    ensures
        cache_entries(*final(cache)) == put(
            cache_entries(*old(cache)),
            cache_capacity(*old(cache)),
            (*key)@,
            (*value)@,
        ),
        cache_capacity(*final(cache)) == cache_capacity(*old(cache)),
{
    cache.put(key, value);
}

} // verus!
