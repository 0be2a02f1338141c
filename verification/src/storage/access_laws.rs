//! What a bump makes of the database.
use super::{
    bump_accesses, db_name_text, db_names_differ, fetch_access, padded_decimal, stripe_of_spec,
    Bump, StorageKey,
};
use crate::service::big::config::ShardedStorageConfig;
use crate::service::Store;
use crate::shared::Bytes;
use vstd::arithmetic::div_mod::{
    lemma_fundamental_div_mod, lemma_fundamental_div_mod_converse, lemma_mod_bound,
};
use vstd::prelude::*;

verus! {

/// The values of a database, by their names.
pub type Database = Map<Seq<char>, Seq<u8>>;

/// A database after an access.
pub open spec fn accessed(database: Database, access: Store<Seq<char>, Seq<u8>>) -> Database {
    match access {
        Store::Get(_) => database,
        Store::Put(name, value) => database.insert(name, value),
        Store::Delete(name) => database.remove(name),
    }
}

/// A database after some accesses, in order.
pub open spec fn all_accessed(
    database: Database,
    accesses: Seq<Store<Seq<char>, Seq<u8>>>,
) -> Database
    decreases accesses.len(),
{
    if accesses.len() == 0 {
        database
    } else {
        accessed(all_accessed(database, accesses.drop_last()), accesses.last())
    }
}

/// The value of a key in a database.
pub open spec fn value_of(
    config: ShardedStorageConfig,
    database: Database,
    key: StorageKey,
) -> Option<Seq<u8>> {
    let name = db_name_text(config, key);
    if database.contains_key(name) {
        Some(database[name])
    } else {
        None
    }
}

/// The value that is inserted last for a key.
pub open spec fn last_insert(inserts: Seq<(StorageKey, Bytes)>, key: StorageKey) -> Option<Seq<u8>>
    decreases inserts.len(),
{
    if inserts.len() == 0 {
        None
    } else if inserts.last().0 == key {
        Some((*inserts.last().1)@)
    } else {
        last_insert(inserts.drop_last(), key)
    }
}

/// The accesses of insertions.
spec fn puts(config: ShardedStorageConfig, inserts: Seq<(StorageKey, Bytes)>) -> Seq<
    Store<Seq<char>, Seq<u8>>,
> {
    inserts.map_values(
        |insert: (StorageKey, Bytes)|
            Store::Put(db_name_text(config, insert.0), (*insert.1)@),
    )
}

/// The accesses of deletions.
spec fn removals(config: ShardedStorageConfig, deletes: Seq<StorageKey>) -> Seq<
    Store<Seq<char>, Seq<u8>>,
> {
    deletes.map_values(|key: StorageKey| Store::Delete(db_name_text(config, key)))
}

proof fn lemma_puts(
    config: ShardedStorageConfig,
    database: Database,
    inserts: Seq<(StorageKey, Bytes)>,
    key: StorageKey,
)
    ensures
        value_of(config, all_accessed(database, puts(config, inserts)), key) == match last_insert(
            inserts,
            key,
        ) {
            Some(value) => Some(value),
            None => value_of(config, database, key),
        },
    decreases inserts.len(),
{
    if inserts.len() > 0 {
        lemma_puts(config, database, inserts.drop_last(), key);
        assert(puts(config, inserts).drop_last() =~= puts(config, inserts.drop_last()));
        let last = inserts.last().0;
        if last != key && db_name_text(config, last) == db_name_text(config, key) {
            db_names_differ(config, last, key);
        }
    }
}

proof fn lemma_removals(
    config: ShardedStorageConfig,
    database: Database,
    inserts: Seq<Store<Seq<char>, Seq<u8>>>,
    deletes: Seq<StorageKey>,
    key: StorageKey,
)
    ensures
        value_of(
            config,
            all_accessed(database, inserts + removals(config, deletes)),
            key,
        ) == if deletes.contains(key) {
            None
        } else {
            value_of(config, all_accessed(database, inserts), key)
        },
    decreases deletes.len(),
{
    let all = inserts + removals(config, deletes);
    if deletes.len() == 0 {
        assert(all =~= inserts);
    } else {
        let shorter = deletes.drop_last();
        lemma_removals(config, database, inserts, shorter, key);
        assert(all.drop_last() =~= inserts + removals(config, shorter));
        let last = deletes.last();
        assert(all.last() == Store::<Seq<char>, Seq<u8>>::Delete(db_name_text(config, last)));
        assert(deletes[deletes.len() - 1] == last);
        if last != key && db_name_text(config, last) == db_name_text(config, key) {
            db_names_differ(config, last, key);
        }
        if deletes.contains(key) && last != key {
            let i = deletes.index_of(key);
            assert(shorter[i] == key);
        }
        if shorter.contains(key) {
            let i = shorter.index_of(key);
            assert(deletes[i] == key);
        }
    }
}

/// A bump changes exactly what it is told to: afterwards a key that is deleted
/// has no value, any other has the value that was inserted last for it, and one
/// without an insertion what it had.
pub proof fn bump_changes_database(
    config: ShardedStorageConfig,
    database: Database,
    bump: Bump,
    key: StorageKey,
)
    ensures
        value_of(config, all_accessed(database, bump_accesses(config, bump)), key)
            == if bump.deletes@.contains(key) {
            None
        } else {
            match last_insert(bump.inserts@, key) {
                Some(value) => Some(value),
                None => value_of(config, database, key),
            }
        },
{
    lemma_puts(config, database, bump.inserts@, key);
    lemma_removals(config, database, puts(config, bump.inserts@), bump.deletes@, key);
    assert(bump_accesses(config, bump) =~= puts(config, bump.inserts@) + removals(
        config,
        bump.deletes@,
    ));
}

/// Stripes take keys in turn: of two keys whose first bytes stand for numbers
/// next to each other, the second belongs to the stripe after that of the first,
/// and after the last stripe comes the first.
pub proof fn stripes_take_turns(config: ShardedStorageConfig, a: StorageKey, b: StorageKey)
    requires
        config.wf(),
        vstd::bytes::spec_u64_from_le_bytes(b.0@.subrange(0, 8))
            == vstd::bytes::spec_u64_from_le_bytes(a.0@.subrange(0, 8)) + 1,
    ensures
        stripe_of_spec(config, a) < config.num_stripe,
        stripe_of_spec(config, b) == if stripe_of_spec(config, a) + 1 == config.num_stripe {
            0
        } else {
            stripe_of_spec(config, a) + 1
        },
{
    let n = config.num_stripe as int;
    let x = vstd::bytes::spec_u64_from_le_bytes(a.0@.subrange(0, 8)) as int;
    lemma_mod_bound(x, n);
    lemma_mod_bound(x + 1, n);
    lemma_fundamental_div_mod(x, n);
    let q = x / n;
    if x % n + 1 == n {
        assert(x + 1 == n * (q + 1)) by (nonlinear_arith)
            requires
                x == n * q + x % n,
                x % n + 1 == n,
        ;
        lemma_fundamental_div_mod_converse(x + 1, n, q + 1, 0);
    } else {
        lemma_fundamental_div_mod_converse(x + 1, n, q, x % n + 1);
    }
}

/// The number that decimal digits stand for.
pub open spec fn decimal_value(digits: Seq<char>) -> int
    decreases digits.len(),
{
    if digits.len() == 0 {
        0
    } else {
        10 * decimal_value(digits.drop_last()) + (digits.last() as int - 48)
    }
}

/// The number of a benchmark's record can be read off its name, so different
/// records have different names; and names have eight digits at least.
pub proof fn record_number_is_read_back(value: nat, width: nat)
    ensures
        decimal_value(padded_decimal(value, width)) == value,
        padded_decimal(value, width).len() >= width,
        padded_decimal(value, width).len() >= 1,
    decreases value + width,
{
    let text = padded_decimal(value, width);
    lemma_digit_char(value as int % 10);
    if width <= 1 && value < 10 {
        assert(text.drop_last() =~= Seq::empty());
        assert(decimal_value(text.drop_last()) == 0);
    } else {
        let less = if width > 1 {
            (width - 1) as nat
        } else {
            1
        };
        record_number_is_read_back(value / 10, less);
        assert(text.drop_last() =~= padded_decimal(value / 10, less));
    }
}

proof fn lemma_digit_char(digit: int)
    requires
        0 <= digit < 10,
    ensures
        ((48 + digit) as char) as int == 48 + digit,
{
}

/// What a database gives for an access.
pub open spec fn given(database: Database, access: Store<Seq<char>, Seq<u8>>) -> Option<Seq<u8>> {
    match access {
        Store::Get(name) => if database.contains_key(name) {
            Some(database[name])
        } else {
            None
        },
        _ => None,
    }
}

/// A value that is fetched is the one that was inserted last: fetching a key after
/// a bump gives what the bump has inserted for it, nothing if it was deleted, and
/// else what fetching it gave before. Fetching changes nothing.
pub proof fn fetches_what_was_inserted(
    config: ShardedStorageConfig,
    database: Database,
    bump: Bump,
    key: StorageKey,
)
    ensures
        given(
            all_accessed(database, bump_accesses(config, bump)),
            fetch_access(config, key),
        ) == if bump.deletes@.contains(key) {
            None
        } else {
            match last_insert(bump.inserts@, key) {
                Some(value) => Some(value),
                None => given(database, fetch_access(config, key)),
            }
        },
        accessed(database, fetch_access(config, key)) == database,
{
    bump_changes_database(config, database, bump, key);
}

} // verus!
