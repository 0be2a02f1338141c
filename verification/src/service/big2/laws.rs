//! What names say, and what requests are given.
use super::names::{
    after_all_versions, collect_spec, digit_value, gather_spec, has_parts, hex_number,
    key_prefix_text, key_with, padded_hex, stripe_prefix_text, version_number, version_text,
    GatherStep, ScanStep,
};
use super::{ExecuteRequest, ExecuteStep, Executor, ExecutorOf, ExecutorState};
use crate::app::kv::{text_decoding, text_encoding, Kv, KvExecute, KvOp, KvRes};
use crate::app::{DataShardingApp, DataShardingExecuteState};
use crate::service::big::big_service::storage_key;
use crate::service::big::config::{Key, ShardedStorageConfig, StateVersion, StripeIndex};
use crate::service::big::text::{hex_digit, hex_name_parses_back, hex_text};
use crate::service::{ClientSeq, Reply};
use crate::storage::trie::starts_with_spec;
use vstd::prelude::*;
use vstd::utf8::{decode_utf8, encode_utf8, is_ascii_chars};

verus! {

proof fn lemma_digit(value: int)
    requires
        0 <= value < 16,
    ensures
        ({
            let digit = hex_digit(value);
            &&& (digit as int) < 128
            &&& digit_value(digit as u8) == Some(value)
            &&& digit as u8 != 46
            &&& digit as u8 != 43
        }),
{
}

/// The digits of a number are the number's.
proof fn lemma_padded_hex(value: nat, width: nat, bytes: Seq<u8>)
    requires
        value <= u64::MAX,
        bytes.len() == padded_hex(value, width).len(),
        forall|i: int|
            0 <= i < bytes.len() ==> #[trigger] bytes[i] == padded_hex(value, width)[i] as u8,
    ensures
        hex_number(bytes) == Some(value),
        padded_hex(value, width).len() > 0,
        forall|i: int|
            0 <= i < bytes.len() ==> (#[trigger] padded_hex(value, width)[i]) as int <= 127
                && bytes[i] != 46 && bytes[i] != 43,
    decreases value + width,
{
    let text = padded_hex(value, width);
    lemma_digit(value as int % 16);
    if width <= 1 && value < 16 {
        assert(bytes.drop_last() =~= Seq::empty());
        assert(hex_number(bytes.drop_last()) == Some(0nat));
        assert(bytes.last() == bytes[0]);
    } else {
        let less = if width > 1 {
            (width - 1) as nat
        } else {
            1
        };
        let high = padded_hex(value / 16, less);
        let shorter = bytes.drop_last();
        assert forall|i: int| 0 <= i < shorter.len() implies #[trigger] shorter[i]
            == high[i] as u8 by {
            assert(shorter[i] == bytes[i]);
            assert(text[i] == high[i]);
        }
        lemma_padded_hex(value / 16, less, shorter);
        assert(bytes.last() == bytes[bytes.len() - 1]);
        assert(16 * (value / 16) + value % 16 == value);
        assert forall|i: int| 0 <= i < bytes.len() implies (#[trigger] text[i]) as int <= 127
            && bytes[i] != 46 && bytes[i] != 43 by {
            if i < shorter.len() {
                assert(text[i] == high[i]);
                assert(shorter[i] == bytes[i]);
            }
        }
    }
}

proof fn lemma_four_digits(stripe: StripeIndex)
    ensures
        padded_hex(stripe as nat, 4).len() == 4,
{
    reveal_with_fuel(padded_hex, 5);
}

proof fn lemma_char(c: char)
    ensures
        '\0' <= c,
{
}

/// A version's name as bytes.
pub open spec fn name_bytes(stripe: StripeIndex, key: Key, version: StateVersion) -> Seq<u8> {
    encode_utf8(version_text(stripe, key, version))
}

/// The parts of a version's name are the stripe, the key and the version.
proof fn lemma_name_parts(stripe: StripeIndex, key: Key, version: StateVersion)
    ensures
        ({
            let name = name_bytes(stripe, key, version);
            &&& has_parts(name, 5, 70)
            &&& version_number(name.subrange(71, name.len() as int)) == Some(version as nat)
            &&& decode_utf8(name.subrange(6, 70)) == hex_text(key.0@)
            &&& starts_with_spec(name, encode_utf8(stripe_prefix_text(stripe)))
        }),
{
    let text = version_text(stripe, key, version);
    let name = name_bytes(stripe, key, version);
    let digits = padded_hex(stripe as nat, 4);
    let number = padded_hex(version as nat, 8);
    let hex = hex_text(key.0@);
    lemma_four_digits(stripe);
    let a = Seq::new(digits.len(), |i: int| digits[i] as u8);
    let b = Seq::new(number.len(), |i: int| number[i] as u8);
    lemma_padded_hex(stripe as nat, 4, a);
    lemma_padded_hex(version as nat, 8, b);
    assert(text.len() == 71 + number.len());
    assert(text[0] == '+');
    assert(text[5] == '.');
    assert(text[70] == '.');
    assert forall|i: int| 0 <= i < 64 implies (#[trigger] hex[i]) as int <= 127 && hex[i] as u8
        != 46 by {
        lemma_digit(key.0@[i / 2] as int / 16);
        lemma_digit(key.0@[i / 2] as int % 16);
    }
    assert forall|i: int| 0 <= i < text.len() implies (#[trigger] text[i]) as int <= 127 && ((
    text[i] as u8 == 46) == (i == 5 || i == 70)) by {
        if i == 0 || i == 5 || i == 70 {
        } else if i < 5 {
            assert(text[i] == digits[i - 1]);
            assert(a[i - 1] == digits[i - 1] as u8);
        } else if i < 70 {
            assert(text[i] == hex[i - 6]);
        } else {
            assert(text[i] == number[i - 71]);
            assert(b[i - 71] == number[i - 71] as u8);
        }
    }
    assert(is_ascii_chars(text)) by {
        assert forall|i: int| 0 <= i < text.len() implies '\0' <= #[trigger] text[i]
            <= '\u{7f}' by {
            lemma_char(text[i]);
            assert(text[i] as int <= 127);
        }
    }
    vstd::utf8::is_ascii_chars_encode_utf8(text);
    vstd::utf8::encode_utf8_valid_utf8(text);
    assert forall|i: int| 0 <= i < name.len() implies (#[trigger] name[i] == 46u8) == (i == 5 || i
        == 70) by {
        assert(name[i] == text[i] as u8);
    }
    assert(name.subrange(71, name.len() as int) =~= b) by {
        assert forall|i: int| 0 <= i < b.len() implies name[71 + i] == b[i] by {
            assert(text[71 + i] == number[i]);
        }
    }
    assert(b[0] != 43);
    // the key
    assert(is_ascii_chars(hex));
    vstd::utf8::is_ascii_chars_encode_utf8(hex);
    assert(name.subrange(6, 70) =~= encode_utf8(hex)) by {
        assert forall|i: int| 0 <= i < 64 implies name[6 + i] == #[trigger] encode_utf8(
            hex,
        )[i] by {
            assert(text[6 + i] == hex[i]);
        }
    }
    vstd::utf8::encode_utf8_decode_utf8(hex);
    // the stripe
    let prefix = stripe_prefix_text(stripe);
    assert(prefix =~= text.subrange(0, 6));
    assert(is_ascii_chars(prefix)) by {
        assert forall|i: int| 0 <= i < prefix.len() implies (#[trigger] prefix[i]) as int
            <= 127 by {
            assert(prefix[i] == text[i]);
        }
    }
    vstd::utf8::is_ascii_chars_encode_utf8(prefix);
    assert(name.subrange(0, 6) =~= encode_utf8(prefix)) by {
        assert forall|i: int| 0 <= i < 6 implies name[i] == #[trigger] encode_utf8(prefix)[i] by {
            assert(prefix[i] == text[i]);
        }
    }
}

/// Collecting goes by the version that a name was made with: it deletes exactly
/// the versions before the archived one, and goes on after the others.
pub proof fn collecting_reads_names(
    stripe: StripeIndex,
    key: Key,
    version: StateVersion,
    archived: StateVersion,
)
    ensures
        ({
            let name = name_bytes(stripe, key, version);
            &&& has_parts(name, 5, 70)
            &&& collect_spec(name, 5, 70, archived) == if version < archived {
                ScanStep::Delete
            } else {
                ScanStep::Seek(after_all_versions(name, 70))
            }
        }),
{
    lemma_name_parts(stripe, key, version);
}

/// Gathering takes every value of the stripe, under the key that its name was
/// made with and for that key's group.
pub proof fn gathering_reads_names(
    config: ShardedStorageConfig,
    stripe: StripeIndex,
    key: Key,
    version: StateVersion,
)
    ensures
        ({
            let name = name_bytes(stripe, key, version);
            &&& starts_with_spec(name, encode_utf8(stripe_prefix_text(stripe)))
            &&& has_parts(name, 5, 70)
            &&& gather_spec(config, name, 5, 70) == GatherStep::Take(
                config.group_of_spec(key),
                key,
                after_all_versions(name, 70),
            )
        }),
{
    lemma_name_parts(stripe, key, version);
    hex_name_parses_back(key);
    let chosen = key_with(key.0@);
    assert(chosen.0@ == key.0@);
    assert(chosen.0 =~= key.0);
}

/// What is skipped to comes after every version of the key, and keeps to the
/// key: it has all of the name but the version.
pub proof fn goes_on_after_all_versions(
    stripe: StripeIndex,
    key: Key,
    version: StateVersion,
    other: StateVersion,
)
    ensures
        ({
            let name = name_bytes(stripe, key, version);
            let seek = after_all_versions(name, 70);
            let number = name_bytes(stripe, key, other);
            &&& seek.subrange(0, 71) == number.subrange(0, 71)
            &&& forall|i: int| 71 <= i < seek.len() ==> #[trigger] seek[i] == 102
            &&& seek.len() == 87
        }),
{
    lemma_name_parts(stripe, key, version);
    lemma_name_parts(stripe, key, other);
    let name = name_bytes(stripe, key, version);
    let another = name_bytes(stripe, key, other);
    let a = version_text(stripe, key, version);
    let b = version_text(stripe, key, other);
    lemma_ascii(stripe, key, version);
    lemma_ascii(stripe, key, other);
    let seek = after_all_versions(name, 70);
    assert(name.len() > 70);
    lemma_four_digits(stripe);
    assert forall|i: int| 0 <= i < 71 implies #[trigger] seek[i] == another[i] by {
        assert(a[i] == b[i]);
    }
    assert(seek.subrange(0, 71) =~= another.subrange(0, 71));
}

proof fn lemma_ascii(stripe: StripeIndex, key: Key, version: StateVersion)
    ensures
        ({
            let text = version_text(stripe, key, version);
            let name = name_bytes(stripe, key, version);
            &&& name.len() == text.len()
            &&& forall|i: int| 0 <= i < text.len() ==> #[trigger] name[i] == text[i] as u8
        }),
{
    let text = version_text(stripe, key, version);
    let digits = padded_hex(stripe as nat, 4);
    let number = padded_hex(version as nat, 8);
    let hex = hex_text(key.0@);
    lemma_four_digits(stripe);
    let a = Seq::new(digits.len(), |i: int| digits[i] as u8);
    let b = Seq::new(number.len(), |i: int| number[i] as u8);
    lemma_padded_hex(stripe as nat, 4, a);
    lemma_padded_hex(version as nat, 8, b);
    assert forall|i: int| 0 <= i < text.len() implies (#[trigger] text[i]) as int <= 127 by {
        if i == 0 || i == 5 || i == 70 {
        } else if i < 5 {
            assert(text[i] == digits[i - 1]);
        } else if i < 70 {
            lemma_digit(key.0@[(i - 6) / 2] as int / 16);
            lemma_digit(key.0@[(i - 6) / 2] as int % 16);
            assert(text[i] == hex[i - 6]);
        } else {
            assert(text[i] == number[i - 71]);
        }
    }
    assert(is_ascii_chars(text)) by {
        assert forall|i: int| 0 <= i < text.len() implies '\0' <= #[trigger] text[i]
            <= '\u{7f}' by {
            lemma_char(text[i]);
            assert(text[i] as int <= 127);
        }
    }
    vstd::utf8::is_ascii_chars_encode_utf8(text);
}

/// A value goes to the key that it was asked for: installing values for keys one
/// by one installs the last value under the last key.
pub proof fn values_go_to_their_keys<A: DataShardingApp, D: View>(
    execute: <A::ExecuteState as View>::V,
    keys: Seq<Seq<u8>>,
    values: Seq<Option<Seq<u8>>>,
    key: Seq<u8>,
    value: Option<Seq<u8>>,
)
    requires
        keys.len() == values.len(),
    ensures
        Executor::<A, D>::install_all(execute, keys.push(key), values.push(value))
            == <A::ExecuteState as DataShardingExecuteState>::install_spec(
            Executor::<A, D>::install_all(execute, keys, values),
            key,
            value,
        ),
    decreases keys.len(),
{
    let more = keys.push(key);
    let more_values = values.push(value);
    if keys.len() == 0 {
        assert(more.drop_first() =~= Seq::empty());
        assert(more_values.drop_first() =~= Seq::empty());
        let installed = <A::ExecuteState as DataShardingExecuteState>::install_spec(
            execute,
            key,
            value,
        );
        assert(more[0] == key && more_values[0] == value);
        assert(Executor::<A, D>::install_all(installed, Seq::empty(), Seq::empty()) == installed);
    } else {
        assert(more.drop_first() =~= keys.drop_first().push(key));
        assert(more_values.drop_first() =~= values.drop_first().push(value));
        values_go_to_their_keys::<A, D>(
            <A::ExecuteState as DataShardingExecuteState>::install_spec(
                execute,
                keys[0],
                values[0],
            ),
            keys.drop_first(),
            values.drop_first(),
            key,
            value,
        );
    }
}

/// A request to store a text is answered at once, and storage is told to write
/// the text under its key; a request to read one asks storage for its key, and is
/// answered with the text that storage has. Both answers carry the request's
/// number and its origin.
pub proof fn texts_are_stored_and_read<D: View>(
    key: Seq<char>,
    value: Seq<char>,
    bytes: Option<Seq<u8>>,
    client_seq: ClientSeq,
    metadata: D::V,
)
    ensures
        ({
            let put = ExecuteRequest {
                state: <Kv as DataShardingApp>::new_execute_spec(Kv, KvOp::Put(key, value)),
                client_seq,
                metadata,
            };
            let get = ExecuteRequest {
                state: <Kv as DataShardingApp>::new_execute_spec(Kv, KvOp::Get(key)),
                client_seq,
                metadata,
            };
            let idle: ExecutorOf<Kv, D> = ExecutorState { num_skip: 0, current: None };
            let name = storage_key(encode_utf8(key));
            let (_, stored) = Executor::<Kv, D>::begin_spec(idle, put);
            let (waiting, asked) = Executor::<Kv, D>::begin_spec(idle, get);
            let (after, read) = Executor::<Kv, D>::values_spec(waiting, seq![bytes]);
            &&& stored == ExecuteStep::<
                Reply<KvRes<Seq<char>>, D::V>,
                Seq<Key>,
                Seq<(Key, Seq<u8>)>,
            >::Complete(
                Reply { client_seq, res: KvRes::<Seq<char>>::Put, metadata },
                seq![(name, text_encoding(value))],
            )
            &&& asked == ExecuteStep::<
                Reply<KvRes<Seq<char>>, D::V>,
                Seq<Key>,
                Seq<(Key, Seq<u8>)>,
            >::Fetch(seq![name])
            &&& read == ExecuteStep::<
                Reply<KvRes<Seq<char>>, D::V>,
                Seq<Key>,
                Seq<(Key, Seq<u8>)>,
            >::Complete(
                Reply {
                    client_seq,
                    res: KvRes::Get(
                        match bytes {
                            Some(bytes) => text_decoding(bytes),
                            None => None,
                        },
                    ),
                    metadata,
                },
                Seq::<(Key, Seq<u8>)>::empty(),
            )
            &&& after == idle
        }),
{
    let utf8 = encode_utf8(key);
    let start: KvExecute<Seq<char>> = KvExecute::Get(key);
    values_go_to_their_keys::<Kv, D>(start, Seq::empty(), Seq::empty(), utf8, bytes);
    assert(Executor::<Kv, D>::install_all(start, Seq::empty(), Seq::empty()) == start);
    assert(Seq::<Seq<u8>>::empty().push(utf8) =~= seq![utf8]);
    assert(Seq::<Option<Seq<u8>>>::empty().push(bytes) =~= seq![bytes]);
    let name = storage_key(encode_utf8(key));
    assert(super::storage_keys(seq![encode_utf8(key)]) =~= seq![name]);
    assert(super::storage_updates(seq![(encode_utf8(key), text_encoding(value))]) =~= seq![
        (name, text_encoding(value)),
    ]);
    assert(super::storage_updates(Seq::empty()) =~= Seq::empty());
}

/// The state after some more requests.
pub open spec fn after_requests<A: DataShardingApp, D: View>(
    state: ExecutorOf<A, D>,
    requests: Seq<ExecuteRequest<<A::ExecuteState as View>::V, D::V>>,
) -> ExecutorOf<A, D>
    decreases requests.len(),
{
    if requests.len() == 0 {
        state
    } else {
        Executor::<A, D>::begin_spec(
            after_requests::<A, D>(state, requests.drop_last()),
            requests.last(),
        ).0
    }
}

/// Skipping a number of versions gives up the current request and skips all but
/// one of as many that come next, and no more.
pub proof fn skips_that_many<A: DataShardingApp, D: View>(
    state: ExecutorOf<A, D>,
    num_version: StateVersion,
    requests: Seq<ExecuteRequest<<A::ExecuteState as View>::V, D::V>>,
)
    requires
        0 < num_version,
        requests.len() < num_version,
    ensures
        ({
            let after = after_requests::<A, D>(
                Executor::<A, D>::skip_spec(state, num_version),
                requests,
            );
            &&& after.num_skip == num_version - 1 - requests.len()
            &&& after.current is None
        }),
    decreases requests.len(),
{
    if requests.len() > 0 {
        skips_that_many::<A, D>(state, num_version, requests.drop_last());
    }
}

/// A lookup takes the versions of its key, and of no other key.
pub proof fn lookup_takes_its_key(
    stripe: StripeIndex,
    key: Key,
    other: Key,
    other_stripe: StripeIndex,
    version: StateVersion,
)
    ensures
        ({
            let prefix = encode_utf8(key_prefix_text(stripe, key));
            let name = name_bytes(other_stripe, other, version);
            starts_with_spec(name, prefix) <==> other == key && other_stripe == stripe
        }),
{
    let own = key_prefix_text(stripe, key);
    let prefix = encode_utf8(own);
    let text = version_text(other_stripe, other, version);
    let name = name_bytes(other_stripe, other, version);
    lemma_ascii(other_stripe, other, version);
    lemma_ascii(stripe, key, version);
    let same = version_text(stripe, key, version);
    lemma_four_digits(stripe);
    lemma_four_digits(other_stripe);
    assert(own.len() == 70);
    assert(own =~= same.subrange(0, 70));
    assert(is_ascii_chars(own)) by {
        assert forall|i: int| 0 <= i < own.len() implies '\0' <= #[trigger] own[i]
            <= '\u{7f}' by {
            lemma_char(own[i]);
            lemma_char_bound(stripe, key, version, i);
            assert(own[i] == same[i]);
        }
    }
    vstd::utf8::is_ascii_chars_encode_utf8(own);
    if other == key && other_stripe == stripe {
        assert(name.subrange(0, 70) =~= prefix) by {
            assert forall|i: int| 0 <= i < 70 implies #[trigger] name[i] == prefix[i] by {
                assert(own[i] == same[i]);
            }
        }
    }
    if starts_with_spec(name, prefix) {
        assert forall|i: int| 0 <= i < 70 implies #[trigger] own[i] == text[i] by {
            assert(name.subrange(0, 70)[i] == prefix[i]);
            assert(name[i] == text[i] as u8);
            assert(prefix[i] == own[i] as u8);
            lemma_char_bound(stripe, key, version, i);
            lemma_char_bound(other_stripe, other, version, i);
            assert(own[i] == same[i]);
            lemma_char(own[i]);
            lemma_char(text[i]);
        }
        // the same digits
        let a = hex_text(key.0@);
        let b = hex_text(other.0@);
        assert(a =~= b) by {
            assert forall|i: int| 0 <= i < 64 implies #[trigger] a[i] == b[i] by {
                assert(own[6 + i] == a[i]);
                assert(text[6 + i] == b[i]);
            }
        }
        hex_name_parses_back(key);
        hex_name_parses_back(other);
        assert(key.0 =~= other.0);
        let x = padded_hex(stripe as nat, 4);
        let y = padded_hex(other_stripe as nat, 4);
        assert(x =~= y) by {
            assert forall|i: int| 0 <= i < 4 implies #[trigger] x[i] == y[i] by {
                assert(own[1 + i] == x[i]);
                assert(text[1 + i] == y[i]);
            }
        }
        let bytes = Seq::new(x.len(), |i: int| x[i] as u8);
        lemma_padded_hex(stripe as nat, 4, bytes);
        lemma_padded_hex(other_stripe as nat, 4, bytes);
    }
}

proof fn lemma_char_bound(stripe: StripeIndex, key: Key, version: StateVersion, i: int)
    requires
        0 <= i < version_text(stripe, key, version).len(),
    ensures
        version_text(stripe, key, version)[i] as int <= 127,
{
    let text = version_text(stripe, key, version);
    let digits = padded_hex(stripe as nat, 4);
    let number = padded_hex(version as nat, 8);
    let hex = hex_text(key.0@);
    lemma_four_digits(stripe);
    let a = Seq::new(digits.len(), |k: int| digits[k] as u8);
    let b = Seq::new(number.len(), |k: int| number[k] as u8);
    lemma_padded_hex(stripe as nat, 4, a);
    lemma_padded_hex(version as nat, 8, b);
    if i == 0 || i == 5 || i == 70 {
    } else if i < 5 {
        assert(text[i] == digits[i - 1]);
    } else if i < 70 {
        lemma_digit(key.0@[(i - 6) / 2] as int / 16);
        lemma_digit(key.0@[(i - 6) / 2] as int % 16);
        assert(text[i] == hex[i - 6]);
    } else {
        assert(text[i] == number[i - 71]);
    }
}

} // verus!
