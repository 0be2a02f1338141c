//! The names under which values are kept in the local store.
use super::config::{Key, StateVersion, StripeIndex, StripeShardIndex};
use primitive_types::H256;
use vstd::prelude::*;

verus! {

broadcast use vstd::array::group_array_axioms;

/// A lowercase hexadecimal digit.
pub open spec fn hex_digit(value: int) -> char {
    if value < 10 {
        (48 + value) as char
    } else {
        (87 + value) as char
    }
}

/// Two hexadecimal digits for every byte, the higher half first.
pub open spec fn hex_text(bytes: Seq<u8>) -> Seq<char> {
    Seq::new(
        2 * bytes.len(),
        |i: int|
            if i % 2 == 0 {
                hex_digit(bytes[i / 2] as int / 16)
            } else {
                hex_digit(bytes[i / 2] as int % 16)
            },
    )
}

/// A number in decimal digits, without leading zeros.
pub open spec fn decimal_text(value: nat) -> Seq<char>
    decreases value,
{
    if value < 10 {
        seq![(48 + value) as char]
    } else {
        decimal_text(value / 10).push((48 + value % 10) as char)
    }
}

/// The name of a value of the active tier: its version and key.
pub open spec fn active_text(key: Key, version: StateVersion) -> Seq<char> {
    decimal_text(version as nat).push('.') + hex_text(key.0@)
}

/// The name of an archived shard: its stripe and its index.
pub open spec fn shard_text(stripe: StripeIndex, shard: StripeShardIndex) -> Seq<char> {
    decimal_text(stripe as nat).push('-') + decimal_text(shard as nat)
}

/// Formats an `H256` by its `LowerHex`: two lowercase digits for every byte,
/// without a prefix.
#[verifier::external_body]
pub(crate) fn hex_name(key: &[u8; 32]) -> (text: String)
    ensures
        text@ == hex_text(key@),
{
    format!("{:x}", H256::from(*key))
}

/// Formats with std's `format`: the number in decimal, a dot, and the text.
#[verifier::external_body]
fn dotted(number: u64, text: &str) -> (name: String)
    ensures
        name@ == decimal_text(number as nat).push('.') + text@,
{
    format!("{number}.{text}")
}

/// Formats with std's `format`: two decimal numbers with a dash in between.
#[verifier::external_body]
fn dashed(first: u16, second: usize) -> (name: String)
    ensures
        name@ == decimal_text(first as nat).push('-') + decimal_text(second as nat),
{
    format!("{first}-{second}")
}

/// The name of a value of the active tier.
pub fn active_name(key: &Key, version: StateVersion) -> (name: String)
    ensures
        name@ == active_text(*key, version),
{
    dotted(version, hex_name(&key.0).as_str())
}

/// The name of an archived shard.
pub fn shard_name(stripe: StripeIndex, shard: StripeShardIndex) -> (name: String)
    ensures
        name@ == shard_text(stripe, shard),
{
    dashed(stripe, shard)
}

/// What a hexadecimal digit stands for.
pub open spec fn hex_value(digit: char) -> Option<int> {
    if '0' <= digit <= '9' {
        Some(digit as int - 48)
    } else if 'a' <= digit <= 'f' {
        Some(digit as int - 87)
    } else if 'A' <= digit <= 'F' {
        Some(digit as int - 55)
    } else {
        None
    }
}

/// A text without the prefix `0x`, if it has it.
pub open spec fn without_prefix(text: Seq<char>) -> Seq<char> {
    if text.len() >= 2 && text[0] == '0' && text[1] == 'x' {
        text.subrange(2, text.len() as int)
    } else {
        text
    }
}

/// A character that separates others.
pub open spec fn is_blank(c: char) -> bool {
    c == ' ' || c == '\r' || c == '\n' || c == '\t'
}

/// A text without its blanks.
pub open spec fn without_blanks(text: Seq<char>) -> Seq<char>
    decreases text.len(),
{
    if text.len() == 0 {
        Seq::empty()
    } else if is_blank(text.last()) {
        without_blanks(text.drop_last())
    } else {
        without_blanks(text.drop_last()).push(text.last())
    }
}

/// What is read of a text as a key: without a prefix, and without blanks.
pub open spec fn key_digits(text: Seq<char>) -> Seq<char> {
    without_blanks(without_prefix(text))
}

/// Whether a text is made of 64 hexadecimal digits, apart from a prefix and
/// blanks.
pub open spec fn is_hex_key(text: Seq<char>) -> bool {
    let digits = key_digits(text);
    &&& digits.len() == 64
    &&& forall|i: int| 0 <= i < 64 ==> hex_value(#[trigger] digits[i]) is Some
}

/// The bytes that hexadecimal digits stand for, by pairs.
pub open spec fn hex_bytes(digits: Seq<char>) -> Seq<u8> {
    Seq::new(
        digits.len() / 2,
        |i: int|
            (16 * hex_value(digits[2 * i])->Some_0 + hex_value(digits[2 * i + 1])->Some_0) as u8,
    )
}

/// Calls `H256::from_str`: the bytes of 64 hexadecimal digits in either case,
/// which may follow `0x` and may have blanks in between; an error on any other
/// text.
#[verifier::external_body]
fn parse_h256(text: &str) -> (bytes: Option<[u8; 32]>)
    ensures
        bytes is Some <==> is_hex_key(text@),
        bytes matches Some(bytes) ==> bytes@ == hex_bytes(key_digits(text@)),
{
    text.parse::<H256>().ok().map(|hash| hash.0)
}

/// The key that a name stands for, `None` if it is no key.
pub fn parse_key(name: &str) -> (key: Option<Key>)
    ensures
        key is Some <==> is_hex_key(name@),
        key matches Some(key) ==> key.0@ == hex_bytes(key_digits(name@)),
{
    match parse_h256(name) {
        Some(bytes) => Some(Key(bytes)),
        None => None,
    }
}

/// A key's name is parsed back to the key.
pub proof fn hex_name_parses_back(key: Key)
    ensures
        is_hex_key(hex_text(key.0@)),
        hex_bytes(key_digits(hex_text(key.0@))) == key.0@,
{
    let text = hex_text(key.0@);
    assert(text.len() == 64);
    assert forall|i: int| 0 <= i < 64 implies hex_value(#[trigger] text[i]) is Some && text[i]
        != 'x' && !is_blank(text[i]) by {
        lemma_hex_digit(key.0@[i / 2] as int / 16);
        lemma_hex_digit(key.0@[i / 2] as int % 16);
    }
    assert(without_prefix(text) == text);
    lemma_no_blanks(text);
    assert forall|i: int| 0 <= i < 32 implies #[trigger] hex_bytes(text)[i] == key.0@[i] by {
        let byte = key.0@[i] as int;
        lemma_hex_digit(byte / 16);
        lemma_hex_digit(byte % 16);
        assert((2 * i) / 2 == i && (2 * i) % 2 == 0);
        assert((2 * i + 1) / 2 == i && (2 * i + 1) % 2 == 1);
        assert(text[2 * i] == hex_digit(byte / 16));
        assert(text[2 * i + 1] == hex_digit(byte % 16));
        assert(16 * (byte / 16) + byte % 16 == byte);
    }
    assert(hex_bytes(text) =~= key.0@);
}

proof fn lemma_no_blanks(text: Seq<char>)
    requires
        forall|i: int| 0 <= i < text.len() ==> !is_blank(#[trigger] text[i]),
    ensures
        without_blanks(text) == text,
    decreases text.len(),
{
    if text.len() == 0 {
        assert(without_blanks(text) =~= text);
    } else {
        let shorter = text.drop_last();
        assert forall|i: int| 0 <= i < shorter.len() implies !is_blank(#[trigger] shorter[i]) by {
            assert(shorter[i] == text[i]);
        }
        lemma_no_blanks(shorter);
        assert(!is_blank(text[text.len() - 1]));
        assert(shorter.push(text.last()) =~= text);
    }
}

proof fn lemma_hex_digit(value: int)
    requires
        0 <= value < 16,
    ensures
        hex_value(hex_digit(value)) == Some(value),
        hex_digit(value) != 'x',
        hex_digit(value) != '.',
        hex_digit(value) != '-',
        !is_blank(hex_digit(value)),
{
}

proof fn lemma_decimal_chars(value: nat)
    ensures
        decimal_text(value).len() > 0,
        forall|i: int| 0 <= i < decimal_text(value).len() ==> '0' <= #[trigger] decimal_text(
            value,
        )[i] <= '9',
    decreases value,
{
    if value >= 10 {
        lemma_decimal_chars(value / 10);
    }
}

proof fn lemma_decimal_injective(a: nat, b: nat)
    requires
        decimal_text(a) == decimal_text(b),
    ensures
        a == b,
    decreases a,
{
    lemma_decimal_chars(a / 10);
    lemma_decimal_chars(b / 10);
    assert(decimal_text(a).last() == (48 + a % 10) as char);
    assert(decimal_text(b).last() == (48 + b % 10) as char);
    assert(a % 10 == b % 10);
    if a < 10 || b < 10 {
        if a >= 10 {
            assert(decimal_text(a).len() == decimal_text(a / 10).len() + 1);
        }
        if b >= 10 {
            assert(decimal_text(b).len() == decimal_text(b / 10).len() + 1);
        }
    } else {
        assert(decimal_text(a).drop_last() =~= decimal_text(a / 10));
        assert(decimal_text(b).drop_last() =~= decimal_text(b / 10));
        lemma_decimal_injective(a / 10, b / 10);
    }
}

proof fn lemma_hex_injective(a: Key, b: Key)
    requires
        hex_text(a.0@) == hex_text(b.0@),
    ensures
        a == b,
{
    hex_name_parses_back(a);
    hex_name_parses_back(b);
    assert(a.0 =~= b.0);
}

/// Different values of the active tier have different names.
pub proof fn active_names_differ(
    a: Key,
    a_version: StateVersion,
    b: Key,
    b_version: StateVersion,
)
    requires
        active_text(a, a_version) == active_text(b, b_version),
    ensures
        a == b,
        a_version == b_version,
{
    let text = active_text(a, a_version);
    let n = text.len() - 65;
    assert(text.subrange(n + 1, text.len() as int) =~= hex_text(a.0@));
    assert(text.subrange(n + 1, text.len() as int) =~= hex_text(b.0@));
    lemma_hex_injective(a, b);
    assert(text.subrange(0, n) =~= decimal_text(a_version as nat));
    assert(text.subrange(0, n) =~= decimal_text(b_version as nat));
    lemma_decimal_injective(a_version as nat, b_version as nat);
}

/// The dash in a shard's name is the only character that is no digit.
proof fn lemma_shard_text(stripe: StripeIndex, shard: StripeShardIndex, i: int)
    requires
        0 <= i < shard_text(stripe, shard).len(),
    ensures
        (shard_text(stripe, shard)[i] == '-') == (i == decimal_text(stripe as nat).len()),
        shard_text(stripe, shard)[i] != '.',
{
    lemma_decimal_chars(stripe as nat);
    lemma_decimal_chars(shard as nat);
    let n = decimal_text(stripe as nat).len() as int;
    let text = shard_text(stripe, shard);
    if i < n {
        assert(text[i] == decimal_text(stripe as nat)[i]);
    } else if i > n {
        assert(text[i] == decimal_text(shard as nat)[i - n - 1]);
    }
}

/// Different shards have different names.
pub proof fn shard_names_differ(
    a_stripe: StripeIndex,
    a_shard: StripeShardIndex,
    b_stripe: StripeIndex,
    b_shard: StripeShardIndex,
)
    requires
        shard_text(a_stripe, a_shard) == shard_text(b_stripe, b_shard),
    ensures
        a_stripe == b_stripe,
        a_shard == b_shard,
{
    let text = shard_text(a_stripe, a_shard);
    let n = decimal_text(a_stripe as nat).len() as int;
    lemma_shard_text(a_stripe, a_shard, n);
    lemma_shard_text(b_stripe, b_shard, n);
    assert(n == decimal_text(b_stripe as nat).len());
    assert(text.subrange(0, n) =~= decimal_text(a_stripe as nat));
    assert(text.subrange(0, n) =~= decimal_text(b_stripe as nat));
    assert(text.subrange(n + 1, text.len() as int) =~= decimal_text(a_shard as nat));
    assert(text.subrange(n + 1, text.len() as int) =~= decimal_text(b_shard as nat));
    lemma_decimal_injective(a_stripe as nat, b_stripe as nat);
    lemma_decimal_injective(a_shard as nat, b_shard as nat);
}

/// Names of the active tier have a dot and no dash, names of shards have a dash
/// and no dot, so no value and no shard share a name.
pub proof fn tiers_have_different_names(
    key: Key,
    version: StateVersion,
    stripe: StripeIndex,
    shard: StripeShardIndex,
)
    ensures
        active_text(key, version).contains('.'),
        !active_text(key, version).contains('-'),
        shard_text(stripe, shard).contains('-'),
        !shard_text(stripe, shard).contains('.'),
        active_text(key, version) != shard_text(stripe, shard),
{
    let active = active_text(key, version);
    let at = decimal_text(version as nat).len() as int;
    assert(active[at] == '.');
    assert forall|i: int| 0 <= i < active.len() implies active[i] != '-' by {
        if i > at {
            let j = i - at - 1;
            lemma_hex_digit(key.0@[j / 2] as int / 16);
            lemma_hex_digit(key.0@[j / 2] as int % 16);
            assert(active[i] == hex_text(key.0@)[j]);
        } else if i < at {
            lemma_decimal_chars(version as nat);
            assert(active[i] == decimal_text(version as nat)[i]);
        }
    }
    let shard_name = shard_text(stripe, shard);
    let n = decimal_text(stripe as nat).len() as int;
    assert(shard_name[n] == '-');
    assert forall|i: int| 0 <= i < shard_name.len() implies shard_name[i] != '.' by {
        lemma_shard_text(stripe, shard, i);
    }
}

} // verus!
