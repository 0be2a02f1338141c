//! The names under which values and shards are kept in a database, and scans
//! over them.
//!
//! A value is kept under `+{stripe}.{key}.{version}`, a shard under
//! `-{stripe}.{shard}.{version}`, all in hexadecimal digits: four for the
//! stripe, at least eight for shards and versions.
use crate::service::big::config::{
    ActiveGroupIndex, Key, ShardedStorageConfig, StateVersion, StripeIndex,
};
use crate::service::big::text::{
    hex_bytes, hex_digit, hex_name, hex_text, is_hex_key, key_digits, parse_key,
};
use crate::shared::copy_bytes;
use crate::storage::trie::{starts_with, starts_with_spec};
use vstd::prelude::*;
use vstd::string::StringExecFns;
use vstd::utf8::{decode_utf8, valid_utf8};

verus! {

/// A number in hexadecimal digits, at least so many.
pub open spec fn padded_hex(value: nat, width: nat) -> Seq<char>
    decreases value + width,
{
    if width <= 1 && value < 16 {
        seq![hex_digit(value as int)]
    } else {
        padded_hex(
            value / 16,
            if width > 1 {
                (width - 1) as nat
            } else {
                1
            },
        ).push(hex_digit(value as int % 16))
    }
}

/// What all versions of a key have in common.
pub open spec fn key_prefix_text(stripe: StripeIndex, key: Key) -> Seq<char> {
    seq!['+'] + padded_hex(stripe as nat, 4) + seq!['.'] + hex_text(key.0@)
}

/// The name of a version of a key.
pub open spec fn version_text(stripe: StripeIndex, key: Key, version: StateVersion) -> Seq<char> {
    key_prefix_text(stripe, key) + seq!['.'] + padded_hex(version as nat, 8)
}

/// What all keys of a stripe have in common.
pub open spec fn stripe_prefix_text(stripe: StripeIndex) -> Seq<char> {
    seq!['+'] + padded_hex(stripe as nat, 4) + seq!['.']
}

/// Formats with std's `format`: a sign, a number in at least four hexadecimal
/// digits, and a dot.
#[verifier::external_body]
fn signed_stripe(stripe: u16) -> (text: String)
    ensures
        text@ == seq!['+'] + padded_hex(stripe as nat, 4) + seq!['.'],
{
    format!("+{stripe:04x}.")
}

/// Formats with std's `format`: a text, a dot, and a number in at least eight
/// hexadecimal digits.
#[verifier::external_body]
fn versioned(text: &str, version: u64) -> (name: String)
    ensures
        name@ == text@ + seq!['.'] + padded_hex(version as nat, 8),
{
    format!("{text}.{version:08x}")
}

/// What all keys of a stripe have in common.
pub fn stripe_prefix(stripe: StripeIndex) -> (prefix: String)
    ensures
        prefix@ == stripe_prefix_text(stripe),
{
    signed_stripe(stripe)
}

/// Where gathering the values of a stripe starts: the first name of all keys, at
/// a version.
pub fn gather_start(stripe: StripeIndex, version: StateVersion) -> (seek: String)
    ensures
        seek@ == stripe_prefix_text(stripe) + Seq::new(64, |i: int| '0') + seq!['.'] + padded_hex(
            version as nat,
            8,
        ),
{
    let mut prefix = signed_stripe(stripe);
    let zero: [u8; 32] = [0u8; 32];
    prefix.append(hex_name(&zero).as_str());
    assert(hex_text(zero@) =~= Seq::new(64, |i: int| '0'));
    versioned(prefix.as_str(), version)
}

/// What all versions of a key have in common.
pub fn key_prefix(config: &ShardedStorageConfig, key: &Key) -> (prefix: String)
    requires
        config.wf(),
    ensures
        prefix@ == key_prefix_text(config.stripe_of_spec(*key), *key),
{
    let mut prefix = signed_stripe(config.stripe_of(key));
    prefix.append(hex_name(&key.0).as_str());
    assert(prefix@ =~= key_prefix_text(config.stripe_of_spec(*key), *key));
    prefix
}

/// The name of a version of a key.
pub fn version_name(config: &ShardedStorageConfig, key: &Key, version: StateVersion) -> (name:
    String)
    requires
        config.wf(),
    ensures
        name@ == version_text(config.stripe_of_spec(*key), *key, version),
{
    versioned(key_prefix(config, key).as_str(), version)
}

/// Where to look for the value of a key at a version: the last entry that is
/// not after the name, if it belongs to the key.
pub struct Lookup {
    pub seek: String,
    pub prefix: String,
}

/// How to look up the value of a key at a version.
pub fn lookup(config: &ShardedStorageConfig, key: &Key, version: StateVersion) -> (lookup: Lookup)
    requires
        config.wf(),
    ensures
        lookup.prefix@ == key_prefix_text(config.stripe_of_spec(*key), *key),
        lookup.seek@ == version_text(config.stripe_of_spec(*key), *key, version),
{
    let prefix = key_prefix(config, key);
    let seek = versioned(prefix.as_str(), version);
    Lookup { seek, prefix }
}

impl Lookup {
    /// Whether an entry that was found belongs to the key.
    pub fn accepts(&self, found: &[u8]) -> (accepted: bool)
        ensures
            accepted == starts_with_spec(found@, vstd::utf8::encode_utf8(self.prefix@)),
    {
        starts_with(found, self.prefix.as_str().as_bytes())
    }
}

/// What a hexadecimal digit in either case stands for.
pub open spec fn digit_value(byte: u8) -> Option<int> {
    if 48 <= byte <= 57 {
        Some(byte - 48)
    } else if 97 <= byte <= 102 {
        Some(byte - 87)
    } else if 65 <= byte <= 70 {
        Some(byte - 55)
    } else {
        None
    }
}

/// The value of hexadecimal digits, `None` if some are no digits or the number
/// is too large.
pub open spec fn hex_number(digits: Seq<u8>) -> Option<nat>
    decreases digits.len(),
{
    if digits.len() == 0 {
        Some(0)
    } else {
        match (hex_number(digits.drop_last()), digit_value(digits.last())) {
            (Some(high), Some(low)) => if 16 * high + low <= u64::MAX {
                Some((16 * high + low) as nat)
            } else {
                None
            },
            _ => None,
        }
    }
}

/// The version that a text spells: at least one hexadecimal digit, which may
/// follow a plus sign.
pub open spec fn version_number(text: Seq<u8>) -> Option<nat> {
    let digits = if text.len() > 0 && text[0] == 43 {
        text.subrange(1, text.len() as int)
    } else {
        text
    };
    if digits.len() == 0 {
        None
    } else {
        hex_number(digits)
    }
}

/// The version that a text spells.
fn parse_version(text: &[u8]) -> (version: Option<u64>)
    ensures
        match version {
            Some(version) => version_number(text@) == Some(version as nat),
            None => version_number(text@) is None,
        },
{
    let len: usize = text.len();
    if len > 0 && text[0] == 43 {
        if len == 1 {
            return None;
        }
        return parse_hex(vstd::slice::slice_subrange(text, 1, len));
    }
    if len == 0 {
        return None;
    }
    parse_hex(text)
}

/// The value of hexadecimal digits.
fn parse_hex(digits: &[u8]) -> (number: Option<u64>)
    ensures
        match number {
            Some(number) => hex_number(digits@) == Some(number as nat),
            None => hex_number(digits@) is None,
        },
{
    let mut number: u64 = 0;
    let mut i: usize = 0;
    while i < digits.len()
        invariant
            i <= digits@.len(),
            hex_number(digits@.subrange(0, i as int)) == Some(number as nat),
        decreases digits@.len() - i,
    {
        let ghost next = digits@.subrange(0, i + 1);
        assert(next.drop_last() =~= digits@.subrange(0, i as int));
        assert(next.last() == digits@[i as int]);
        let byte: u8 = digits[i];
        let low: u64 = if 48 <= byte && byte <= 57 {
            (byte - 48) as u64
        } else if 97 <= byte && byte <= 102 {
            (byte - 87) as u64
        } else if 65 <= byte && byte <= 70 {
            (byte - 55) as u64
        } else {
            proof {
                lemma_hex_prefix(digits@, i + 1);
            }
            return None;
        };
        if number > (u64::MAX - low) / 16 {
            proof {
                assert(16 * number + low > u64::MAX);
                lemma_hex_prefix(digits@, i + 1);
            }
            return None;
        }
        number = 16 * number + low;
        i += 1;
    }
    assert(digits@.subrange(0, i as int) =~= digits@);
    Some(number)
}

proof fn lemma_hex_prefix(digits: Seq<u8>, i: int)
    requires
        0 <= i <= digits.len(),
        hex_number(digits.subrange(0, i)) is None,
    ensures
        hex_number(digits) is None,
    decreases digits.len() - i,
{
    if i == digits.len() {
        assert(digits.subrange(0, i) =~= digits);
    } else {
        assert(digits.subrange(0, i + 1).drop_last() =~= digits.subrange(0, i));
        lemma_hex_prefix(digits, i + 1);
    }
}

/// Calls `std::str::from_utf8`: the text that bytes are the encoding of, if they
/// are that of a text.
#[verifier::external_body]
fn text_of(bytes: &[u8]) -> (text: Option<&str>)
    ensures
        text is Some <==> valid_utf8(bytes@),
        text matches Some(text) ==> text@ == decode_utf8(bytes@),
{
    std::str::from_utf8(bytes).ok()
}

/// Whether a name is a text of three parts, with dots at the given places.
pub open spec fn has_parts(name: Seq<u8>, first: int, second: int) -> bool {
    &&& valid_utf8(name)
    &&& 0 <= first < second < name.len()
    &&& forall|i: int|
        0 <= i < name.len() ==> (#[trigger] name[i] == 46u8) == (i == first || i == second)
}

/// A part of a text between dots is a text.
proof fn lemma_part_is_text(name: Seq<u8>, first: int, second: int)
    requires
        has_parts(name, first, second),
    ensures
        valid_utf8(name.subrange(first + 1, second)),
{
    assert(name[first] == 46u8 && name[second] == 46u8);
    let rest = name.subrange(first, name.len() as int);
    vstd::utf8::is_char_boundary_iff_not_is_continuation_byte(name, first);
    vstd::utf8::valid_utf8_split(name, first);
    let after = name.subrange(first + 1, name.len() as int);
    assert(rest[0] == 46u8);
    assert(vstd::utf8::pop_first_scalar(rest) =~= after);
    let at = second - first - 1;
    assert(after[at] == 46u8);
    vstd::utf8::is_char_boundary_iff_not_is_continuation_byte(after, at);
    vstd::utf8::valid_utf8_split(after, at);
    assert(after.subrange(0, at) =~= name.subrange(first + 1, second));
}

/// The places of the two dots of a name, `None` unless it is a text with exactly
/// two.
fn find_parts(name: &[u8]) -> (parts: Option<(usize, usize)>)
    ensures
        match parts {
            Some((first, second)) => has_parts(name@, first as int, second as int),
            None => forall|first: int, second: int| !#[trigger] has_parts(name@, first, second),
        },
{
    if text_of(name).is_none() {
        return None;
    }
    let mut first: usize = name.len();
    let mut second: usize = name.len();
    let mut i: usize = 0;
    while i < name.len()
        invariant
            valid_utf8(name@),
            i <= name@.len(),
            first <= name@.len(),
            second <= name@.len(),
            first < name@.len() ==> first < i && name@[first as int] == 46,
            second < name@.len() ==> first < second < i && name@[second as int] == 46,
            forall|j: int|
                0 <= j < i ==> (#[trigger] name@[j] == 46u8) == (j == first || j == second),
        decreases name@.len() - i,
    {
        if name[i] == 46 {
            if first == name.len() {
                first = i;
            } else if second == name.len() {
                second = i;
            } else {
                proof {
                    assert forall|a: int, b: int| !#[trigger] has_parts(name@, a, b) by {
                        if has_parts(name@, a, b) {
                            assert(name@[first as int] == 46u8);
                            assert(name@[second as int] == 46u8);
                            assert(name@[i as int] == 46u8);
                        }
                    }
                }
                return None;
            }
        }
        i += 1;
    }
    if second == name.len() {
        proof {
            assert forall|a: int, b: int| !#[trigger] has_parts(name@, a, b) by {
                if has_parts(name@, a, b) {
                    assert(name@[a] == 46u8);
                    assert(name@[b] == 46u8);
                }
            }
        }
        return None;
    }
    Some((first, second))
}

/// What a scan does about an entry.
#[derive(Debug)]
pub enum ScanStep<B = Vec<u8>> {
    /// Delete it, and go on with the next.
    Delete,
    /// Go on with the first entry from a name on.
    Seek(B),
    /// The entry's name is malformed.
    Malformed,
}

impl View for ScanStep {
    type V = ScanStep<Seq<u8>>;

    open spec fn view(&self) -> ScanStep<Seq<u8>> {
        match *self {
            ScanStep::Delete => ScanStep::Delete,
            ScanStep::Seek(name) => ScanStep::Seek(name@),
            ScanStep::Malformed => ScanStep::Malformed,
        }
    }
}

/// The highest version, in hexadecimal digits.
pub open spec fn highest_version() -> Seq<u8> {
    Seq::new(16, |i: int| 102u8)
}

/// A name after all versions of what a name stands for.
pub open spec fn after_all_versions(name: Seq<u8>, second: int) -> Seq<u8> {
    name.subrange(0, second + 1) + highest_version()
}

/// A name after all versions of what a name stands for.
fn seek_after(name: &[u8], second: usize) -> (seek: Vec<u8>)
    requires
        second < name@.len(),
    ensures
        seek@ == after_all_versions(name@, second as int),
{
    let len: usize = name.len();
    assert(second < len);
    let mut seek = copy_bytes(vstd::slice::slice_subrange(name, 0, second + 1));
    let mut i: usize = 0;
    assert(seek@ =~= name@.subrange(0, second + 1) + highest_version().subrange(0, 0));
    while i < 16
        invariant
            i <= 16,
            seek@ == name@.subrange(0, second + 1) + highest_version().subrange(0, i as int),
        decreases 16 - i,
    {
        seek.push(102);
        i += 1;
        assert(seek@ =~= name@.subrange(0, second + 1) + highest_version().subrange(0, i as int));
    }
    assert(highest_version().subrange(0, 16) =~= highest_version());
    seek
}

/// What collecting does about an entry: versions before the archived one are
/// deleted; the first that is not leads on to what comes after all versions of
/// the key.
pub open spec fn collect_spec(
    name: Seq<u8>,
    first: int,
    second: int,
    archived: StateVersion,
) -> ScanStep<Seq<u8>> {
    match version_number(name.subrange(second + 1, name.len() as int)) {
        Some(version) => if version < archived {
            ScanStep::Delete
        } else {
            ScanStep::Seek(after_all_versions(name, second))
        },
        None => ScanStep::Malformed,
    }
}

/// What collecting does about an entry.
pub fn collect_step(name: &[u8], archived: StateVersion) -> (step: ScanStep)
    ensures
        forall|first: int, second: int| #[trigger]
            has_parts(name@, first, second) ==> step@ == collect_spec(
                name@,
                first,
                second,
                archived,
            ),
        (forall|first: int, second: int| !#[trigger] has_parts(name@, first, second)) ==> step
            is Malformed,
{
    match find_parts(name) {
        None => ScanStep::Malformed,
        Some((first, second)) => {
            proof {
                assert forall|a: int, b: int| #[trigger] has_parts(name@, a, b) implies a == first
                    && b == second by {
                    assert(name@[a] == 46u8);
                    assert(name@[b] == 46u8);
                }
            }
            let len: usize = name.len();
            assert(second < len);
            match parse_version(vstd::slice::slice_subrange(name, second + 1, len)) {
                Some(version) => if version < archived {
                    ScanStep::Delete
                } else {
                    ScanStep::Seek(seek_after(name, second))
                },
                None => ScanStep::Malformed,
            }
        },
    }
}

/// What gathering the values of a stripe does about an entry. `B` stands for a
/// byte string.
#[derive(Debug)]
pub enum GatherStep<B = Vec<u8>> {
    /// The entry belongs to another stripe: all are gathered.
    Done,
    /// Take the value for a key of a group, and go on with the first entry from
    /// a name on.
    Take(ActiveGroupIndex, Key, B),
    /// The entry's name is malformed.
    Malformed,
}

impl View for GatherStep {
    type V = GatherStep<Seq<u8>>;

    open spec fn view(&self) -> GatherStep<Seq<u8>> {
        match *self {
            GatherStep::Done => GatherStep::Done,
            GatherStep::Take(group, key, seek) => GatherStep::Take(group, key, seek@),
            GatherStep::Malformed => GatherStep::Malformed,
        }
    }
}

/// The key with given bytes.
pub open spec fn key_with(bytes: Seq<u8>) -> Key {
    choose|key: Key| key.0@ == bytes
}

/// What gathering does about an entry of the stripe: it is taken under the key
/// that its second part spells.
pub open spec fn gather_spec(
    config: ShardedStorageConfig,
    name: Seq<u8>,
    first: int,
    second: int,
) -> GatherStep<Seq<u8>> {
    let text = decode_utf8(name.subrange(first + 1, second));
    if is_hex_key(text) {
        let key = key_with(hex_bytes(key_digits(text)));
        GatherStep::Take(config.group_of_spec(key), key, after_all_versions(name, second))
    } else {
        GatherStep::Malformed
    }
}

/// What gathering the values of a stripe does about an entry.
pub fn gather_step(config: &ShardedStorageConfig, stripe: StripeIndex, name: &[u8]) -> (step:
    GatherStep)
    requires
        config.wf(),
    ensures
        !starts_with_spec(name@, vstd::utf8::encode_utf8(stripe_prefix_text(stripe))) ==> step
            is Done,
        starts_with_spec(name@, vstd::utf8::encode_utf8(stripe_prefix_text(stripe))) ==> {
            &&& forall|first: int, second: int| #[trigger]
                has_parts(name@, first, second) ==> step@ == gather_spec(
                    *config,
                    name@,
                    first,
                    second,
                )
            &&& (forall|first: int, second: int| !#[trigger] has_parts(name@, first, second))
                ==> step is Malformed
        },
{
    if !starts_with(name, stripe_prefix(stripe).as_str().as_bytes()) {
        return GatherStep::Done;
    }
    match find_parts(name) {
        None => GatherStep::Malformed,
        Some((first, second)) => {
            proof {
                assert forall|a: int, b: int| #[trigger] has_parts(name@, a, b) implies a == first
                    && b == second by {
                    assert(name@[a] == 46u8);
                    assert(name@[b] == 46u8);
                }
            }
            let part = vstd::slice::slice_subrange(name, first + 1, second);
            proof {
                lemma_part_is_text(name@, first as int, second as int);
            }
            match parse_key(text_of(part).unwrap()) {
                None => GatherStep::Malformed,
                Some(key) => {
                    proof {
                        let chosen = key_with(key.0@);
                        assert(chosen.0@ == key.0@);
                        assert(chosen.0 =~= key.0);
                    }
                    GatherStep::Take(config.group_of(&key), key, seek_after(name, second))
                },
            }
        },
    }
}

/// Whether a text comes before another in the order of the database.
pub open spec fn comes_before(a: Seq<char>, b: Seq<char>) -> bool {
    exists|i: int|
        0 <= i < a.len() && i < b.len() && a.subrange(0, i) == b.subrange(0, i)
            && #[trigger] a[i] < b[i]
}

proof fn lemma_padded_len(value: nat, width: nat)
    requires
        0 < width,
        value < vstd::arithmetic::power::pow(16, width),
    ensures
        padded_hex(value, width).len() == width,
    decreases width,
{
    if width > 1 {
        vstd::arithmetic::power::lemma_pow1(16);
        lemma_pow_step(width);
        lemma_padded_len(value / 16, (width - 1) as nat);
    } else {
        vstd::arithmetic::power::lemma_pow1(16);
    }
}

proof fn lemma_pow_step(width: nat)
    requires
        1 < width,
    ensures
        vstd::arithmetic::power::pow(16, width) == 16 * vstd::arithmetic::power::pow(
            16,
            (width - 1) as nat,
        ),
        forall|value: nat|
            value < vstd::arithmetic::power::pow(16, width) ==> #[trigger] (value / 16)
                < vstd::arithmetic::power::pow(16, (width - 1) as nat),
{
    vstd::arithmetic::power::lemma_pow_adds(16, 1, (width - 1) as nat);
    vstd::arithmetic::power::lemma_pow1(16);
    let less = vstd::arithmetic::power::pow(16, (width - 1) as nat);
    assert forall|value: nat|
        value < vstd::arithmetic::power::pow(16, width) implies #[trigger] (value / 16) < less by {
        assert(value < 16 * less);
    }
}

proof fn lemma_padded_order(a: nat, b: nat, width: nat)
    requires
        0 < width,
        a < b,
        b < vstd::arithmetic::power::pow(16, width),
    ensures
        comes_before(padded_hex(a, width), padded_hex(b, width)),
    decreases width,
{
    let first = padded_hex(a, width);
    let second = padded_hex(b, width);
    lemma_padded_len(a, width);
    lemma_padded_len(b, width);
    if width == 1 {
        vstd::arithmetic::power::lemma_pow1(16);
        assert(first[0] < second[0]);
        assert(first.subrange(0, 0) =~= second.subrange(0, 0));
    } else {
        lemma_pow_step(width);
        let shorter = (width - 1) as nat;
        let x = padded_hex(a / 16, shorter);
        let y = padded_hex(b / 16, shorter);
        lemma_padded_len(a / 16, shorter);
        lemma_padded_len(b / 16, shorter);
        if a / 16 < b / 16 {
            lemma_padded_order(a / 16, b / 16, shorter);
            let i = choose|i: int|
                0 <= i < x.len() && i < y.len() && x.subrange(0, i) == y.subrange(0, i)
                    && #[trigger] x[i] < y[i];
            assert(first[i] == x[i] && second[i] == y[i]);
            assert(first.subrange(0, i) =~= x.subrange(0, i));
            assert(second.subrange(0, i) =~= y.subrange(0, i));
        } else {
            assert(a / 16 == b / 16);
            assert(a % 16 < b % 16);
            let i = width - 1;
            assert(first[i] < second[i]);
            assert(first.subrange(0, i) =~= x);
            assert(second.subrange(0, i) =~= y);
        }
    }
}

/// The versions of a key are kept in order: the name of a lower version comes
/// before that of a higher one, as long as versions have eight digits.
pub proof fn versions_in_order(
    stripe: StripeIndex,
    key: Key,
    a: StateVersion,
    b: StateVersion,
)
    requires
        a < b < 0x1_0000_0000,
    ensures
        comes_before(version_text(stripe, key, a), version_text(stripe, key, b)),
{
    assert(vstd::arithmetic::power::pow(16, 8) == 0x1_0000_0000) by {
        reveal_with_fuel(vstd::arithmetic::power::pow, 9);
    }
    lemma_padded_order(a as nat, b as nat, 8);
    let common = key_prefix_text(stripe, key) + seq!['.'];
    let x = padded_hex(a as nat, 8);
    let y = padded_hex(b as nat, 8);
    let i = choose|i: int|
        0 <= i < x.len() && i < y.len() && x.subrange(0, i) == y.subrange(0, i) && #[trigger] x[i]
            < y[i];
    let at = common.len() + i;
    let first = version_text(stripe, key, a);
    let second = version_text(stripe, key, b);
    assert(first[at] == x[i] && second[at] == y[i]);
    assert(first.subrange(0, at) =~= common + x.subrange(0, i));
    assert(second.subrange(0, at) =~= common + y.subrange(0, i));
}

} // verus!
