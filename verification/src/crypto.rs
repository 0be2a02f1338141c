//! Digests and the byte strings that are hashed and signed.
use crate::shared::append_bytes;
use sha2::Digest as _;
use vstd::prelude::*;

verus! {

broadcast use vstd::array::group_array_axioms;

/// The SHA-256 digest of a byte string.
pub uninterp spec fn sha256_of(data: Seq<u8>) -> Seq<u8>;

/// Calls `sha2::Sha256::digest`. The result is the 32-byte SHA-256 digest of
/// `data`, a function of the bytes alone.
#[verifier::external_body]
fn sha256(data: &[u8]) -> (digest: [u8; 32])
    ensures
        digest@ == sha256_of(data@),
{
    sha2::Sha256::digest(data).into()
}

/// A SHA-256 digest.
#[derive(Debug, Clone, Copy, PartialEq, Eq, Hash)]
pub struct Digest(pub [u8; 32]);

/// A signature over a message.
#[derive(Debug, Clone, Copy)]
pub struct Sig(pub [u8; 64]);

/// A key that checks signatures.
#[derive(Debug, Clone, Copy)]
pub struct PublicKey(pub [u8; 32]);

/// The public keys of all peers, in the order of their identifiers.
#[derive(Debug, Clone)]
pub struct PeerConfig {
    pub public_keys: Vec<PublicKey>,
}

impl Sig {
    /// The signature of a message that has not been signed yet.
    pub fn unsigned() -> (sig: Sig)
        ensures
            sig == Sig::unsigned_spec(),
    {
        Sig([0u8; 64])
    }

    pub open spec fn unsigned_spec() -> Sig {
        Sig(vstd::array::spec_array_fill_for_copy_type(0u8))
    }
}

impl Digest {
    /// The digest of `data`.
    pub fn of(data: &[u8]) -> (digest: Digest)
        ensures
            digest == Digest::of_spec(data@),
            digest.0@ == sha256_of(data@),
    {
        let bytes = sha256(data);
        let digest = Digest(bytes);
        proof {
            assert(digest.0@ == sha256_of(data@));
            let chosen = Digest::of_spec(data@);
            assert(chosen.0@ == sha256_of(data@));
            assert(chosen.0 =~= digest.0);
        }
        digest
    }

    /// The digest whose bytes are the SHA-256 digest of `data`.
    pub open spec fn of_spec(data: Seq<u8>) -> Digest {
        choose|digest: Digest| digest.0@ == sha256_of(data)
    }

    /// Whether two digests are equal.
    pub fn same(&self, other: &Digest) -> (same: bool)
        ensures
            same == (*self == *other),
    {
        let mut i: usize = 0;
        while i < 32
            invariant
                i <= 32,
                forall|j: int| 0 <= j < i ==> self.0@[j] == other.0@[j],
            decreases 32 - i,
        {
            if self.0[i] != other.0[i] {
                return false;
            }
            i += 1;
        }
        assert(self.0 =~= other.0);
        true
    }

    /// Appends the digest's bytes to a byte string that is to be hashed.
    pub fn update(&self, state: &mut Vec<u8>)
        ensures
            final(state)@ == old(state)@ + self.0@,
    {
        let mut i: usize = 0;
        while i < 32
            invariant
                i <= 32,
                state@ == old(state)@ + self.0@.subrange(0, i as int),
            decreases 32 - i,
        {
            state.push(self.0[i]);
            i += 1;
        }
    }
}

/// The digest of data is its SHA-256 digest: the one digest that has those bytes.
pub proof fn digest_is_sha256(data: Seq<u8>, digest: Digest)
    requires
        digest.0@ == sha256_of(data),
    ensures
        Digest::of_spec(data) == digest,
{
    let chosen = Digest::of_spec(data);
    assert(chosen.0@ == digest.0@);
    assert(chosen.0 =~= digest.0);
}

/// Appends the little-endian bytes of `value`.
pub fn update_u64(state: &mut Vec<u8>, value: u64)
    ensures
        final(state)@ == old(state)@ + vstd::bytes::spec_u64_to_le_bytes(value),
{
    let bytes = vstd::bytes::u64_to_le_bytes(value);
    append_bytes(state, bytes.as_slice());
}

/// Appends the little-endian bytes of `value`.
pub fn update_u32(state: &mut Vec<u8>, value: u32)
    ensures
        final(state)@ == old(state)@ + vstd::bytes::spec_u32_to_le_bytes(value),
{
    let bytes = vstd::bytes::u32_to_le_bytes(value);
    append_bytes(state, bytes.as_slice());
}

} // verus!
