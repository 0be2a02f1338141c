//! A trie over hexadecimal keys whose nodes are bound together by digests, and
//! proofs of what it contains.
use crate::crypto::Digest;
use crate::shared::{append_bytes, copy_bytes, same_bytes};
use vstd::prelude::*;

verus! {

broadcast use vstd::array::group_array_axioms;

/// What can be wrong with a proof or a lookup.
#[derive(Debug, Clone, Copy, PartialEq, Eq)]
pub enum TrieError {
    /// The path does not extend the prefix.
    NotExtending,
    /// The path goes on with something that is no hexadecimal digit.
    InvalidNibble,
    /// A node has another digest at the branch that the path takes.
    WrongBranch,
    /// The digest of the first node is not the root.
    WrongRoot,
    /// The prefix of a node that is said to mismatch matches the key.
    PrefixMatches,
    /// The key of a leaf that is said to mismatch is the key.
    LeafMatches,
    /// A proof without nodes has no root.
    EmptyProof,
    /// A stored node is malformed.
    MalformedNode,
    /// The key of a stored leaf is malformed.
    MalformedKey,
}

/// A lowercase hexadecimal digit as a byte.
pub open spec fn nibble_byte(value: int) -> u8 {
    if value < 10 {
        (48 + value) as u8
    } else {
        (87 + value) as u8
    }
}

/// What a lowercase hexadecimal digit stands for.
pub open spec fn nibble_value(byte: u8) -> Option<int> {
    if 48 <= byte <= 57 {
        Some(byte - 48)
    } else if 97 <= byte <= 102 {
        Some(byte - 87)
    } else {
        None
    }
}

/// The path of a key: its bytes in hexadecimal digits.
pub open spec fn path_of_spec(key: Digest) -> Seq<u8> {
    Seq::new(
        64,
        |i: int|
            if i % 2 == 0 {
                nibble_byte(key.0@[i / 2] as int / 16)
            } else {
                nibble_byte(key.0@[i / 2] as int % 16)
            },
    )
}

fn nibble(value: u8) -> (byte: u8)
    requires
        value < 16,
    ensures
        byte == nibble_byte(value as int),
{
    if value < 10 {
        48 + value
    } else {
        87 + value
    }
}

/// The path of a key.
pub fn path_of(key: &Digest) -> (path: Vec<u8>)
    ensures
        path@ == path_of_spec(*key),
{
    let mut path: Vec<u8> = Vec::new();
    let mut i: usize = 0;
    while i < 32
        invariant
            i <= 32,
            path@.len() == 2 * i,
            forall|j: int| 0 <= j < 2 * i ==> #[trigger] path@[j] == path_of_spec(*key)[j],
        decreases 32 - i,
    {
        let byte: u8 = key.0[i];
        path.push(nibble(byte / 16));
        path.push(nibble(byte % 16));
        proof {
            assert((2 * i) / 2 == i && (2 * i) % 2 == 0);
            assert((2 * i + 1) / 2 == i && (2 * i + 1) % 2 == 1);
        }
        i += 1;
    }
    assert(path@ =~= path_of_spec(*key));
    path
}

/// The key that a path belongs to, if there is one.
pub fn key_of(path: &[u8]) -> (key: Option<Digest>)
    ensures
        key matches Some(key) ==> path@ == path_of_spec(key),
        key is None ==> forall|key: Digest| path@ != #[trigger] path_of_spec(key),
{
    if path.len() != 64 {
        return None;
    }
    let mut bytes: [u8; 32] = [0u8; 32];
    let mut i: usize = 0;
    while i < 32
        invariant
            i <= 32,
            path@.len() == 64,
            forall|j: int|
                0 <= j < 2 * i ==> nibble_value(#[trigger] path@[j]) is Some,
            forall|j: int|
                0 <= j < i ==> #[trigger] bytes@[j] == 16 * nibble_value(path@[2 * j])->Some_0
                    + nibble_value(path@[2 * j + 1])->Some_0,
        decreases 32 - i,
    {
        match (digit_of(path[2 * i]), digit_of(path[2 * i + 1])) {
            (Some(high), Some(low)) => {
                bytes[i] = 16 * high + low;
            },
            _ => {
                proof {
                    assert forall|key: Digest| path@ != #[trigger] path_of_spec(key) by {
                        let byte = key.0@[i as int] as int;
                        assert((2 * i) / 2 == i && (2 * i) % 2 == 0);
                        assert((2 * i + 1) / 2 == i && (2 * i + 1) % 2 == 1);
                        assert(path_of_spec(key)[2 * i] == nibble_byte(byte / 16));
                        assert(path_of_spec(key)[2 * i + 1] == nibble_byte(byte % 16));
                    }
                }
                return None;
            },
        }
        i += 1;
    }
    let key = Digest(bytes);
    proof {
        assert forall|j: int| 0 <= j < 64 implies #[trigger] path@[j] == path_of_spec(key)[j] by {
            let byte = key.0@[j / 2] as int;
            assert(bytes@[j / 2] == byte);
            let high = nibble_value(path@[2 * (j / 2)])->Some_0;
            let low = nibble_value(path@[2 * (j / 2) + 1])->Some_0;
            assert(nibble_value(path@[2 * (j / 2)]) is Some);
            assert(nibble_value(path@[2 * (j / 2) + 1]) is Some);
            assert(byte == 16 * high + low);
            assert(byte / 16 == high && byte % 16 == low);
        }
        assert(path@ =~= path_of_spec(key));
    }
    Some(key)
}

fn digit_of(byte: u8) -> (value: Option<u8>)
    ensures
        value is Some == nibble_value(byte) is Some,
        value matches Some(value) ==> Some(value as int) == nibble_value(byte) && value < 16,
{
    if 48 <= byte && byte <= 57 {
        Some(byte - 48)
    } else if 97 <= byte && byte <= 102 {
        Some(byte - 87)
    } else {
        None
    }
}

/// Whether a text starts with another.
pub open spec fn starts_with_spec(text: Seq<u8>, prefix: Seq<u8>) -> bool {
    prefix.len() <= text.len() && text.subrange(0, prefix.len() as int) == prefix
}

/// Whether a text starts with another.
pub fn starts_with(text: &[u8], prefix: &[u8]) -> (starts: bool)
    ensures
        starts == starts_with_spec(text@, prefix@),
{
    if prefix.len() > text.len() {
        return false;
    }
    same_bytes(vstd::slice::slice_subrange(text, 0, prefix.len()), prefix)
}

/// A node on the path of a proof.
#[derive(Debug, Clone)]
pub struct ProofNode {
    pub prefix: Vec<u8>,
    pub branch_digests: [Option<Digest>; 16],
}

/// The mathematical content of a [`ProofNode`].
#[verifier::ext_equal]
pub struct NodeState {
    pub prefix: Seq<u8>,
    pub branches: Seq<Option<Digest>>,
}

impl View for ProofNode {
    type V = NodeState;

    open spec fn view(&self) -> NodeState {
        NodeState { prefix: self.prefix@, branches: self.branch_digests@ }
    }
}

/// The bytes that branches contribute to a digest: those of their digests, a
/// zero for a branch that is missing.
pub open spec fn branch_bytes(branches: Seq<Option<Digest>>) -> Seq<u8>
    decreases branches.len(),
{
    if branches.len() == 0 {
        Seq::empty()
    } else {
        branch_bytes(branches.drop_last()) + match branches.last() {
            Some(digest) => digest.0@,
            None => seq![0u8],
        }
    }
}

impl NodeState {
    pub open spec fn hash_bytes(self) -> Seq<u8> {
        self.prefix + branch_bytes(self.branches)
    }

    pub open spec fn digest(self) -> Digest {
        Digest::of_spec(self.hash_bytes())
    }

    pub open spec fn with_branch(self, index: int, digest: Option<Digest>) -> NodeState {
        NodeState { branches: self.branches.update(index, digest), ..self }
    }
}

impl ProofNode {
    /// A node without branches.
    pub fn empty(prefix: Vec<u8>) -> (node: ProofNode)
        ensures
            node@ == (NodeState { prefix: prefix@, branches: Seq::new(16, |i: int| None) }),
    {
        let node = ProofNode { prefix, branch_digests: [None; 16] };
        assert(node@.branches =~= Seq::new(16, |i: int| None));
        node
    }

    /// Appends what the node contributes to a digest.
    pub fn update(&self, state: &mut Vec<u8>)
        ensures
            final(state)@ == old(state)@ + self@.hash_bytes(),
    {
        append_bytes(state, self.prefix.as_slice());
        let ghost branches = self.branch_digests@;
        let mut i: usize = 0;
        assert(branches.subrange(0, 0) =~= Seq::empty());
        assert(state@ =~= old(state)@ + self.prefix@ + branch_bytes(branches.subrange(0, 0)));
        while i < 16
            invariant
                i <= 16,
                branches == self.branch_digests@,
                state@ == old(state)@ + self.prefix@ + branch_bytes(
                    branches.subrange(0, i as int),
                ),
            decreases 16 - i,
        {
            proof {
                assert(branches.subrange(0, i + 1).drop_last() =~= branches.subrange(0, i as int));
                assert(branches.subrange(0, i + 1).last() == branches[i as int]);
            }
            let ghost before = state@;
            match &self.branch_digests[i] {
                Some(digest) => {
                    digest.update(state);
                },
                None => {
                    state.push(0);
                    assert(state@ =~= before + seq![0u8]);
                },
            }
            i += 1;
            assert(state@ =~= old(state)@ + self.prefix@ + branch_bytes(
                branches.subrange(0, i as int),
            ));
        }
        assert(branches.subrange(0, 16) =~= branches);
        assert(state@ =~= old(state)@ + self@.hash_bytes());
    }

    /// The digest of the node.
    pub fn digest(&self) -> (digest: Digest)
        ensures
            digest == self@.digest(),
    {
        let mut state: Vec<u8> = Vec::new();
        self.update(&mut state);
        assert(state@ =~= self@.hash_bytes());
        Digest::of(state.as_slice())
    }
}

/// The digest of a leaf: of its path and its value.
pub open spec fn leaf_digest_spec(path: Seq<u8>, value: Seq<u8>) -> Digest {
    Digest::of_spec(path + value)
}

/// The digest of a leaf.
pub fn leaf_digest(path: &[u8], value: &[u8]) -> (digest: Digest)
    ensures
        digest == leaf_digest_spec(path@, value@),
{
    let mut state = copy_bytes(path);
    append_bytes(&mut state, value);
    Digest::of(state.as_slice())
}

/// The branch that a path takes after a prefix.
pub open spec fn branch_index_spec(prefix: Seq<u8>, path: Seq<u8>) -> Result<int, TrieError> {
    if !starts_with_spec(path, prefix) || path.len() == prefix.len() {
        Err(TrieError::NotExtending)
    } else {
        match nibble_value(path[prefix.len() as int]) {
            Some(value) => Ok(value),
            None => Err(TrieError::InvalidNibble),
        }
    }
}

/// Follows the nodes of a proof from the last to the first, and gives the
/// digest that the first has.
pub open spec fn check(
    nodes: Seq<NodeState>,
    path: Seq<u8>,
    digest: Option<Digest>,
) -> Result<Option<Digest>, TrieError>
    decreases nodes.len(),
{
    if nodes.len() == 0 {
        Ok(digest)
    } else {
        let node = nodes.last();
        match branch_index_spec(node.prefix, path) {
            Err(err) => Err(err),
            Ok(index) => if node.branches[index] != digest {
                Err(TrieError::WrongBranch)
            } else {
                check(nodes.drop_last(), node.prefix, Some(node.digest()))
            },
        }
    }
}

/// Whether a proof shows that a path leads to a digest, or to a missing
/// branch, under a root.
pub open spec fn verify_spec(
    nodes: Seq<NodeState>,
    root: Digest,
    path: Seq<u8>,
    digest: Option<Digest>,
) -> Result<(), TrieError> {
    match check(nodes, path, digest) {
        Err(err) => Err(err),
        Ok(found) => if found == Some(root) {
            Ok(())
        } else {
            Err(TrieError::WrongRoot)
        },
    }
}

/// Sets what a path leads to, and the digests of all nodes on the path. Stops
/// at a node that the path does not go through.
pub open spec fn update_spec(nodes: Seq<NodeState>, path: Seq<u8>, digest: Option<Digest>) -> (
    Seq<NodeState>,
    Result<Option<Digest>, TrieError>,
)
    decreases nodes.len(),
{
    if nodes.len() == 0 {
        (nodes, Ok(digest))
    } else {
        let node = nodes.last();
        match branch_index_spec(node.prefix, path) {
            Err(err) => (nodes, Err(err)),
            Ok(index) => {
                let updated = node.with_branch(index, digest);
                let (rest, result) = update_spec(
                    nodes.drop_last(),
                    node.prefix,
                    Some(updated.digest()),
                );
                (rest.push(updated), result)
            },
        }
    }
}

/// A result with a digest, or an error if there is none.
pub open spec fn root_result(result: Result<Option<Digest>, TrieError>) -> Result<
    Digest,
    TrieError,
> {
    match result {
        Err(err) => Err(err),
        Ok(Some(root)) => Ok(root),
        Ok(None) => Err(TrieError::EmptyProof),
    }
}

/// A proof that a path is there under a root: the nodes on it, from the root
/// on. The path leads to a leaf with the key, to a branch or leaf that does not
/// fit the key, or to a missing branch. The proof is valid if every node's
/// prefix fits, every node has the digest of the next one at the branch that
/// the path takes, and the first node's digest is the root.
#[derive(Debug, Clone)]
pub struct Proof(pub Vec<ProofNode>);

/// The mathematical content of a proof.
pub open spec fn nodes_view(nodes: Seq<ProofNode>) -> Seq<NodeState> {
    nodes.map_values(|node: ProofNode| node@)
}

impl View for Proof {
    type V = Seq<NodeState>;

    open spec fn view(&self) -> Seq<NodeState> {
        nodes_view(self.0@)
    }
}

/// Whether two optional digests are equal.
fn same_digest(a: &Option<Digest>, b: &Option<Digest>) -> (same: bool)
    ensures
        same == (*a == *b),
{
    match (a, b) {
        (Some(a), Some(b)) => a.same(b),
        (None, None) => true,
        _ => false,
    }
}

impl Proof {
    /// The branch that a path takes after a prefix.
    pub fn branch_index(prefix: &[u8], path: &[u8]) -> (index: Result<usize, TrieError>)
        ensures
            match index {
                Ok(index) => branch_index_spec(prefix@, path@) == Ok::<int, TrieError>(
                    index as int,
                ) && index < 16,
                Err(err) => branch_index_spec(prefix@, path@) == Err::<int, TrieError>(err),
            },
    {
        if !starts_with(path, prefix) || path.len() == prefix.len() {
            return Err(TrieError::NotExtending);
        }
        match digit_of(path[prefix.len()]) {
            Some(value) => Ok(value as usize),
            None => Err(TrieError::InvalidNibble),
        }
    }

    /// Checks that a path leads to a digest, or to a missing branch, under a
    /// root.
    pub fn verify(
        &self,
        root: &Digest,
        target_path: &[u8],
        target_digest: Option<Digest>,
    ) -> (result: Result<(), TrieError>)
        ensures
            result == verify_spec(self@, *root, target_path@, target_digest),
    {
        let mut path = copy_bytes(target_path);
        let mut digest = target_digest;
        let mut i: usize = self.0.len();
        assert(self@.subrange(0, self@.len() as int) =~= self@);
        while i > 0
            invariant
                i <= self.0@.len(),
                check(self@, target_path@, target_digest) == check(
                    self@.subrange(0, i as int),
                    path@,
                    digest,
                ),
            decreases i,
        {
            let node = &self.0[i - 1];
            let ghost nodes = self@.subrange(0, i as int);
            assert(nodes.last() == node@);
            assert(nodes.drop_last() =~= self@.subrange(0, i - 1));
            match Self::branch_index(node.prefix.as_slice(), path.as_slice()) {
                Err(err) => {
                    return Err(err);
                },
                Ok(index) => {
                    if !same_digest(&node.branch_digests[index], &digest) {
                        return Err(TrieError::WrongBranch);
                    }
                },
            }
            path = copy_bytes(node.prefix.as_slice());
            digest = Some(node.digest());
            i -= 1;
        }
        if same_digest(&digest, &Some(*root)) {
            Ok(())
        } else {
            Err(TrieError::WrongRoot)
        }
    }

    /// Checks that a key has a value under a root.
    pub fn verify_presence(&self, root: &Digest, key: &Digest, value: &[u8]) -> (result: Result<
        (),
        TrieError,
    >)
        ensures
            result == verify_spec(
                self@,
                *root,
                path_of_spec(*key),
                Some(leaf_digest_spec(path_of_spec(*key), value@)),
            ),
    {
        let path = path_of(key);
        self.verify(root, path.as_slice(), Some(leaf_digest(path.as_slice(), value)))
    }

    /// Checks that the path of a key ends at a missing branch under a root.
    pub fn verify_missing_branch(&self, root: &Digest, key: &Digest) -> (result: Result<
        (),
        TrieError,
    >)
        ensures
            result == verify_spec(self@, *root, path_of_spec(*key), None),
    {
        let path = path_of(key);
        self.verify(root, path.as_slice(), None)
    }

    /// Checks that the path of a key leads to a node that does not fit the key.
    pub fn verify_mismatch_branch(&self, root: &Digest, key: &Digest, node: &ProofNode) -> (result:
        Result<(), TrieError>)
        ensures
            result == if starts_with_spec(path_of_spec(*key), node@.prefix) {
                Err::<(), TrieError>(TrieError::PrefixMatches)
            } else {
                verify_spec(self@, *root, path_of_spec(*key), Some(node@.digest()))
            },
    {
        let path = path_of(key);
        if starts_with(path.as_slice(), node.prefix.as_slice()) {
            return Err(TrieError::PrefixMatches);
        }
        self.verify(root, path.as_slice(), Some(node.digest()))
    }

    /// Checks that the path of a key leads to the leaf of another key.
    pub fn verify_mismatch_leaf(
        &self,
        root: &Digest,
        key: &Digest,
        leaf_key: &Digest,
        leaf_value: &[u8],
    ) -> (result: Result<(), TrieError>)
        ensures
            result == if *key == *leaf_key {
                Err::<(), TrieError>(TrieError::LeafMatches)
            } else {
                verify_spec(
                    self@,
                    *root,
                    path_of_spec(*key),
                    Some(leaf_digest_spec(path_of_spec(*leaf_key), leaf_value@)),
                )
            },
    {
        let path = path_of(key);
        let leaf_path = path_of(leaf_key);
        proof {
            if path@ == leaf_path@ {
                paths_differ(*key, *leaf_key);
            }
        }
        if same_bytes(path.as_slice(), leaf_path.as_slice()) {
            return Err(TrieError::LeafMatches);
        }
        self.verify(
            root,
            path.as_slice(),
            Some(leaf_digest(leaf_path.as_slice(), leaf_value)),
        )
    }

    /// Sets what a path leads to, and gives the new root.
    pub fn update(&mut self, target_path: &[u8], target_digest: Option<Digest>) -> (root: Result<
        Digest,
        TrieError,
    >)
        ensures
            final(self)@ == update_spec(old(self)@, target_path@, target_digest).0,
            root == root_result(update_spec(old(self)@, target_path@, target_digest).1),
    {
        let ghost before = self@;
        let ghost whole = update_spec(before, target_path@, target_digest);
        let mut path = copy_bytes(target_path);
        let mut digest = target_digest;
        let mut i: usize = self.0.len();
        assert(before.subrange(0, before.len() as int) =~= before);
        assert(before.subrange(before.len() as int, before.len() as int) =~= Seq::empty());
        assert(whole.0 + Seq::<NodeState>::empty() =~= whole.0);
        while i > 0
            invariant
                i <= self.0@.len(),
                before == old(self)@,
                whole == update_spec(before, target_path@, target_digest),
                before.len() == self.0@.len(),
                self@.subrange(0, i as int) == before.subrange(0, i as int),
                ({
                    let rest = update_spec(before.subrange(0, i as int), path@, digest);
                    &&& whole.0 == rest.0 + self@.subrange(i as int, self@.len() as int)
                    &&& whole.1 == rest.1
                }),
            decreases i,
        {
            let ghost nodes = before.subrange(0, i as int);
            let ghost this = self@;
            let ghost done = this.subrange(i as int, this.len() as int);
            assert(nodes.last() == this[i - 1]) by {
                assert(this.subrange(0, i as int)[i - 1] == this[i - 1]);
            }
            assert(nodes.drop_last() =~= before.subrange(0, i - 1));
            let branch = Self::branch_index(self.0[i - 1].prefix.as_slice(), path.as_slice());
            match branch {
                Err(err) => {
                    proof {
                        assert(nodes + done =~= self@) by {
                            assert(this.subrange(0, i as int) + done =~= this);
                        }
                    }
                    return Err(err);
                },
                Ok(index) => {
                    self.0[i - 1].branch_digests[index] = digest;
                    let ghost updated = nodes.last().with_branch(index as int, digest);
                    proof {
                        assert(self.0@[i - 1]@ =~= updated);
                        assert(self@ =~= this.update(i - 1, updated));
                    }
                    path = copy_bytes(self.0[i - 1].prefix.as_slice());
                    digest = Some(self.0[i - 1].digest());
                    proof {
                        let rest = update_spec(nodes.drop_last(), path@, digest);
                        assert(self@.subrange(i - 1, self@.len() as int) =~= seq![updated]
                            + done);
                        assert(rest.0.push(updated) + done =~= rest.0 + (seq![updated] + done));
                        assert(self@.subrange(0, i - 1) =~= before.subrange(0, i - 1)) by {
                            assert forall|j: int| 0 <= j < i - 1 implies self@[j] == before[j] by {
                                assert(this.subrange(0, i as int)[j] == before.subrange(
                                    0,
                                    i as int,
                                )[j]);
                            }
                        }
                    }
                },
            }
            i -= 1;
        }
        proof {
            assert(before.subrange(0, 0) =~= Seq::empty());
            assert(Seq::<NodeState>::empty() + self@.subrange(0, self@.len() as int) =~= self@);
        }
        match digest {
            Some(root) => Ok(root),
            None => Err(TrieError::EmptyProof),
        }
    }

    /// Sets the value of a key, or takes it away, and gives the new root.
    pub fn update_leaf(&mut self, key: &Digest, value: Option<&[u8]>) -> (root: Result<
        Digest,
        TrieError,
    >)
        ensures
            ({
                let path = path_of_spec(*key);
                let digest = match value {
                    Some(value) => Some(leaf_digest_spec(path, value@)),
                    None => None,
                };
                &&& final(self)@ == update_spec(old(self)@, path, digest).0
                &&& root == root_result(update_spec(old(self)@, path, digest).1)
            }),
    {
        let path = path_of(key);
        let digest = match value {
            Some(value) => Some(leaf_digest(path.as_slice(), value)),
            None => None,
        };
        self.update(path.as_slice(), digest)
    }
}

/// Different keys have different paths.
pub proof fn paths_differ(a: Digest, b: Digest)
    requires
        path_of_spec(a) == path_of_spec(b),
    ensures
        a == b,
{
    assert forall|i: int| 0 <= i < 32 implies a.0@[i] == b.0@[i] by {
        assert((2 * i) / 2 == i && (2 * i) % 2 == 0);
        assert((2 * i + 1) / 2 == i && (2 * i + 1) % 2 == 1);
        assert(path_of_spec(a)[2 * i] == path_of_spec(b)[2 * i]);
        assert(path_of_spec(a)[2 * i + 1] == path_of_spec(b)[2 * i + 1]);
        assert(path_of_spec(a)[2 * i] == nibble_byte(a.0@[i] as int / 16));
        assert(path_of_spec(b)[2 * i] == nibble_byte(b.0@[i] as int / 16));
        assert(path_of_spec(a)[2 * i + 1] == nibble_byte(a.0@[i] as int % 16));
        assert(path_of_spec(b)[2 * i + 1] == nibble_byte(b.0@[i] as int % 16));
    }
    assert(a.0 =~= b.0);
}

/// Whether all nodes have their sixteen branches.
pub open spec fn nodes_wf(nodes: Seq<NodeState>) -> bool {
    forall|i: int| 0 <= i < nodes.len() ==> (#[trigger] nodes[i]).branches.len() == 16
}

/// An updated proof shows what it was updated with: under the new root, the
/// path leads to the new digest.
pub proof fn updated_proof_verifies(nodes: Seq<NodeState>, path: Seq<u8>, digest: Option<Digest>)
    requires
        nodes_wf(nodes),
    ensures
        ({
            let (updated, result) = update_spec(nodes, path, digest);
            match root_result(result) {
                Ok(root) => verify_spec(updated, root, path, digest) == Ok::<(), TrieError>(()),
                Err(_) => true,
            }
        }),
{
    lemma_update_checks(nodes, path, digest);
}

proof fn lemma_update_checks(nodes: Seq<NodeState>, path: Seq<u8>, digest: Option<Digest>)
    requires
        nodes_wf(nodes),
    ensures
        ({
            let (updated, result) = update_spec(nodes, path, digest);
            result is Ok ==> check(updated, path, digest) == result
        }),
    decreases nodes.len(),
{
    if nodes.len() > 0 {
        let node = nodes.last();
        match branch_index_spec(node.prefix, path) {
            Err(_) => {},
            Ok(index) => {
                let updated = node.with_branch(index, digest);
                assert(nodes[nodes.len() - 1].branches.len() == 16);
                assert forall|i: int| 0 <= i < nodes.drop_last().len() implies (
                #[trigger] nodes.drop_last()[i]).branches.len() == 16 by {
                    assert(nodes.drop_last()[i] == nodes[i]);
                }
                lemma_update_checks(nodes.drop_last(), node.prefix, Some(updated.digest()));
                let (rest, _) = update_spec(
                    nodes.drop_last(),
                    node.prefix,
                    Some(updated.digest()),
                );
                assert(rest.push(updated).drop_last() =~= rest);
                assert(rest.push(updated).last() == updated);
            },
        }
    }
}

/// Updating with what is there already changes nothing: the proof stays, and
/// so does the root.
pub proof fn idle_update_keeps_root(
    nodes: Seq<NodeState>,
    root: Digest,
    path: Seq<u8>,
    digest: Option<Digest>,
)
    requires
        nodes_wf(nodes),
        verify_spec(nodes, root, path, digest) is Ok,
    ensures
        update_spec(nodes, path, digest) == (nodes, Ok::<Option<Digest>, TrieError>(Some(root))),
{
    lemma_idle_update(nodes, path, digest);
}

proof fn lemma_idle_update(nodes: Seq<NodeState>, path: Seq<u8>, digest: Option<Digest>)
    requires
        nodes_wf(nodes),
        check(nodes, path, digest) is Ok,
    ensures
        update_spec(nodes, path, digest) == (nodes, check(nodes, path, digest)),
    decreases nodes.len(),
{
    if nodes.len() > 0 {
        let node = nodes.last();
        match branch_index_spec(node.prefix, path) {
            Err(_) => {},
            Ok(index) => {
                assert(nodes[nodes.len() - 1].branches.len() == 16);
                assert forall|i: int| 0 <= i < nodes.drop_last().len() implies (
                #[trigger] nodes.drop_last()[i]).branches.len() == 16 by {
                    assert(nodes.drop_last()[i] == nodes[i]);
                }
                assert(node.with_branch(index, digest) =~= node);
                lemma_idle_update(nodes.drop_last(), node.prefix, Some(node.digest()));
                assert(nodes.drop_last().push(node) =~= nodes);
            },
        }
    }
}

/// The content of digests of branches.
pub open spec fn branches_content(branches: Seq<Option<Digest>>) -> Seq<Option<Seq<u8>>> {
    branches.map_values(
        |branch: Option<Digest>|
            match branch {
                Some(digest) => Some(digest.0@),
                None => None,
            },
    )
}

/// The encoding of the branches of a node.
pub uninterp spec fn branches_encoding(branches: Seq<Option<Seq<u8>>>) -> Seq<u8>;

/// The branches that a byte string starts with the encoding of, and the length
/// of that encoding.
pub uninterp spec fn branches_decoding(bytes: Seq<u8>) -> Option<(Seq<Option<Seq<u8>>>, usize)>;

/// Calls `bincode::encode_to_vec` with the standard configuration: a function
/// of the digests alone, from which decoding gives them back and takes all of
/// it.
#[verifier::external_body]
fn encode_branches(branches: &[Option<Digest>; 16]) -> (bytes: Vec<u8>)
    ensures
        bytes@ == branches_encoding(branches_content(branches@)),
        branches_decoding(bytes@) == Some((branches_content(branches@), bytes.len())),
{
    let plain = branches.map(|branch| branch.map(|digest| digest.0));
    bincode::encode_to_vec(plain, bincode::config::standard()).unwrap()
}

/// Calls `bincode::decode_from_slice` with the standard configuration: a
/// function of the bytes alone, which fails unless they start with an
/// encoding.
#[verifier::external_body]
fn decode_branches(bytes: &[u8]) -> (decoded: Option<([Option<Digest>; 16], usize)>)
    ensures
        match decoded {
            Some((branches, len)) => Some((branches_content(branches@), len)),
            None => None,
        } == branches_decoding(bytes@),
{
    bincode::decode_from_slice::<[Option<[u8; 32]>; 16], _>(bytes, bincode::config::standard())
        .ok()
        .map(|(plain, len)| (plain.map(|branch| branch.map(Digest)), len))
}

/// Why a key has no value. `N` stands for a node, `B` for a byte string, `P`
/// for a proof.
#[derive(Debug)]
pub enum ProofOfAbsence<N = ProofNode, B = Vec<u8>, P = Proof> {
    /// The path of the key ends at a missing branch.
    MissingBranch(P),
    /// The path of the key leads to a node that does not fit.
    MismatchBranch(N, P),
    /// The path of the key leads to the leaf of another key.
    MismatchLeaf(Digest, B, P),
}

/// The outcome of a lookup.
#[derive(Debug)]
pub enum Get<N = ProofNode, B = Vec<u8>, P = Proof> {
    Presence(B, P),
    Absence(ProofOfAbsence<N, B, P>),
}

/// The outcome of a lookup, over the values themselves.
pub type GetState = Get<NodeState, Seq<u8>, Seq<NodeState>>;

impl View for Get {
    type V = GetState;

    open spec fn view(&self) -> GetState {
        match *self {
            Get::Presence(value, proof) => Get::Presence(value@, proof@),
            Get::Absence(ProofOfAbsence::MissingBranch(proof)) => Get::Absence(
                ProofOfAbsence::MissingBranch(proof@),
            ),
            Get::Absence(ProofOfAbsence::MismatchBranch(node, proof)) => Get::Absence(
                ProofOfAbsence::MismatchBranch(node@, proof@),
            ),
            Get::Absence(ProofOfAbsence::MismatchLeaf(key, value, proof)) => Get::Absence(
                ProofOfAbsence::MismatchLeaf(key, value@, proof@),
            ),
        }
    }
}

/// What a lookup does next. `B` stands for a byte string, `G` for an outcome.
#[derive(Debug)]
pub enum LookupStep<B = Vec<u8>, G = Get> {
    /// Look for the first entry from a key on.
    Seek(B),
    Done(G),
    Failed(TrieError),
}

impl View for LookupStep {
    type V = LookupStep<Seq<u8>, GetState>;

    open spec fn view(&self) -> LookupStep<Seq<u8>, GetState> {
        match *self {
            LookupStep::Seek(key) => LookupStep::Seek(key@),
            LookupStep::Done(get) => LookupStep::Done(get@),
            LookupStep::Failed(err) => LookupStep::Failed(err),
        }
    }
}

/// A lookup in a database that holds nodes under their prefixes and leaves
/// under their paths. The database is asked for the entries.
pub struct Lookup {
    target: Vec<u8>,
    nodes: Vec<ProofNode>,
}

/// The mathematical content of a [`Lookup`].
pub struct LookupState {
    pub target: Seq<u8>,
    /// The nodes found so far.
    pub nodes: Seq<NodeState>,
}

impl View for Lookup {
    type V = LookupState;

    closed spec fn view(&self) -> LookupState {
        LookupState { target: self.target@, nodes: nodes_view(self.nodes@) }
    }
}

/// The node that an entry of the database holds.
pub open spec fn stored_node(key: Seq<u8>, value: Seq<u8>) -> Option<NodeState> {
    match branches_decoding(value) {
        Some((branches, len)) => if len == value.len() {
            Some(NodeState { prefix: key, branches: branches_with(branches) })
        } else {
            None
        },
        None => None,
    }
}

/// The digest with given bytes.
pub open spec fn digest_with(bytes: Seq<u8>) -> Digest {
    choose|digest: Digest| digest.0@ == bytes
}

/// The digests of branches with a given content.
pub open spec fn branches_with(content: Seq<Option<Seq<u8>>>) -> Seq<Option<Digest>> {
    Seq::new(
        content.len(),
        |i: int|
            match content[i] {
                Some(bytes) => Some(digest_with(bytes)),
                None => None,
            },
    )
}

/// Digests are given by their content.
proof fn lemma_branches_with(branches: Seq<Option<Digest>>)
    ensures
        branches_with(branches_content(branches)) == branches,
{
    let read = branches_with(branches_content(branches));
    assert forall|i: int| 0 <= i < branches.len() implies #[trigger] read[i] == branches[i] by {
        match branches[i] {
            Some(digest) => {
                assert(branches_content(branches)[i] == Some(digest.0@));
                let chosen = digest_with(digest.0@);
                assert(chosen.0@ == digest.0@);
                assert(chosen.0 =~= digest.0);
            },
            None => {
                assert(branches_content(branches)[i] is None);
            },
        }
    }
    assert(read =~= branches);
}

/// Whether a node lacks the branch that a path takes.
pub open spec fn is_missing(node: NodeState, path: Seq<u8>) -> bool {
    branch_index_spec(node.prefix, path) matches Ok(index) && node.branches[index] is None
}

impl LookupState {
    /// The outcome of a lookup that finds nothing more.
    pub open spec fn missing(self) -> GetState {
        Get::Absence(ProofOfAbsence::MissingBranch(self.nodes))
    }

    /// Goes on with the entry that was found.
    pub open spec fn found(self, key: Seq<u8>, value: Seq<u8>) -> (
        LookupState,
        LookupStep<Seq<u8>, GetState>,
    ) {
        if key == self.target {
            (self, LookupStep::Done(Get::Presence(value, self.nodes)))
        } else if key.len() == self.target.len() {
            (
                self,
                if exists|leaf: Digest| key == #[trigger] path_of_spec(leaf) {
                    let leaf = choose|leaf: Digest| key == #[trigger] path_of_spec(leaf);
                    LookupStep::Done(
                        Get::Absence(ProofOfAbsence::MismatchLeaf(leaf, value, self.nodes)),
                    )
                } else {
                    LookupStep::Failed(TrieError::MalformedKey)
                },
            )
        } else {
            match stored_node(key, value) {
                None => (self, LookupStep::Failed(TrieError::MalformedNode)),
                Some(node) => if !starts_with_spec(self.target, key) {
                    (
                        self,
                        LookupStep::Done(
                            Get::Absence(ProofOfAbsence::MismatchBranch(node, self.nodes)),
                        ),
                    )
                } else if is_missing(node, self.target) {
                    (
                        LookupState { nodes: self.nodes.push(node), ..self },
                        LookupStep::Done(
                            Get::Absence(ProofOfAbsence::MissingBranch(self.nodes.push(node))),
                        ),
                    )
                } else {
                    (
                        LookupState { nodes: self.nodes.push(node), ..self },
                        LookupStep::Seek(self.target.subrange(0, key.len() as int + 1)),
                    )
                },
            }
        }
    }
}

/// A copy of the nodes of a proof.
fn copy_nodes(nodes: &Vec<ProofNode>) -> (copy: Vec<ProofNode>)
    ensures
        nodes_view(copy@) == nodes_view(nodes@),
{
    let mut copy: Vec<ProofNode> = Vec::new();
    let mut i: usize = 0;
    while i < nodes.len()
        invariant
            i <= nodes@.len(),
            nodes_view(copy@) == nodes_view(nodes@).subrange(0, i as int),
        decreases nodes@.len() - i,
    {
        let node = ProofNode {
            prefix: copy_bytes(nodes[i].prefix.as_slice()),
            branch_digests: nodes[i].branch_digests,
        };
        assert(node@ =~= nodes@[i as int]@);
        let ghost before = nodes_view(copy@);
        copy.push(node);
        i += 1;
        assert(nodes_view(copy@) =~= before.push(node@));
        assert(nodes_view(nodes@).subrange(0, i as int) =~= nodes_view(nodes@).subrange(
            0,
            i - 1,
        ).push(node@));
    }
    assert(nodes_view(nodes@).subrange(0, i as int) =~= nodes_view(nodes@));
    copy
}

impl Lookup {
    /// A lookup of a key, which starts with the first entry of all.
    pub fn new(key: &Digest) -> (lookup: Lookup)
        ensures
            lookup@ == (LookupState { target: path_of_spec(*key), nodes: Seq::empty() }),
    {
        let lookup = Lookup { target: path_of(key), nodes: Vec::new() };
        assert(lookup@.nodes =~= Seq::empty());
        lookup
    }

    /// The outcome if there is no entry from the sought key on.
    pub fn missing(&self) -> (get: Get)
        ensures
            get@ == self@.missing(),
    {
        Get::Absence(ProofOfAbsence::MissingBranch(Proof(copy_nodes(&self.nodes))))
    }

    /// Goes on with the entry that was found.
    pub fn found(&mut self, key: &[u8], value: &[u8]) -> (step: LookupStep)
        ensures
            (final(self)@, step@) == old(self)@.found(key@, value@),
    {
        let ghost before = self@;
        if same_bytes(key, self.target.as_slice()) {
            return LookupStep::Done(
                Get::Presence(copy_bytes(value), Proof(copy_nodes(&self.nodes))),
            );
        }
        if key.len() == self.target.len() {
            return match key_of(key) {
                Some(leaf) => {
                    proof {
                        let chosen = choose|leaf: Digest| key@ == #[trigger] path_of_spec(leaf);
                        assert(key@ == path_of_spec(leaf));
                        paths_differ(chosen, leaf);
                    }
                    LookupStep::Done(
                        Get::Absence(
                            ProofOfAbsence::MismatchLeaf(
                                leaf,
                                copy_bytes(value),
                                Proof(copy_nodes(&self.nodes)),
                            ),
                        ),
                    )
                },
                None => LookupStep::Failed(TrieError::MalformedKey),
            };
        }
        let (branch_digests, len) = match decode_branches(value) {
            Some(decoded) => decoded,
            None => {
                return LookupStep::Failed(TrieError::MalformedNode);
            },
        };
        if len != value.len() {
            return LookupStep::Failed(TrieError::MalformedNode);
        }
        let node = ProofNode { prefix: copy_bytes(key), branch_digests };
        proof {
            lemma_branches_with(branch_digests@);
            assert(node@ =~= stored_node(key@, value@)->Some_0);
        }
        if !starts_with(self.target.as_slice(), key) {
            return LookupStep::Done(
                Get::Absence(
                    ProofOfAbsence::MismatchBranch(node, Proof(copy_nodes(&self.nodes))),
                ),
            );
        }
        let missing = match Proof::branch_index(key, self.target.as_slice()) {
            Ok(index) => node.branch_digests[index].is_none(),
            Err(_) => false,
        };
        self.nodes.push(node);
        assert(self@.nodes =~= before.nodes.push(node@));
        if missing {
            return LookupStep::Done(self.missing());
        }
        let next = copy_bytes(
            vstd::slice::slice_subrange(self.target.as_slice(), 0, key.len() + 1),
        );
        LookupStep::Seek(next)
    }
}

/// An entry of the database that is to be written.
pub type Entry = (Vec<u8>, Vec<u8>);

/// The content of entries.
pub open spec fn entries_view(entries: Seq<Entry>) -> Seq<(Seq<u8>, Seq<u8>)> {
    entries.map_values(|entry: Entry| (entry.0@, entry.1@))
}

/// The entry that holds a node.
pub open spec fn node_entry(node: NodeState) -> (Seq<u8>, Seq<u8>) {
    (node.prefix, branches_encoding(branches_content(node.branches)))
}

/// The entry that holds a node.
fn entry_of(node: &ProofNode) -> (entry: Entry)
    ensures
        (entry.0@, entry.1@) == node_entry(node@),
        stored_node(entry.0@, entry.1@) == Some(node@),
{
    let entry = (copy_bytes(node.prefix.as_slice()), encode_branches(&node.branch_digests));
    proof {
        lemma_branches_with(node.branch_digests@);
        assert(stored_node(entry.0@, entry.1@)->Some_0 =~= node@);
    }
    entry
}

/// A root without branches.
pub open spec fn empty_root() -> NodeState {
    NodeState { prefix: Seq::empty(), branches: Seq::new(16, |i: int| None) }
}

/// The entry of an empty trie: a root without branches.
pub fn initial_entry() -> (entry: Entry)
    ensures
        (entry.0@, entry.1@) == node_entry(empty_root()),
        stored_node(entry.0@, entry.1@) == Some(empty_root()),
{
    let node = ProofNode::empty(Vec::new());
    assert(node@ =~= empty_root());
    entry_of(&node)
}

/// The entries that hold the nodes of a path, and its leaf.
pub open spec fn path_entries(nodes: Seq<NodeState>, path: Seq<u8>, value: Seq<u8>) -> Seq<
    (Seq<u8>, Seq<u8>),
> {
    nodes.map_values(|node: NodeState| node_entry(node)).push((path, value))
}

/// Whether nodes can be read from the entries that hold them.
pub open spec fn readable(nodes: Seq<NodeState>) -> bool {
    forall|i: int|
        0 <= i < nodes.len() ==> stored_node(
            node_entry(#[trigger] nodes[i]).0,
            node_entry(nodes[i]).1,
        ) == Some(nodes[i])
}

/// The entries to be written in order to set the value of a key, given the
/// outcome of looking it up: the nodes on its path and the leaf. A key whose
/// path would need a new node is not supported.
pub fn insert_entries(get: Get, key: &Digest, value: &[u8]) -> (entries: Result<
    Vec<Entry>,
    TrieError,
>)
    requires
        !(get is Absence && !(get->Absence_0 is MissingBranch)),
    ensures
        ({
            let nodes = match get@ {
                Get::Presence(_, nodes) => nodes,
                Get::Absence(ProofOfAbsence::MissingBranch(nodes)) => nodes,
                _ => Seq::empty(),
            };
            let path = path_of_spec(*key);
            let (updated, result) = update_spec(
                nodes,
                path,
                Some(leaf_digest_spec(path, value@)),
            );
            match entries {
                Ok(entries) => {
                    &&& result is Ok
                    &&& entries_view(entries@) == path_entries(updated, path, value@)
                    &&& readable(updated)
                },
                Err(err) => result == Err::<Option<Digest>, TrieError>(err),
            }
        }),
{
    let mut path_proof = match get {
        Get::Presence(_, found) => found,
        Get::Absence(ProofOfAbsence::MissingBranch(found)) => found,
        _ => Proof(Vec::new()),
    };
    let ghost nodes = path_proof@;
    match path_proof.update_leaf(key, Some(value)) {
        Err(err) => {
            proof {
                lemma_update_some(
                    nodes,
                    path_of_spec(*key),
                    leaf_digest_spec(path_of_spec(*key), value@),
                );
            }
            return Err(err);
        },
        Ok(_) => {},
    }
    let mut entries: Vec<Entry> = Vec::new();
    let mut i: usize = 0;
    while i < path_proof.0.len()
        invariant
            i <= path_proof.0@.len(),
            entries@.len() == i,
            forall|j: int|
                0 <= j < i ==> ((#[trigger] entries@[j]).0@, entries@[j].1@) == node_entry(
                    path_proof@[j],
                ) && stored_node(entries@[j].0@, entries@[j].1@) == Some(path_proof@[j]),
        decreases path_proof.0@.len() - i,
    {
        entries.push(entry_of(&path_proof.0[i]));
        i += 1;
    }
    assert(readable(path_proof@)) by {
        assert forall|j: int| 0 <= j < path_proof@.len() implies stored_node(
            node_entry(#[trigger] path_proof@[j]).0,
            node_entry(path_proof@[j]).1,
        ) == Some(path_proof@[j]) by {
            assert((entries@[j].0@, entries@[j].1@) == node_entry(path_proof@[j]));
        }
    }
    entries.push((path_of(key), copy_bytes(value)));
    assert(entries_view(entries@) =~= path_entries(path_proof@, path_of_spec(*key), value@));
    Ok(entries)
}

/// An update with a digest always has a root.
proof fn lemma_update_some(nodes: Seq<NodeState>, path: Seq<u8>, digest: Digest)
    ensures
        update_spec(nodes, path, Some(digest)).1 matches Ok(root) ==> root is Some,
    decreases nodes.len(),
{
    if nodes.len() > 0 {
        match branch_index_spec(nodes.last().prefix, path) {
            Err(_) => {},
            Ok(index) => {
                let updated = nodes.last().with_branch(index, Some(digest));
                lemma_update_some(nodes.drop_last(), nodes.last().prefix, updated.digest());
            },
        }
    }
}

} // verus!
