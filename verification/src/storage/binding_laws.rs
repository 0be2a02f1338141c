//! What proofs of the trie bind: a root stands for one value of a key.
use super::trie::{
    branch_bytes, branch_index_spec, leaf_digest_spec, nodes_wf, path_of_spec, paths_differ,
    update_spec, verify_spec, NodeState,
};
use crate::crypto::Digest;
use vstd::prelude::*;

verus! {

/// Whether two different byte strings have one digest.
pub open spec fn collision() -> bool {
    exists|a: Seq<u8>, b: Seq<u8>| a != b && #[trigger] Digest::of_spec(a) == #[trigger]
        Digest::of_spec(b)
}

/// What is hashed is the same where the digests are, unless digests collide.
proof fn lemma_same_digest(a: Seq<u8>, b: Seq<u8>)
    requires
        Digest::of_spec(a) == Digest::of_spec(b),
    ensures
        a == b || collision(),
{
}

/// The digest of a leaf stands for one key and one value: whatever else has the
/// same digest collides with it.
pub proof fn leaf_digest_binds(a: Digest, a_value: Seq<u8>, b: Digest, b_value: Seq<u8>)
    requires
        leaf_digest_spec(path_of_spec(a), a_value) == leaf_digest_spec(path_of_spec(b), b_value),
    ensures
        (a == b && a_value == b_value) || collision(),
{
    let first = path_of_spec(a) + a_value;
    let second = path_of_spec(b) + b_value;
    lemma_same_digest(first, second);
    if first == second {
        assert(first.subrange(0, 64) =~= path_of_spec(a));
        assert(second.subrange(0, 64) =~= path_of_spec(b));
        paths_differ(a, b);
        assert(first.subrange(64, first.len() as int) =~= a_value);
        assert(second.subrange(64, second.len() as int) =~= b_value);
    }
}

/// A proof shows one thing: under one proof and root, a path leads to one digest,
/// or to one missing branch, and a proof with nodes is valid under one root.
pub proof fn proof_shows_one_thing(
    nodes: Seq<NodeState>,
    a_root: Digest,
    b_root: Digest,
    path: Seq<u8>,
    a: Option<Digest>,
    b: Option<Digest>,
)
    requires
        verify_spec(nodes, a_root, path, a) is Ok,
        verify_spec(nodes, b_root, path, b) is Ok,
    ensures
        a == b <==> a_root == b_root || nodes.len() > 0,
        nodes.len() > 0 ==> a_root == b_root,
{
    if nodes.len() > 0 {
        let node = nodes.last();
        assert(branch_index_spec(node.prefix, path) is Ok);
    }
}

/// A proof holds for one value: where it shows that a key has a value, and that
/// the key has another, digests collide.
pub proof fn proof_holds_for_one_value(
    nodes: Seq<NodeState>,
    root: Digest,
    key: Digest,
    a: Seq<u8>,
    b: Seq<u8>,
)
    requires
        verify_spec(
            nodes,
            root,
            path_of_spec(key),
            Some(leaf_digest_spec(path_of_spec(key), a)),
        ) is Ok,
        verify_spec(
            nodes,
            root,
            path_of_spec(key),
            Some(leaf_digest_spec(path_of_spec(key), b)),
        ) is Ok,
    ensures
        a == b || collision(),
{
    let path = path_of_spec(key);
    proof_shows_one_thing(
        nodes,
        root,
        root,
        path,
        Some(leaf_digest_spec(path, a)),
        Some(leaf_digest_spec(path, b)),
    );
    leaf_digest_binds(key, a, key, b);
}

/// A key is present or absent: a proof that shows its value shows neither that
/// its path ends at a missing branch, nor that it leads to the leaf of another
/// key, unless digests collide.
pub proof fn present_or_absent(
    nodes: Seq<NodeState>,
    root: Digest,
    key: Digest,
    value: Seq<u8>,
    other: Digest,
    other_value: Seq<u8>,
)
    requires
        verify_spec(
            nodes,
            root,
            path_of_spec(key),
            Some(leaf_digest_spec(path_of_spec(key), value)),
        ) is Ok,
        other != key,
    ensures
        !(verify_spec(nodes, root, path_of_spec(key), None) is Ok),
        verify_spec(
            nodes,
            root,
            path_of_spec(key),
            Some(leaf_digest_spec(path_of_spec(other), other_value)),
        ) is Ok ==> collision(),
{
    let path = path_of_spec(key);
    let shown = Some(leaf_digest_spec(path, value));
    if verify_spec(nodes, root, path, None) is Ok {
        proof_shows_one_thing(nodes, root, root, path, shown, None);
    }
    let mismatch = Some(leaf_digest_spec(path_of_spec(other), other_value));
    if verify_spec(nodes, root, path, mismatch) is Ok {
        proof_shows_one_thing(nodes, root, root, path, shown, mismatch);
        leaf_digest_binds(key, value, other, other_value);
    }
}

/// Whether two nodes have the same prefix, and the same branches missing.
pub open spec fn same_shape(a: NodeState, b: NodeState) -> bool {
    &&& a.prefix == b.prefix
    &&& a.branches.len() == b.branches.len()
    &&& forall|i: int|
        0 <= i < a.branches.len() ==> (#[trigger] a.branches[i] is Some) == (b.branches[i] is Some)
}

proof fn lemma_branch_bytes(a: Seq<Option<Digest>>, b: Seq<Option<Digest>>)
    requires
        a.len() == b.len(),
        forall|i: int| 0 <= i < a.len() ==> (#[trigger] a[i] is Some) == (b[i] is Some),
    ensures
        branch_bytes(a).len() == branch_bytes(b).len(),
        branch_bytes(a) == branch_bytes(b) ==> a == b,
    decreases a.len(),
{
    if a.len() > 0 {
        let x = a.drop_last();
        let y = b.drop_last();
        assert forall|i: int| 0 <= i < x.len() implies (#[trigger] x[i] is Some) == (
        y[i] is Some) by {
            assert(a[i] == x[i] && b[i] == y[i]);
        }
        lemma_branch_bytes(x, y);
        assert((a[a.len() - 1] is Some) == (b[a.len() - 1] is Some));
        if branch_bytes(a) == branch_bytes(b) {
            let n = branch_bytes(x).len() as int;
            let all = branch_bytes(a);
            assert(all.subrange(0, n) =~= branch_bytes(x));
            assert(all.subrange(0, n) =~= branch_bytes(y));
            match (a.last(), b.last()) {
                (Some(first), Some(second)) => {
                    assert(all.subrange(n, all.len() as int) =~= first.0@);
                    assert(all.subrange(n, all.len() as int) =~= second.0@);
                    assert(first.0 =~= second.0);
                },
                _ => {},
            }
            assert(a =~= x.push(a.last()));
            assert(b =~= y.push(b.last()));
        }
    } else {
        assert(a =~= b);
    }
}

/// The digest of a node stands for its branches: of two nodes of one shape with
/// one digest, all branches are the same, unless digests collide.
pub proof fn node_digest_binds(a: NodeState, b: NodeState)
    requires
        same_shape(a, b),
        a.digest() == b.digest(),
    ensures
        a == b || collision(),
{
    lemma_same_digest(a.hash_bytes(), b.hash_bytes());
    lemma_branch_bytes(a.branches, b.branches);
    if a.hash_bytes() == b.hash_bytes() {
        let n = a.prefix.len() as int;
        let all = a.hash_bytes();
        assert(all.subrange(n, all.len() as int) =~= branch_bytes(a.branches));
        assert(all.subrange(n, all.len() as int) =~= branch_bytes(b.branches));
        assert(a =~= b);
    }
}

/// A root stands for one value of a key: what an update with one digest gives as
/// the root, an update with another does not, unless digests collide. So a
/// changed value changes the root.
pub proof fn root_binds_update(nodes: Seq<NodeState>, path: Seq<u8>, a: Digest, b: Digest)
    requires
        nodes_wf(nodes),
        update_spec(nodes, path, Some(a)).1 is Ok,
        update_spec(nodes, path, Some(a)).1 == update_spec(nodes, path, Some(b)).1,
    ensures
        a == b || collision(),
    decreases nodes.len(),
{
    if nodes.len() > 0 {
        let node = nodes.last();
        let index = branch_index_spec(node.prefix, path)->Ok_0;
        let first = node.with_branch(index, Some(a));
        let second = node.with_branch(index, Some(b));
        assert(nodes[nodes.len() - 1].branches.len() == 16);
        assert forall|i: int| 0 <= i < nodes.drop_last().len() implies (
        #[trigger] nodes.drop_last()[i]).branches.len() == 16 by {
            assert(nodes.drop_last()[i] == nodes[i]);
        }
        root_binds_update(nodes.drop_last(), node.prefix, first.digest(), second.digest());
        if first.digest() == second.digest() {
            assert(same_shape(first, second));
            node_digest_binds(first, second);
            assert(first.branches[index] == Some(a));
            assert(second.branches[index] == Some(b));
        }
    }
}

/// Two proofs of one shape under one root show one value of a key, unless
/// digests collide.
pub proof fn proofs_agree(
    a_nodes: Seq<NodeState>,
    b_nodes: Seq<NodeState>,
    root: Digest,
    path: Seq<u8>,
    a: Option<Digest>,
    b: Option<Digest>,
)
    requires
        a_nodes.len() > 0,
        a_nodes.len() == b_nodes.len(),
        nodes_wf(a_nodes),
        nodes_wf(b_nodes),
        forall|i: int| 0 <= i < a_nodes.len() ==> same_shape(#[trigger] a_nodes[i], b_nodes[i]),
        verify_spec(a_nodes, root, path, a) is Ok,
        verify_spec(b_nodes, root, path, b) is Ok,
    ensures
        a == b || collision(),
    decreases a_nodes.len(),
{
    let first = a_nodes.last();
    let second = b_nodes.last();
    let last = a_nodes.len() - 1;
    assert(same_shape(a_nodes[last], b_nodes[last]));
    let shorter_a = a_nodes.drop_last();
    let shorter_b = b_nodes.drop_last();
    if a_nodes.len() > 1 {
        assert forall|i: int| 0 <= i < shorter_a.len() implies same_shape(
            #[trigger] shorter_a[i],
            shorter_b[i],
        ) by {
            assert(same_shape(a_nodes[i], b_nodes[i]));
        }
        assert forall|i: int| 0 <= i < shorter_a.len() implies (
        #[trigger] shorter_a[i]).branches.len() == 16 by {
            assert(a_nodes[i].branches.len() == 16);
        }
        assert forall|i: int| 0 <= i < shorter_b.len() implies (
        #[trigger] shorter_b[i]).branches.len() == 16 by {
            assert(b_nodes[i].branches.len() == 16);
        }
        proofs_agree(
            shorter_a,
            shorter_b,
            root,
            first.prefix,
            Some(first.digest()),
            Some(second.digest()),
        );
    }
    if first.digest() == second.digest() {
        node_digest_binds(first, second);
    }
}

} // verus!
