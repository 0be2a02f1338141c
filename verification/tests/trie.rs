use bigserve::crypto::Digest;
use bigserve::storage::trie::{
    initial_entry, insert_entries, key_of, leaf_digest, path_of, Get, Lookup, LookupStep, Proof,
    ProofNode, ProofOfAbsence, TrieError,
};
use std::collections::BTreeMap;

fn key(first: u8) -> Digest {
    let mut bytes = [0x5a; 32];
    bytes[0] = first;
    Digest(bytes)
}

// looks a key up in an ordered map of entries
fn get(db: &BTreeMap<Vec<u8>, Vec<u8>>, key: &Digest) -> Result<Get, TrieError> {
    let mut lookup = Lookup::new(key);
    let mut seek = Vec::new();
    loop {
        let Some((found, value)) = db.range(seek.clone()..).next() else {
            return Ok(lookup.missing());
        };
        match lookup.found(found, value) {
            LookupStep::Seek(next) => seek = next,
            LookupStep::Done(get) => return Ok(get),
            LookupStep::Failed(err) => return Err(err),
        }
    }
}

// the digest of the root, which every path starts at
fn root_of(db: &BTreeMap<Vec<u8>, Vec<u8>>) -> Digest {
    let proof = match get(db, &key(0xff)).unwrap() {
        Get::Presence(_, proof) => proof,
        Get::Absence(ProofOfAbsence::MissingBranch(proof)) => proof,
        Get::Absence(ProofOfAbsence::MismatchBranch(_, proof)) => proof,
        Get::Absence(ProofOfAbsence::MismatchLeaf(_, _, proof)) => proof,
    };
    proof.0[0].digest()
}

#[test]
fn paths_are_hexadecimal() {
    let path = path_of(&key(0x0f));
    assert_eq!(path.len(), 64);
    assert_eq!(&path[..4], b"0f5a");
    assert_eq!(key_of(&path), Some(key(0x0f)));
    assert_eq!(key_of(&path[1..]), None);
    assert_eq!(key_of(&[b'g'; 64]), None);
    assert_eq!(key_of(&[b'A'; 64]), None);
}

#[test]
fn branches() {
    assert_eq!(Proof::branch_index(b"0f", b"0f5a"), Ok(5));
    assert_eq!(Proof::branch_index(b"0f5", b"0f5a"), Ok(10));
    assert_eq!(Proof::branch_index(b"", b"0"), Ok(0));
    assert_eq!(Proof::branch_index(b"0f5a", b"0f5a"), Err(TrieError::NotExtending));
    assert_eq!(Proof::branch_index(b"1", b"0f5a"), Err(TrieError::NotExtending));
    assert_eq!(Proof::branch_index(b"0", b"0x"), Err(TrieError::InvalidNibble));
}

#[test]
fn values_are_inserted_and_proved() {
    let mut db = BTreeMap::from([initial_entry()]);
    let empty_root = root_of(&db);
    for (first, value) in [(0x10, b"one"), (0x20, b"two"), (0x10, b"uno")] {
        let entries = insert_entries(get(&db, &key(first)).unwrap(), &key(first), value).unwrap();
        assert_eq!(entries.len(), 2);
        db.extend(entries);
    }
    let root = root_of(&db);
    let Ok(Get::Presence(value, proof)) = get(&db, &key(0x10)) else { panic!("not found") };
    assert_eq!(value, b"uno");
    assert_eq!(proof.verify_presence(&root, &key(0x10), b"uno"), Ok(()));
    assert_eq!(
        proof.verify_presence(&root, &key(0x10), b"one"),
        Err(TrieError::WrongBranch)
    );
    assert_eq!(
        proof.verify_presence(&empty_root, &key(0x10), b"uno"),
        Err(TrieError::WrongRoot)
    );
    assert_eq!(
        proof.verify_missing_branch(&root, &key(0x10)),
        Err(TrieError::WrongBranch)
    );
    // other values are kept, and proved under the new root
    let Ok(Get::Presence(value, proof)) = get(&db, &key(0x20)) else { panic!("not found") };
    assert_eq!(value, b"two");
    assert_eq!(proof.verify_presence(&root, &key(0x20), b"two"), Ok(()));
    // a missing branch
    let Ok(Get::Absence(ProofOfAbsence::MissingBranch(proof))) = get(&db, &key(0x30)) else {
        panic!("found")
    };
    assert_eq!(proof.verify_missing_branch(&root, &key(0x30)), Ok(()));
    // the leaf of another key
    let Ok(Get::Absence(ProofOfAbsence::MismatchLeaf(leaf_key, leaf_value, proof))) =
        get(&db, &key(0x11))
    else {
        panic!("no mismatch")
    };
    assert_eq!((leaf_key, &leaf_value[..]), (key(0x10), &b"uno"[..]));
    assert_eq!(
        proof.verify_mismatch_leaf(&root, &key(0x11), &key(0x10), b"uno"),
        Ok(())
    );
    assert_eq!(
        proof.verify_mismatch_leaf(&root, &key(0x10), &key(0x10), b"uno"),
        Err(TrieError::LeafMatches)
    );
}

#[test]
fn values_are_inserted_in_any_order() {
    let mut db = BTreeMap::from([initial_entry()]);
    for first in [0xb0, 0xa0, 0xf0, 0x00, 0xc0] {
        let found = get(&db, &key(first)).unwrap();
        assert!(matches!(found, Get::Absence(ProofOfAbsence::MissingBranch(_))));
        db.extend(insert_entries(found, &key(first), &[first]).unwrap());
    }
    let root = root_of(&db);
    for first in [0x00, 0xa0, 0xb0, 0xc0, 0xf0] {
        let Ok(Get::Presence(value, proof)) = get(&db, &key(first)) else { panic!("not found") };
        assert_eq!(value, [first]);
        assert_eq!(proof.verify_presence(&root, &key(first), &[first]), Ok(()));
    }
}

#[test]
fn missing_branch_before_a_leaf() {
    let mut db = BTreeMap::from([initial_entry()]);
    let (a, b) = (Digest([0xaa; 32]), Digest([0xbb; 32]));
    db.extend(insert_entries(get(&db, &b).unwrap(), &b, b"v").unwrap());
    let Ok(Get::Absence(ProofOfAbsence::MissingBranch(proof))) = get(&db, &a) else {
        panic!("no missing branch")
    };
    assert_eq!(proof.0.len(), 1);
    assert!(proof.0[0].branch_digests[10].is_none());
    assert_eq!(proof.verify_missing_branch(&proof.0[0].digest(), &a), Ok(()));
}

#[test]
fn deeper_proofs() {
    let leaf = leaf_digest(&path_of(&key(0x12)), b"value");
    let mut inner = ProofNode::empty(b"12".to_vec());
    inner.branch_digests[5] = Some(leaf);
    let mut top = ProofNode::empty(Vec::new());
    top.branch_digests[1] = Some(inner.digest());
    let root = top.digest();
    let mut proof = Proof(vec![top, inner.clone()]);
    assert_eq!(proof.verify_presence(&root, &key(0x12), b"value"), Ok(()));
    // a node that does not fit a key
    let upper = Proof(vec![proof.0[0].clone()]);
    assert_eq!(upper.verify_mismatch_branch(&root, &key(0x13), &inner), Ok(()));
    assert_eq!(
        upper.verify_mismatch_branch(&root, &key(0x12), &inner),
        Err(TrieError::PrefixMatches)
    );
    // an update gives a root under which the new value is proved
    let new_root = proof.update_leaf(&key(0x12), Some(b"other")).unwrap();
    assert_ne!(new_root, root);
    assert_eq!(proof.verify_presence(&new_root, &key(0x12), b"other"), Ok(()));
    assert_eq!(proof.0[0].digest(), new_root);
    // taking the value away, and putting the first one back
    let bare_root = proof.update_leaf(&key(0x12), None).unwrap();
    assert_eq!(proof.verify_missing_branch(&bare_root, &key(0x12)), Ok(()));
    assert_eq!(proof.update_leaf(&key(0x12), Some(b"value")), Ok(root));
    assert_eq!(Proof(vec![]).update_leaf(&key(0x12), None), Err(TrieError::EmptyProof));
    assert_eq!(
        proof.update_leaf(&key(0x22), Some(b"value")),
        Err(TrieError::NotExtending)
    );
}

#[test]
fn node_digests_mark_missing_branches() {
    let mut node = ProofNode::empty(b"ab".to_vec());
    node.branch_digests[3] = Some(Digest([7; 32]));
    let mut bytes = b"ab".to_vec();
    bytes.extend([0; 3]);
    bytes.extend([7; 32]);
    bytes.extend([0; 12]);
    let expected: [u8; 32] = <sha2::Sha256 as sha2::Digest>::digest(&bytes).into();
    assert_eq!(node.digest().0, expected);
}

#[test]
fn malformed_entries() {
    let mut db = BTreeMap::from([(Vec::new(), vec![0; 15])]);
    assert_eq!(get(&db, &key(1)).unwrap_err(), TrieError::MalformedNode);
    // sixteen missing branches, and one byte too many
    db.insert(Vec::new(), vec![0; 17]);
    assert_eq!(get(&db, &key(1)).unwrap_err(), TrieError::MalformedNode);
    db.insert(Vec::new(), vec![0; 16]);
    assert!(get(&db, &key(1)).is_ok());
    // the last branch leads to a leaf whose key is none
    let mut branches = vec![0; 15];
    branches.push(1);
    branches.extend([7; 32]);
    db.insert(Vec::new(), branches);
    let mut name = vec![b'z'; 64];
    name[0] = b'f';
    db.insert(name, Vec::new());
    assert_eq!(get(&db, &key(0xff)).unwrap_err(), TrieError::MalformedKey);
    assert_eq!(initial_entry(), (Vec::new(), vec![0; 16]));
}
