//! What lookups in a trie find after values were inserted.
use super::trie::{
    branch_index_spec, check, empty_root, is_missing, leaf_digest_spec, nibble_byte, nibble_value,
    node_entry, path_entries, path_of_spec, paths_differ, readable, starts_with_spec,
    stored_node, update_spec, verify_spec, Get, GetState, LookupState,
    LookupStep, NodeState, ProofOfAbsence, TrieError,
};
use crate::crypto::Digest;
use vstd::prelude::*;

verus! {

/// The entries of a database.
pub type Entries = Map<Seq<u8>, Seq<u8>>;

/// Whether a byte string is the same as another or comes before it, byte by
/// byte.
pub open spec fn not_after(a: Seq<u8>, b: Seq<u8>) -> bool
    decreases a.len(),
{
    if a.len() == 0 {
        true
    } else if b.len() == 0 {
        false
    } else if a[0] == b[0] {
        not_after(a.drop_first(), b.drop_first())
    } else {
        a[0] < b[0]
    }
}

proof fn lemma_same_or_before(a: Seq<u8>)
    ensures
        not_after(a, a),
    decreases a.len(),
{
    if a.len() > 0 {
        lemma_same_or_before(a.drop_first());
    }
}

proof fn lemma_antisymmetric(a: Seq<u8>, b: Seq<u8>)
    requires
        not_after(a, b),
        not_after(b, a),
    ensures
        a == b,
    decreases a.len(),
{
    if a.len() > 0 && b.len() > 0 {
        lemma_antisymmetric(a.drop_first(), b.drop_first());
        assert(a =~= seq![a[0]] + a.drop_first());
        assert(b =~= seq![b[0]] + b.drop_first());
    } else {
        assert(a =~= b);
    }
}

proof fn lemma_transitive(a: Seq<u8>, b: Seq<u8>, c: Seq<u8>)
    requires
        not_after(a, b),
        not_after(b, c),
    ensures
        not_after(a, c),
    decreases a.len(),
{
    if a.len() > 0 && a[0] == b[0] && b[0] == c[0] {
        lemma_transitive(a.drop_first(), b.drop_first(), c.drop_first());
    }
}

proof fn lemma_total(a: Seq<u8>, b: Seq<u8>)
    ensures
        not_after(a, b) || not_after(b, a),
    decreases a.len(),
{
    if a.len() > 0 && b.len() > 0 && a[0] == b[0] {
        lemma_total(a.drop_first(), b.drop_first());
    }
}

/// A prefix does not come after what it is a prefix of.
proof fn lemma_prefix_first(text: Seq<u8>, prefix: Seq<u8>)
    requires
        starts_with_spec(text, prefix),
    ensures
        not_after(prefix, text),
    decreases prefix.len(),
{
    if prefix.len() > 0 {
        assert(text[0] == prefix[0]) by {
            assert(text.subrange(0, prefix.len() as int)[0] == prefix[0]);
        }
        assert(text.drop_first().subrange(0, prefix.len() - 1) =~= prefix.drop_first()) by {
            assert(text.subrange(0, prefix.len() as int).drop_first() =~= prefix.drop_first());
        }
        lemma_prefix_first(text.drop_first(), prefix.drop_first());
    }
}

/// Of two prefixes of the same, the one that does not come after is the
/// shorter one.
proof fn lemma_prefix_order(text: Seq<u8>, a: Seq<u8>, b: Seq<u8>)
    requires
        starts_with_spec(text, a),
        starts_with_spec(text, b),
        not_after(a, b),
    ensures
        a.len() <= b.len(),
{
    if b.len() < a.len() {
        assert(a.subrange(0, b.len() as int) =~= b) by {
            assert(a == text.subrange(0, a.len() as int));
            assert(b == text.subrange(0, b.len() as int));
        }
        lemma_prefix_first(a, b);
        lemma_antisymmetric(a, b);
    }
}

/// What lies between a prefix of a byte string and the byte string has the
/// prefix too.
proof fn lemma_between(text: Seq<u8>, prefix: Seq<u8>, other: Seq<u8>)
    requires
        starts_with_spec(text, prefix),
        not_after(prefix, other),
        not_after(other, text),
    ensures
        starts_with_spec(other, prefix),
    decreases prefix.len(),
{
    if prefix.len() > 0 {
        assert(text[0] == prefix[0]) by {
            assert(text.subrange(0, prefix.len() as int)[0] == prefix[0]);
        }
        assert(text.drop_first().subrange(0, prefix.len() - 1) =~= prefix.drop_first()) by {
            assert(text.subrange(0, prefix.len() as int).drop_first() =~= prefix.drop_first());
        }
        assert(other.len() > 0 && other[0] == text[0]);
        lemma_between(text.drop_first(), prefix.drop_first(), other.drop_first());
        assert(other.subrange(0, prefix.len() as int) =~= prefix) by {
            let rest = other.drop_first().subrange(0, prefix.len() - 1);
            assert forall|i: int| 0 <= i < prefix.len() implies other[i] == #[trigger] prefix[i] by {
                if i > 0 {
                    assert(rest[i - 1] == prefix.drop_first()[i - 1]);
                }
            }
        }
    } else {
        assert(other.subrange(0, 0) =~= prefix);
    }
}

/// A prefix of a prefix is a prefix.
proof fn lemma_prefix_of_prefix(text: Seq<u8>, longer: Seq<u8>, shorter: Seq<u8>)
    requires
        starts_with_spec(text, longer),
        starts_with_spec(longer, shorter),
    ensures
        starts_with_spec(text, shorter),
{
    assert(longer == text.subrange(0, longer.len() as int));
    assert(text.subrange(0, shorter.len() as int) =~= shorter) by {
        assert(shorter == longer.subrange(0, shorter.len() as int));
    }
}

/// Of two prefixes of the same, the longer one has the shorter one as a prefix.
proof fn lemma_two_prefixes(text: Seq<u8>, shorter: Seq<u8>, longer: Seq<u8>)
    requires
        starts_with_spec(text, shorter),
        starts_with_spec(text, longer),
        shorter.len() <= longer.len(),
    ensures
        starts_with_spec(longer, shorter),
        not_after(shorter, longer),
{
    assert(longer.subrange(0, shorter.len() as int) =~= shorter) by {
        assert(longer == text.subrange(0, longer.len() as int));
        assert(shorter == text.subrange(0, shorter.len() as int));
    }
    lemma_prefix_first(longer, shorter);
}

/// Whether a key is that of the first entry from another key on.
pub open spec fn is_first(db: Entries, from: Seq<u8>, key: Seq<u8>) -> bool {
    &&& db.contains_key(key)
    &&& not_after(from, key)
    &&& forall|other: Seq<u8>| #[trigger]
        db.contains_key(other) && not_after(from, other) ==> not_after(key, other)
}

/// The key of the first entry from a key on.
pub open spec fn first_from(db: Entries, from: Seq<u8>) -> Option<Seq<u8>> {
    if exists|key: Seq<u8>| is_first(db, from, key) {
        Some(choose|key: Seq<u8>| is_first(db, from, key))
    } else {
        None
    }
}

proof fn lemma_first(db: Entries, from: Seq<u8>, key: Seq<u8>)
    requires
        is_first(db, from, key),
    ensures
        first_from(db, from) == Some(key),
{
    let chosen = choose|key: Seq<u8>| is_first(db, from, key);
    lemma_antisymmetric(chosen, key);
}

proof fn lemma_least(keys: Set<Seq<u8>>) -> (least: Seq<u8>)
    requires
        keys.finite(),
        keys.len() > 0,
    ensures
        keys.contains(least),
        forall|key: Seq<u8>| #[trigger] keys.contains(key) ==> not_after(least, key),
    decreases keys.len(),
{
    let some = keys.choose();
    assert(keys.contains(some));
    let rest = keys.remove(some);
    lemma_same_or_before(some);
    if rest.len() == 0 {
        assert forall|key: Seq<u8>| #[trigger] keys.contains(key) implies not_after(some, key) by {
            if key != some {
                assert(rest.contains(key));
                assert(rest =~= Set::empty());
            }
        }
        some
    } else {
        let other = lemma_least(rest);
        lemma_total(some, other);
        let least = if not_after(some, other) {
            some
        } else {
            other
        };
        assert forall|key: Seq<u8>| #[trigger] keys.contains(key) implies not_after(
            least,
            key,
        ) by {
            if key != some {
                assert(rest.contains(key));
                if not_after(some, other) {
                    lemma_transitive(some, other, key);
                }
            }
        }
        least
    }
}

/// Without a first entry there is none.
proof fn lemma_none_from(db: Entries, from: Seq<u8>, key: Seq<u8>)
    requires
        db.dom().finite(),
        first_from(db, from) is None,
        db.contains_key(key),
    ensures
        !not_after(from, key),
{
    if not_after(from, key) {
        let keys = db.dom().filter(|other: Seq<u8>| not_after(from, other));
        assert(keys.contains(key));
        let least = lemma_least(keys);
        assert forall|other: Seq<u8>| #[trigger]
            db.contains_key(other) && not_after(from, other) implies not_after(least, other) by {
            assert(keys.contains(other));
        }
        assert(is_first(db, from, least));
    }
}

/// The digest of an entry: of a leaf under the path of a key, and of a node
/// under its prefix.
pub open spec fn entry_digest(db: Entries, key: Seq<u8>) -> Digest {
    if key.len() == 64 {
        leaf_digest_spec(key, db[key])
    } else {
        stored_node(key, db[key])->Some_0.digest()
    }
}

/// The key of the first entry that starts with a byte string.
pub open spec fn first_beneath(db: Entries, from: Seq<u8>) -> Option<Seq<u8>> {
    match first_from(db, from) {
        Some(key) => if starts_with_spec(key, from) {
            Some(key)
        } else {
            None
        },
        None => None,
    }
}

/// Whether a branch of a node is right about the entries that start with a byte
/// string: it has the digest of the first of them, if there are any, and all of
/// them start with the first.
pub open spec fn branch_holds(db: Entries, from: Seq<u8>, branch: Option<Digest>) -> bool {
    match first_beneath(db, from) {
        Some(first) => {
            &&& branch == Some(entry_digest(db, first))
            &&& forall|other: Seq<u8>| #[trigger]
                db.contains_key(other) && starts_with_spec(other, from) ==> starts_with_spec(
                    other,
                    first,
                )
        },
        None => branch is None,
    }
}

/// Whether all branches of a node are right.
pub open spec fn node_holds(db: Entries, key: Seq<u8>, node: NodeState) -> bool {
    &&& node.branches.len() == 16
    &&& forall|j: int|
        0 <= j < 16 ==> branch_holds(db, key.push(nibble_byte(j)), #[trigger] node.branches[j])
}

/// Whether an entry is a leaf under the path of a key, or a node whose branches
/// are right.
pub open spec fn entry_holds(db: Entries, key: Seq<u8>) -> bool {
    if key.len() == 64 {
        exists|leaf: Digest| key == #[trigger] path_of_spec(leaf)
    } else {
        stored_node(key, db[key]) matches Some(node) && node_holds(db, key, node)
    }
}

/// Whether a database holds a trie: a root, and entries that are bound together
/// by their digests.
pub open spec fn sound(db: Entries) -> bool {
    &&& db.dom().finite()
    &&& db.contains_key(Seq::empty())
    &&& forall|key: Seq<u8>| #[trigger] db.contains_key(key) ==> entry_holds(db, key)
}

/// The digest of the root.
pub open spec fn root_of(db: Entries) -> Digest {
    entry_digest(db, Seq::empty())
}

/// The outcome of a lookup that goes on from a key.
pub open spec fn look_up(db: Entries, state: LookupState, from: Seq<u8>) -> LookupStep<
    Seq<u8>,
    GetState,
>
    decreases state.target.len() + 1 - from.len(),
{
    match first_from(db, from) {
        None => LookupStep::Done(state.missing()),
        Some(key) => match state.found(key, db[key]) {
            (next, LookupStep::Seek(key)) => if from.len() < key.len() <= state.target.len() {
                look_up(db, LookupState { target: state.target, nodes: next.nodes }, key)
            } else {
                LookupStep::Seek(key)
            },
            (_, step) => step,
        },
    }
}

/// The outcome of a lookup of a key, which starts with the first entry of all.
pub open spec fn get_spec(db: Entries, key: Digest) -> LookupStep<Seq<u8>, GetState> {
    look_up(db, LookupState { target: path_of_spec(key), nodes: Seq::empty() }, Seq::empty())
}

/// Where a lookup goes on after some nodes.
spec fn next_from(target: Seq<u8>, nodes: Seq<NodeState>, i: int) -> Seq<u8> {
    if i == 0 {
        Seq::empty()
    } else {
        target.subrange(0, nodes[i - 1].prefix.len() as int + 1)
    }
}

/// Whether a lookup goes through a node.
spec fn passes(db: Entries, target: Seq<u8>, nodes: Seq<NodeState>, i: int) -> bool {
    let key = nodes[i].prefix;
    &&& first_from(db, next_from(target, nodes, i)) == Some(key)
    &&& stored_node(key, db[key]) == Some(nodes[i])
    &&& key.len() < target.len()
    &&& starts_with_spec(target, key)
    &&& i > 0 ==> !is_missing(nodes[i - 1], target)
}

/// Whether a lookup goes through some nodes.
spec fn walks(db: Entries, target: Seq<u8>, nodes: Seq<NodeState>) -> bool {
    forall|i: int| 0 <= i < nodes.len() ==> #[trigger] passes(db, target, nodes, i)
}

/// Whether a lookup goes on after some nodes.
spec fn goes_on(target: Seq<u8>, nodes: Seq<NodeState>) -> bool {
    nodes.len() > 0 ==> !is_missing(nodes.last(), target)
}

/// Whether a lookup that goes through some nodes ends with an outcome.
spec fn ends(db: Entries, target: Seq<u8>, nodes: Seq<NodeState>, get: GetState) -> bool {
    let next = first_from(db, next_from(target, nodes, nodes.len() as int));
    &&& nodes_of(get) == nodes
    &&& match get {
        Get::Presence(value, _) => goes_on(target, nodes) && next == Some(target) && value
            == db[target],
        Get::Absence(ProofOfAbsence::MissingBranch(_)) => goes_on(target, nodes) ==> next is None,
        Get::Absence(ProofOfAbsence::MismatchBranch(node, _)) => {
            &&& goes_on(target, nodes)
            &&& next matches Some(key) && key.len() != target.len() && stored_node(key, db[key])
                == Some(node) && !starts_with_spec(target, key)
        },
        Get::Absence(ProofOfAbsence::MismatchLeaf(leaf, value, _)) => {
            &&& goes_on(target, nodes)
            &&& next == Some(path_of_spec(leaf))
            &&& path_of_spec(leaf) != target
            &&& value == db[path_of_spec(leaf)]
        },
    }
}

/// The nodes of a proof.
pub open spec fn nodes_of(get: GetState) -> Seq<NodeState> {
    match get {
        Get::Presence(_, nodes) => nodes,
        Get::Absence(ProofOfAbsence::MissingBranch(nodes)) => nodes,
        Get::Absence(ProofOfAbsence::MismatchBranch(_, nodes)) => nodes,
        Get::Absence(ProofOfAbsence::MismatchLeaf(_, _, nodes)) => nodes,
    }
}

proof fn lemma_first_is_there(db: Entries, from: Seq<u8>)
    requires
        first_from(db, from) is Some,
    ensures
        is_first(db, from, first_from(db, from)->Some_0),
{
}

proof fn lemma_next_from(target: Seq<u8>, nodes: Seq<NodeState>, more: Seq<NodeState>, i: int)
    requires
        0 <= i <= nodes.len(),
        i <= more.len(),
        forall|j: int| 0 <= j < i ==> nodes[j] == more[j],
    ensures
        next_from(target, nodes, i) == next_from(target, more, i),
{
}

/// Where a lookup goes on is a prefix of what it looks for.
proof fn lemma_from_prefix(db: Entries, target: Seq<u8>, nodes: Seq<NodeState>, i: int)
    requires
        walks(db, target, nodes),
        0 <= i <= nodes.len(),
    ensures
        starts_with_spec(target, next_from(target, nodes, i)),
        next_from(target, nodes, i).len() <= target.len(),
        i > 0 ==> next_from(target, nodes, i).len() == nodes[i - 1].prefix.len() + 1,
{
    let from = next_from(target, nodes, i);
    if i > 0 {
        assert(passes(db, target, nodes, i - 1));
        assert(target.subrange(0, from.len() as int) =~= from);
    } else {
        assert(target.subrange(0, 0) =~= Seq::<u8>::empty());
    }
}

/// The keys that are found get longer and longer.
proof fn lemma_longer(db: Entries, target: Seq<u8>, nodes: Seq<NodeState>, i: int)
    requires
        walks(db, target, nodes),
        0 <= i < nodes.len(),
    ensures
        next_from(target, nodes, i).len() <= nodes[i].prefix.len(),
        starts_with_spec(nodes[i].prefix, next_from(target, nodes, i)),
{
    assert(passes(db, target, nodes, i));
    let from = next_from(target, nodes, i);
    lemma_from_prefix(db, target, nodes, i);
    lemma_first_is_there(db, from);
    lemma_prefix_order(target, from, nodes[i].prefix);
    lemma_two_prefixes(target, from, nodes[i].prefix);
}

proof fn lemma_increasing(db: Entries, target: Seq<u8>, nodes: Seq<NodeState>, i: int, j: int)
    requires
        walks(db, target, nodes),
        0 <= i < j < nodes.len(),
    ensures
        nodes[i].prefix.len() < nodes[j].prefix.len(),
    decreases j,
{
    assert(passes(db, target, nodes, j - 1));
    lemma_longer(db, target, nodes, j);
    if i < j - 1 {
        lemma_increasing(db, target, nodes, i, j - 1);
    }
}


proof fn lemma_nibbles(key: Digest, i: int)
    requires
        0 <= i < 64,
    ensures
        nibble_value(path_of_spec(key)[i]) is Some,
{
    let byte = key.0@[i / 2];
    assert(path_of_spec(key)[i] == nibble_byte(byte as int / 16) || path_of_spec(key)[i]
        == nibble_byte(byte as int % 16));
}

/// The branch that a path takes, and where it leads.
proof fn lemma_branch(key: Digest, prefix: Seq<u8>)
    requires
        starts_with_spec(path_of_spec(key), prefix),
        prefix.len() < 64,
    ensures
        branch_index_spec(prefix, path_of_spec(key)) is Ok,
        ({
            let index = branch_index_spec(prefix, path_of_spec(key))->Ok_0;
            &&& 0 <= index < 16
            &&& prefix.push(nibble_byte(index)) == path_of_spec(key).subrange(
                0,
                prefix.len() as int + 1,
            )
        }),
{
    let path = path_of_spec(key);
    lemma_nibbles(key, prefix.len() as int);
    let index = branch_index_spec(prefix, path)->Ok_0;
    assert(nibble_byte(index) == path[prefix.len() as int]);
    assert(prefix.push(nibble_byte(index)) =~= path.subrange(0, prefix.len() as int + 1)) by {
        assert(prefix == path.subrange(0, prefix.len() as int));
    }
}

/// If an entry starts with a byte string, then so does the first one from it
/// on.
proof fn lemma_beneath(db: Entries, from: Seq<u8>, key: Seq<u8>)
    requires
        db.dom().finite(),
        db.contains_key(key),
        starts_with_spec(key, from),
    ensures
        first_beneath(db, from) is Some,
        first_beneath(db, from) == first_from(db, from),
{
    lemma_prefix_first(key, from);
    if first_from(db, from) is None {
        lemma_none_from(db, from, key);
    }
    lemma_first_is_there(db, from);
    lemma_between(key, from, first_from(db, from)->Some_0);
}

/// The first entry of all is the root.
proof fn lemma_root_first(db: Entries)
    requires
        sound(db),
    ensures
        first_from(db, Seq::empty()) == Some(Seq::<u8>::empty()),
{
    assert(is_first(db, Seq::empty(), Seq::empty()));
    lemma_first(db, Seq::empty(), Seq::empty());
}

/// A lookup in a trie ends, after it has gone through the nodes of its outcome.
proof fn lemma_has_walked(db: Entries, key: Digest, nodes: Seq<NodeState>)
    requires
        sound(db),
        walks(db, path_of_spec(key), nodes),
        goes_on(path_of_spec(key), nodes),
    ensures
        ({
            let target = path_of_spec(key);
            let from = next_from(target, nodes, nodes.len() as int);
            look_up(db, LookupState { target, nodes }, from) matches LookupStep::Done(get) && walks(
                db,
                target,
                nodes_of(get),
            ) && ends(db, target, nodes_of(get), get)
        }),
    decreases 65 - next_from(path_of_spec(key), nodes, nodes.len() as int).len(),
{
    let target = path_of_spec(key);
    let state = LookupState { target, nodes };
    let from = next_from(target, nodes, nodes.len() as int);
    lemma_from_prefix(db, target, nodes, nodes.len() as int);
    match first_from(db, from) {
        None => {},
        Some(found) => {
            lemma_first_is_there(db, from);
            assert(entry_holds(db, found));
            if found != target && found.len() == 64 {
                let leaf = choose|leaf: Digest| found == #[trigger] path_of_spec(leaf);
                assert(found == path_of_spec(leaf));
            } else if found != target && starts_with_spec(target, found) {
                let node = stored_node(found, db[found])->Some_0;
                let more = nodes.push(node);
                assert(node.prefix == found);
                assert(walks(db, target, more)) by {
                    assert forall|i: int| 0 <= i < more.len() implies #[trigger] passes(
                        db,
                        target,
                        more,
                        i,
                    ) by {
                        lemma_next_from(target, nodes, more, i);
                        if i < nodes.len() {
                            assert(passes(db, target, nodes, i));
                        }
                    }
                }
                lemma_longer(db, target, more, nodes.len() as int);
                lemma_next_from(target, nodes, more, nodes.len() as int);
                lemma_from_prefix(db, target, more, more.len() as int);
                if !is_missing(node, target) {
                    lemma_has_walked(db, key, more);
                }
            }
        },
    }
}

/// A lookup goes through the nodes on its way.
proof fn lemma_goes_on(db: Entries, target: Seq<u8>, nodes: Seq<NodeState>, i: int)
    requires
        walks(db, target, nodes),
        goes_on(target, nodes),
        0 <= i <= nodes.len(),
    ensures
        look_up(
            db,
            LookupState { target, nodes: nodes.subrange(0, i) },
            next_from(target, nodes, i),
        ) == look_up(
            db,
            LookupState { target, nodes },
            next_from(target, nodes, nodes.len() as int),
        ),
    decreases nodes.len() - i,
{
    if i == nodes.len() {
        assert(nodes.subrange(0, i) =~= nodes);
    } else {
        assert(passes(db, target, nodes, i));
        lemma_longer(db, target, nodes, i);
        if i + 1 < nodes.len() {
            assert(passes(db, target, nodes, i + 1));
        }
        assert(nodes.subrange(0, i).push(nodes[i]) =~= nodes.subrange(0, i + 1));
        lemma_goes_on(db, target, nodes, i + 1);
    }
}

/// The digest of the leaf of a key.
pub open spec fn leaf(key: Digest, value: Seq<u8>) -> Option<Digest> {
    Some(leaf_digest_spec(path_of_spec(key), value))
}

/// What the path of a key leads to, by the outcome of a lookup.
pub open spec fn shown(key: Digest, get: GetState) -> Option<Digest> {
    match get {
        Get::Presence(value, _) => leaf(key, value),
        Get::Absence(ProofOfAbsence::MissingBranch(_)) => None,
        Get::Absence(ProofOfAbsence::MismatchBranch(node, _)) => Some(node.digest()),
        Get::Absence(ProofOfAbsence::MismatchLeaf(other, value, _)) => leaf(other, value),
    }
}

/// Where a path goes on after a node of it.
spec fn path_after(nodes: Seq<NodeState>, path: Seq<u8>, i: int) -> Seq<u8> {
    if i + 1 < nodes.len() {
        nodes[i + 1].prefix
    } else {
        path
    }
}

/// What a path leads to after a node of it.
spec fn digest_after(nodes: Seq<NodeState>, digest: Option<Digest>, i: int) -> Option<Digest> {
    if i + 1 < nodes.len() {
        Some(nodes[i + 1].digest())
    } else {
        digest
    }
}

/// Whether a node has the digest of what follows on a path.
spec fn linked(nodes: Seq<NodeState>, path: Seq<u8>, digest: Option<Digest>, i: int) -> bool {
    match branch_index_spec(nodes[i].prefix, path_after(nodes, path, i)) {
        Ok(index) => nodes[i].branches[index] == digest_after(nodes, digest, i),
        Err(_) => false,
    }
}

/// What the first of some nodes has to be the digest of.
spec fn first_digest(nodes: Seq<NodeState>, digest: Option<Digest>) -> Option<Digest> {
    if nodes.len() > 0 {
        Some(nodes[0].digest())
    } else {
        digest
    }
}

proof fn lemma_check_links(nodes: Seq<NodeState>, path: Seq<u8>, digest: Option<Digest>)
    ensures
        check(nodes, path, digest) is Ok <==> forall|i: int|
            0 <= i < nodes.len() ==> #[trigger] linked(nodes, path, digest, i),
        check(nodes, path, digest) matches Ok(found) ==> found == first_digest(nodes, digest),
    decreases nodes.len(),
{
    if nodes.len() > 0 {
        let node = nodes.last();
        let rest = nodes.drop_last();
        let num = nodes.len() - 1;
        lemma_check_links(rest, node.prefix, Some(node.digest()));
        assert forall|i: int| 0 <= i < num implies #[trigger] linked(nodes, path, digest, i)
            == linked(rest, node.prefix, Some(node.digest()), i) by {
            assert(rest[i] == nodes[i]);
            if i + 1 < num {
                assert(rest[i + 1] == nodes[i + 1]);
            }
        }
        if check(nodes, path, digest) is Ok {
            assert forall|i: int| 0 <= i < nodes.len() implies #[trigger] linked(
                nodes,
                path,
                digest,
                i,
            ) by {
                if i < num {
                    assert(linked(rest, node.prefix, Some(node.digest()), i));
                }
            }
        }
        if forall|i: int| 0 <= i < nodes.len() ==> #[trigger] linked(nodes, path, digest, i) {
            assert(linked(nodes, path, digest, num));
            assert forall|i: int| 0 <= i < rest.len() implies #[trigger] linked(
                rest,
                node.prefix,
                Some(node.digest()),
                i,
            ) by {
                assert(linked(nodes, path, digest, i));
            }
        }
    }
}

/// The byte that a longer prefix has where a shorter one ends.
proof fn lemma_next_byte(text: Seq<u8>, shorter: Seq<u8>, longer: Seq<u8>)
    requires
        starts_with_spec(text, shorter),
        starts_with_spec(text, longer),
        shorter.len() < longer.len(),
    ensures
        starts_with_spec(longer, shorter),
        longer[shorter.len() as int] == text[shorter.len() as int],
{
    assert(longer == text.subrange(0, longer.len() as int));
    assert(longer.subrange(0, shorter.len() as int) =~= shorter) by {
        assert(shorter == text.subrange(0, shorter.len() as int));
    }
}

/// Where a walk goes on after a node.
proof fn lemma_path_after(db: Entries, target: Seq<u8>, nodes: Seq<NodeState>, i: int)
    requires
        walks(db, target, nodes),
        0 <= i < nodes.len(),
    ensures
        ({
            let prefix = nodes[i].prefix;
            let next = path_after(nodes, target, i);
            &&& starts_with_spec(next, prefix)
            &&& prefix.len() < next.len()
            &&& prefix.len() < target.len()
            &&& next[prefix.len() as int] == target[prefix.len() as int]
        }),
{
    assert(passes(db, target, nodes, i));
    if i + 1 < nodes.len() {
        assert(passes(db, target, nodes, i + 1));
        lemma_increasing(db, target, nodes, i, i + 1);
        lemma_next_byte(target, nodes[i].prefix, nodes[i + 1].prefix);
    }
}

/// The branch of a node on a walk is right about where the walk goes on.
proof fn lemma_walk_branch(db: Entries, key: Digest, nodes: Seq<NodeState>, i: int)
    requires
        sound(db),
        walks(db, path_of_spec(key), nodes),
        0 <= i < nodes.len(),
    ensures
        ({
            let target = path_of_spec(key);
            let index = branch_index_spec(nodes[i].prefix, target);
            &&& index is Ok
            &&& 0 <= index->Ok_0 < 16
            &&& nodes[i].branches.len() == 16
            &&& branch_index_spec(nodes[i].prefix, path_after(nodes, target, i)) == index
            &&& next_from(target, nodes, i + 1) == nodes[i].prefix.push(nibble_byte(index->Ok_0))
            &&& branch_holds(
                db,
                next_from(target, nodes, i + 1),
                nodes[i].branches[index->Ok_0],
            )
        }),
{
    let target = path_of_spec(key);
    assert(passes(db, target, nodes, i));
    let prefix = nodes[i].prefix;
    lemma_branch(key, prefix);
    lemma_path_after(db, target, nodes, i);
    lemma_first_is_there(db, next_from(target, nodes, i));
    assert(entry_holds(db, prefix));
    let index = branch_index_spec(prefix, target)->Ok_0;
    assert(branch_holds(db, prefix.push(nibble_byte(index)), nodes[i].branches[index]));
}

/// The nodes of a walk are bound together by their digests.
proof fn lemma_walk_linked(
    db: Entries,
    key: Digest,
    nodes: Seq<NodeState>,
    digest: Option<Digest>,
    i: int,
)
    requires
        sound(db),
        walks(db, path_of_spec(key), nodes),
        0 <= i < nodes.len() - 1,
    ensures
        linked(nodes, path_of_spec(key), digest, i),
{
    let target = path_of_spec(key);
    lemma_walk_branch(db, key, nodes, i);
    assert(passes(db, target, nodes, i + 1));
    lemma_longer(db, target, nodes, i + 1);
}

/// Every answer is proved: a lookup in a trie ends with an outcome whose proof
/// is valid under the root, whatever the key is.
pub proof fn answers_are_proved(db: Entries, key: Digest)
    requires
        sound(db),
    ensures
        is_proved(key, get_spec(db, key), root_of(db)),
        nodes_of(get_spec(db, key)->Done_0).len() > 0,
{
    let target = path_of_spec(key);
    lemma_has_walked(db, key, Seq::empty());
    let get = get_spec(db, key)->Done_0;
    let nodes = nodes_of(get);
    let digest = shown(key, get);
    lemma_root_first(db);
    assert(target.subrange(0, 0) =~= Seq::<u8>::empty());
    let last = nodes.len() - 1;
    if nodes.len() > 0 {
        assert(passes(db, target, nodes, 0));
        lemma_walk_branch(db, key, nodes, last);
        lemma_from_prefix(db, target, nodes, nodes.len() as int);
        assert(linked(nodes, target, digest, last));
    }
    assert forall|i: int| 0 <= i < nodes.len() implies #[trigger] linked(
        nodes,
        target,
        digest,
        i,
    ) by {
        if i < last {
            lemma_walk_linked(db, key, nodes, digest, i);
        }
    }
    lemma_check_links(nodes, target, digest);
}

/// A missing branch is proved: where the path of a key ends at one, the nodes on
/// it show that, under the digest of the first of them.
pub proof fn absence_is_proved(db: Entries, key: Digest, nodes: Seq<NodeState>)
    requires
        sound(db),
        get_spec(db, key) == LookupStep::<Seq<u8>, GetState>::Done(
            Get::Absence(ProofOfAbsence::MissingBranch(nodes)),
        ),
    ensures
        nodes.len() > 0,
        verify_spec(nodes, nodes[0].digest(), path_of_spec(key), None) is Ok,
{
    answers_are_proved(db, key);
    lemma_check_links(nodes, path_of_spec(key), None);
}

/// A lookup finds what is there: the value of a key is its entry, and a key
/// without an entry is absent.
pub proof fn lookups_find_entries(db: Entries, key: Digest)
    requires
        sound(db),
    ensures
        get_spec(db, key) matches LookupStep::Done(get) && match get {
            Get::Presence(value, _) => db.contains_key(path_of_spec(key)) && value
                == db[path_of_spec(key)],
            Get::Absence(_) => !db.contains_key(path_of_spec(key)),
        },
{
    let target = path_of_spec(key);
    lemma_has_walked(db, key, Seq::empty());
    let get = get_spec(db, key)->Done_0;
    let nodes = nodes_of(get);
    let num = nodes.len() as int;
    let from = next_from(target, nodes, num);
    lemma_from_prefix(db, target, nodes, num);
    if first_from(db, from) is Some {
        lemma_first_is_there(db, from);
    }
    if get is Absence && db.contains_key(target) {
        lemma_beneath(db, from, target);
        if num > 0 {
            lemma_walk_branch(db, key, nodes, num - 1);
            let first = first_from(db, from)->Some_0;
            assert(starts_with_spec(target, first));
            assert(target.subrange(0, 64) =~= target);
            if first.len() == 64 {
                assert(first == target.subrange(0, 64));
            }
        } else {
            lemma_root_first(db);
            assert(target.subrange(0, 0) =~= Seq::<u8>::empty());
        }
    }
}

/// A database with some entries written, one after the other.
pub open spec fn written(db: Entries, entries: Seq<(Seq<u8>, Seq<u8>)>) -> Entries
    decreases entries.len(),
{
    if entries.len() == 0 {
        db
    } else {
        written(db, entries.drop_last()).insert(entries.last().0, entries.last().1)
    }
}

proof fn lemma_written_keys(db: Entries, entries: Seq<(Seq<u8>, Seq<u8>)>, key: Seq<u8>)
    ensures
        written(db, entries).contains_key(key) <==> db.contains_key(key) || exists|i: int|
            0 <= i < entries.len() && (#[trigger] entries[i]).0 == key,
        (forall|i: int| 0 <= i < entries.len() ==> (#[trigger] entries[i]).0 != key) ==> written(
            db,
            entries,
        )[key] == db[key],
        db.dom().finite() ==> written(db, entries).dom().finite(),
    decreases entries.len(),
{
    if entries.len() > 0 {
        let before = entries.drop_last();
        lemma_written_keys(db, before, key);
        assert forall|i: int| 0 <= i < before.len() implies #[trigger] before[i] == entries[i] by {}
        if exists|i: int| 0 <= i < entries.len() && (#[trigger] entries[i]).0 == key {
            let i = choose|i: int| 0 <= i < entries.len() && (#[trigger] entries[i]).0 == key;
            if i < before.len() {
                assert(before[i].0 == key);
            }
        }
        if exists|i: int| 0 <= i < before.len() && (#[trigger] before[i]).0 == key {
            let i = choose|i: int| 0 <= i < before.len() && (#[trigger] before[i]).0 == key;
            assert(entries[i].0 == key);
        }
        if forall|i: int| 0 <= i < entries.len() ==> (#[trigger] entries[i]).0 != key {
            assert forall|i: int| 0 <= i < before.len() implies (#[trigger] before[i]).0 != key by {
                assert(entries[i].0 != key);
            }
            assert(entries[entries.len() - 1].0 != key);
        }
        assert(entries[entries.len() - 1] == entries.last());
    }
}

proof fn lemma_written_value(db: Entries, entries: Seq<(Seq<u8>, Seq<u8>)>, i: int)
    requires
        0 <= i < entries.len(),
        forall|j: int| i < j < entries.len() ==> (#[trigger] entries[j]).0 != entries[i].0,
    ensures
        written(db, entries)[entries[i].0] == entries[i].1,
    decreases entries.len(),
{
    let before = entries.drop_last();
    if i < before.len() {
        assert forall|j: int| i < j < before.len() implies (#[trigger] before[j]).0
            != before[i].0 by {
            assert(entries[j].0 != entries[i].0);
        }
        lemma_written_value(db, before, i);
        assert(entries[entries.len() - 1].0 != entries[i].0);
    }
}

/// An update changes one branch of each node.
proof fn lemma_update_nodes(nodes: Seq<NodeState>, path: Seq<u8>, digest: Option<Digest>)
    requires
        update_spec(nodes, path, digest).1 is Ok,
    ensures
        ({
            let (updated, result) = update_spec(nodes, path, digest);
            &&& updated.len() == nodes.len()
            &&& result->Ok_0 == first_digest(updated, digest)
            &&& forall|i: int|
                0 <= i < nodes.len() ==> {
                    &&& (#[trigger] updated[i]).prefix == nodes[i].prefix
                    &&& branch_index_spec(
                        nodes[i].prefix,
                        path_after(nodes, path, i),
                    ) matches Ok(index) && updated[i] == nodes[i].with_branch(
                        index,
                        digest_after(updated, digest, i),
                    )
                }
        }),
    decreases nodes.len(),
{
    if nodes.len() > 0 {
        let node = nodes.last();
        let num = nodes.len() - 1;
        let index = branch_index_spec(node.prefix, path)->Ok_0;
        let last = node.with_branch(index, digest);
        let rest = nodes.drop_last();
        lemma_update_nodes(rest, node.prefix, Some(last.digest()));
        let before = update_spec(rest, node.prefix, Some(last.digest())).0;
        let updated = update_spec(nodes, path, digest).0;
        assert(updated == before.push(last));
        assert forall|i: int| 0 <= i < nodes.len() implies {
            &&& (#[trigger] updated[i]).prefix == nodes[i].prefix
            &&& branch_index_spec(nodes[i].prefix, path_after(nodes, path, i)) matches Ok(index)
                && updated[i] == nodes[i].with_branch(index, digest_after(updated, digest, i))
        } by {
            if i < num {
                assert(before[i] == updated[i]);
                assert(rest[i] == nodes[i]);
                assert(path_after(rest, node.prefix, i) == path_after(nodes, path, i));
                assert(digest_after(before, Some(last.digest()), i) == digest_after(
                    updated,
                    digest,
                    i,
                ));
            }
        }
    }
}

proof fn lemma_update_succeeds(nodes: Seq<NodeState>, path: Seq<u8>, digest: Option<Digest>)
    requires
        forall|i: int|
            0 <= i < nodes.len() ==> branch_index_spec(
                (#[trigger] nodes[i]).prefix,
                path_after(nodes, path, i),
            ) is Ok,
    ensures
        update_spec(nodes, path, digest).1 is Ok,
    decreases nodes.len(),
{
    if nodes.len() > 0 {
        let node = nodes.last();
        let rest = nodes.drop_last();
        assert(nodes[nodes.len() - 1] == node);
        assert forall|i: int| 0 <= i < rest.len() implies branch_index_spec(
            (#[trigger] rest[i]).prefix,
            path_after(rest, node.prefix, i),
        ) is Ok by {
            assert(rest[i] == nodes[i]);
            assert(path_after(rest, node.prefix, i) == path_after(nodes, path, i));
        }
        let index = branch_index_spec(node.prefix, path)->Ok_0;
        lemma_update_succeeds(
            rest,
            node.prefix,
            Some(node.with_branch(index, digest).digest()),
        );
    }
}

/// Whether a value can be inserted under a key: the key has a value, or its
/// path ends at a missing branch.
pub open spec fn can_insert(db: Entries, key: Digest, get: GetState) -> bool {
    &&& sound(db)
    &&& get_spec(db, key) == LookupStep::<Seq<u8>, GetState>::Done(get)
    &&& get is Presence || (get matches Get::Absence(absence) && absence is MissingBranch)
}

/// The nodes on the path of a key once a value is inserted, and the root.
pub open spec fn inserted(get: GetState, key: Digest, value: Seq<u8>) -> (
    Seq<NodeState>,
    Result<Option<Digest>, TrieError>,
) {
    update_spec(nodes_of(get), path_of_spec(key), leaf(key, value))
}

/// The database once a value is inserted.
pub open spec fn after_insert(db: Entries, get: GetState, key: Digest, value: Seq<u8>) -> Entries {
    written(db, path_entries(inserted(get, key, value).0, path_of_spec(key), value))
}

/// An insertion under a key that can be inserted does not fail.
pub proof fn insertion_succeeds(db: Entries, key: Digest, value: Seq<u8>, get: GetState)
    requires
        can_insert(db, key, get),
    ensures
        inserted(get, key, value).1 is Ok,
{
    lemma_has_walked(db, key, Seq::empty());
    let nodes = nodes_of(get);
    assert forall|i: int| 0 <= i < nodes.len() implies branch_index_spec(
        (#[trigger] nodes[i]).prefix,
        path_after(nodes, path_of_spec(key), i),
    ) is Ok by {
        lemma_walk_branch(db, key, nodes, i);
    }
    lemma_update_succeeds(nodes, path_of_spec(key), leaf(key, value));
}

/// What is known of an insertion.
spec fn inserts(db: Entries, key: Digest, value: Seq<u8>, get: GetState) -> bool {
    let path = path_of_spec(key);
    let nodes = nodes_of(get);
    let updated = inserted(get, key, value).0;
    &&& can_insert(db, key, get)
    &&& walks(db, path, nodes)
    &&& ends(db, path, nodes, get)
    &&& nodes.len() > 0
    &&& updated.len() == nodes.len()
    &&& readable(updated)
    &&& forall|i: int|
        0 <= i < nodes.len() ==> {
            &&& (#[trigger] updated[i]).prefix == nodes[i].prefix
            &&& branch_index_spec(nodes[i].prefix, path_after(nodes, path, i)) matches Ok(index)
                && updated[i] == nodes[i].with_branch(
                index,
                digest_after(updated, leaf(key, value), i),
            )
        }
}

proof fn lemma_inserts(db: Entries, key: Digest, value: Seq<u8>, get: GetState)
    requires
        can_insert(db, key, get),
        readable(inserted(get, key, value).0),
    ensures
        inserts(db, key, value, get),
        inserted(get, key, value).1 == Ok::<Option<Digest>, TrieError>(
            Some(inserted(get, key, value).0[0].digest()),
        ),
{
    insertion_succeeds(db, key, value, get);
    answers_are_proved(db, key);
    lemma_has_walked(db, key, Seq::empty());
    lemma_update_nodes(nodes_of(get), path_of_spec(key), leaf(key, value));
}

/// What an insertion writes can be read.
proof fn lemma_inserted_nodes(db: Entries, key: Digest, value: Seq<u8>, get: GetState)
    requires
        inserts(db, key, value, get),
    ensures
        ({
            let after = after_insert(db, get, key, value);
            let updated = inserted(get, key, value).0;
            &&& after[path_of_spec(key)] == value
            &&& after.dom().finite()
            &&& forall|i: int|
                0 <= i < updated.len() ==> stored_node(
                    (#[trigger] updated[i]).prefix,
                    after[updated[i].prefix],
                ) == Some(updated[i])
        }),
{
    let path = path_of_spec(key);
    let nodes = nodes_of(get);
    let updated = inserted(get, key, value).0;
    let entries = path_entries(updated, path, value);
    let after = written(db, entries);
    lemma_written_value(db, entries, updated.len() as int);
    lemma_written_keys(db, entries, path);
    assert forall|i: int| 0 <= i < updated.len() implies stored_node(
        (#[trigger] updated[i]).prefix,
        after[updated[i].prefix],
    ) == Some(updated[i]) by {
        assert forall|j: int| i < j < entries.len() implies (#[trigger] entries[j]).0
            != entries[i].0 by {
            assert(updated[i].prefix == nodes[i].prefix);
            assert(passes(db, path, nodes, i));
            if j < updated.len() {
                assert(updated[j].prefix == nodes[j].prefix);
                lemma_increasing(db, path, nodes, i, j);
            }
        }
        lemma_written_value(db, entries, i);
        assert(entries[i] == node_entry(updated[i]));
    }
}

/// An insertion adds one entry at most, and writes nothing but the nodes on the
/// path and the leaf.
proof fn lemma_inserted_keys(
    db: Entries,
    key: Digest,
    value: Seq<u8>,
    get: GetState,
    other: Seq<u8>,
)
    requires
        inserts(db, key, value, get),
    ensures
        ({
            let after = after_insert(db, get, key, value);
            let nodes = nodes_of(get);
            &&& after.contains_key(other) <==> db.contains_key(other) || other == path_of_spec(key)
            &&& other != path_of_spec(key) && (forall|i: int|
                0 <= i < nodes.len() ==> (#[trigger] nodes[i]).prefix != other) ==> after[other]
                == db[other]
        }),
{
    let path = path_of_spec(key);
    let nodes = nodes_of(get);
    let updated = inserted(get, key, value).0;
    let entries = path_entries(updated, path, value);
    lemma_written_keys(db, entries, other);
    assert(entries[updated.len() as int].0 == path);
    assert forall|i: int| 0 <= i < updated.len() implies (#[trigger] entries[i]).0
        == nodes[i].prefix && db.contains_key(nodes[i].prefix) by {
        assert(updated[i].prefix == nodes[i].prefix);
        assert(passes(db, path, nodes, i));
        lemma_first_is_there(db, next_from(path, nodes, i));
    }
}

/// The first entry from a key on stays the first, unless the leaf comes before
/// it.
proof fn lemma_first_stays(
    db: Entries,
    key: Digest,
    value: Seq<u8>,
    get: GetState,
    from: Seq<u8>,
)
    requires
        inserts(db, key, value, get),
        first_from(db, from) matches Some(first) && (not_after(first, path_of_spec(key))
            || !not_after(from, path_of_spec(key))),
    ensures
        first_from(after_insert(db, get, key, value), from) == first_from(db, from),
{
    let after = after_insert(db, get, key, value);
    let first = first_from(db, from)->Some_0;
    lemma_first_is_there(db, from);
    lemma_inserted_keys(db, key, value, get, first);
    assert forall|other: Seq<u8>| #[trigger]
        after.contains_key(other) && not_after(from, other) implies not_after(first, other) by {
        lemma_inserted_keys(db, key, value, get, other);
    }
    assert(is_first(after, from, first));
    lemma_first(after, from, first);
}

/// A node whose prefix the path has is on the path.
proof fn lemma_visited(
    db: Entries,
    key: Digest,
    value: Seq<u8>,
    get: GetState,
    prefix: Seq<u8>,
    from: int,
) -> (i: int)
    requires
        inserts(db, key, value, get),
        db.contains_key(prefix),
        starts_with_spec(path_of_spec(key), prefix),
        prefix.len() < 64,
        0 <= from <= nodes_of(get).len(),
        next_from(path_of_spec(key), nodes_of(get), from).len() <= prefix.len(),
    ensures
        from <= i < nodes_of(get).len(),
        nodes_of(get)[i].prefix == prefix,
    decreases nodes_of(get).len() - from,
{
    let path = path_of_spec(key);
    let nodes = nodes_of(get);
    let seek = next_from(path, nodes, from);
    lemma_from_prefix(db, path, nodes, from);
    lemma_two_prefixes(path, seek, prefix);
    if from < nodes.len() {
        assert(passes(db, path, nodes, from));
        lemma_first_is_there(db, seek);
        lemma_prefix_order(path, nodes[from].prefix, prefix);
        if nodes[from].prefix.len() == prefix.len() {
            assert(nodes[from].prefix == path.subrange(0, prefix.len() as int));
            from
        } else {
            lemma_from_prefix(db, path, nodes, from + 1);
            lemma_visited(db, key, value, get, prefix, from + 1)
        }
    } else {
        lemma_walk_branch(db, key, nodes, from - 1);
        lemma_beneath(db, seek, prefix);
        lemma_first_is_there(db, seek);
        let first = first_from(db, seek)->Some_0;
        assert(get is Presence);
        // the path is no prefix of its own prefix
        assert(starts_with_spec(prefix, first));
        from
    }
}

/// The leaf is the first entry where its path ends.
proof fn lemma_leaf_first(db: Entries, key: Digest, value: Seq<u8>, get: GetState)
    requires
        inserts(db, key, value, get),
    ensures
        ({
            let path = path_of_spec(key);
            let end = next_from(path, nodes_of(get), nodes_of(get).len() as int);
            let after = after_insert(db, get, key, value);
            &&& first_from(after, end) == Some(path)
            &&& starts_with_spec(path, end)
            &&& forall|other: Seq<u8>| #[trigger]
                db.contains_key(other) && starts_with_spec(other, end) ==> other == path
                    || starts_with_spec(other, path)
        }),
{
    let path = path_of_spec(key);
    let nodes = nodes_of(get);
    let num = nodes.len() as int;
    let end = next_from(path, nodes, num);
    let after = after_insert(db, get, key, value);
    lemma_from_prefix(db, path, nodes, num);
    lemma_prefix_first(path, end);
    lemma_same_or_before(path);
    lemma_inserted_keys(db, key, value, get, path);
    lemma_walk_branch(db, key, nodes, num - 1);
    assert forall|other: Seq<u8>| #[trigger]
        db.contains_key(other) && starts_with_spec(other, end) implies other == path
        || starts_with_spec(other, path) by {
        lemma_beneath(db, end, other);
    }
    assert forall|other: Seq<u8>| #[trigger]
        after.contains_key(other) && not_after(end, other) implies not_after(path, other) by {
        lemma_inserted_keys(db, key, value, get, other);
        lemma_total(path, other);
        if !not_after(path, other) {
            lemma_between(path, end, other);
            assert(other == path || starts_with_spec(other, path));
            if other != path {
                lemma_prefix_first(other, path);
            }
        }
    }
    assert(is_first(after, end, path));
    lemma_first(after, end, path);
}

/// Branches that the path does not take are right as before.
proof fn lemma_other_branch(
    db: Entries,
    key: Digest,
    value: Seq<u8>,
    get: GetState,
    from: Seq<u8>,
    branch: Option<Digest>,
)
    requires
        inserts(db, key, value, get),
        branch_holds(db, from, branch),
        !starts_with_spec(path_of_spec(key), from),
    ensures
        branch_holds(after_insert(db, get, key, value), from, branch),
{
    let path = path_of_spec(key);
    let nodes = nodes_of(get);
    let after = after_insert(db, get, key, value);
    lemma_inserted_nodes(db, key, value, get);
    assert forall|other: Seq<u8>| #[trigger]
        after.contains_key(other) && starts_with_spec(other, from) implies db.contains_key(
        other,
    ) by {
        lemma_inserted_keys(db, key, value, get, other);
    }
    match first_beneath(db, from) {
        Some(first) => {
            lemma_first_is_there(db, from);
            if not_after(from, path) && !not_after(first, path) {
                lemma_total(first, path);
                lemma_between(first, from, path);
            }
            lemma_first_stays(db, key, value, get, from);
            if starts_with_spec(path, first) {
                lemma_prefix_of_prefix(path, first, from);
            }
            assert forall|i: int| 0 <= i < nodes.len() implies (#[trigger] nodes[i]).prefix
                != first by {
                assert(passes(db, path, nodes, i));
            }
            assert(first != path);
            lemma_inserted_keys(db, key, value, get, first);
            assert(entry_digest(after, first) == entry_digest(db, first));
        },
        None => {
            match first_beneath(after, from) {
                Some(other) => {
                    lemma_first_is_there(after, from);
                    assert(db.contains_key(other));
                    lemma_beneath(db, from, other);
                },
                None => {},
            }
        },
    }
}

/// The branches of a node on the path are right after the insertion.
proof fn lemma_node_on_path(db: Entries, key: Digest, value: Seq<u8>, get: GetState, i: int)
    requires
        inserts(db, key, value, get),
        0 <= i < nodes_of(get).len(),
    ensures
        node_holds(
            after_insert(db, get, key, value),
            nodes_of(get)[i].prefix,
            inserted(get, key, value).0[i],
        ),
{
    let path = path_of_spec(key);
    let nodes = nodes_of(get);
    let updated = inserted(get, key, value).0;
    let after = after_insert(db, get, key, value);
    let prefix = nodes[i].prefix;
    assert(passes(db, path, nodes, i));
    lemma_first_is_there(db, next_from(path, nodes, i));
    assert(entry_holds(db, prefix));
    lemma_walk_branch(db, key, nodes, i);
    lemma_inserted_nodes(db, key, value, get);
    let index = branch_index_spec(prefix, path)->Ok_0;
    assert(updated[i].prefix == prefix);
    assert forall|j: int| 0 <= j < 16 implies branch_holds(
        after,
        prefix.push(nibble_byte(j)),
        #[trigger] updated[i].branches[j],
    ) by {
        let from = prefix.push(nibble_byte(j));
        if j == index {
            lemma_from_prefix(db, path, nodes, i + 1);
            if i + 1 < nodes.len() {
                let next = nodes[i + 1].prefix;
                assert(passes(db, path, nodes, i + 1));
                assert(updated[i + 1].prefix == next);
                lemma_longer(db, path, nodes, i + 1);
                lemma_prefix_first(path, next);
                lemma_first_stays(db, key, value, get, from);
                assert(entry_digest(after, next) == updated[i + 1].digest());
                assert forall|other: Seq<u8>| #[trigger]
                    after.contains_key(other) && starts_with_spec(
                        other,
                        from,
                    ) implies starts_with_spec(other, next) by {
                    lemma_inserted_keys(db, key, value, get, other);
                }
            } else {
                lemma_leaf_first(db, key, value, get);
                assert(path.subrange(0, 64) =~= path);
                assert forall|other: Seq<u8>| #[trigger]
                    after.contains_key(other) && starts_with_spec(
                        other,
                        from,
                    ) implies starts_with_spec(other, path) by {
                    lemma_inserted_keys(db, key, value, get, other);
                }
            }
        } else {
            assert(updated[i].branches[j] == nodes[i].branches[j]);
            if starts_with_spec(path, from) {
                assert(from[prefix.len() as int] == path[prefix.len() as int]) by {
                    assert(from == path.subrange(0, from.len() as int));
                }
                assert(nibble_value(nibble_byte(j)) == Some(j));
                assert(nibble_value(nibble_byte(index)) == Some(index));
            }
            lemma_other_branch(db, key, value, get, from, nodes[i].branches[j]);
        }
    }
}

/// An insertion leaves a trie a trie, with the root that it gives.
pub proof fn insertion_keeps_sound(db: Entries, key: Digest, value: Seq<u8>, get: GetState)
    requires
        can_insert(db, key, get),
        readable(inserted(get, key, value).0),
    ensures
        sound(after_insert(db, get, key, value)),
        inserted(get, key, value).1 == Ok::<Option<Digest>, TrieError>(
            Some(root_of(after_insert(db, get, key, value))),
        ),
{
    let path = path_of_spec(key);
    let nodes = nodes_of(get);
    let updated = inserted(get, key, value).0;
    let after = after_insert(db, get, key, value);
    lemma_inserts(db, key, value, get);
    lemma_inserted_nodes(db, key, value, get);
    lemma_inserted_keys(db, key, value, get, Seq::empty());
    assert forall|other: Seq<u8>| #[trigger] after.contains_key(other) implies entry_holds(
        after,
        other,
    ) by {
        lemma_inserted_keys(db, key, value, get, other);
        if other != path {
            assert(entry_holds(db, other));
            if other.len() != 64 {
                if exists|i: int| 0 <= i < nodes.len() && (#[trigger] nodes[i]).prefix == other {
                    let i = choose|i: int|
                        0 <= i < nodes.len() && (#[trigger] nodes[i]).prefix == other;
                    assert(updated[i].prefix == other);
                    lemma_node_on_path(db, key, value, get, i);
                } else {
                    let node = stored_node(other, db[other])->Some_0;
                    assert forall|j: int| 0 <= j < 16 implies branch_holds(
                        after,
                        other.push(nibble_byte(j)),
                        #[trigger] node.branches[j],
                    ) by {
                        let from = other.push(nibble_byte(j));
                        if starts_with_spec(path, from) {
                            assert(from.subrange(0, other.len() as int) =~= other);
                            lemma_prefix_of_prefix(path, from, other);
                            let i = lemma_visited(db, key, value, get, other, 0);
                        }
                        lemma_other_branch(db, key, value, get, from, node.branches[j]);
                    }
                }
            }
        }
    }
    lemma_root_first(db);
    assert(passes(db, path, nodes, 0));
    assert(updated[0].prefix == nodes[0].prefix);
}

/// An empty trie is a trie.
pub proof fn initially_sound(entry: (Seq<u8>, Seq<u8>))
    requires
        entry == node_entry(empty_root()),
        stored_node(entry.0, entry.1) == Some(empty_root()),
    ensures
        sound(written(Map::empty(), seq![entry])),
{
    let db = written(Map::empty(), seq![entry]);
    assert(seq![entry].drop_last() =~= Seq::empty());
    reveal_with_fuel(written, 2);
    assert(db == Map::<Seq<u8>, Seq<u8>>::empty().insert(entry.0, entry.1));
    assert forall|key: Seq<u8>| #[trigger] db.contains_key(key) implies entry_holds(db, key) by {
        assert forall|j: int| 0 <= j < 16 implies branch_holds(
            db,
            key.push(nibble_byte(j)),
            #[trigger] empty_root().branches[j],
        ) by {
            if first_from(db, key.push(nibble_byte(j))) is Some {
                lemma_first_is_there(db, key.push(nibble_byte(j)));
            }
        }
    }
}

/// A value that was inserted is found: a lookup of its key then gives the
/// value, with a proof that is valid under the new root.
pub proof fn inserted_is_found(db: Entries, key: Digest, value: Seq<u8>, get: GetState)
    requires
        can_insert(db, key, get),
        readable(inserted(get, key, value).0),
    ensures
        ({
            let (updated, root) = inserted(get, key, value);
            &&& get_spec(after_insert(db, get, key, value), key) == LookupStep::<
                Seq<u8>,
                GetState,
            >::Done(Get::Presence(value, updated))
            &&& root matches Ok(Some(root)) && verify_spec(
                updated,
                root,
                path_of_spec(key),
                leaf(key, value),
            ) is Ok
        }),
{
    let path = path_of_spec(key);
    let nodes = nodes_of(get);
    let updated = inserted(get, key, value).0;
    let after = after_insert(db, get, key, value);
    let num = nodes.len() as int;
    lemma_inserts(db, key, value, get);
    lemma_inserted_nodes(db, key, value, get);
    assert forall|i: int| 0 <= i <= num implies #[trigger] next_from(path, updated, i)
        == next_from(path, nodes, i) by {
        if i > 0 {
            assert(updated[i - 1].prefix == nodes[i - 1].prefix);
        }
    }
    assert forall|i: int| 0 <= i < num implies !is_missing(#[trigger] updated[i], path) by {
        lemma_walk_branch(db, key, nodes, i);
        assert(updated[i].prefix == nodes[i].prefix);
    }
    assert(walks(after, path, updated)) by {
        assert forall|i: int| 0 <= i < num implies #[trigger] passes(after, path, updated, i) by {
            assert(passes(db, path, nodes, i));
            assert(updated[i].prefix == nodes[i].prefix);
            assert(next_from(path, updated, i) == next_from(path, nodes, i));
            lemma_prefix_first(path, nodes[i].prefix);
            lemma_first_stays(db, key, value, get, next_from(path, nodes, i));
            if i > 0 {
                assert(!is_missing(updated[i - 1], path));
            }
        }
    }
    lemma_leaf_first(db, key, value, get);
    assert(next_from(path, updated, num) == next_from(path, nodes, num));
    assert(!is_missing(updated[num - 1], path));
    assert(updated.subrange(0, 0) =~= Seq::<NodeState>::empty());
    lemma_goes_on(after, path, updated, 0);
    insertion_keeps_sound(db, key, value, get);
    answers_are_proved(after, key);
}

/// Whether two lookups find the same value, or both find none.
pub open spec fn same_value(
    a: LookupStep<Seq<u8>, GetState>,
    b: LookupStep<Seq<u8>, GetState>,
) -> bool {
    match (a, b) {
        (
            LookupStep::Done(Get::Presence(a, _)),
            LookupStep::Done(Get::Presence(b, _)),
        ) => a == b,
        (LookupStep::Done(Get::Absence(_)), LookupStep::Done(Get::Absence(_))) => true,
        _ => false,
    }
}

/// Whether a lookup of a key ends with a proof that is valid under a root.
pub open spec fn is_proved(
    key: Digest,
    outcome: LookupStep<Seq<u8>, GetState>,
    root: Digest,
) -> bool {
    outcome matches LookupStep::Done(get) && verify_spec(
        nodes_of(get),
        root,
        path_of_spec(key),
        shown(key, get),
    ) is Ok
}

/// Inserting a value keeps the others: every other key has the value that it
/// had, or still none, and with a proof that is valid under the new root.
pub proof fn insertion_keeps_others(
    db: Entries,
    key: Digest,
    value: Seq<u8>,
    get: GetState,
    other: Digest,
)
    requires
        can_insert(db, key, get),
        readable(inserted(get, key, value).0),
        other != key,
    ensures
        same_value(get_spec(db, other), get_spec(after_insert(db, get, key, value), other)),
        inserted(get, key, value).1 matches Ok(Some(root)) && is_proved(
            other,
            get_spec(after_insert(db, get, key, value), other),
            root,
        ),
{
    let target = path_of_spec(other);
    let nodes = nodes_of(get);
    if path_of_spec(key) == target {
        paths_differ(key, other);
    }
    lemma_inserts(db, key, value, get);
    insertion_keeps_sound(db, key, value, get);
    answers_are_proved(after_insert(db, get, key, value), other);
    lookups_find_entries(db, other);
    lookups_find_entries(after_insert(db, get, key, value), other);
    assert forall|i: int| 0 <= i < nodes.len() implies (#[trigger] nodes[i]).prefix != target by {
        assert(passes(db, path_of_spec(key), nodes, i));
    }
    lemma_inserted_keys(db, key, value, get, target);
}

} // verus!
