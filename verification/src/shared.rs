//! Immutable values that are shared instead of copied.
use std::sync::Arc;
use vstd::prelude::*;

verus! {

/// An immutable byte string that is cheap to share.
pub type Bytes = Arc<Vec<u8>>;

/// Calls `Arc::clone`: another pointer to the same allocation, so to the same
/// immutable value.
#[verifier::external_body]
pub(crate) fn share<T>(value: &Arc<T>) -> (shared: Arc<T>)
    ensures
        shared == *value,
{
    value.clone()
}

/// A copy of a byte string.
pub fn copy_bytes(bytes: &[u8]) -> (copy: Vec<u8>)
    ensures
        copy@ == bytes@,
{
    let mut copy: Vec<u8> = Vec::new();
    let mut i: usize = 0;
    while i < bytes.len()
        invariant
            i <= bytes@.len(),
            copy@ == bytes@.subrange(0, i as int),
        decreases bytes@.len() - i,
    {
        copy.push(bytes[i]);
        i += 1;
    }
    copy
}

/// Appends `bytes` to `buffer`.
pub fn append_bytes(buffer: &mut Vec<u8>, bytes: &[u8])
    ensures
        final(buffer)@ == old(buffer)@ + bytes@,
{
    let mut i: usize = 0;
    while i < bytes.len()
        invariant
            i <= bytes@.len(),
            buffer@ == old(buffer)@ + bytes@.subrange(0, i as int),
        decreases bytes@.len() - i,
    {
        buffer.push(bytes[i]);
        i += 1;
    }
}

/// Whether two byte strings are equal.
pub fn same_bytes(a: &[u8], b: &[u8]) -> (same: bool)
    ensures
        same == (a@ == b@),
{
    if a.len() != b.len() {
        return false;
    }
    let mut i: usize = 0;
    while i < a.len()
        invariant
            i <= a@.len(),
            a@.len() == b@.len(),
            forall|j: int| 0 <= j < i ==> a@[j] == b@[j],
        decreases a@.len() - i,
    {
        if a[i] != b[i] {
            return false;
        }
        i += 1;
    }
    assert(a@ =~= b@);
    true
}

/// A list in reverse order.
pub fn reversed<T>(list: Vec<T>) -> (reversed: Vec<T>)
    ensures
        reversed@.len() == list@.len(),
        forall|i: int|
            0 <= i < list@.len() ==> #[trigger] reversed@[i] == list@[list@.len() - 1 - i],
{
    let ghost all = list@;
    let mut list = list;
    let mut reversed: Vec<T> = Vec::new();
    while list.len() > 0
        invariant
            list@.len() + reversed@.len() == all.len(),
            list@ == all.subrange(0, list@.len() as int),
            forall|i: int|
                0 <= i < reversed@.len() ==> #[trigger] reversed@[i] == all[all.len() - 1 - i],
        decreases list@.len(),
    {
        let last = list.pop().unwrap();
        reversed.push(last);
    }
    reversed
}

} // verus!
