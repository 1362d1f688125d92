use vstd::prelude::*;

use crate::table::ActionSet;

verus! {

/// A cache slot: the key it was filled for (its first `key_len` bytes) and
/// the actions found for that key, one per table.
pub struct CacheElement {
    pub key: Vec<u8>,
    pub key_len: isize,
    pub data: Vec<ActionSet>,
}

/// The first `n` bytes of `a` and `b` agree (none when `n <= 0`).
pub open spec fn same_prefix(a: Seq<u8>, b: Seq<u8>, n: int) -> bool {
    forall|i: int| 0 <= i < n ==> a[i] == b[i]
}

/// The first `n` bytes of `a` and `b` agree, for a length of type `isize`.
pub open spec fn key_agrees(a: Seq<u8>, b: Seq<u8>, n: isize) -> bool {
    same_prefix(a, b, n as int)
}

fn prefix_agrees(a: &[u8], b: &[u8], n: isize) -> (r: bool)
    requires
        n <= a@.len(),
        n <= b@.len(),
    ensures
        r == key_agrees(a@, b@, n),
{
    if n <= 0 {
        return true;
    }
    let len = n as usize;
    let mut i: usize = 0;
    while i < len
        invariant
            len == n,
            len <= a@.len(),
            len <= b@.len(),
            i <= len,
            same_prefix(a@, b@, i as int),
        decreases len - i,
    {
        if a[i] != b[i] {
            return false;
        }
        i = i + 1;
    }
    true
}

/// A key length as the cache stores it.
pub open spec fn signed_len(n: usize) -> isize {
    n as isize
}

/// The key length `n` as the cache stores it.
pub fn signed_key_len(n: usize) -> (r: isize)
    ensures
        r == signed_len(n),
{
    n as isize
}

/// The slot holds the first `key_len` bytes of `key`: the lengths agree and
/// so do the bytes.
pub open spec fn slot_holds(elem: CacheElement, key: Seq<u8>, key_len: usize) -> bool {
    signed_len(key_len) == elem.key_len && key_agrees(elem.key@, key, signed_len(key_len))
}

/// Every slot holds at least as many key bytes as its length says.
pub open spec fn slots_ok(cache: Seq<CacheElement>) -> bool {
    forall|s: int| 0 <= s < cache.len() ==> (#[trigger] cache[s]).key_len <= cache[s].key@.len()
}

/// A signed length never exceeds a bound that the unsigned one meets.
pub proof fn lemma_signed_len_bound(n: usize, bound: nat)
    requires
        n <= bound,
    ensures
        signed_len(n) <= bound,
{
    if n <= isize::MAX {
        assert(signed_len(n) == n);
    }
}

impl CacheElement {
    /// The slot holds `ptr_key`: the lengths agree and so do the first
    /// `key_len` bytes.
    pub fn cmp_ptr_key(&self, ptr_key: &[u8], key_len: isize) -> (r: bool)
        requires
            key_len == self.key_len ==> key_len <= self.key@.len() && key_len <= ptr_key@.len(),
        ensures
            r == (key_len == self.key_len && key_agrees(self.key@, ptr_key@, key_len)),
    {
        if key_len != self.key_len {
            return false;
        }
        prefix_agrees(self.key.as_slice(), ptr_key, key_len)
    }
}

} // verus!
