//! The SHA-256 digest that the whole tree is built from.
use vstd::prelude::*;

verus! {

/// Length of a SHA-256 digest, in bytes.
pub const HASH_SIZE: usize = 32;

/// The SHA-256 digest of a byte string.
pub uninterp spec fn sha256_of(data: Seq<u8>) -> Seq<u8>;

/// Relies on `sp_io::hashing::sha2_256`: the SHA-256 digest of `data`, which
/// depends on the bytes alone and is always 32 bytes long.
#[verifier::external_body]
pub(crate) fn sha2_256(data: &[u8]) -> (r: Vec<u8>)
    ensures
        r@ == sha256_of(data@),
        r@.len() == HASH_SIZE,
{
    sp_io::hashing::sha2_256(data).to_vec()
}

} // verus!

verus! {

/// Whether two byte strings are equal.
pub fn same_bytes(a: &[u8], b: &[u8]) -> (r: bool)
    ensures
        r == (a@ == b@),
{
    if a.len() != b.len() {
        return false;
    }
    let mut i: usize = 0;
    while i < a.len()
        invariant
            a@.len() == b@.len(),
            i <= a@.len(),
            forall|k: int| 0 <= k < i ==> a@[k] == b@[k],
        decreases a@.len() - i,
    {
        if a[i] != b[i] {
            return false;
        }
        i += 1;
    }
    assert(a@ =~= b@);
    true
}

} // verus!
