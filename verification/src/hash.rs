//! SHA-256 digests of bytes, of field elements and of digest pairs.
use crate::mersenne_61_mont::{le_bytes, Mersenne61Mont};
use sha2::Digest;
use vstd::prelude::*;

verus! {

/// Size in bytes of a Merkle root and of every digest.
pub const MERKLE_ROOT_SIZE: usize = 32usize;

/// The SHA-256 digest of a byte string.
pub uninterp spec fn spec_sha256(data: Seq<u8>) -> Seq<u8>;

/// The digest of two digests, hashed one after the other.
pub open spec fn spec_hash_pair(a: Seq<u8>, b: Seq<u8>) -> Seq<u8> {
    spec_sha256(a + b)
}

/// The digest of two field elements, hashed by their byte representations.
pub open spec fn spec_hash_elements(a: int, b: int) -> Seq<u8> {
    spec_sha256(le_bytes(a) + le_bytes(b))
}

/// The digest of a single field element.
pub open spec fn spec_hash_element(a: int) -> Seq<u8> {
    spec_sha256(le_bytes(a))
}

/// Calls `sha2::Sha256::digest` on the bytes and copies the 32-byte output.
/// Its contract claims only that the output is the SHA-256 digest of the input,
/// named by `spec_sha256`.
#[verifier::external_body]
fn sha256(data: &[u8]) -> (r: [u8; 32])
    ensures
        r@ == spec_sha256(data@),
{
    let h = sha2::Sha256::digest(data);
    let mut out = [0u8; 32];
    out.copy_from_slice(&h);
    out
}

/// The digest of a byte string.
pub fn hash_bytes(data: &Vec<u8>) -> (r: [u8; 32])
    ensures
        r@ == spec_sha256(data@),
{
    sha256(data.as_slice())
}

/// The digest of two digests.
pub fn hash_pair(a: &[u8; 32], b: &[u8; 32]) -> (r: [u8; 32])
    ensures
        r@ == spec_hash_pair(a@, b@),
{
    let mut buf: Vec<u8> = Vec::new();
    for i in 0..32usize
        invariant
            buf@ == a@.subrange(0, i as int),
    {
        buf.push(a[i]);
        assert(buf@ =~= a@.subrange(0, i + 1));
    }
    for i in 0..32usize
        invariant
            buf@ == a@ + b@.subrange(0, i as int),
    {
        buf.push(b[i]);
        assert(buf@ =~= a@ + b@.subrange(0, i + 1));
    }
    assert(buf@ =~= a@ + b@);
    sha256(buf.as_slice())
}

/// The digest of two field elements.
pub fn hash_elements(a: Mersenne61Mont, b: Mersenne61Mont) -> (r: [u8; 32])
    ensures
        r@ == spec_hash_elements(a@, b@),
{
    let mut buf = a.to_bytes();
    let mut bb = b.to_bytes();
    buf.append(&mut bb);
    sha256(buf.as_slice())
}

/// The digest of one field element.
pub fn hash_element(a: Mersenne61Mont) -> (r: [u8; 32])
    ensures
        r@ == spec_hash_element(a@),
{
    let buf = a.to_bytes();
    sha256(buf.as_slice())
}

/// Equality of digests.
pub fn digest_eq(a: &[u8; 32], b: &[u8; 32]) -> (r: bool)
    ensures
        r == (a@ == b@),
{
    for i in 0..32usize
        invariant
            forall|j: int| 0 <= j < i ==> a@[j] == b@[j],
    {
        if a[i] != b[i] {
            return false;
        }
    }
    assert(a@ =~= b@);
    true
}

} // verus!
