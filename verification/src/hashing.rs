//! The digest helpers: SHA3-256 of an element's bytes, and of the
//! concatenation of two digests.

use vstd::prelude::*;
use sha3::Digest as Sha3Digest;
use sha3::Sha3_256;

verus! {

/// A digest: the fixed 32-byte output of SHA3-256.
pub type Digest = [u8; 32];

/// The SHA3-256 digest of a byte sequence. The function is left
/// uninterpreted: the contracts of the hashing wrappers below are the only
/// facts known of it, chiefly that the same bytes always give the same
/// digest.
pub uninterp spec fn sha3_of(data: Seq<u8>) -> Digest;

/// The digest an element contributes to the leaf level.
pub open spec fn leaf_hash(element: Seq<u8>) -> Digest {
    sha3_of(element)
}

/// The digest of a parent node: the hash of the two children's bytes,
/// left child first. The order matters.
pub open spec fn node_hash(left: Digest, right: Digest) -> Digest {
    sha3_of(left@ + right@)
}

/// Relies on sha3's `Sha3_256` through `Digest::digest`: the result is the
/// SHA3-256 digest of `value`, a function of the input bytes alone.
#[verifier::external_body]
pub fn hash(value: &[u8]) -> (digest: Digest)
    ensures
        digest == sha3_of(value@),
{
    Sha3_256::digest(value).into()
}

/// Relies on sha3's `Sha3_256` through `Digest::new`, `update` and
/// `finalize`: updating with `left` then `right` hashes the concatenation
/// `left || right`, so the result is the SHA3-256 digest of those 64 bytes,
/// a function of the two inputs alone.
#[verifier::external_body]
pub fn concat_hash(left: &Digest, right: &Digest) -> (digest: Digest)
    ensures
        digest == node_hash(*left, *right),
{
    let mut hasher = Sha3_256::new();
    hasher.update(left);
    hasher.update(right);
    hasher.finalize().into()
}

/// Byte-for-byte equality of two digests.
pub fn digest_eq(a: &Digest, b: &Digest) -> (eq: bool)
    ensures
        eq == (*a == *b),
{
    let mut i: usize = 0;
    while i < 32
        invariant
            i <= 32,
            forall|j: int| 0 <= j < i ==> a@[j] == b@[j],
        decreases 32 - i,
    {
        if a[i] != b[i] {
            assert(a@[i as int] != b@[i as int]);
            assert(*a != *b);
            return false;
        }
        i += 1;
    }
    proof {
        assert(*a =~= *b);
    }
    true
}

} // verus!
