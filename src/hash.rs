//! The hash primitive: SHA3-256 from the `sha3` crate, through `digest`.

use digest::Digest;
use sha3::Sha3_256;
use vstd::prelude::*;

verus! {

/// The SHA3-256 digest of a byte string.
pub uninterp spec fn sha3_256_of(data: Seq<u8>) -> Seq<u8>;

/// Whether two different byte strings share a SHA3-256 digest.
pub open spec fn sha3_collision() -> bool {
    exists|x: Seq<u8>, y: Seq<u8>|
        x != y && #[trigger] sha3_256_of(x) == #[trigger] sha3_256_of(y)
}

/// Different inputs give different digests unless they are a collision.
pub proof fn lemma_distinct_inputs(x: Seq<u8>, y: Seq<u8>)
    requires
        x != y,
    ensures
        sha3_collision() || sha3_256_of(x) != sha3_256_of(y),
{
}

/// Appending the same bytes, or putting the same bytes in front, keeps
/// different byte strings different.
pub proof fn lemma_concat_cancel(a: Seq<u8>, b: Seq<u8>, c: Seq<u8>)
    ensures
        a + c == b + c ==> a == b,
        c + a == c + b ==> a == b,
{
    if a + c == b + c {
        assert(a =~= (a + c).take(a.len() as int));
        assert(b =~= (b + c).take(b.len() as int));
    }
    if c + a == c + b {
        assert(a =~= (c + a).skip(c.len() as int));
        assert(b =~= (c + b).skip(c.len() as int));
    }
}

/// The digest of an inner node: the hash of the left child's bytes followed
/// by the right child's bytes.
pub open spec fn node_hash(left: Seq<u8>, right: Seq<u8>) -> Seq<u8> {
    sha3_256_of(left + right)
}

/// Relies on `digest::Digest::digest` for `sha3::Sha3_256`: the digest of
/// `data`, whose output size is 32 bytes.
#[verifier::external_body]
pub(crate) fn sha3_256(data: &[u8]) -> (r: Vec<u8>)
    ensures
        r@ == sha3_256_of(data@),
        r@.len() == 32,
{
    Sha3_256::digest(data).to_vec()
}

} // verus!
