use sha2::Digest;
use vstd::prelude::*;

verus! {

/// Length in bytes of every digest the tree stores.
pub const DIGEST_LEN: usize = 32;

/// The SHA-256 digest of a byte sequence.
pub uninterp spec fn sha256_of(data: Seq<u8>) -> Seq<u8>;

/// Digest of an internal node: the children's digests, left before right,
/// with no separator.
pub open spec fn internal_hash(left: Seq<u8>, right: Seq<u8>) -> Seq<u8> {
    sha256_of(left + right)
}

/// Digest carried by the padding node that pairs the last node of an
/// odd-sized level: 32 zero bytes.
pub open spec fn padding_hash() -> Seq<u8> {
    Seq::new(DIGEST_LEN as nat, |i: int| 0u8)
}

/// Relies on sha2's `Sha256::digest`: the SHA-256 digest of the input,
/// whose output size is 32 bytes.
#[verifier::external_body]
pub(crate) fn hash_data(data: &[u8]) -> (r: Vec<u8>)
    ensures
        r@ == sha256_of(data@),
        r@.len() == DIGEST_LEN,
{
    sha2::Sha256::digest(data).to_vec()
}

} // verus!
