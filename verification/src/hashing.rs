use sp_core::Hasher;
use vstd::prelude::*;

verus! {

/// The 256-bit content digest of a byte string, as the pluggable hash
/// function computes it. The trie never states what the digest is on
/// given bytes; every contract goes through this name.
pub uninterp spec fn digest_of(bytes: Seq<u8>) -> Seq<u8>;

/// Relies on sp_core::Blake2Hasher::hash: the 32-byte Blake2b-256 digest
/// of the input, a pure function of the input bytes alone.
#[verifier::external_body]
pub(crate) fn blake2_256(bytes: &Vec<u8>) -> (r: Vec<u8>)
    ensures
        r@ == digest_of(bytes@),
        r@.len() == 32,
{
    sp_core::Blake2Hasher::hash(bytes.as_slice()).as_bytes().to_vec()
}

} // verus!
