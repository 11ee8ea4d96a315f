//! The digest used to name trie versions.

use vstd::prelude::*;

verus! {

/// The Keccak-256 digest of a byte string. The digest is a function of
/// the input alone; nothing further is assumed about its value.
pub uninterp spec fn keccak256_of(s: Seq<u8>) -> Seq<u8>;

/// Relies on tiny_keccak's `Keccak::v256`: a 32-byte digest computed
/// from the input bytes alone.
#[verifier::external_body]
pub fn keccak256(b: &Vec<u8>) -> (r: Vec<u8>)
    ensures
        r@ == keccak256_of(b@),
        r@.len() == 32,
{
    let mut hasher = tiny_keccak::Keccak::v256();
    tiny_keccak::Hasher::update(&mut hasher, b.as_slice());
    let mut out = [0u8; 32];
    tiny_keccak::Hasher::finalize(hasher, &mut out);
    out.to_vec()
}

} // verus!
