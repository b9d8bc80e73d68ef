//! Keccak-256 digests behind a named result.

use vstd::prelude::*;

verus! {

/// The keccak-256 digest of a byte string; the digest is a function of the
/// input bytes alone, so it carries a name rather than a definition.
pub uninterp spec fn keccak_of(s: Seq<u8>) -> Seq<u8>;

/// Relies on `ethers_core::utils::keccak256`: the 32-byte keccak-256 digest
/// of the input, a function of the input bytes alone.
#[verifier::external_body]
pub(crate) fn keccak256(data: &[u8]) -> (r: [u8; 32])
    ensures
        r@ == keccak_of(data@),
        r@.len() == 32,
{
    ethers_core::utils::keccak256(data)
}

} // verus!
