//! The Keccak-256 hash.

use vstd::prelude::*;

verus! {

/// The Keccak-256 digest of `data`.
pub uninterp spec fn keccak(data: Seq<u8>) -> Seq<u8>;

/// Calls `alloy_primitives::keccak256`, whose 32 bytes are the Keccak-256 digest of the input.
#[verifier::external_body]
pub(crate) fn keccak256(data: &[u8]) -> (digest: [u8; 32])
    ensures
        digest@ == keccak(data@),
{
    alloy_primitives::keccak256(data).0
}

} // verus!
