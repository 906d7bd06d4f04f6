//! BLAKE3 digests of time index tracks.
use vstd::prelude::*;

verus! {

/// The 32-byte BLAKE3 digest of `input`.
pub uninterp spec fn blake3_digest(input: Seq<u8>) -> Seq<u8>;

/// Hashes `input` with `blake3::hash`, which the crate documents as equal to feeding the
/// same bytes to a fresh `blake3::Hasher` and finalizing it. Claimed of it: the 32 bytes
/// returned are `blake3_digest` of the input, a function of the input bytes alone.
#[verifier::external_body]
pub(crate) fn blake3_hash(input: &[u8]) -> (digest: [u8; 32])
    ensures
        digest@ == blake3_digest(input@),
{
    *blake3::hash(input).as_bytes()
}

} // verus!
