//! BLAKE3 digests, computed by the `blake3` crate.

use vstd::prelude::*;

verus! {

/// The 32-byte BLAKE3 digest of `data`.
pub uninterp spec fn blake3_digest(data: Seq<u8>) -> Seq<u8>;

/// `blake3::hash(data)`, as its 32 bytes. The contract names the result
/// `blake3_digest(data)`: the digest depends on the bytes of `data` alone.
/// Nothing more is stated of the hash function.
#[verifier::external_body]
pub(crate) fn blake3_hash(data: &[u8]) -> (h: [u8; 32])
    ensures
        h@ == blake3_digest(data@),
{
    *blake3::hash(data).as_bytes()
}

} // verus!
