//! Content digests.

use crate::bytes;
use crate::domain::Id;
use vstd::prelude::*;

verus! {

/// The BLAKE3 digest of some bytes.
pub uninterp spec fn blake3_digest(input: Seq<u8>) -> Seq<u8>;

/// `blake3::hash`: the digest depends on the bytes alone. Feeding a hasher the
/// same bytes piece by piece gives the same digest, so callers join the pieces.
#[verifier::external_body]
fn digest(input: &[u8]) -> (hash: [u8; 32])
    ensures
        hash@ == blake3_digest(input@),
{
    *blake3::hash(input).as_bytes()
}

/// The digest of some bytes, as 32 bytes.
pub open spec fn content_hash(input: Seq<u8>) -> Seq<u8> {
    if blake3_digest(input).len() == 32 {
        blake3_digest(input)
    } else {
        bytes::zeros(32)
    }
}

/// The digest of some bytes.
pub fn hash(input: &[u8]) -> (hash: [u8; 32])
    ensures
        hash@ == content_hash(input@),
        hash@ == blake3_digest(input@),
{
    digest(input)
}

/// `id` is the digest of some bytes.
pub open spec fn names<const KIND: u8>(id: Id<KIND>, input: Seq<u8>) -> bool {
    id.bytes@ == content_hash(input)
}

/// The identity that the digest of some bytes gives.
pub fn identify<const KIND: u8>(input: &[u8]) -> (id: Id<KIND>)
    ensures
        names(id, input@),
{
    Id { bytes: hash(input) }
}

} // verus!
