//! Random bytes.

use vstd::prelude::*;

verus! {

/// `getrandom::fill`: 32 bytes from the system's random number source, or its
/// message. Nothing can be said of the bytes, nor of when the source fails.
#[verifier::external_body]
pub(crate) fn nonce() -> (bytes: Result<[u8; 32], String>) {
    let mut bytes = [0u8; 32];
    match getrandom::fill(&mut bytes) {
        Ok(()) => Ok(bytes),
        Err(error) => Err(error.to_string()),
    }
}

} // verus!
