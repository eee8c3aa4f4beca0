//! Errors of the store.

use crate::adapter::BackendError;
use crate::domain::ValueError;
use vstd::prelude::*;

verus! {

/// Why an operation on the store failed.
#[derive(Clone, Debug, PartialEq, Eq)]
pub enum StoreError {
    /// A size, count or offset lies outside what the operation admits.
    Range,
    /// Stored bytes are malformed or fail authentication, at this offset.
    Corrupt(u64),
    /// A field holds a value that its domain type rejects.
    Value(ValueError),
    /// The compressor or decompressor failed, with its message.
    Zstd(String),
    /// The bytes of this page do not match their checksum.
    PageChecksum(u32),
    /// Two records that must agree on an identity do not.
    IdentityMismatch,
    /// An argument is not acceptable for the operation.
    InvalidConfiguration(&'static str),
    /// Another owner holds what the operation needs.
    Busy,
    /// The attachment is no longer the one that the catalog records.
    StaleAttachment,
    /// The head has no sealed view.
    NoSealedHead,
    /// Nothing of this name exists.
    NotFound,
    /// A retention of this name exists.
    RetentionExists(String),
    /// The destination exists.
    DestinationExists,
    /// The database header is not that of a standard database.
    InvalidStandardDatabase,
    /// A publication may or may not have become visible.
    PublicationUncertain,
    /// The backend failed.
    Backend(BackendError),
    /// The source of random bytes failed, with its message.
    Random(String),
}

/// Turns the rejection of a value into an error of the store.
pub fn valued<T>(result: Result<T, ValueError>) -> (mapped: Result<T, StoreError>)
    ensures
        match result {
            Ok(value) => mapped == Ok::<T, StoreError>(value),
            Err(error) => mapped == Err::<T, StoreError>(StoreError::Value(error)),
        },
{
    match result {
        Ok(value) => Ok(value),
        Err(error) => Err(StoreError::Value(error)),
    }
}

} // verus!
