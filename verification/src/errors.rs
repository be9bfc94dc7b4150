//! Error taxonomy of the store's fallible operations.

use vstd::prelude::*;

verus! {

/// Why a store operation failed. Transport, filesystem and archive
/// failures carry the underlying message.
#[derive(Debug)]
pub enum StoreError {
    /// The descriptor id is not known to the store.
    NotFound,
    /// Extraction was asked for before the payload was downloaded.
    NotRetrieved,
    /// The download transport failed.
    NetworkError(String),
    /// A filesystem read, write or create failed.
    IoError(String),
    /// The payload archive is corrupt or unreadable.
    ArchiveError(String),
    /// A metadata text could not be produced or understood.
    SerializationError(String),
}

} // verus!
