//! Traits shared by the database engines.

use crate::DatabaseError;
use vstd::prelude::*;

verus! {

/// The byte footprint of a wire structure.
pub trait GetByteLength {
    /// The length of the structure in bytes, as encoded on the wire.
    fn byte_len(&self) -> usize;
}

/// The key-value surface an engine offers the facade.  The partition and
/// database types provide these operations inherently, with their full
/// contracts; the trait records the common shape for callers that only
/// need the signatures.
pub trait InternalApi {
    /// The key type used by the engine.
    type KeyKind;

    /// The value type used by the engine.
    type ValueKind;

    /// Get a key from the database.
    fn get(&mut self, key_name: String) -> Result<Self::ValueKind, DatabaseError>;

    /// Set a key in the database, overwriting any existing entry.  To only
    /// ever create, use `add`.
    fn set(&mut self, key_name: String, value: Vec<u8>) -> Result<Self::KeyKind, DatabaseError>;

    /// Like `set`, but only creates: an existing key is refused.
    fn add(&mut self, key_name: String, value: Vec<u8>) -> Result<Self::KeyKind, DatabaseError>;

    /// Remove a key from the database, reporting whether a removal
    /// happened.
    fn remove(&mut self, key_name: String) -> Result<bool, DatabaseError>;

    /// Fetch every key the database holds.
    fn fetch_keys(&mut self) -> Result<Vec<Self::KeyKind>, DatabaseError>;
}

} // verus!
