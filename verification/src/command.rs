//! Commands that outside callers hand to a database.

use vstd::prelude::*;

verus! {

/// Commands against an already open database.
pub enum OpenDatabaseCommand {
    /// Add a new entry to the database.  Appends the entry if it does not
    /// already exist and returns its location.
    New(String, Vec<u8>),
    /// Get an item from the database, if it exists.
    Get(String),
    /// Remove an item from the database, if it exists.
    Remove(String),
    /// Update an item in the database, creating it when absent.  To only
    /// ever create, use `New`.
    Update(String, Vec<u8>),
}

/// Commands about databases themselves.
pub enum DatabaseCommand {
    /// Open the database at the given path.
    Open(String),
}

} // verus!
