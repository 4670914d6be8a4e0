//! The fully resident single-file engine.
//!
//! All data is loaded into memory at once.  For the scalable engine, use
//! the virtual database; this build's open path always selects it, so this
//! type is only the shape such an engine would take.

use crate::db::Key;
use vstd::prelude::*;

verus! {

/// A database whose whole body is resident in memory.
pub struct SingleDatabase {
    /// The keys of the database.
    pub keys: Vec<Key>,
}

} // verus!
