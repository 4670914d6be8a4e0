//! An embedded binary key-value storage engine.
//!
//! Values are persisted inside one or more on-disk files under a versioned,
//! magic-tagged wire format.  A file starts with a fixed-size [`preamble`]
//! (magic bytes, format version, compression mode, encryption flag) followed
//! by a variable-size header describing the partition topology, and then a
//! value region holding a key directory and the value blocks themselves.
//!
//! This crate holds the engine's logic: the binary codecs, the partition
//! lifecycle, the key directory, and the routing of key-value operations
//! across partitions.  File handling is left to the caller, which feeds the
//! engine the bytes it reads and persists the bytes the engine produces.

use vstd::prelude::*;

pub mod command;
pub mod db;
pub mod preamble;
pub mod protocol;
pub mod region;
pub mod single_db;
pub mod utils;
pub mod virtual_db;
pub mod wire;

verus! {

/// The sixteen magic bytes that open every database and partition file:
/// the ASCII text `"Onelink 1.0.0"` padded with three zero bytes to
/// exactly sixteen bytes.
pub open spec fn magic_bytes() -> Seq<u8> {
    seq![79u8, 110u8, 101u8, 108u8, 105u8, 110u8, 107u8, 32u8, 49u8, 46u8, 48u8, 46u8, 48u8, 0u8, 0u8, 0u8]
}

/// Builds the magic byte sequence that identifies a database file.
///
/// Every well-formed file begins with exactly these sixteen bytes.
pub fn generate_magic() -> (r: Vec<u8>)
    ensures
        r@ == magic_bytes(),
{
    let r: Vec<u8> = vec![79u8, 110u8, 101u8, 108u8, 105u8, 110u8, 107u8, 32u8, 49u8, 46u8, 48u8, 46u8, 48u8, 0u8, 0u8, 0u8];
    proof {
        assert(r@ =~= magic_bytes());
    }
    r
}

/// Everything that can go wrong while opening a database or operating on its
/// keys.
///
/// Structural failures (the first five variants) abort an `open` or an `init`
/// entirely; the per-key outcomes (`KeyNotFound`, `KeyAlreadyExists`) are
/// local to one call and leave the handle usable.
#[derive(Debug, Clone, PartialEq, Eq)]
pub enum DatabaseError {
    /// The leading magic bytes do not match: the file is not recognizable as
    /// this format at all.
    InvalidFormat,
    /// The version field parsed as a number, but this build does not support
    /// it.  Carries the offending version.
    UnsupportedVersion(u16),
    /// The compression tag is outside the recognized enumeration.
    InvalidCompressionMode,
    /// The file is structurally valid but describes a combination this build
    /// does not implement (a plaintext body, or a non-virtualized layout).
    UnsupportedLayout,
    /// Too few bytes remained to finish decoding, or the value region is
    /// internally inconsistent (a corrupt directory or value block).
    TruncatedHeader,
    /// The named key is absent.  A benign outcome of `get` and `remove`.
    KeyNotFound(String),
    /// The named key is already present somewhere in the database.  The
    /// outcome of `add` on a taken name, and of loading a partition whose
    /// directory collides with one already loaded.
    KeyAlreadyExists(String),
}

} // verus!
