//! The fixed-size preamble that opens every database and partition file.
//!
//! Twenty bytes on the wire: sixteen magic bytes, a big-endian 16-bit
//! version, a compression tag and an encryption flag.  Its length is a
//! constant, so a reader can seek past a preamble without decoding the body.

use crate::magic_bytes;
use crate::generate_magic;
use crate::wire::be_bytes;
use crate::wire::be_val;
use crate::wire::lemma_be_bytes_len;
use crate::wire::lemma_be_val_be_bytes;
use crate::wire::pow256;
use crate::wire::read_u16_be;
use crate::wire::write_u16_be;
use crate::DatabaseError;
use vstd::prelude::*;
use vstd::slice::slice_subrange;

verus! {

/// The algorithm a file's body is compressed with.  Only an enumerated tag
/// at this level; the codec itself is outside the engine.
#[derive(Debug, Clone, Copy, PartialEq, Eq, Structural)]
pub enum CompressionMode {
    NoCompression,
    Zstd,
}

/// The wire tag of a compression mode.
pub open spec fn compression_tag(c: CompressionMode) -> u8 {
    match c {
        CompressionMode::NoCompression => 0,
        CompressionMode::Zstd => 1,
    }
}

/// The leading block of a file: format identity, version, compression mode
/// and encryption flag.
#[derive(Debug, Clone, Copy, PartialEq, Eq, Structural)]
pub struct Preamble {
    /// The format version, hundreds for the major and tens for the minor:
    /// version 1.0.0 is stored as `100`, the only value this build accepts.
    pub version: u16,
    /// The compression algorithm used on the body.
    pub compression: CompressionMode,
    /// Whether the body is encrypted.  Kept as a byte for forward
    /// compatibility; any non-zero value means encrypted.
    pub encryption: u8,
}

impl Preamble {
    /// A preamble this build can re-read: the version is the supported one.
    pub open spec fn wf(self) -> bool {
        self.version == 100
    }

    /// The twenty wire bytes of this preamble.
    pub open spec fn encoding(self) -> Seq<u8> {
        magic_bytes() + be_bytes(self.version as int, 2) + seq![
            compression_tag(self.compression),
            self.encryption,
        ]
    }

    /// What decoding a byte string yields: the parsed preamble, or the
    /// error naming the first check that fails.  The magic bytes are judged
    /// before anything else, then the exact length, the version, and the
    /// compression tag.
    pub open spec fn parse(data: Seq<u8>) -> Result<Preamble, DatabaseError> {
        if data.len() < 16 {
            Err(DatabaseError::TruncatedHeader)
        } else if data.subrange(0, 16) != magic_bytes() {
            Err(DatabaseError::InvalidFormat)
        } else if data.len() != 20 {
            Err(DatabaseError::TruncatedHeader)
        } else if be_val(data.subrange(16, 18)) != 100 {
            Err(DatabaseError::UnsupportedVersion(be_val(data.subrange(16, 18)) as u16))
        } else if data[18] > 1 {
            Err(DatabaseError::InvalidCompressionMode)
        } else {
            Ok(
                Preamble {
                    version: 100,
                    compression: if data[18] == 0 {
                        CompressionMode::NoCompression
                    } else {
                        CompressionMode::Zstd
                    },
                    encryption: data[19],
                },
            )
        }
    }

    /// Whether the body of the file this preamble opens is encrypted.
    pub fn is_encrypted(self) -> (r: bool)
        ensures
            r == (self.encryption != 0),
    {
        self.encryption != 0
    }

    /// Whether the first sixteen bytes are the magic literal.
    ///
    /// This identifies the file as this format; it says nothing about the
    /// soundness of the data behind it.
    pub fn validate_magic(data: &[u8]) -> (r: bool)
        requires
            data@.len() >= 16,
        ensures
            r == (data@.subrange(0, 16) == magic_bytes()),
    {
        let magic = generate_magic();
        let mut i: usize = 0;
        while i < 16
            invariant
                i <= 16,
                magic@ == magic_bytes(),
                data@.len() >= 16,
                forall|j: int| 0 <= j < i ==> data@[j] == magic_bytes()[j],
            decreases 16 - i,
        {
            if data[i] != magic[i] {
                proof {
                    assert(data@.subrange(0, 16)[i as int] != magic_bytes()[i as int]);
                }
                return false;
            }
            i += 1;
        }
        proof {
            assert(data@.subrange(0, 16) =~= magic_bytes());
        }
        true
    }

    /// Whether this build supports the given format version.  Only `100`
    /// (version 1.0.0) is recognized.
    pub fn validate_version(version: u16) -> (r: bool)
        ensures
            r == (version == 100),
    {
        match version {
            100u16 => true,
            _ => false,
        }
    }

    /// A fresh preamble with the default fields, for a database that will be
    /// encrypted.
    pub fn new() -> (r: Preamble)
        ensures
            r == (Preamble { version: 100u16, compression: CompressionMode::Zstd, encryption: 1u8 }),
    {
        Preamble { version: 100, compression: CompressionMode::Zstd, encryption: 1 }
    }

    /// A fresh preamble for a database that will **not** be encrypted.
    ///
    /// This build refuses to open plaintext bodies, so such a file is only
    /// readable by a build that supports them.
    pub fn new_unsafe() -> (r: Preamble)
        ensures
            r == (Preamble { version: 100u16, compression: CompressionMode::Zstd, encryption: 0u8 }),
    {
        Preamble { version: 100, compression: CompressionMode::Zstd, encryption: 0 }
    }

    /// Decodes a preamble from exactly twenty bytes, as [`Preamble::parse`]
    /// says: a magic mismatch is judged first, then the length, the version
    /// and the compression tag.
    pub fn create(data: &[u8]) -> (r: Result<Preamble, DatabaseError>)
        ensures
            r == Preamble::parse(data@),
    {
        if data.len() < 16 {
            return Err(DatabaseError::TruncatedHeader);
        }
        if !Self::validate_magic(data) {
            return Err(DatabaseError::InvalidFormat);
        }
        if data.len() != 20 {
            return Err(DatabaseError::TruncatedHeader);
        }
        let version_bytes = slice_subrange(data, 16, 18);
        let version = read_u16_be(version_bytes);
        proof {
            assert(version_bytes@.subrange(0, 2) =~= data@.subrange(16, 18));
        }
        if version != 100 {
            return Err(DatabaseError::UnsupportedVersion(version));
        }
        let compression = match data[18] {
            0u8 => CompressionMode::NoCompression,
            1u8 => CompressionMode::Zstd,
            _ => {
                return Err(DatabaseError::InvalidCompressionMode);
            },
        };
        Ok(Preamble { version, compression, encryption: data[19] })
    }

    /// Encodes this preamble into its twenty wire bytes.
    pub fn encode(&self) -> (r: Vec<u8>)
        ensures
            r@ == self.encoding(),
    {
        let mut out = generate_magic();
        let mut version = write_u16_be(self.version);
        out.append(&mut version);
        let tag: u8 = match self.compression {
            CompressionMode::NoCompression => 0,
            CompressionMode::Zstd => 1,
        };
        out.push(tag);
        out.push(self.encryption);
        proof {
            assert(out@ =~= self.encoding());
        }
        out
    }

    /// The constant byte length of a preamble on the wire.
    pub fn byte_len(&self) -> (r: usize)
        ensures
            r == 20,
            r == self.encoding().len(),
    {
        proof {
            lemma_be_bytes_len(self.version as int, 2);
        }
        20
    }
}

impl crate::utils::GetByteLength for Preamble {
    /// The constant wire length of a preamble; see [`Preamble::byte_len`].
    fn byte_len(&self) -> usize {
        Preamble::byte_len(self)
    }
}

/// Encoding then decoding restores any well-formed preamble.
pub proof fn lemma_preamble_round_trip(p: Preamble)
    requires
        p.wf(),
    ensures
        Preamble::parse(p.encoding()) == Ok::<Preamble, DatabaseError>(p),
{
    let data = p.encoding();
    lemma_be_bytes_len(p.version as int, 2);
    assert(data.subrange(0, 16) =~= magic_bytes());
    assert(data.subrange(16, 18) =~= be_bytes(p.version as int, 2));
    assert(pow256(0) == 1);
    assert(pow256(1) == 256);
    assert(pow256(2) == 65536);
    lemma_be_val_be_bytes(p.version as int, 2);
    assert(data[18] == compression_tag(p.compression));
    assert(data[19] == p.encryption);
}

/// Any input of at least sixteen bytes whose head is not the magic literal
/// is rejected as not being this format, whatever the remaining bytes hold.
pub proof fn lemma_magic_gate(data: Seq<u8>)
    requires
        data.len() >= 16,
        data.subrange(0, 16) != magic_bytes(),
    ensures
        Preamble::parse(data) == Err::<Preamble, DatabaseError>(DatabaseError::InvalidFormat),
{
}

/// On a well-sized input with the right magic, any version other than `100`
/// is rejected as unsupported, and the error carries that version, whatever
/// the remaining bytes hold.
pub proof fn lemma_version_gate(data: Seq<u8>)
    requires
        data.len() == 20,
        data.subrange(0, 16) == magic_bytes(),
        be_val(data.subrange(16, 18)) != 100,
    ensures
        Preamble::parse(data) == Err::<Preamble, DatabaseError>(
            DatabaseError::UnsupportedVersion(be_val(data.subrange(16, 18)) as u16),
        ),
{
}

} // verus!
