//! The variable-size header that follows the preamble, and the top-level
//! database handle.
//!
//! The header describes the partition topology (whether the file is split,
//! this file's ordinal and the total count), the creating operating system,
//! three timestamps, and whether the database is virtualized.  Unlike the
//! preamble its byte length is not knowable before parsing: the two
//! partition bytes are present only when the leading flag says so.

use crate::wire::be_bytes;
use crate::wire::be_val;
use crate::wire::lemma_be_bytes_len;
use crate::wire::lemma_be_val_bound;
use crate::wire::lemma_pow256_16;
use crate::wire::lemma_u128_round_trip;
use crate::wire::read_u128_be;
use crate::wire::write_u128_be;
use crate::preamble::Preamble;
use crate::virtual_db::has_dup_name;
use crate::virtual_db::has_name;
use crate::virtual_db::partition_parse;
use crate::virtual_db::Routing;
use crate::virtual_db::VirtualDatabase;
use crate::virtual_db::VirtualItem;
use crate::virtual_db::VirtualKey;
use crate::DatabaseError;
use vstd::prelude::*;
use vstd::slice::slice_subrange;

verus! {

/// The operating system a database was created on.
///
/// An open-ended category: tags that this build does not recognize decode to
/// `Unknown` instead of failing, so files from newer builds stay readable.
#[derive(Debug, Clone, Copy, PartialEq, Eq, Structural)]
pub enum DbDeviceOs {
    Linux,
    Windows,
    Mac,
    Unknown,
}

/// The wire tag of an operating system.
pub open spec fn os_tag(os: DbDeviceOs) -> u8 {
    match os {
        DbDeviceOs::Linux => 0,
        DbDeviceOs::Windows => 1,
        DbDeviceOs::Mac => 2,
        DbDeviceOs::Unknown => 3,
    }
}

/// The operating system a wire tag names.
pub open spec fn os_of_tag(tag: u8) -> DbDeviceOs {
    if tag == 0 {
        DbDeviceOs::Linux
    } else if tag == 1 {
        DbDeviceOs::Windows
    } else if tag == 2 {
        DbDeviceOs::Mac
    } else {
        DbDeviceOs::Unknown
    }
}

/// How a database stores its body: one resident file, or a set of
/// partition files behind a virtual database.
#[derive(Debug, Clone, Copy, PartialEq, Eq, Structural)]
pub enum DatabaseMode {
    Single,
    Virtual,
}

/// The metadata block that follows the preamble.
#[derive(Debug, Clone, PartialEq, Eq)]
pub struct Header {
    /// Whether the database is split over several partition files.
    pub partitioned: bool,
    /// This partition's ordinal, present exactly when `partitioned` is set.
    pub partition_index: Option<u8>,
    /// The total partition count, present exactly when `partitioned` is set.
    pub partitions: Option<u8>,
    /// The operating system that created the database.
    pub created_on: DbDeviceOs,
    /// The time of the last open operation.
    pub last_open: u128,
    /// The time of the last close operation.
    pub last_close: u128,
    /// The time of the last write operation.
    pub last_write: u128,
    /// Whether the database is virtualized.  Must be set when `partitioned`
    /// is; this build only supports virtualized bodies.
    pub virtualization: bool,
}

impl Header {
    /// The wire length of a header whose leading flag is `partitioned`:
    /// the flag byte, two partition bytes when the flag is set, the
    /// operating-system tag, three sixteen-byte timestamps, and the
    /// virtualization byte.
    pub open spec fn wire_len(partitioned: bool) -> int {
        if partitioned {
            53
        } else {
            51
        }
    }

    /// A header whose optional fields agree with its `partitioned` flag.
    pub open spec fn wf(self) -> bool {
        &&& self.partitioned ==> self.partition_index is Some && self.partitions is Some
        &&& !self.partitioned ==> self.partition_index is None && self.partitions is None
    }

    /// The wire bytes of this header.
    pub open spec fn encoding(self) -> Seq<u8> {
        (if self.partitioned {
            seq![1u8, self.partition_index.unwrap(), self.partitions.unwrap()]
        } else {
            seq![0u8]
        }) + seq![os_tag(self.created_on)] + be_bytes(self.last_open as int, 16) + be_bytes(
            self.last_close as int,
            16,
        ) + be_bytes(self.last_write as int, 16) + seq![
            if self.virtualization {
                1u8
            } else {
                0u8
            },
        ]
    }

    /// What decoding a byte string yields.  The length needed is settled by
    /// the first byte; decoding reads exactly that many bytes and ignores
    /// whatever follows them.
    pub open spec fn parse(data: Seq<u8>) -> Result<Header, DatabaseError> {
        if data.len() < 1 {
            Err(DatabaseError::TruncatedHeader)
        } else {
            let p = data[0] != 0;
            if data.len() < Header::wire_len(p) {
                Err(DatabaseError::TruncatedHeader)
            } else {
                let off: int = if p {
                    3
                } else {
                    1
                };
                Ok(
                    Header {
                        partitioned: p,
                        partition_index: if p {
                            Some(data[1])
                        } else {
                            None
                        },
                        partitions: if p {
                            Some(data[2])
                        } else {
                            None
                        },
                        created_on: os_of_tag(data[off]),
                        last_open: be_val(data.subrange(off + 1, off + 17)) as u128,
                        last_close: be_val(data.subrange(off + 17, off + 33)) as u128,
                        last_write: be_val(data.subrange(off + 33, off + 49)) as u128,
                        virtualization: data[off + 49] != 0,
                    },
                )
            }
        }
    }

    /// The byte length of this header on the wire, as a spec value.
    pub open spec fn spec_byte_len(self) -> int {
        Header::wire_len(self.partitioned)
    }

    /// The byte length of this header on the wire: the number of bytes
    /// [`Header::create`] consumes and [`Header::encode`] produces.
    pub fn byte_len(&self) -> (r: usize)
        ensures
            r as int == self.spec_byte_len(),
    {
        let mut current_byte_size: usize = 1;
        if self.partitioned {
            // account for the partition index and partitions count
            current_byte_size += 2;
        }
        // the operating-system tag and the virtualization flag are one byte
        // each; the three timestamps are sixteen bytes each
        current_byte_size += 50;
        current_byte_size
    }

    /// Decodes a header from the leading bytes of `data`, as
    /// [`Header::parse`] says.  Bytes past the header's own length are left
    /// alone, so the caller can hand over the whole rest of the file.
    pub fn create(data: &[u8]) -> (r: Result<Header, DatabaseError>)
        ensures
            r == Header::parse(data@),
            r matches Ok(h) ==> h.wf(),
    {
        if data.len() < 1 {
            return Err(DatabaseError::TruncatedHeader);
        }
        let partitioned = data[0] != 0;
        let need: usize = if partitioned {
            53
        } else {
            51
        };
        if data.len() < need {
            return Err(DatabaseError::TruncatedHeader);
        }
        let partition_index: Option<u8> = if partitioned {
            Some(data[1])
        } else {
            None
        };
        let partitions: Option<u8> = if partitioned {
            Some(data[2])
        } else {
            None
        };
        let off: usize = if partitioned {
            3
        } else {
            1
        };
        let created_on = match data[off] {
            0u8 => DbDeviceOs::Linux,
            1u8 => DbDeviceOs::Windows,
            2u8 => DbDeviceOs::Mac,
            _ => DbDeviceOs::Unknown,
        };
        let last_open = read_u128_be(slice_subrange(data, off + 1, off + 17));
        let last_close = read_u128_be(slice_subrange(data, off + 17, off + 33));
        let last_write = read_u128_be(slice_subrange(data, off + 33, off + 49));
        let virtualization = data[off + 49] != 0;
        proof {
            let o = off as int;
            assert(data@.subrange(o + 1, o + 17).subrange(0, 16) =~= data@.subrange(o + 1, o + 17));
            assert(data@.subrange(o + 17, o + 33).subrange(0, 16) =~= data@.subrange(
                o + 17,
                o + 33,
            ));
            assert(data@.subrange(o + 33, o + 49).subrange(0, 16) =~= data@.subrange(
                o + 33,
                o + 49,
            ));
            lemma_pow256_16();
            lemma_be_val_bound(data@.subrange(o + 1, o + 17));
            lemma_be_val_bound(data@.subrange(o + 17, o + 33));
            lemma_be_val_bound(data@.subrange(o + 33, o + 49));
        }
        Ok(
            Header {
                partitioned,
                partition_index,
                partitions,
                created_on,
                last_open,
                last_close,
                last_write,
                virtualization,
            },
        )
    }

    /// Encodes this header into its wire bytes, the byte-exact inverse of
    /// [`Header::create`].
    pub fn encode(&self) -> (r: Vec<u8>)
        requires
            self.wf(),
        ensures
            r@ == self.encoding(),
            r@.len() == self.spec_byte_len(),
    {
        let mut out: Vec<u8> = Vec::new();
        if self.partitioned {
            out.push(1);
            let idx = match self.partition_index {
                Some(i) => i,
                None => 0,
            };
            let cnt = match self.partitions {
                Some(c) => c,
                None => 0,
            };
            out.push(idx);
            out.push(cnt);
        } else {
            out.push(0);
        }
        let tag: u8 = match self.created_on {
            DbDeviceOs::Linux => 0,
            DbDeviceOs::Windows => 1,
            DbDeviceOs::Mac => 2,
            DbDeviceOs::Unknown => 3,
        };
        out.push(tag);
        let mut ts = write_u128_be(self.last_open);
        out.append(&mut ts);
        let mut ts = write_u128_be(self.last_close);
        out.append(&mut ts);
        let mut ts = write_u128_be(self.last_write);
        out.append(&mut ts);
        out.push(if self.virtualization {
            1
        } else {
            0
        });
        proof {
            lemma_be_bytes_len(self.last_open as int, 16);
            lemma_be_bytes_len(self.last_close as int, 16);
            lemma_be_bytes_len(self.last_write as int, 16);
            assert(out@ =~= self.encoding());
        }
        out
    }
}

/// Decoding the encoding of any well-formed header from the head of any
/// byte string restores the header: trailing bytes are ignored.
pub proof fn lemma_header_parse_of_enc(h: Header, rest: Seq<u8>)
    requires
        h.wf(),
    ensures
        Header::parse(h.encoding() + rest) == Ok::<Header, DatabaseError>(h),
{
    let e = h.encoding() + rest;
    let o: int = if h.partitioned {
        3
    } else {
        1
    };
    lemma_be_bytes_len(h.last_open as int, 16);
    lemma_be_bytes_len(h.last_close as int, 16);
    lemma_be_bytes_len(h.last_write as int, 16);
    assert(h.encoding().len() == Header::wire_len(h.partitioned));
    assert(e.len() >= Header::wire_len(h.partitioned));
    assert(e.subrange(o + 1, o + 17) =~= be_bytes(h.last_open as int, 16));
    assert(e.subrange(o + 17, o + 33) =~= be_bytes(h.last_close as int, 16));
    assert(e.subrange(o + 33, o + 49) =~= be_bytes(h.last_write as int, 16));
    lemma_u128_round_trip(h.last_open);
    lemma_u128_round_trip(h.last_close);
    lemma_u128_round_trip(h.last_write);
    assert(e[0] == h.encoding()[0]);
}

/// Encoding then decoding restores any well-formed header.
pub proof fn lemma_header_round_trip(h: Header)
    requires
        h.wf(),
    ensures
        Header::parse(h.encoding()) == Ok::<Header, DatabaseError>(h),
{
    lemma_header_parse_of_enc(h, Seq::empty());
    assert(h.encoding() + Seq::<u8>::empty() =~= h.encoding());
}

/// The byte length a decoded header reports is exactly the count of bytes
/// decoding consumed: handing decode just that prefix of the input yields
/// the same header again.
pub proof fn lemma_header_byte_len_consumed(data: Seq<u8>, h: Header)
    requires
        Header::parse(data) == Ok::<Header, DatabaseError>(h),
    ensures
        h.spec_byte_len() <= data.len(),
        Header::parse(data.take(h.spec_byte_len())) == Ok::<Header, DatabaseError>(h),
{
    let n = h.spec_byte_len();
    let t = data.take(n);
    let o: int = if h.partitioned {
        3
    } else {
        1
    };
    assert(t[0] == data[0]);
    assert(t.subrange(o + 1, o + 17) =~= data.subrange(o + 1, o + 17));
    assert(t.subrange(o + 17, o + 33) =~= data.subrange(o + 17, o + 33));
    assert(t.subrange(o + 33, o + 49) =~= data.subrange(o + 33, o + 49));
}

impl crate::utils::GetByteLength for Header {
    /// The wire length of this header; see [`Header::byte_len`].
    fn byte_len(&self) -> usize {
        Header::byte_len(self)
    }
}

/// A key of the fully resident single-file engine.
pub struct Key {
    /// The name of the key.
    pub name: String,
    /// The ordinal of the value in the database.
    pub index: u64,
    /// The byte offset of the value in the database.
    pub offset: u64,
}


/// The engine behind a database handle: one fully resident byte body, or a
/// virtual database spread over partitions.
pub enum InternalDatabase {
    Single(Vec<u8>),
    Virtual(VirtualDatabase),
}

/// The top-level database handle: the file's preamble and header, the mode
/// chosen at open time, and the engine behind it.
pub struct Database {
    /// The opening preamble of the database file.
    pub preamble: Preamble,
    /// The header of the database file.
    pub header: Header,
    /// The mode of the database.  This build always selects
    /// [`DatabaseMode::Virtual`]; a fully resident single body is not
    /// supported.
    pub mode: DatabaseMode,
    /// The engine behind the handle.
    pub internal: InternalDatabase,
}

impl Database {
    /// A sound handle: supported preamble and header, and a sound engine in
    /// the matching mode.
    pub open spec fn wf(self) -> bool {
        &&& self.preamble.wf()
        &&& self.header.wf()
        &&& match self.internal {
            InternalDatabase::Virtual(v) => v.wf() && self.mode is Virtual,
            InternalDatabase::Single(_) => self.mode is Single,
        }
    }

    /// What opening a file's leading bytes yields: its preamble and header,
    /// or the first error.  The magic bytes are judged before anything
    /// else, then the version, the compression tag, the encryption flag
    /// (a plaintext body is an unsupported layout), the header, and the
    /// virtualization flag (a non-virtualized body is an unsupported
    /// layout).
    pub open spec fn open_parse(data: Seq<u8>) -> Result<(Preamble, Header), DatabaseError> {
        let cut: int = if data.len() < 20 {
            data.len() as int
        } else {
            20
        };
        match Preamble::parse(data.take(cut)) {
            Err(e) => Err(e),
            Ok(p) => if p.encryption == 0 {
                Err(DatabaseError::UnsupportedLayout)
            } else {
                match Header::parse(data.skip(20)) {
                    Err(e) => Err(e),
                    Ok(h) => if !h.virtualization {
                        Err(DatabaseError::UnsupportedLayout)
                    } else {
                        Ok((p, h))
                    },
                }
            },
        }
    }

    /// Opens a database from its file's leading bytes, as
    /// [`Database::open_parse`] says.  On success the handle is in
    /// [`DatabaseMode::Virtual`] mode, wrapping a virtual database with one
    /// uninitialized partition per declared ordinal; bytes past the header
    /// are not read here.
    pub fn open(data: &[u8]) -> (r: Result<Database, DatabaseError>)
        ensures
            match r {
                Ok(db) => {
                    &&& Database::open_parse(data@) == Ok::<(Preamble, Header), DatabaseError>(
                        (db.preamble, db.header),
                    )
                    &&& db.wf()
                    &&& db.mode is Virtual
                    &&& db.internal matches InternalDatabase::Virtual(v) && {
                        &&& v.parts@.len() == if db.header.partitioned {
                            db.header.partitions.unwrap() as int
                        } else {
                            0
                        }
                        &&& forall|i: int|
                            0 <= i < v.parts@.len() ==> !(#[trigger] v.parts@[i]).initialized
                    }
                },
                Err(e) => Database::open_parse(data@) == Err::<(Preamble, Header), DatabaseError>(
                    e,
                ),
            },
    {
        let cut: usize = if data.len() < 20 {
            data.len()
        } else {
            20
        };
        let preamble = match Preamble::create(slice_subrange(data, 0, cut)) {
            Ok(p) => p,
            Err(e) => {
                return Err(e);
            },
        };
        if !preamble.is_encrypted() {
            return Err(DatabaseError::UnsupportedLayout);
        }
        let header = match Header::create(slice_subrange(data, 20, data.len())) {
            Ok(h) => h,
            Err(e) => {
                proof {
                    assert(data@.subrange(20, data@.len() as int) =~= data@.skip(20));
                }
                return Err(e);
            },
        };
        proof {
            assert(data@.subrange(20, data@.len() as int) =~= data@.skip(20));
        }
        if !header.virtualization {
            return Err(DatabaseError::UnsupportedLayout);
        }
        let internal = InternalDatabase::Virtual(VirtualDatabase::new(&header));
        Ok(Database { preamble, header, mode: DatabaseMode::Virtual, internal })
    }

    /// Looks a key up, routing to the virtual database.  See
    /// [`VirtualDatabase::get`].
    pub fn get(&self, key_name: String) -> (r: Routing<Result<VirtualItem, DatabaseError>>)
        requires
            self.wf(),
        ensures
            match self.internal {
                InternalDatabase::Virtual(v) => match r {
                    Routing::NeedPartition(pid) => (pid as int) < v.parts@.len()
                        && !v.parts@[pid as int].initialized,
                    Routing::Ready(res) => match res {
                        Ok(item) => {
                            &&& item.key@ == key_name@
                            &&& v.db_has_name(key_name@)
                            &&& exists|i: int, e: int|
                                0 <= i < v.parts@.len() && (#[trigger] v.parts@[i]).initialized
                                    && 0 <= e < v.parts@[i].spec_entries().len() && (
                                #[trigger] v.parts@[i].spec_entries()[e]).0 == key_name@
                                    && item.data@ == v.parts@[i].spec_entries()[e].1
                                    && item.length == v.parts@[i].spec_entries()[e].1.len()
                        },
                        Err(e) => {
                            &&& e matches DatabaseError::KeyNotFound(nm) && nm@ == key_name@
                            &&& v.all_initialized()
                            &&& !v.db_has_name(key_name@)
                        },
                    },
                },
                InternalDatabase::Single(_) => r matches Routing::Ready(res) && res matches Err(e)
                    && e is UnsupportedLayout,
            },
    {
        match &self.internal {
            InternalDatabase::Virtual(v) => v.get(key_name),
            InternalDatabase::Single(_) => Routing::Ready(Err(DatabaseError::UnsupportedLayout)),
        }
    }

    /// Creates a brand-new key, routing to the virtual database; a name
    /// already present anywhere in the database is refused.  See
    /// [`VirtualDatabase::add`].
    pub fn new(&mut self, key_name: String, value: Vec<u8>) -> (r: Routing<Result<
        VirtualKey,
        DatabaseError,
    >>)
        requires
            old(self).wf(),
        ensures
            final(self).wf(),
            final(self).preamble == old(self).preamble,
            final(self).header == old(self).header,
            final(self).mode == old(self).mode,
            old(self).internal matches InternalDatabase::Virtual(v0) ==> (
            final(self).internal matches InternalDatabase::Virtual(v1) && {
                &&& v1.parts@.len() == v0.parts@.len()
                &&& match r {
                    Routing::NeedPartition(pid) => (pid as int) < v0.parts@.len()
                        && !v0.parts@[pid as int].initialized && v1 == v0,
                    Routing::Ready(res) => match res {
                        Ok(k) => {
                            &&& k.name@ == key_name@
                            &&& k.length == value@.len()
                            &&& !v0.db_has_name(key_name@)
                            &&& v1.db_has_name(key_name@)
                            &&& v1.db_value_matches(key_name@, value@)
                        },
                        Err(e) => v1 == v0 && match e {
                            DatabaseError::KeyAlreadyExists(nm) => nm@ == key_name@
                                && v0.db_has_name(key_name@),
                            DatabaseError::UnsupportedLayout => v0.parts@.len() == 0,
                            _ => false,
                        },
                    },
                }
            }),
            old(self).internal is Single ==> (r matches Routing::Ready(res) && res matches Err(e)
                && e is UnsupportedLayout && *final(self) == *old(self)),
    {
        match &mut self.internal {
            InternalDatabase::Virtual(v) => v.add(key_name, value),
            InternalDatabase::Single(_) => Routing::Ready(Err(DatabaseError::UnsupportedLayout)),
        }
    }

    /// Creates or overwrites a key, routing to the virtual database.  See
    /// [`VirtualDatabase::set`].
    pub fn update(&mut self, key_name: String, value: Vec<u8>) -> (r: Routing<Result<
        VirtualKey,
        DatabaseError,
    >>)
        requires
            old(self).wf(),
        ensures
            final(self).wf(),
            final(self).preamble == old(self).preamble,
            final(self).header == old(self).header,
            final(self).mode == old(self).mode,
            old(self).internal matches InternalDatabase::Virtual(v0) ==> (
            final(self).internal matches InternalDatabase::Virtual(v1) && {
                &&& v1.parts@.len() == v0.parts@.len()
                &&& match r {
                    Routing::NeedPartition(pid) => (pid as int) < v0.parts@.len()
                        && !v0.parts@[pid as int].initialized && v1 == v0,
                    Routing::Ready(res) => match res {
                        Ok(k) => {
                            &&& k.name@ == key_name@
                            &&& k.length == value@.len()
                            &&& v1.db_has_name(key_name@)
                            &&& v1.db_value_matches(key_name@, value@)
                        },
                        Err(e) => v1 == v0 && e is UnsupportedLayout && v0.parts@.len() == 0,
                    },
                }
            }),
            old(self).internal is Single ==> (r matches Routing::Ready(res) && res matches Err(e)
                && e is UnsupportedLayout && *final(self) == *old(self)),
    {
        match &mut self.internal {
            InternalDatabase::Virtual(v) => v.set(key_name, value),
            InternalDatabase::Single(_) => Routing::Ready(Err(DatabaseError::UnsupportedLayout)),
        }
    }

    /// Removes a key, routing to the virtual database.  See
    /// [`VirtualDatabase::remove`].
    pub fn remove(&mut self, key_name: String) -> (r: Routing<Result<bool, DatabaseError>>)
        requires
            old(self).wf(),
        ensures
            final(self).wf(),
            final(self).preamble == old(self).preamble,
            final(self).header == old(self).header,
            final(self).mode == old(self).mode,
            old(self).internal matches InternalDatabase::Virtual(v0) ==> (
            final(self).internal matches InternalDatabase::Virtual(v1) && {
                &&& v1.parts@.len() == v0.parts@.len()
                &&& match r {
                    Routing::NeedPartition(pid) => (pid as int) < v0.parts@.len()
                        && !v0.parts@[pid as int].initialized && v1 == v0,
                    Routing::Ready(res) => match res {
                        Ok(b) => b && v0.db_has_name(key_name@) && !v1.db_has_name(key_name@),
                        Err(e) => {
                            &&& v1 == v0
                            &&& e matches DatabaseError::KeyNotFound(nm) && nm@ == key_name@
                            &&& v0.all_initialized()
                            &&& !v0.db_has_name(key_name@)
                        },
                    },
                }
            }),
            old(self).internal is Single ==> (r matches Routing::Ready(res) && res matches Err(e)
                && e is UnsupportedLayout && *final(self) == *old(self)),
    {
        match &mut self.internal {
            InternalDatabase::Virtual(v) => v.remove(key_name),
            InternalDatabase::Single(_) => Routing::Ready(Err(DatabaseError::UnsupportedLayout)),
        }
    }

    /// Feeds a partition its file's bytes, answering a
    /// [`Routing::NeedPartition`].  See [`VirtualDatabase::init_partition`]:
    /// a no-op on an already-initialized partition; otherwise the bytes are
    /// validated, a duplicate name inside the file or a collision with
    /// another initialized partition is refused, and no error leaves any
    /// partition changed.
    pub fn init_partition(&mut self, idx: u8, data: &[u8]) -> (r: Result<(), DatabaseError>)
        requires
            old(self).wf(),
            old(self).internal matches InternalDatabase::Virtual(v0) ==> (idx as int)
                < v0.parts@.len(),
        ensures
            final(self).wf(),
            final(self).preamble == old(self).preamble,
            final(self).header == old(self).header,
            final(self).mode == old(self).mode,
            old(self).internal matches InternalDatabase::Virtual(v0) ==> (
            final(self).internal matches InternalDatabase::Virtual(v1) && {
                &&& v1.parts@.len() == v0.parts@.len()
                &&& v1.keys == v0.keys
                &&& forall|i: int|
                    0 <= i < v0.parts@.len() && i != idx as int ==> v1.parts@[i] == v0.parts@[i]
                &&& v1.parts@[idx as int].id == idx
                &&& v0.parts@[idx as int].initialized ==> r == Ok::<(), DatabaseError>(()) && v1
                    == v0
                &&& !v0.parts@[idx as int].initialized ==> match r {
                    Ok(_) => {
                        &&& v1.parts@[idx as int].initialized
                        &&& partition_parse(data@) matches Ok(t)
                            && v1.parts@[idx as int].spec_entries() == t.2
                    },
                    Err(e) => {
                        &&& !v1.parts@[idx as int].initialized
                        &&& v1.parts@[idx as int].spec_entries() == Seq::<
                            (Seq<char>, Seq<u8>),
                        >::empty()
                        &&& match partition_parse(data@) {
                            Err(pe) => e == pe,
                            Ok(t) => e matches DatabaseError::KeyAlreadyExists(nm) && (
                            has_dup_name(t.2, nm@) || (has_name(t.2, nm@) && v0.db_has_name(
                                nm@,
                            ))),
                        }
                    },
                }
            }),
            old(self).internal is Single ==> (r matches Err(e) && e is UnsupportedLayout
                && *final(self) == *old(self)),
    {
        match &mut self.internal {
            InternalDatabase::Virtual(v) => v.init_partition(idx, data),
            InternalDatabase::Single(_) => Err(DatabaseError::UnsupportedLayout),
        }
    }
}

/// Any input of at least sixteen bytes whose head is not the magic literal
/// fails to open as not being this format, whatever the remaining bytes
/// hold.
pub proof fn lemma_open_magic_gate(data: Seq<u8>)
    requires
        data.len() >= 16,
        data.subrange(0, 16) != crate::magic_bytes(),
    ensures
        Database::open_parse(data) == Err::<(Preamble, Header), DatabaseError>(
            DatabaseError::InvalidFormat,
        ),
{
    let cut: int = if data.len() < 20 {
        data.len() as int
    } else {
        20
    };
    assert(data.take(cut).subrange(0, 16) =~= data.subrange(0, 16));
}

/// With the magic in place, any version other than `100` fails to open as
/// unsupported, and the error carries that version, whatever the remaining
/// bytes hold.
pub proof fn lemma_open_version_gate(data: Seq<u8>)
    requires
        data.len() >= 20,
        data.subrange(0, 16) == crate::magic_bytes(),
        be_val(data.subrange(16, 18)) != 100,
    ensures
        Database::open_parse(data) == Err::<(Preamble, Header), DatabaseError>(
            DatabaseError::UnsupportedVersion(be_val(data.subrange(16, 18)) as u16),
        ),
{
    assert(data.take(20).subrange(0, 16) =~= data.subrange(0, 16));
    assert(data.take(20).subrange(16, 18) =~= data.subrange(16, 18));
}

} // verus!
