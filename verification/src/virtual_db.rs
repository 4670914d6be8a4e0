//! Partitions and the virtual database that routes key operations across
//! them.
//!
//! A partition is one physical file: its own preamble and header, then a
//! value region.  A partition starts *uninitialized* — a bare descriptor, no
//! bytes read — and becomes *initialized* once its file's bytes are handed to
//! [`Partition::init`], which validates the embedded preamble and header and
//! decodes the value region.  The transition is one-way, and initializing
//! again is a no-op.
//!
//! The virtual database owns one partition per declared ordinal.  Operations
//! that need a partition that is still uninitialized do not fail: they return
//! [`Routing::NeedPartition`], and the caller feeds that partition's file
//! bytes to [`VirtualDatabase::init_partition`] and retries.  That keeps all
//! file handling outside the engine while the engine keeps every decision.

use crate::db::Header;
use crate::preamble::Preamble;
use crate::region::block_record;
use crate::region::blocks_enc;
use crate::region::decode_region;
use crate::region::directory_enc;
use crate::region::encode_region;
use crate::region::entries_view;
use crate::region::lemma_blocks_enc_concat;
use crate::region::lemma_directory_enc_concat;
use crate::region::lemma_region_enc_of_parse;
use crate::region::name_record;
use crate::region::names_of;
use crate::region::region_enc;
use crate::region::region_parse;
use crate::region::values_of;
use crate::region::PartitionEntry;
use crate::DatabaseError;
use vstd::prelude::*;
use vstd::slice::slice_subrange;
use vstd::slice::slice_to_vec;

verus! {

/// A virtual item: the materialized value handed back for one key.  It is a
/// single-use result; callers that need the bytes past the next operation
/// copy them.
#[derive(Debug)]
pub struct VirtualItem {
    /// The name the item is stored under.
    pub key: String,
    /// Where the item lives in the database.
    pub location: VirtualLocation,
    /// The length of the value in bytes.
    pub length: usize,
    /// The value bytes.
    pub data: Vec<u8>,
}

/// A directory entry: a name, where its value lives, and how long the value
/// is.
#[derive(Debug)]
pub struct VirtualKey {
    /// The name of the key.
    pub name: String,
    /// Where the value lives in the database.
    pub location: VirtualLocation,
    /// The length of the value in bytes.
    pub length: usize,
}

/// An address in the virtual database: the owning partition, the byte offset
/// of the value block inside that partition's value region (the fast path),
/// and the entry's ordinal in the partition's directory (slower, but stable
/// where raw offsets would shift).
#[derive(Debug, Clone, Copy, PartialEq, Eq, Structural)]
pub struct VirtualLocation {
    /// The ordinal of the partition that owns the value.
    pub id: u64,
    /// The byte offset of the value block, relative to the start of the
    /// partition's value region.  The block's sixteen-byte length prefix
    /// sits at this offset, followed by the value bytes.
    pub offset: u64,
    /// The ordinal of the entry within the partition's directory.
    pub index: u64,
}

impl VirtualLocation {
    /// A fresh location, pointing at the first entry of partition zero.
    pub fn new() -> (r: Self)
        ensures
            r == (VirtualLocation { id: 0u64, offset: 0u64, index: 0u64 }),
    {
        VirtualLocation { id: 0, offset: 0, index: 0 }
    }
}

/// No two entries share a name.
pub open spec fn unique_names(entries: Seq<(Seq<char>, Seq<u8>)>) -> bool {
    forall|i: int, j: int|
        0 <= i < j < entries.len() ==> (#[trigger] entries[i]).0 != (#[trigger] entries[j]).0
}

/// Some entry carries this name.
pub open spec fn has_name(entries: Seq<(Seq<char>, Seq<u8>)>, name: Seq<char>) -> bool {
    exists|i: int| 0 <= i < entries.len() && (#[trigger] entries[i]).0 == name
}

/// Two distinct entries both carry this name.
pub open spec fn has_dup_name(entries: Seq<(Seq<char>, Seq<u8>)>, name: Seq<char>) -> bool {
    exists|i: int, j: int|
        0 <= i < j < entries.len() && (#[trigger] entries[i]).0 == name && (#[trigger] entries[j]).0
            == name
}

/// The byte offset, relative to the start of the value region, of the value
/// block of entry `i`: past the count, the whole directory, and the blocks
/// of the entries before it.
pub open spec fn block_offset(entries: Seq<(Seq<char>, Seq<u8>)>, i: int) -> int {
    16 + directory_enc(names_of(entries)).len() as int + blocks_enc(
        values_of(entries).take(i),
    ).len() as int
}

/// What decoding a whole partition file yields: its preamble, its header and
/// its entries, or the first error.  A plaintext body or a non-virtualized
/// header is a layout this build does not support.
pub open spec fn partition_parse(data: Seq<u8>) -> Result<
    (Preamble, Header, Seq<(Seq<char>, Seq<u8>)>),
    DatabaseError,
> {
    let cut: int = if data.len() < 20 {
        data.len() as int
    } else {
        20
    };
    match Preamble::parse(data.take(cut)) {
        Err(e) => Err(e),
        Ok(p) => if p.encryption == 0 {
            Err(DatabaseError::UnsupportedLayout)
        } else {
            match Header::parse(data.skip(20)) {
                Err(e) => Err(e),
                Ok(h) => if !h.virtualization {
                    Err(DatabaseError::UnsupportedLayout)
                } else {
                    match region_parse(data.skip(20 + h.spec_byte_len())) {
                        Err(e) => Err(e),
                        Ok(es) => Ok((p, h, es)),
                    }
                },
            }
        },
    }
}

/// One partition of the database: a descriptor for one physical file.
///
/// The partition id is not stored inside the file; it comes from the file's
/// name, so the descriptor carries it from construction on.
pub struct Partition {
    /// The partition's ordinal.
    pub id: u8,
    /// The byte length of the partition's value region.
    pub length: usize,
    /// Whether the partition's file has been read and validated.  Key
    /// operations demand this; [`Partition::init`] establishes it, once.
    pub initialized: bool,
    /// The embedded preamble, once initialized.
    pub preamble: Option<Preamble>,
    /// The embedded header, once initialized.
    pub header: Option<Header>,
    /// The byte offset where the value region begins: the preamble's and the
    /// header's lengths.  Immutable once initialized.
    pub start: usize,
    /// The decoded entries of the value region, in directory order.
    pub entries: Vec<PartitionEntry>,
}

impl Partition {
    /// The entries this partition holds, in directory order.
    pub open spec fn spec_entries(self) -> Seq<(Seq<char>, Seq<u8>)> {
        entries_view(self.entries@)
    }

    /// The embedded preamble, once initialized.
    pub open spec fn spec_preamble(self) -> Option<Preamble> {
        self.preamble
    }

    /// The embedded header, once initialized.
    pub open spec fn spec_header(self) -> Option<Header> {
        self.header
    }

    /// The byte offset where the value region begins.
    pub open spec fn spec_start(self) -> int {
        self.start as int
    }

    /// A sound partition: an uninitialized one is a bare descriptor; an
    /// initialized one holds a supported preamble and header, entries with
    /// pairwise distinct names, and a value region that fits in memory.
    pub open spec fn wf(self) -> bool {
        &&& !self.initialized ==> self.spec_entries().len() == 0
        &&& self.initialized ==> {
            &&& self.preamble is Some
            &&& self.header is Some
            &&& self.preamble.unwrap().wf()
            &&& self.preamble.unwrap().encryption != 0
            &&& self.header.unwrap().wf()
            &&& self.header.unwrap().virtualization
            &&& self.start == 20 + self.header.unwrap().spec_byte_len()
            &&& unique_names(self.spec_entries())
            &&& region_enc(self.spec_entries()).len() <= usize::MAX
            &&& self.length == region_enc(self.spec_entries()).len()
        }
    }

    /// A bare descriptor for partition `id`: nothing read, nothing known.
    pub fn new(id: u8) -> (r: Self)
        ensures
            r.id == id,
            !r.initialized,
            r.start == 0,
            r.length == 0,
            r.wf(),
            r.spec_entries() == Seq::<(Seq<char>, Seq<u8>)>::empty(),
    {
        let r = Partition {
            id,
            length: 0,
            initialized: false,
            preamble: None,
            header: None,
            start: 0,
            entries: Vec::new(),
        };
        proof {
            assert(r.spec_entries() =~= Seq::<(Seq<char>, Seq<u8>)>::empty());
        }
        r
    }

    /// Initializes the partition from its file's bytes: validates the
    /// embedded preamble and header, refuses unsupported layouts, decodes
    /// the value region, and refuses a directory with a repeated name.  On
    /// an initialized partition this is a no-op: the bytes are not looked
    /// at, and `start` is not touched.
    pub fn init(&mut self, data: &[u8]) -> (r: Result<(), DatabaseError>)
        requires
            old(self).wf(),
        ensures
            final(self).wf(),
            final(self).id == old(self).id,
            old(self).initialized ==> r == Ok::<(), DatabaseError>(()) && *final(self) == *old(
                self,
            ),
            !old(self).initialized ==> match r {
                Ok(_) => {
                    &&& partition_parse(data@) matches Ok(t) && {
                        &&& final(self).spec_preamble() == Some(t.0)
                        &&& final(self).spec_header() == Some(t.1)
                        &&& final(self).spec_entries() == t.2
                        &&& unique_names(t.2)
                    }
                    &&& final(self).initialized
                },
                Err(e) => {
                    &&& *final(self) == *old(self)
                    &&& match partition_parse(data@) {
                        Err(pe) => e == pe,
                        Ok(t) => !unique_names(t.2) && (e matches DatabaseError::KeyAlreadyExists(
                            nm,
                        ) && has_dup_name(t.2, nm@)),
                    }
                },
            },
    {
        if self.initialized {
            return Ok(());
        }
        let cut: usize = if data.len() < 20 {
            data.len()
        } else {
            20
        };
        let preamble = match Preamble::create(slice_subrange(data, 0, cut)) {
            Ok(p) => p,
            Err(e) => {
                return Err(e);
            },
        };
        if !preamble.is_encrypted() {
            return Err(DatabaseError::UnsupportedLayout);
        }
        let header = match Header::create(slice_subrange(data, 20, data.len())) {
            Ok(h) => h,
            Err(e) => {
                proof {
                    assert(data@.subrange(20, data@.len() as int) =~= data@.skip(20));
                }
                return Err(e);
            },
        };
        proof {
            assert(data@.subrange(20, data@.len() as int) =~= data@.skip(20));
        }
        if !header.virtualization {
            return Err(DatabaseError::UnsupportedLayout);
        }
        let start = 20 + header.byte_len();
        let entries = match decode_region(slice_subrange(data, start, data.len())) {
            Ok(es) => es,
            Err(e) => {
                proof {
                    assert(data@.subrange(start as int, data@.len() as int) =~= data@.skip(
                        start as int,
                    ));
                }
                return Err(e);
            },
        };
        proof {
            assert(data@.subrange(start as int, data@.len() as int) =~= data@.skip(start as int));
        }
        let ghost t = (preamble, header, entries_view(entries@));
        proof {
            assert(partition_parse(data@) == Ok::<
                (Preamble, Header, Seq<(Seq<char>, Seq<u8>)>),
                DatabaseError,
            >(t));
        }
        let m = entries.len();
        let mut i: usize = 0;
        while i < m
            invariant
                *self == *old(self),
                !old(self).initialized,
                old(self).wf(),
                m == entries@.len(),
                0 <= i <= m,
                t == (preamble, header, entries_view(entries@)),
                partition_parse(data@) == Ok::<
                    (Preamble, Header, Seq<(Seq<char>, Seq<u8>)>),
                    DatabaseError,
                >(t),
                forall|k: int, l: int|
                    0 <= k < l < m && k < i ==> (#[trigger] entries_view(entries@)[k]).0 != (
                    #[trigger] entries_view(entries@)[l]).0,
            decreases m - i,
        {
            let mut j: usize = i + 1;
            while j < m
                invariant
                    *self == *old(self),
                    !old(self).initialized,
                    old(self).wf(),
                    m == entries@.len(),
                    0 <= i < m,
                    i < j <= m,
                    t == (preamble, header, entries_view(entries@)),
                    partition_parse(data@) == Ok::<
                        (Preamble, Header, Seq<(Seq<char>, Seq<u8>)>),
                        DatabaseError,
                    >(t),
                    forall|l: int|
                        i < l < j ==> (#[trigger] entries_view(entries@)[l]).0 != entries_view(
                            entries@,
                        )[i as int].0,
                decreases m - j,
            {
                if entries[i].name == entries[j].name {
                    proof {
                        let ev = entries_view(entries@);
                        let nm = entries@[i as int].name@;
                        assert(ev[i as int].0 == nm);
                        assert(ev[j as int].0 == nm);
                        assert(has_dup_name(ev, nm));
                        assert(!unique_names(ev));
                    }
                    return Err(DatabaseError::KeyAlreadyExists(entries[i].name.clone()));
                }
                j = j + 1;
            }
            i = i + 1;
        }
        let region_len = data.len() - start;
        proof {
            lemma_region_enc_of_parse(data@.skip(start as int), entries_view(entries@));
        }
        self.preamble = Some(preamble);
        self.header = Some(header);
        self.start = start;
        self.length = region_len;
        self.entries = entries;
        self.initialized = true;
        Ok(())
    }

    /// Whether this partition's directory holds the given name.
    #[verifier::loop_isolation(false)]
    pub fn contains_key(&self, key_name: &String) -> (r: bool)
        requires
            self.initialized,
        ensures
            r == has_name(self.spec_entries(), key_name@),
    {
        let n = self.entries.len();
        let mut i: usize = 0;
        while i < n
            invariant
                0 <= i <= n,
                forall|j: int| 0 <= j < i ==> (#[trigger] self.spec_entries()[j]).0 != key_name@,
            decreases n - i,
        {
            proof {
                assert(self.spec_entries()[i as int] == self.entries@[i as int]@);
            }
            if self.entries[i].name == *key_name {
                proof {
                    assert(self.spec_entries()[i as int].0 == key_name@);
                }
                return true;
            }
            i = i + 1;
        }
        false
    }

    /// Re-derives the complete directory of this partition, in on-disk
    /// order: one key per entry, addressed by this partition's ordinal, the
    /// entry's ordinal, and the byte offset of its value block.  Nothing is
    /// cached: the directory is recomputed on every call.
    #[verifier::loop_isolation(false)]
    #[verifier::rlimit(10)]
    pub fn fetch_keys(&self) -> (r: Vec<VirtualKey>)
        requires
            self.wf(),
            self.initialized,
        ensures
            r@.len() == self.spec_entries().len(),
            forall|k: int|
                0 <= k < r@.len() ==> {
                    &&& (#[trigger] r@[k]).name@ == self.spec_entries()[k].0
                    &&& r@[k].length == self.spec_entries()[k].1.len()
                    &&& r@[k].location.id == self.id as u64
                    &&& r@[k].location.index == k
                    &&& r@[k].location.offset == block_offset(self.spec_entries(), k)
                },
    {
        let ghost ev = self.spec_entries();
        let n = self.entries.len();
        proof {
            assert(names_of(ev).take(n as int) =~= names_of(ev));
            assert(values_of(ev).take(n as int) =~= values_of(ev));
            assert(names_of(ev).take(0) =~= Seq::<Seq<char>>::empty());
            assert(directory_enc(Seq::<Seq<char>>::empty()) == Seq::<u8>::empty());
        }
        proof {
            crate::wire::lemma_be_bytes_len(ev.len() as int, 16);
            assert(region_enc(ev).len() == 16 + directory_enc(names_of(ev)).len() + blocks_enc(
                values_of(ev),
            ).len());
        }
        let mut dir_len: usize = 0;
        let mut i: usize = 0;
        while i < n
            invariant
                0 <= i <= n,
                dir_len as int == directory_enc(names_of(ev).take(i as int)).len(),
                dir_len <= region_enc(ev).len(),
            decreases n - i,
        {
            let nb_len = self.entries[i].name.as_str().as_bytes().len();
            proof {
                let names = names_of(ev);
                let x = names[i as int];
                assert(ev[i as int] == self.entries@[i as int]@);
                assert(x == ev[i as int].0);
                lemma_directory_enc_concat(names.take(i as int), seq![x]);
                assert(names.take(i + 1) =~= names.take(i as int) + seq![x]);
                assert(seq![x].drop_first() =~= Seq::<Seq<char>>::empty());
                assert(seq![x].first() == x);
                assert(directory_enc(seq![x]) == name_record(x) + Seq::<u8>::empty());
                assert(name_record(x) + Seq::<u8>::empty() =~= name_record(x));
                crate::wire::lemma_be_bytes_len(nb_len as int, 16);
                assert(name_record(x).len() == 16 + nb_len);
                lemma_directory_enc_concat(names.take(i + 1), names.skip(i + 1));
                assert(names.take(i + 1) + names.skip(i + 1) =~= names);
                assert(directory_enc(names.take(i + 1)).len() <= directory_enc(names).len());
            }
            dir_len = dir_len + 16 + nb_len;
            i = i + 1;
        }
        proof {
            assert(values_of(ev).take(0) =~= Seq::<Seq<u8>>::empty());
            assert(blocks_enc(Seq::<Seq<u8>>::empty()) == Seq::<u8>::empty());
            assert(block_offset(ev, 0) == 16 + dir_len);
        }
        let mut keys: Vec<VirtualKey> = Vec::new();
        let mut off: usize = 16 + dir_len;
        let mut i: usize = 0;
        while i < n
            invariant
                0 <= i <= n,
                keys@.len() == i,
                off as int == block_offset(ev, i as int),
                off <= region_enc(ev).len(),
                forall|k: int|
                    0 <= k < i ==> {
                        &&& (#[trigger] keys@[k]).name@ == ev[k].0
                        &&& keys@[k].length == ev[k].1.len()
                        &&& keys@[k].location.id == self.id as u64
                        &&& keys@[k].location.index == k
                        &&& keys@[k].location.offset == block_offset(ev, k)
                    },
            decreases n - i,
        {
            let e_len = self.entries[i].data.len();
            let key = VirtualKey {
                name: self.entries[i].name.clone(),
                location: VirtualLocation { id: self.id as u64, offset: off as u64, index: i as u64 },
                length: e_len,
            };
            keys.push(key);
            proof {
                let values = values_of(ev);
                let x = values[i as int];
                assert(ev[i as int] == self.entries@[i as int]@);
                assert(x == ev[i as int].1);
                lemma_blocks_enc_concat(values.take(i as int), seq![x]);
                assert(values.take(i + 1) =~= values.take(i as int) + seq![x]);
                assert(seq![x].drop_first() =~= Seq::<Seq<u8>>::empty());
                assert(seq![x].first() == x);
                assert(blocks_enc(seq![x]) == block_record(x) + Seq::<u8>::empty());
                assert(block_record(x) + Seq::<u8>::empty() =~= block_record(x));
                crate::wire::lemma_be_bytes_len(e_len as int, 16);
                assert(block_record(x).len() == 16 + e_len);
                lemma_blocks_enc_concat(values.take(i + 1), values.skip(i + 1));
                assert(values.take(i + 1) + values.skip(i + 1) =~= values);
                assert(blocks_enc(values.take(i + 1)).len() <= blocks_enc(values).len());
            }
            off = off + 16 + e_len;
            i = i + 1;
        }
        keys
    }

    /// Looks the named key up in this partition and materializes its value.
    /// The directory is re-derived for the call; nothing is cached.  An
    /// absent name is the benign [`DatabaseError::KeyNotFound`] outcome.
    #[verifier::loop_isolation(false)]
    pub fn get(&self, key_name: String) -> (r: Result<VirtualItem, DatabaseError>)
        requires
            self.wf(),
            self.initialized,
        ensures
            r is Ok <==> has_name(self.spec_entries(), key_name@),
            match r {
                Ok(item) => {
                    &&& item.key@ == key_name@
                    &&& exists|i: int|
                        {
                            &&& 0 <= i < self.spec_entries().len()
                            &&& (#[trigger] self.spec_entries()[i]).0 == key_name@
                            &&& item.data@ == self.spec_entries()[i].1
                            &&& item.length == self.spec_entries()[i].1.len()
                            &&& item.location.id == self.id as u64
                            &&& item.location.index == i
                            &&& item.location.offset == block_offset(self.spec_entries(), i)
                            &&& forall|j: int|
                                0 <= j < i ==> (#[trigger] self.spec_entries()[j]).0 != key_name@
                        }
                },
                Err(e) => {
                    &&& e matches DatabaseError::KeyNotFound(nm) && nm@ == key_name@
                    &&& !has_name(self.spec_entries(), key_name@)
                },
            },
    {
        let keys = self.fetch_keys();
        let n = self.entries.len();
        let mut i: usize = 0;
        while i < n
            invariant
                0 <= i <= n,
                forall|j: int| 0 <= j < i ==> (#[trigger] self.spec_entries()[j]).0 != key_name@,
            decreases n - i,
        {
            proof {
                assert(self.spec_entries()[i as int] == self.entries@[i as int]@);
            }
            if self.entries[i].name == key_name {
                let data = slice_to_vec(self.entries[i].data.as_slice());
                let length = data.len();
                let location = keys[i].location;
                proof {
                    assert(self.spec_entries()[i as int].0 == key_name@);
                }
                return Ok(VirtualItem { key: key_name, location, length, data });
            }
            i = i + 1;
        }
        Err(DatabaseError::KeyNotFound(key_name))
    }

    /// Adds a brand-new key to this partition, appending its value block at
    /// the end of the value region.  The one operation with a uniqueness
    /// precondition: a name already present in this partition is refused
    /// with [`DatabaseError::KeyAlreadyExists`].  Whether the name is free
    /// elsewhere in the database is the virtual database's concern.
    #[verifier::loop_isolation(false)]
    pub fn add(&mut self, key_name: String, value: Vec<u8>) -> (r: Result<
        VirtualKey,
        DatabaseError,
    >)
        requires
            old(self).wf(),
            old(self).initialized,
        ensures
            final(self).wf(),
            final(self).initialized,
            final(self).id == old(self).id,
            final(self).preamble == old(self).preamble,
            final(self).header == old(self).header,
            final(self).start == old(self).start,
            r is Ok <==> !has_name(old(self).spec_entries(), key_name@),
            match r {
                Ok(k) => {
                    &&& final(self).spec_entries() == old(self).spec_entries().push(
                        (key_name@, value@),
                    )
                    &&& k.name@ == key_name@
                    &&& k.length == value@.len()
                    &&& k.location.id == old(self).id as u64
                    &&& k.location.index == old(self).spec_entries().len()
                    &&& k.location.offset == block_offset(
                        final(self).spec_entries(),
                        old(self).spec_entries().len() as int,
                    )
                },
                Err(e) => {
                    &&& e matches DatabaseError::KeyAlreadyExists(nm) && nm@ == key_name@
                    &&& *final(self) == *old(self)
                },
            },
    {
        let ghost kn = key_name@;
        let ghost vv = value@;
        let ghost oldev = self.spec_entries();
        let n = self.entries.len();
        let mut i: usize = 0;
        while i < n
            invariant
                0 <= i <= n,
                forall|j: int| 0 <= j < i ==> (#[trigger] self.spec_entries()[j]).0 != kn,
            decreases n - i,
        {
            proof {
                assert(self.spec_entries()[i as int] == self.entries@[i as int]@);
            }
            if self.entries[i].name == key_name {
                proof {
                    assert(self.spec_entries()[i as int].0 == kn);
                }
                return Err(DatabaseError::KeyAlreadyExists(key_name));
            }
            i = i + 1;
        }
        self.entries.push(PartitionEntry { name: key_name, data: value });
        let encoded = encode_region(&self.entries);
        self.length = encoded.len();
        proof {
            assert(self.spec_entries() =~= oldev.push((kn, vv)));
            assert forall|a: int, b: int| 0 <= a < b < self.spec_entries().len() implies (
            self.spec_entries()[a]).0 != (self.spec_entries()[b]).0 by {
                if b < oldev.len() {
                    assert(oldev[a].0 != oldev[b].0);
                } else {
                    assert(self.spec_entries()[b].0 == kn);
                    assert(self.spec_entries()[a].0 == oldev[a].0);
                }
            }
        }
        let mut keys = self.fetch_keys();
        let k = match keys.pop() {
            Some(k) => k,
            None => {
                proof {
                    assert(false);
                }
                return Err(DatabaseError::TruncatedHeader);
            },
        };
        Ok(k)
    }

    /// Sets a key to a value: overwrites the value in place when the key is
    /// present, appends a fresh entry when it is not.  Create-or-overwrite
    /// always succeeds.
    #[verifier::loop_isolation(false)]
    pub fn set(&mut self, key_name: String, value: Vec<u8>) -> (r: Result<
        VirtualKey,
        DatabaseError,
    >)
        requires
            old(self).wf(),
            old(self).initialized,
        ensures
            final(self).wf(),
            final(self).initialized,
            final(self).id == old(self).id,
            final(self).preamble == old(self).preamble,
            final(self).header == old(self).header,
            final(self).start == old(self).start,
            match r {
                Ok(k) => {
                    &&& k.name@ == key_name@
                    &&& k.length == value@.len()
                    &&& k.location.id == old(self).id as u64
                    &&& has_name(old(self).spec_entries(), key_name@) ==> exists|i: int|
                        {
                            &&& 0 <= i < old(self).spec_entries().len()
                            &&& (#[trigger] old(self).spec_entries()[i]).0 == key_name@
                            &&& forall|j: int|
                                0 <= j < i ==> (#[trigger] old(self).spec_entries()[j]).0
                                    != key_name@
                            &&& final(self).spec_entries() == old(self).spec_entries().update(
                                i,
                                (key_name@, value@),
                            )
                            &&& k.location.index == i
                            &&& k.location.offset == block_offset(final(self).spec_entries(), i)
                        }
                    &&& !has_name(old(self).spec_entries(), key_name@) ==> {
                        &&& final(self).spec_entries() == old(self).spec_entries().push(
                            (key_name@, value@),
                        )
                        &&& k.location.index == old(self).spec_entries().len()
                        &&& k.location.offset == block_offset(
                            final(self).spec_entries(),
                            old(self).spec_entries().len() as int,
                        )
                    }
                },
                Err(_) => false,
            },
    {
        let ghost kn = key_name@;
        let ghost vv = value@;
        let ghost oldev = self.spec_entries();
        let n = self.entries.len();
        let mut i: usize = 0;
        while i < n
            invariant
                *self == *old(self),
                n == self.entries@.len(),
                0 <= i <= n,
                forall|j: int| 0 <= j < i ==> (#[trigger] self.spec_entries()[j]).0 != kn,
            decreases n - i,
        {
            proof {
                assert(self.spec_entries()[i as int] == self.entries@[i as int]@);
            }
            if self.entries[i].name == key_name {
                proof {
                    assert(self.spec_entries()[i as int].0 == kn);
                }
                let old_entry = self.entries.remove(i);
                self.entries.insert(i, PartitionEntry { name: old_entry.name, data: value });
                let encoded = encode_region(&self.entries);
                self.length = encoded.len();
                proof {
                    assert(self.spec_entries() =~= oldev.update(i as int, (kn, vv)));
                    assert forall|a: int, b: int|
                        0 <= a < b < self.spec_entries().len() implies (
                    self.spec_entries()[a]).0 != (self.spec_entries()[b]).0 by {
                        assert(self.spec_entries()[a].0 == oldev[a].0);
                        assert(self.spec_entries()[b].0 == oldev[b].0);
                        assert(oldev[a].0 != oldev[b].0);
                    }
                }
                let mut keys = self.fetch_keys();
                let k = keys.remove(i);
                return Ok(k);
            }
            i = i + 1;
        }
        self.entries.push(PartitionEntry { name: key_name, data: value });
        let encoded = encode_region(&self.entries);
        self.length = encoded.len();
        proof {
            assert(self.spec_entries() =~= oldev.push((kn, vv)));
            assert forall|a: int, b: int| 0 <= a < b < self.spec_entries().len() implies (
            self.spec_entries()[a]).0 != (self.spec_entries()[b]).0 by {
                if b < oldev.len() {
                    assert(oldev[a].0 != oldev[b].0);
                } else {
                    assert(self.spec_entries()[b].0 == kn);
                    assert(self.spec_entries()[a].0 == oldev[a].0);
                }
            }
        }
        let mut keys = self.fetch_keys();
        let k = match keys.pop() {
            Some(k) => k,
            None => {
                proof {
                    assert(false);
                }
                return Err(DatabaseError::TruncatedHeader);
            },
        };
        Ok(k)
    }

    /// Removes a key and its directory entry.  The value bytes do not
    /// survive in the region; compaction is not this engine's concern
    /// beyond that.  An absent name is the benign
    /// [`DatabaseError::KeyNotFound`] outcome.
    #[verifier::loop_isolation(false)]
    pub fn remove(&mut self, key_name: String) -> (r: Result<bool, DatabaseError>)
        requires
            old(self).wf(),
            old(self).initialized,
        ensures
            final(self).wf(),
            final(self).initialized,
            final(self).id == old(self).id,
            final(self).preamble == old(self).preamble,
            final(self).header == old(self).header,
            final(self).start == old(self).start,
            r is Ok <==> has_name(old(self).spec_entries(), key_name@),
            match r {
                Ok(b) => {
                    &&& b
                    &&& exists|i: int|
                        {
                            &&& 0 <= i < old(self).spec_entries().len()
                            &&& (#[trigger] old(self).spec_entries()[i]).0 == key_name@
                            &&& forall|j: int|
                                0 <= j < i ==> (#[trigger] old(self).spec_entries()[j]).0
                                    != key_name@
                            &&& final(self).spec_entries() == old(self).spec_entries().remove(i)
                        }
                    &&& !has_name(final(self).spec_entries(), key_name@)
                },
                Err(e) => {
                    &&& e matches DatabaseError::KeyNotFound(nm) && nm@ == key_name@
                    &&& !has_name(old(self).spec_entries(), key_name@)
                    &&& *final(self) == *old(self)
                },
            },
    {
        let ghost kn = key_name@;
        let ghost oldev = self.spec_entries();
        let n = self.entries.len();
        let mut i: usize = 0;
        while i < n
            invariant
                *self == *old(self),
                n == self.entries@.len(),
                0 <= i <= n,
                forall|j: int| 0 <= j < i ==> (#[trigger] self.spec_entries()[j]).0 != kn,
            decreases n - i,
        {
            proof {
                assert(self.spec_entries()[i as int] == self.entries@[i as int]@);
            }
            if self.entries[i].name == key_name {
                proof {
                    assert(self.spec_entries()[i as int].0 == kn);
                }
                let removed = self.entries.remove(i);
                let encoded = encode_region(&self.entries);
                self.length = encoded.len();
                proof {
                    assert(self.spec_entries() =~= oldev.remove(i as int));
                    assert forall|a: int, b: int|
                        0 <= a < b < self.spec_entries().len() implies (
                    self.spec_entries()[a]).0 != (self.spec_entries()[b]).0 by {
                        let ao: int = if a < i {
                            a
                        } else {
                            a + 1
                        };
                        let bo: int = if b < i {
                            b
                        } else {
                            b + 1
                        };
                        assert(self.spec_entries()[a] == oldev[ao]);
                        assert(self.spec_entries()[b] == oldev[bo]);
                        assert(oldev[ao].0 != oldev[bo].0);
                    }
                    assert forall|j: int| 0 <= j < self.spec_entries().len() implies (
                    self.spec_entries()[j]).0 != kn by {
                        let jo: int = if j < i {
                            j
                        } else {
                            j + 1
                        };
                        assert(self.spec_entries()[j] == oldev[jo]);
                        if jo != i {
                            assert(oldev[jo].0 != oldev[i as int].0);
                        }
                    }
                }
                return Ok(true);
            }
            i = i + 1;
        }
        Err(DatabaseError::KeyNotFound(key_name))
    }

    /// Encodes this partition back into its file's bytes: the preamble, the
    /// header, and the value region.
    pub fn encode(&self) -> (r: Vec<u8>)
        requires
            self.wf(),
            self.initialized,
        ensures
            r@ == self.spec_preamble().unwrap().encoding() + self.spec_header().unwrap().encoding()
                + region_enc(self.spec_entries()),
    {
        let preamble = match &self.preamble {
            Some(p) => *p,
            None => Preamble::new(),
        };
        let mut out = preamble.encode();
        let mut hb = match &self.header {
            Some(h) => h.encode(),
            None => Vec::new(),
        };
        out.append(&mut hb);
        let mut rb = encode_region(&self.entries);
        out.append(&mut rb);
        out
    }
}


/// The outcome of routing a key operation: either the operation ran to its
/// result, or it first needs the named partition initialized.  The caller
/// reads that partition's file, hands the bytes to
/// [`VirtualDatabase::init_partition`], and retries.
pub enum Routing<T> {
    /// The operation ran; here is its result.
    Ready(T),
    /// The partition with this ordinal must be initialized first.
    NeedPartition(u8),
}

/// No entry of `a` shares its name with an entry of `b`.
pub open spec fn no_overlap(a: Seq<(Seq<char>, Seq<u8>)>, b: Seq<(Seq<char>, Seq<u8>)>) -> bool {
    forall|k: int| 0 <= k < a.len() ==> !has_name(b, (#[trigger] a[k]).0)
}

/// The partition that a brand-new key is placed in: the one holding the
/// fewest entries, the lowest ordinal on a tie.  Deterministic, so every
/// process that replays the same operations places keys the same way.
pub open spec fn is_least_loaded(parts: Seq<Partition>, ti: int) -> bool {
    &&& 0 <= ti < parts.len()
    &&& forall|j: int|
        0 <= j < parts.len() ==> parts[ti].spec_entries().len() <= (
        #[trigger] parts[j]).spec_entries().len()
    &&& forall|j: int|
        0 <= j < ti ==> parts[ti].spec_entries().len() < (#[trigger] parts[j]).spec_entries().len()
}

/// Every key of a directory snapshot names a real entry of an initialized
/// partition, faithfully: the right name, the right length, a real ordinal.
pub open spec fn keys_snapshot_sound(parts: Seq<Partition>, keys: Seq<VirtualKey>) -> bool {
    forall|k: int|
        0 <= k < keys.len() ==> {
            let key = #[trigger] keys[k];
            &&& 0 <= key.location.id < parts.len()
            &&& parts[key.location.id as int].initialized
            &&& key.location.index < parts[key.location.id as int].spec_entries().len()
            &&& key.name@ == parts[key.location.id as int].spec_entries()[key.location.index as int].0
            &&& key.length == parts[key.location.id as int].spec_entries()[key.location.index as int].1.len()
        }
}

/// Some key of the snapshot addresses entry `e` of partition `i`.
pub open spec fn snapshot_covers(keys: Seq<VirtualKey>, i: int, e: int) -> bool {
    exists|k: int|
        0 <= k < keys.len() && (#[trigger] keys[k]).location.id == i && keys[k].location.index == e
}

/// Every entry of every initialized partition appears in the snapshot.
pub open spec fn keys_snapshot_complete(parts: Seq<Partition>, keys: Seq<VirtualKey>) -> bool {
    forall|i: int, e: int|
        0 <= i < parts.len() && parts[i].initialized && 0 <= e < parts[i].spec_entries().len()
            ==> #[trigger] snapshot_covers(keys, i, e)
}

/// The logical database spread over a set of partitions.
///
/// Everything here works on what is in memory; partitions are activated
/// lazily through [`Routing::NeedPartition`] and
/// [`VirtualDatabase::init_partition`].
pub struct VirtualDatabase {
    /// The partitions, one per ordinal, in order.
    pub parts: Vec<Partition>,
    /// A convenience snapshot of the global directory, rebuilt on demand by
    /// [`VirtualDatabase::refresh_keys`].  Never trusted by the operations
    /// themselves, which always re-derive what they need.
    pub keys: Vec<VirtualKey>,
}

impl VirtualDatabase {
    /// Every partition is sound and sits at its own ordinal.
    pub open spec fn parts_wf(self) -> bool {
        &&& self.parts@.len() <= 256
        &&& forall|i: int|
            0 <= i < self.parts@.len() ==> (#[trigger] self.parts@[i]).wf() && self.parts@[i].id
                == i
    }

    /// A name resolves to at most one partition: the directories of any two
    /// initialized partitions are disjoint.
    pub open spec fn globally_unique(self) -> bool {
        forall|i: int, j: int|
            0 <= i < self.parts@.len() && 0 <= j < self.parts@.len() && i != j && (
            #[trigger] self.parts@[i]).initialized && (#[trigger] self.parts@[j]).initialized
                ==> no_overlap(self.parts@[i].spec_entries(), self.parts@[j].spec_entries())
    }

    /// A sound virtual database: sound partitions at their ordinals, and
    /// global uniqueness of names.
    pub open spec fn wf(self) -> bool {
        self.parts_wf() && self.globally_unique()
    }

    /// Whether every partition has been initialized.
    pub open spec fn all_initialized(self) -> bool {
        forall|i: int| 0 <= i < self.parts@.len() ==> (#[trigger] self.parts@[i]).initialized
    }

    /// Whether some initialized partition holds the name.
    pub open spec fn db_has_name(self, name: Seq<char>) -> bool {
        exists|i: int|
            0 <= i < self.parts@.len() && (#[trigger] self.parts@[i]).initialized && has_name(
                self.parts@[i].spec_entries(),
                name,
            )
    }

    /// Every entry under this name, in any initialized partition, carries
    /// exactly this value.  With global uniqueness there is at most one
    /// such entry, so a lookup of the name can return nothing else.
    pub open spec fn db_value_matches(self, name: Seq<char>, value: Seq<u8>) -> bool {
        forall|i: int, e: int|
            0 <= i < self.parts@.len() && (#[trigger] self.parts@[i]).initialized && 0 <= e
                < self.parts@[i].spec_entries().len() && (
            #[trigger] self.parts@[i].spec_entries()[e]).0 == name
                ==> self.parts@[i].spec_entries()[e].1 == value
    }

    /// Builds the database a validated header describes: one uninitialized
    /// partition per declared ordinal, none of them touched yet, so opening
    /// a database with many partitions costs no reads.
    pub fn new(header: &Header) -> (r: VirtualDatabase)
        requires
            header.wf(),
        ensures
            r.wf(),
            r.parts@.len() == if header.partitioned {
                header.partitions.unwrap() as int
            } else {
                0
            },
            forall|i: int|
                0 <= i < r.parts@.len() ==> !(#[trigger] r.parts@[i]).initialized && r.parts@[i].id
                    == i,
            r.keys@.len() == 0,
    {
        let mut parts: Vec<Partition> = Vec::new();
        if header.partitioned {
            let cnt = match header.partitions {
                Some(c) => c,
                None => 0,
            };
            let mut i: usize = 0;
            while i < cnt as usize
                invariant
                    i <= cnt as usize,
                    parts@.len() == i,
                    forall|j: int|
                        0 <= j < i ==> !(#[trigger] parts@[j]).initialized && parts@[j].wf()
                            && parts@[j].id == j,
                decreases cnt as usize - i,
            {
                parts.push(Partition::new(i as u8));
                i = i + 1;
            }
        }
        VirtualDatabase { parts, keys: Vec::new() }
    }

    /// Initializes the partition at the given ordinal from its file's bytes,
    /// then holds its directory against every other initialized partition:
    /// a name already present elsewhere violates global uniqueness, the
    /// partition is put back uninitialized, and the collision is reported as
    /// [`DatabaseError::KeyAlreadyExists`].  No partially-loaded partition
    /// survives an error.
    #[verifier::loop_isolation(false)]
    pub fn init_partition(&mut self, idx: u8, data: &[u8]) -> (r: Result<(), DatabaseError>)
        requires
            old(self).wf(),
            (idx as int) < old(self).parts@.len(),
        ensures
            final(self).wf(),
            final(self).parts@.len() == old(self).parts@.len(),
            final(self).keys == old(self).keys,
            forall|i: int|
                0 <= i < old(self).parts@.len() && i != idx as int ==> final(self).parts@[i] == old(
                    self,
                ).parts@[i],
            final(self).parts@[idx as int].id == idx,
            old(self).parts@[idx as int].initialized ==> r == Ok::<(), DatabaseError>(())
                && *final(self) == *old(self),
            !old(self).parts@[idx as int].initialized ==> match r {
                Ok(_) => {
                    &&& final(self).parts@[idx as int].initialized
                    &&& partition_parse(data@) matches Ok(t)
                        && final(self).parts@[idx as int].spec_entries() == t.2
                },
                Err(e) => {
                    &&& !final(self).parts@[idx as int].initialized
                    &&& final(self).parts@[idx as int].spec_entries() == Seq::<
                        (Seq<char>, Seq<u8>),
                    >::empty()
                    &&& match partition_parse(data@) {
                        Err(pe) => e == pe,
                        Ok(t) => e matches DatabaseError::KeyAlreadyExists(nm) && (has_dup_name(
                            t.2,
                            nm@,
                        ) || (has_name(t.2, nm@) && old(self).db_has_name(nm@))),
                    }
                },
            },
    {
        let idxu = idx as usize;
        if self.parts[idxu].initialized {
            return Ok(());
        }
        let ghost oldparts = self.parts@;
        let mut p = self.parts.remove(idxu);
        match p.init(data) {
            Err(e) => {
                self.parts.insert(idxu, p);
                proof {
                    assert(self.parts@ =~= oldparts);
                    assert(p.spec_entries().len() == 0);
                    assert(p.spec_entries() =~= Seq::<(Seq<char>, Seq<u8>)>::empty());
                }
                return Err(e);
            },
            Ok(_) => {},
        }
        let m = p.entries.len();
        let others = self.parts.len();
        let mut j: usize = 0;
        while j < others
            invariant
                0 <= j <= others,
                self.parts@ == oldparts.remove(idx as int),
                self.keys == old(self).keys,
                others == self.parts@.len(),
                forall|jo: int|
                    0 <= jo < j && (#[trigger] self.parts@[jo]).initialized ==> no_overlap(
                        p.spec_entries(),
                        self.parts@[jo].spec_entries(),
                    ),
            decreases others - j,
        {
            if self.parts[j].initialized {
                let mut t: usize = 0;
                while t < m
                    invariant
                        0 <= t <= m,
                        0 <= j < others,
                        self.parts@ == oldparts.remove(idx as int),
                        self.keys == old(self).keys,
                        others == self.parts@.len(),
                        self.parts@[j as int].initialized,
                        forall|to: int|
                            0 <= to < t ==> !has_name(
                                self.parts@[j as int].spec_entries(),
                                (#[trigger] p.spec_entries()[to]).0,
                            ),
                    decreases m - t,
                {
                    proof {
                        assert(p.spec_entries()[t as int] == p.entries@[t as int]@);
                    }
                    if self.parts[j].contains_key(&p.entries[t].name) {
                        let nm = p.entries[t].name.clone();
                        let fresh = Partition::new(idx);
                        self.parts.insert(idxu, fresh);
                        proof {
                            let ev = p.spec_entries();
                            assert(has_name(ev, nm@));
                            assert(forall|i: int|
                                0 <= i < oldparts.len() && i != idx as int
                                    ==> self.parts@[i] == oldparts[i]);
                            assert(fresh.spec_entries() =~= Seq::<(Seq<char>, Seq<u8>)>::empty());
                            let jold: int = if (j as int) < idx as int {
                                j as int
                            } else {
                                j as int + 1
                            };
                            assert(oldparts[jold].initialized);
                            assert(has_name(oldparts[jold].spec_entries(), nm@));
                        }
                        return Err(DatabaseError::KeyAlreadyExists(nm));
                    }
                    t = t + 1;
                }
            }
            j = j + 1;
        }
        self.parts.insert(idxu, p);
        proof {
            assert(self.parts@ =~= oldparts.update(idx as int, p));
            assert forall|i: int, jj: int|
                0 <= i < self.parts@.len() && 0 <= jj < self.parts@.len() && i != jj && (
                #[trigger] self.parts@[i]).initialized && (
                #[trigger] self.parts@[jj]).initialized implies no_overlap(
                self.parts@[i].spec_entries(),
                self.parts@[jj].spec_entries(),
            ) by {
                if i != idx as int && jj != idx as int {
                    assert(self.parts@[i] == oldparts[i]);
                    assert(self.parts@[jj] == oldparts[jj]);
                } else if i == idx as int {
                    // p against an older partition: the scan cleared it
                    let jpos: int = if jj < idx as int {
                        jj
                    } else {
                        jj - 1
                    };
                    assert(oldparts.remove(idx as int)[jpos] == oldparts[jj]);
                } else {
                    // an older partition against p: flip the cleared fact
                    let ipos: int = if i < idx as int {
                        i
                    } else {
                        i - 1
                    };
                    assert(oldparts.remove(idx as int)[ipos] == oldparts[i]);
                    assert(no_overlap(p.spec_entries(), self.parts@[i].spec_entries()));
                    assert forall|k: int|
                        0 <= k < self.parts@[i].spec_entries().len() implies !has_name(
                        p.spec_entries(),
                        (#[trigger] self.parts@[i].spec_entries()[k]).0,
                    ) by {
                        let name = self.parts@[i].spec_entries()[k].0;
                        if has_name(p.spec_entries(), name) {
                            let w = choose|w: int|
                                0 <= w < p.spec_entries().len()
                                    && (#[trigger] p.spec_entries()[w]).0 == name;
                            assert(!has_name(self.parts@[i].spec_entries(), name));
                        }
                    }
                }
            }
        }
        Ok(())
    }

    /// Looks a key up, probing partitions in ordinal order.  Partitions are
    /// activated lazily: the probe stops at the first uninitialized one and
    /// asks for it.  An absent name, once every partition has been searched,
    /// is the benign [`DatabaseError::KeyNotFound`] outcome.
    #[verifier::loop_isolation(false)]
    pub fn get(&self, key_name: String) -> (r: Routing<Result<VirtualItem, DatabaseError>>)
        requires
            self.wf(),
        ensures
            match r {
                Routing::NeedPartition(pid) => {
                    &&& (pid as int) < self.parts@.len()
                    &&& !self.parts@[pid as int].initialized
                    &&& forall|j: int|
                        0 <= j < pid as int ==> (#[trigger] self.parts@[j]).initialized
                            && !has_name(self.parts@[j].spec_entries(), key_name@)
                },
                Routing::Ready(res) => match res {
                    Ok(item) => {
                        &&& item.key@ == key_name@
                        &&& self.db_has_name(key_name@)
                        &&& exists|i: int|
                            {
                                &&& 0 <= i < self.parts@.len()
                                &&& (#[trigger] self.parts@[i]).initialized
                                &&& has_name(self.parts@[i].spec_entries(), key_name@)
                                &&& item.location.id == i
                                &&& exists|e: int|
                                    0 <= e < self.parts@[i].spec_entries().len() && (
                                    #[trigger] self.parts@[i].spec_entries()[e]).0 == key_name@
                                        && item.data@ == self.parts@[i].spec_entries()[e].1
                                        && item.length == self.parts@[i].spec_entries()[e].1.len()
                                &&& forall|j: int|
                                    0 <= j < i ==> (#[trigger] self.parts@[j]).initialized
                                        && !has_name(self.parts@[j].spec_entries(), key_name@)
                            }
                    },
                    Err(e) => {
                        &&& e matches DatabaseError::KeyNotFound(nm) && nm@ == key_name@
                        &&& forall|j: int|
                            0 <= j < self.parts@.len() ==> (#[trigger] self.parts@[j]).initialized
                                && !has_name(self.parts@[j].spec_entries(), key_name@)
                        &&& !self.db_has_name(key_name@)
                    },
                },
            },
    {
        let n = self.parts.len();
        let mut i: usize = 0;
        while i < n
            invariant
                0 <= i <= n,
                forall|j: int|
                    0 <= j < i ==> (#[trigger] self.parts@[j]).initialized && !has_name(
                        self.parts@[j].spec_entries(),
                        key_name@,
                    ),
            decreases n - i,
        {
            if !self.parts[i].initialized {
                return Routing::NeedPartition(i as u8);
            }
            if self.parts[i].contains_key(&key_name) {
                let res = self.parts[i].get(key_name);
                match res {
                    Ok(item) => {
                        return Routing::Ready(Ok(item));
                    },
                    Err(e) => {
                        proof {
                            assert(false);
                        }
                        return Routing::Ready(Err(e));
                    },
                }
            }
            i = i + 1;
        }
        proof {
            if self.db_has_name(key_name@) {
                let w = choose|w: int|
                    0 <= w < self.parts@.len() && (#[trigger] self.parts@[w]).initialized
                        && has_name(self.parts@[w].spec_entries(), key_name@);
                assert(!has_name(self.parts@[w].spec_entries(), key_name@));
            }
        }
        Routing::Ready(Err(DatabaseError::KeyNotFound(key_name)))
    }

    /// Adds a brand-new key.  Global uniqueness spans the whole database,
    /// so every partition is consulted first: the call demands each of them
    /// initialized, and refuses a name any of them already holds.  The new
    /// entry goes to the least-loaded partition, lowest ordinal on a tie.
    #[verifier::loop_isolation(false)]
    pub fn add(&mut self, key_name: String, value: Vec<u8>) -> (r: Routing<Result<
        VirtualKey,
        DatabaseError,
    >>)
        requires
            old(self).wf(),
        ensures
            final(self).wf(),
            final(self).parts@.len() == old(self).parts@.len(),
            final(self).keys == old(self).keys,
            match r {
                Routing::NeedPartition(pid) => {
                    &&& *final(self) == *old(self)
                    &&& (pid as int) < old(self).parts@.len()
                    &&& !old(self).parts@[pid as int].initialized
                },
                Routing::Ready(res) => match res {
                    Ok(k) => {
                        &&& old(self).all_initialized()
                        &&& !old(self).db_has_name(key_name@)
                        &&& k.name@ == key_name@
                        &&& k.length == value@.len()
                        &&& exists|ti: int|
                            {
                                &&& #[trigger] is_least_loaded(old(self).parts@, ti)
                                &&& final(self).parts@[ti].spec_entries()
                                    == old(self).parts@[ti].spec_entries().push((key_name@, value@))
                                &&& forall|j: int|
                                    0 <= j < old(self).parts@.len() && j != ti
                                        ==> final(self).parts@[j] == old(self).parts@[j]
                                &&& k.location.id == ti
                                &&& k.location.index == old(self).parts@[ti].spec_entries().len()
                            }
                    },
                    Err(e) => {
                        &&& *final(self) == *old(self)
                        &&& match e {
                            DatabaseError::KeyAlreadyExists(nm) => nm@ == key_name@ && old(
                                self,
                            ).db_has_name(key_name@),
                            DatabaseError::UnsupportedLayout => old(self).parts@.len() == 0,
                            _ => false,
                        }
                    },
                },
            },
            r matches Routing::Ready(Ok(_)) <==> (old(self).all_initialized()
                && !old(self).db_has_name(key_name@) && old(self).parts@.len() > 0),
            r matches Routing::Ready(Ok(_)) ==> final(self).db_has_name(key_name@)
                && final(self).db_value_matches(key_name@, value@),
    {
        let ghost kn = key_name@;
        let n = self.parts.len();
        if n == 0 {
            return Routing::Ready(Err(DatabaseError::UnsupportedLayout));
        }
        let mut i: usize = 0;
        while i < n
            invariant
                0 <= i <= n,
                forall|j: int| 0 <= j < i ==> (#[trigger] self.parts@[j]).initialized,
            decreases n - i,
        {
            if !self.parts[i].initialized {
                return Routing::NeedPartition(i as u8);
            }
            i = i + 1;
        }
        let mut i: usize = 0;
        while i < n
            invariant
                0 <= i <= n,
                forall|j: int|
                    0 <= j < i ==> !has_name((#[trigger] self.parts@[j]).spec_entries(), kn),
            decreases n - i,
        {
            if self.parts[i].contains_key(&key_name) {
                proof {
                    assert(self.db_has_name(kn));
                }
                return Routing::Ready(Err(DatabaseError::KeyAlreadyExists(key_name)));
            }
            i = i + 1;
        }
        proof {
            if self.db_has_name(kn) {
                let w = choose|w: int|
                    0 <= w < self.parts@.len() && (#[trigger] self.parts@[w]).initialized
                        && has_name(self.parts@[w].spec_entries(), kn);
                assert(!has_name(self.parts@[w].spec_entries(), kn));
            }
        }
        let mut ti: usize = 0;
        let mut best: usize = self.parts[0].entries.len();
        let mut i: usize = 1;
        while i < n
            invariant
                0 <= ti < n,
                1 <= i <= n,
                best as int == self.parts@[ti as int].spec_entries().len(),
                forall|j: int|
                    0 <= j < i ==> (best as int) <= (#[trigger] self.parts@[j]).spec_entries().len(),
                forall|j: int|
                    0 <= j < ti ==> (best as int) < (#[trigger] self.parts@[j]).spec_entries().len(),
            decreases n - i,
        {
            if self.parts[i].entries.len() < best {
                best = self.parts[i].entries.len();
                ti = i;
            }
            i = i + 1;
        }
        let ghost oldparts = self.parts@;
        let mut p = self.parts.remove(ti);
        let res = p.add(key_name, value);
        self.parts.insert(ti, p);
        proof {
            assert(self.parts@ =~= oldparts.update(ti as int, p));
        }
        match res {
            Ok(k) => {
                proof {
                    let newev = self.parts@[ti as int].spec_entries();
                    let oldev = oldparts[ti as int].spec_entries();
                    assert(newev == oldev.push((kn, value@)));
                    assert(is_least_loaded(oldparts, ti as int));
                    assert forall|a: int, b: int|
                        0 <= a < self.parts@.len() && 0 <= b < self.parts@.len() && a != b && (
                        #[trigger] self.parts@[a]).initialized && (
                        #[trigger] self.parts@[b]).initialized implies no_overlap(
                        self.parts@[a].spec_entries(),
                        self.parts@[b].spec_entries(),
                    ) by {
                        if a != ti as int && b != ti as int {
                            assert(self.parts@[a] == oldparts[a]);
                            assert(self.parts@[b] == oldparts[b]);
                        } else if a == ti as int {
                            assert(no_overlap(oldev, oldparts[b].spec_entries()));
                            assert forall|k: int| 0 <= k < newev.len() implies !has_name(
                                self.parts@[b].spec_entries(),
                                (#[trigger] newev[k]).0,
                            ) by {
                                if k < oldev.len() {
                                    assert(newev[k] == oldev[k]);
                                } else {
                                    assert(newev[k].0 == kn);
                                    assert(!has_name(self.parts@[b].spec_entries(), kn));
                                }
                            }
                        } else {
                            assert(no_overlap(oldparts[a].spec_entries(), oldev));
                            assert forall|k: int|
                                0 <= k < self.parts@[a].spec_entries().len() implies !has_name(
                                newev,
                                (#[trigger] self.parts@[a].spec_entries()[k]).0,
                            ) by {
                                let name = self.parts@[a].spec_entries()[k].0;
                                assert(!has_name(oldev, name));
                                assert(has_name(oldparts[a].spec_entries(), name));
                                assert(name != kn);
                                if has_name(newev, name) {
                                    let w = choose|w: int|
                                        0 <= w < newev.len() && (#[trigger] newev[w]).0 == name;
                                    assert(w < oldev.len());
                                    assert(has_name(oldev, name));
                                }
                            }
                        }
                    }
                    assert(self.db_has_name(kn)) by {
                        assert(self.parts@[ti as int].initialized);
                        assert(newev[oldev.len() as int].0 == kn);
                        assert(has_name(newev, kn));
                    }
                    assert forall|i: int, e: int|
                        0 <= i < self.parts@.len() && (#[trigger] self.parts@[i]).initialized && 0
                            <= e < self.parts@[i].spec_entries().len() && (
                        #[trigger] self.parts@[i].spec_entries()[e]).0 == kn implies self.parts@[i].spec_entries()[e].1
                        == value@ by {
                        if i == ti as int {
                            if e < oldev.len() {
                                assert(newev[e] == oldev[e]);
                                assert(has_name(oldev, kn));
                            }
                        } else {
                            assert(self.parts@[i] == oldparts[i]);
                            assert(has_name(oldparts[i].spec_entries(), kn));
                        }
                    }
                }
                Routing::Ready(Ok(k))
            },
            Err(e) => {
                proof {
                    assert(false);
                }
                Routing::Ready(Err(e))
            },
        }
    }

    /// Sets a key to a value: overwrites it in the partition that owns it,
    /// or creates it like [`VirtualDatabase::add`] when no partition holds
    /// it.  Finding the owner — and ruling the name absent — takes every
    /// partition, so the call demands each of them initialized first.
    #[verifier::loop_isolation(false)]
    #[verifier::rlimit(50)]
    pub fn set(&mut self, key_name: String, value: Vec<u8>) -> (r: Routing<Result<
        VirtualKey,
        DatabaseError,
    >>)
        requires
            old(self).wf(),
        ensures
            final(self).wf(),
            final(self).parts@.len() == old(self).parts@.len(),
            final(self).keys == old(self).keys,
            match r {
                Routing::NeedPartition(pid) => {
                    &&& *final(self) == *old(self)
                    &&& (pid as int) < old(self).parts@.len()
                    &&& !old(self).parts@[pid as int].initialized
                },
                Routing::Ready(res) => match res {
                    Ok(k) => {
                        &&& old(self).all_initialized()
                        &&& k.name@ == key_name@
                        &&& k.length == value@.len()
                        &&& old(self).db_has_name(key_name@) ==> exists|oi: int, e: int|
                            {
                                &&& 0 <= oi < old(self).parts@.len()
                                &&& 0 <= e < old(self).parts@[oi].spec_entries().len()
                                &&& (#[trigger] old(self).parts@[oi].spec_entries()[e]).0
                                    == key_name@
                                &&& final(self).parts@[oi as int].spec_entries() == old(
                                    self,
                                ).parts@[oi].spec_entries().update(e, (key_name@, value@))
                                &&& forall|j: int|
                                    0 <= j < old(self).parts@.len() && j != oi
                                        ==> final(self).parts@[j] == old(self).parts@[j]
                                &&& k.location.id == oi
                            }
                        &&& !old(self).db_has_name(key_name@) ==> (old(self).parts@.len() > 0
                            && exists|ti: int|
                            {
                                &&& #[trigger] is_least_loaded(old(self).parts@, ti)
                                &&& final(self).parts@[ti].spec_entries()
                                    == old(self).parts@[ti].spec_entries().push((key_name@, value@))
                                &&& forall|j: int|
                                    0 <= j < old(self).parts@.len() && j != ti
                                        ==> final(self).parts@[j] == old(self).parts@[j]
                                &&& k.location.id == ti
                            })
                    },
                    Err(e) => {
                        &&& *final(self) == *old(self)
                        &&& e is UnsupportedLayout
                        &&& old(self).parts@.len() == 0
                    },
                },
            },
            r matches Routing::Ready(Ok(_)) ==> final(self).db_has_name(key_name@)
                && final(self).db_value_matches(key_name@, value@),
    {
        let ghost kn = key_name@;
        let n = self.parts.len();
        if n == 0 {
            return Routing::Ready(Err(DatabaseError::UnsupportedLayout));
        }
        let mut i: usize = 0;
        while i < n
            invariant
                0 <= i <= n,
                forall|j: int| 0 <= j < i ==> (#[trigger] self.parts@[j]).initialized,
            decreases n - i,
        {
            if !self.parts[i].initialized {
                return Routing::NeedPartition(i as u8);
            }
            i = i + 1;
        }
        let mut owner: usize = n;
        let mut i: usize = 0;
        while i < n
            invariant
                0 <= i <= n,
                owner == n,
                forall|j: int|
                    0 <= j < i ==> !has_name((#[trigger] self.parts@[j]).spec_entries(), kn),
            decreases n - i,
        {
            if self.parts[i].contains_key(&key_name) {
                owner = i;
                break ;
            }
            i = i + 1;
        }
        if owner < n {
            let ghost oldparts = self.parts@;
            let mut p = self.parts.remove(owner);
            let res = p.set(key_name, value);
            self.parts.insert(owner, p);
            proof {
                assert(self.parts@ =~= oldparts.update(owner as int, p));
            }
            match res {
                Ok(k) => {
                    proof {
                        let newev = self.parts@[owner as int].spec_entries();
                        let oldev = oldparts[owner as int].spec_entries();
                        assert(has_name(oldev, kn));
                        assert(old(self).db_has_name(kn)) by {
                            assert(oldparts[owner as int].initialized);
                            assert(has_name(oldparts[owner as int].spec_entries(), kn));
                        }
                        let e = choose|e: int|
                            {
                                &&& 0 <= e < oldev.len()
                                &&& (#[trigger] oldev[e]).0 == kn
                                &&& forall|j: int| 0 <= j < e ==> (#[trigger] oldev[j]).0 != kn
                                &&& newev == oldev.update(e, (kn, value@))
                                &&& k.location.index == e
                                &&& k.location.offset == block_offset(newev, e)
                            };
                        assert forall|x: int| 0 <= x < newev.len() implies (
                        #[trigger] newev[x]).0 == oldev[x].0 by {
                            if x != e {
                                assert(newev[x] == oldev[x]);
                            }
                        }
                        assert forall|a: int, b: int|
                            0 <= a < self.parts@.len() && 0 <= b < self.parts@.len() && a != b && (
                            #[trigger] self.parts@[a]).initialized && (
                            #[trigger] self.parts@[b]).initialized implies no_overlap(
                            self.parts@[a].spec_entries(),
                            self.parts@[b].spec_entries(),
                        ) by {
                            if a != owner as int && b != owner as int {
                                assert(self.parts@[a] == oldparts[a]);
                                assert(self.parts@[b] == oldparts[b]);
                            } else if a == owner as int {
                                assert(no_overlap(oldev, oldparts[b].spec_entries()));
                                assert forall|x: int| 0 <= x < newev.len() implies !has_name(
                                    self.parts@[b].spec_entries(),
                                    (#[trigger] newev[x]).0,
                                ) by {
                                    assert(newev[x].0 == oldev[x].0);
                                    assert(!has_name(oldparts[b].spec_entries(), oldev[x].0));
                                }
                            } else {
                                assert(no_overlap(oldparts[a].spec_entries(), oldev));
                                assert forall|x: int|
                                    0 <= x < self.parts@[a].spec_entries().len() implies !has_name(
                                    newev,
                                    (#[trigger] self.parts@[a].spec_entries()[x]).0,
                                ) by {
                                    let name = self.parts@[a].spec_entries()[x].0;
                                    assert(!has_name(oldev, name));
                                    if has_name(newev, name) {
                                        let w = choose|w: int|
                                            0 <= w < newev.len() && (#[trigger] newev[w]).0 == name;
                                        assert(newev[w].0 == oldev[w].0);
                                        assert(has_name(oldev, name));
                                    }
                                }
                            }
                        }
                        assert(self.db_has_name(kn)) by {
                            assert(self.parts@[owner as int].initialized);
                            assert(newev[e].0 == kn);
                            assert(has_name(newev, kn));
                        }
                        assert forall|i2: int, e2: int|
                            0 <= i2 < self.parts@.len() && (
                            #[trigger] self.parts@[i2]).initialized && 0 <= e2
                                < self.parts@[i2].spec_entries().len() && (
                            #[trigger] self.parts@[i2].spec_entries()[e2]).0 == kn implies self.parts@[i2].spec_entries()[e2].1
                            == value@ by {
                            if i2 == owner as int {
                                if e2 != e {
                                    assert(newev[e2] == oldev[e2]);
                                    assert(oldev[e2].0 == kn);
                                    assert(oldev[e].0 == kn);
                                    assert(unique_names(oldev));
                                }
                            } else {
                                assert(self.parts@[i2] == oldparts[i2]);
                                assert(no_overlap(
                                    oldparts[i2].spec_entries(),
                                    oldparts[owner as int].spec_entries(),
                                ));
                                assert(has_name(oldev, kn));
                            }
                        }
                    }
                    return Routing::Ready(Ok(k));
                },
                Err(e) => {
                    proof {
                        assert(false);
                    }
                    return Routing::Ready(Err(e));
                },
            }
        }
        proof {
            if self.db_has_name(kn) {
                let w = choose|w: int|
                    0 <= w < self.parts@.len() && (#[trigger] self.parts@[w]).initialized
                        && has_name(self.parts@[w].spec_entries(), kn);
                assert(!has_name(self.parts@[w].spec_entries(), kn));
            }
        }
        let mut ti: usize = 0;
        let mut best: usize = self.parts[0].entries.len();
        let mut i: usize = 1;
        while i < n
            invariant
                0 <= ti < n,
                1 <= i <= n,
                best as int == self.parts@[ti as int].spec_entries().len(),
                forall|j: int|
                    0 <= j < i ==> (best as int) <= (#[trigger] self.parts@[j]).spec_entries().len(),
                forall|j: int|
                    0 <= j < ti ==> (best as int) < (#[trigger] self.parts@[j]).spec_entries().len(),
            decreases n - i,
        {
            if self.parts[i].entries.len() < best {
                best = self.parts[i].entries.len();
                ti = i;
            }
            i = i + 1;
        }
        let ghost oldparts = self.parts@;
        let mut p = self.parts.remove(ti);
        let res = p.set(key_name, value);
        self.parts.insert(ti, p);
        proof {
            assert(self.parts@ =~= oldparts.update(ti as int, p));
        }
        match res {
            Ok(k) => {
                proof {
                    let newev = self.parts@[ti as int].spec_entries();
                    let oldev = oldparts[ti as int].spec_entries();
                    assert(!has_name(oldev, kn));
                    assert(newev == oldev.push((kn, value@)));
                    assert(is_least_loaded(oldparts, ti as int));
                    assert forall|a: int, b: int|
                        0 <= a < self.parts@.len() && 0 <= b < self.parts@.len() && a != b && (
                        #[trigger] self.parts@[a]).initialized && (
                        #[trigger] self.parts@[b]).initialized implies no_overlap(
                        self.parts@[a].spec_entries(),
                        self.parts@[b].spec_entries(),
                    ) by {
                        if a != ti as int && b != ti as int {
                            assert(self.parts@[a] == oldparts[a]);
                            assert(self.parts@[b] == oldparts[b]);
                        } else if a == ti as int {
                            assert(no_overlap(oldev, oldparts[b].spec_entries()));
                            assert forall|k2: int| 0 <= k2 < newev.len() implies !has_name(
                                self.parts@[b].spec_entries(),
                                (#[trigger] newev[k2]).0,
                            ) by {
                                if k2 < oldev.len() {
                                    assert(newev[k2] == oldev[k2]);
                                } else {
                                    assert(newev[k2].0 == kn);
                                    assert(!has_name(self.parts@[b].spec_entries(), kn));
                                }
                            }
                        } else {
                            assert(no_overlap(oldparts[a].spec_entries(), oldev));
                            assert forall|k2: int|
                                0 <= k2 < self.parts@[a].spec_entries().len() implies !has_name(
                                newev,
                                (#[trigger] self.parts@[a].spec_entries()[k2]).0,
                            ) by {
                                let name = self.parts@[a].spec_entries()[k2].0;
                                assert(!has_name(oldev, name));
                                assert(has_name(oldparts[a].spec_entries(), name));
                                assert(name != kn);
                                if has_name(newev, name) {
                                    let w = choose|w: int|
                                        0 <= w < newev.len() && (#[trigger] newev[w]).0 == name;
                                    assert(w < oldev.len());
                                    assert(has_name(oldev, name));
                                }
                            }
                        }
                    }
                    assert(self.db_has_name(kn)) by {
                        assert(self.parts@[ti as int].initialized);
                        assert(newev[oldev.len() as int].0 == kn);
                        assert(has_name(newev, kn));
                    }
                    assert forall|i2: int, e2: int|
                        0 <= i2 < self.parts@.len() && (#[trigger] self.parts@[i2]).initialized
                            && 0 <= e2 < self.parts@[i2].spec_entries().len() && (
                        #[trigger] self.parts@[i2].spec_entries()[e2]).0 == kn implies self.parts@[i2].spec_entries()[e2].1
                        == value@ by {
                        if i2 == ti as int {
                            if e2 < oldev.len() {
                                assert(newev[e2] == oldev[e2]);
                                assert(has_name(oldev, kn));
                            }
                        } else {
                            assert(self.parts@[i2] == oldparts[i2]);
                            assert(has_name(oldparts[i2].spec_entries(), kn));
                        }
                    }
                }
                Routing::Ready(Ok(k))
            },
            Err(e) => {
                proof {
                    assert(false);
                }
                Routing::Ready(Err(e))
            },
        }
    }

    /// Removes a key from the partition that owns it.  Finding the owner —
    /// and ruling the name absent — takes every partition, so the call
    /// demands each of them initialized first.  An absent name is the
    /// benign [`DatabaseError::KeyNotFound`] outcome.
    #[verifier::loop_isolation(false)]
    pub fn remove(&mut self, key_name: String) -> (r: Routing<Result<bool, DatabaseError>>)
        requires
            old(self).wf(),
        ensures
            final(self).wf(),
            final(self).parts@.len() == old(self).parts@.len(),
            final(self).keys == old(self).keys,
            match r {
                Routing::NeedPartition(pid) => {
                    &&& *final(self) == *old(self)
                    &&& (pid as int) < old(self).parts@.len()
                    &&& !old(self).parts@[pid as int].initialized
                },
                Routing::Ready(res) => match res {
                    Ok(b) => {
                        &&& b
                        &&& old(self).all_initialized()
                        &&& old(self).db_has_name(key_name@)
                        &&& exists|oi: int, e: int|
                            {
                                &&& 0 <= oi < old(self).parts@.len()
                                &&& 0 <= e < old(self).parts@[oi].spec_entries().len()
                                &&& (#[trigger] old(self).parts@[oi].spec_entries()[e]).0
                                    == key_name@
                                &&& final(self).parts@[oi as int].spec_entries() == old(
                                    self,
                                ).parts@[oi].spec_entries().remove(e)
                                &&& forall|j: int|
                                    0 <= j < old(self).parts@.len() && j != oi
                                        ==> final(self).parts@[j] == old(self).parts@[j]
                            }
                        &&& !final(self).db_has_name(key_name@)
                    },
                    Err(e) => {
                        &&& *final(self) == *old(self)
                        &&& e matches DatabaseError::KeyNotFound(nm) && nm@ == key_name@
                        &&& old(self).all_initialized()
                        &&& !old(self).db_has_name(key_name@)
                    },
                },
            },
            r matches Routing::Ready(Ok(_)) <==> (old(self).all_initialized() && old(
                self,
            ).db_has_name(key_name@)),
    {
        let ghost kn = key_name@;
        let n = self.parts.len();
        let mut i: usize = 0;
        while i < n
            invariant
                0 <= i <= n,
                forall|j: int| 0 <= j < i ==> (#[trigger] self.parts@[j]).initialized,
            decreases n - i,
        {
            if !self.parts[i].initialized {
                return Routing::NeedPartition(i as u8);
            }
            i = i + 1;
        }
        let mut owner: usize = n;
        let mut i: usize = 0;
        while i < n
            invariant
                0 <= i <= n,
                owner == n,
                forall|j: int|
                    0 <= j < i ==> !has_name((#[trigger] self.parts@[j]).spec_entries(), kn),
            decreases n - i,
        {
            if self.parts[i].contains_key(&key_name) {
                owner = i;
                break ;
            }
            i = i + 1;
        }
        if owner == n {
            proof {
                if self.db_has_name(kn) {
                    let w = choose|w: int|
                        0 <= w < self.parts@.len() && (#[trigger] self.parts@[w]).initialized
                            && has_name(self.parts@[w].spec_entries(), kn);
                    assert(!has_name(self.parts@[w].spec_entries(), kn));
                }
            }
            return Routing::Ready(Err(DatabaseError::KeyNotFound(key_name)));
        }
        let ghost oldparts = self.parts@;
        let mut p = self.parts.remove(owner);
        let res = p.remove(key_name);
        self.parts.insert(owner, p);
        proof {
            assert(self.parts@ =~= oldparts.update(owner as int, p));
        }
        match res {
            Ok(b) => {
                proof {
                    let newev = self.parts@[owner as int].spec_entries();
                    let oldev = oldparts[owner as int].spec_entries();
                    assert(old(self).db_has_name(kn)) by {
                        assert(oldparts[owner as int].initialized);
                        assert(has_name(oldparts[owner as int].spec_entries(), kn));
                    }
                    let e = choose|e: int|
                        {
                            &&& 0 <= e < oldev.len()
                            &&& (#[trigger] oldev[e]).0 == kn
                            &&& forall|j: int| 0 <= j < e ==> (#[trigger] oldev[j]).0 != kn
                            &&& newev == oldev.remove(e)
                        };
                    assert forall|x: int| 0 <= x < newev.len() implies has_name(
                        oldev,
                        (#[trigger] newev[x]).0,
                    ) by {
                        let xo: int = if x < e {
                            x
                        } else {
                            x + 1
                        };
                        assert(newev[x] == oldev[xo]);
                    }
                    assert forall|a: int, b: int|
                        0 <= a < self.parts@.len() && 0 <= b < self.parts@.len() && a != b && (
                        #[trigger] self.parts@[a]).initialized && (
                        #[trigger] self.parts@[b]).initialized implies no_overlap(
                        self.parts@[a].spec_entries(),
                        self.parts@[b].spec_entries(),
                    ) by {
                        if a != owner as int && b != owner as int {
                            assert(self.parts@[a] == oldparts[a]);
                            assert(self.parts@[b] == oldparts[b]);
                        } else if a == owner as int {
                            assert(no_overlap(oldev, oldparts[b].spec_entries()));
                            assert forall|x: int| 0 <= x < newev.len() implies !has_name(
                                self.parts@[b].spec_entries(),
                                (#[trigger] newev[x]).0,
                            ) by {
                                let xo: int = if x < e {
                                    x
                                } else {
                                    x + 1
                                };
                                assert(newev[x] == oldev[xo]);
                                assert(!has_name(oldparts[b].spec_entries(), oldev[xo].0));
                            }
                        } else {
                            assert(no_overlap(oldparts[a].spec_entries(), oldev));
                            assert forall|x: int|
                                0 <= x < self.parts@[a].spec_entries().len() implies !has_name(
                                newev,
                                (#[trigger] self.parts@[a].spec_entries()[x]).0,
                            ) by {
                                let name = self.parts@[a].spec_entries()[x].0;
                                assert(!has_name(oldev, name));
                                if has_name(newev, name) {
                                    let w = choose|w: int|
                                        0 <= w < newev.len() && (#[trigger] newev[w]).0 == name;
                                    assert(has_name(oldev, name));
                                }
                            }
                        }
                    }
                    assert(!self.db_has_name(kn)) by {
                        if self.db_has_name(kn) {
                            let w = choose|w: int|
                                0 <= w < self.parts@.len() && (
                                #[trigger] self.parts@[w]).initialized && has_name(
                                    self.parts@[w].spec_entries(),
                                    kn,
                                );
                            if w == owner as int {
                                assert(!has_name(newev, kn));
                            } else {
                                assert(self.parts@[w] == oldparts[w]);
                                assert(no_overlap(
                                    oldparts[w].spec_entries(),
                                    oldparts[owner as int].spec_entries(),
                                ));
                                let v = choose|v: int|
                                    0 <= v < oldparts[w].spec_entries().len() && (
                                    #[trigger] oldparts[w].spec_entries()[v]).0 == kn;
                                assert(!has_name(oldev, kn));
                            }
                        }
                    }
                }
                Routing::Ready(Ok(b))
            },
            Err(e) => {
                proof {
                    assert(false);
                }
                Routing::Ready(Err(e))
            },
        }
    }

    /// Rebuilds the convenience snapshot of the global directory from the
    /// initialized partitions, in ordinal order.  This is the on-demand
    /// refresh of the lazily-built global key map: the operations never
    /// trust the snapshot — they re-derive what they need — so a holder
    /// refreshes it whenever a current view is wanted.
    #[verifier::loop_isolation(false)]
    pub fn refresh_keys(&mut self)
        requires
            old(self).wf(),
        ensures
            final(self).wf(),
            final(self).parts == old(self).parts,
            keys_snapshot_sound(final(self).parts@, final(self).keys@),
            keys_snapshot_complete(final(self).parts@, final(self).keys@),
    {
        let mut keys: Vec<VirtualKey> = Vec::new();
        let n = self.parts.len();
        let mut i: usize = 0;
        proof {
            assert(self.parts@.take(0) =~= Seq::<Partition>::empty());
        }
        while i < n
            invariant
                0 <= i <= n,
                keys_snapshot_sound(self.parts@, keys@),
                keys_snapshot_complete(self.parts@.take(i as int), keys@),
            decreases n - i,
        {
            let ghost prefix = self.parts@.take(i as int);
            let ghost prefix2 = self.parts@.take(i + 1);
            if self.parts[i].initialized {
                let ghost before = keys@;
                let mut pk = self.parts[i].fetch_keys();
                let ghost fetched = pk@;
                keys.append(&mut pk);
                proof {
                    assert(keys@ == before + fetched);
                    assert forall|ii: int, e: int|
                        0 <= ii < prefix2.len() && prefix2[ii].initialized && 0 <= e
                            < prefix2[ii].spec_entries().len() implies #[trigger] snapshot_covers(
                        keys@,
                        ii,
                        e,
                    ) by {
                        if ii == i as int {
                            assert(keys@[before.len() + e] == fetched[e]);
                            assert(keys@[before.len() + e].location.id == ii);
                            assert(keys@[before.len() + e].location.index == e);
                        } else {
                            assert(prefix[ii] == prefix2[ii]);
                            assert(snapshot_covers(before, ii, e));
                            let k = choose|k: int|
                                0 <= k < before.len() && (#[trigger] before[k]).location.id == ii
                                    && before[k].location.index == e;
                            assert(keys@[k] == before[k]);
                        }
                    }
                }
            } else {
                proof {
                    assert forall|ii: int, e: int|
                        0 <= ii < prefix2.len() && prefix2[ii].initialized && 0 <= e
                            < prefix2[ii].spec_entries().len() implies #[trigger] snapshot_covers(
                        keys@,
                        ii,
                        e,
                    ) by {
                        assert(ii != i as int);
                        assert(prefix[ii] == prefix2[ii]);
                        assert(snapshot_covers(keys@, ii, e));
                    }
                }
            }
            proof {
                assert(prefix2 =~= self.parts@.take(i + 1));
            }
            i = i + 1;
        }
        proof {
            assert(self.parts@.take(n as int) =~= self.parts@);
        }
        self.keys = keys;
    }
}

/// A partition written out and read back is the same partition: parsing the
/// concatenation of a supported preamble, a supported header and an encoded
/// value region restores exactly those three.
pub proof fn lemma_partition_round_trip(p: Preamble, h: Header, entries: Seq<(Seq<char>, Seq<u8>)>)
    requires
        p.wf(),
        p.encryption != 0,
        h.wf(),
        h.virtualization,
        crate::region::region_sizes_fit(entries),
    ensures
        partition_parse(p.encoding() + h.encoding() + region_enc(entries)) == Ok::<
            (Preamble, Header, Seq<(Seq<char>, Seq<u8>)>),
            DatabaseError,
        >((p, h, entries)),
{
    let data = p.encoding() + h.encoding() + region_enc(entries);
    crate::wire::lemma_be_bytes_len(p.version as int, 2);
    assert(p.encoding().len() == 20);
    assert(data.take(20) =~= p.encoding());
    crate::preamble::lemma_preamble_round_trip(p);
    assert(data.skip(20) =~= h.encoding() + region_enc(entries));
    crate::db::lemma_header_parse_of_enc(h, region_enc(entries));
    crate::wire::lemma_be_bytes_len(h.last_open as int, 16);
    crate::wire::lemma_be_bytes_len(h.last_close as int, 16);
    crate::wire::lemma_be_bytes_len(h.last_write as int, 16);
    assert(h.encoding().len() == h.spec_byte_len());
    assert(data.skip(20 + h.spec_byte_len()) =~= region_enc(entries));
    crate::region::lemma_region_round_trip(entries);
}


/// The key-lifecycle law, spelled out: once a store has left every entry
/// under a name carrying one value — what a successful `add` or `set` of
/// that name ensures — any entry a lookup of that name can hand back
/// carries exactly that value.
pub proof fn lemma_stored_value_resolves(
    v: VirtualDatabase,
    name: Seq<char>,
    value: Seq<u8>,
    i: int,
    e: int,
)
    requires
        v.db_value_matches(name, value),
        0 <= i < v.parts@.len(),
        v.parts@[i].initialized,
        0 <= e < v.parts@[i].spec_entries().len(),
        v.parts@[i].spec_entries()[e].0 == name,
    ensures
        v.parts@[i].spec_entries()[e].1 == value,
{
}


} // verus!
