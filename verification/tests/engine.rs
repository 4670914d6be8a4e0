//! Tests of the partition lifecycle, the virtual database and the facade.

use onelink_database::db::Database;
use onelink_database::db::DatabaseMode;
use onelink_database::db::DbDeviceOs;
use onelink_database::db::Header;
use onelink_database::db::InternalDatabase;
use onelink_database::preamble::Preamble;
use onelink_database::region::encode_region;
use onelink_database::region::PartitionEntry;
use onelink_database::virtual_db::Partition;
use onelink_database::virtual_db::Routing;
use onelink_database::virtual_db::VirtualLocation;
use onelink_database::DatabaseError;

fn header(partitioned: bool, partitions: u8, virtualization: bool) -> Header {
    Header {
        partitioned,
        partition_index: if partitioned { Some(0) } else { None },
        partitions: if partitioned { Some(partitions) } else { None },
        created_on: DbDeviceOs::Linux,
        last_open: 1,
        last_close: 2,
        last_write: 3,
        virtualization,
    }
}

/// The bytes of a whole database or partition file.
fn file_bytes(preamble: Preamble, h: Header, entries: Vec<PartitionEntry>) -> Vec<u8> {
    let mut out = preamble.encode();
    out.append(&mut h.encode());
    out.append(&mut encode_region(&entries));
    out
}

fn partition_file(entries: Vec<PartitionEntry>) -> Vec<u8> {
    file_bytes(Preamble::new(), header(false, 0, true), entries)
}

fn entry(name: &str, data: &[u8]) -> PartitionEntry {
    PartitionEntry {
        name: String::from(name),
        data: data.to_vec(),
    }
}

#[test]
fn test_virtual_location_new() {
    let loc = VirtualLocation::new();
    assert_eq!(loc.id, 0);
    assert_eq!(loc.offset, 0);
    assert_eq!(loc.index, 0);
}

#[test]
fn test_open_scenario() {
    // preamble (version 100, Zstd, encrypted) and a non-partitioned header
    // created on Linux with virtualization on: open succeeds and selects
    // the virtual mode
    let bytes = file_bytes(Preamble::new(), header(false, 0, true), Vec::new());
    let db = Database::open(&bytes).unwrap();
    assert!(matches!(db.mode, DatabaseMode::Virtual));
    match &db.internal {
        InternalDatabase::Virtual(v) => assert_eq!(v.parts.len(), 0),
        InternalDatabase::Single(_) => panic!("expected virtual mode"),
    }

    // the same file with virtualization off is an unsupported layout
    let bytes = file_bytes(Preamble::new(), header(false, 0, false), Vec::new());
    assert!(matches!(
        Database::open(&bytes),
        Err(DatabaseError::UnsupportedLayout)
    ));
}

#[test]
fn test_open_rejects_plaintext() {
    let bytes = file_bytes(Preamble::new_unsafe(), header(false, 0, true), Vec::new());
    assert!(matches!(
        Database::open(&bytes),
        Err(DatabaseError::UnsupportedLayout)
    ));
}

#[test]
fn test_open_magic_gate() {
    // any input whose first sixteen bytes differ from the magic fails with
    // InvalidFormat, whatever follows
    let bytes = vec![0x42u8; 100];
    assert!(matches!(
        Database::open(&bytes),
        Err(DatabaseError::InvalidFormat)
    ));
}

#[test]
fn test_open_version_gate() {
    for v in [99u16, 101, 0, 65535] {
        let mut bytes = file_bytes(Preamble::new(), header(false, 0, true), Vec::new());
        bytes[16..18].copy_from_slice(&v.to_be_bytes());
        match Database::open(&bytes) {
            Err(DatabaseError::UnsupportedVersion(got)) => assert_eq!(got, v),
            _ => panic!("expected UnsupportedVersion"),
        }
    }
}

#[test]
fn test_partition_fanout() {
    // a header declaring three partitions yields exactly three descriptors,
    // ordinals 0, 1, 2, each uninitialized until first accessed
    let bytes = file_bytes(Preamble::new(), header(true, 3, true), Vec::new());
    let db = Database::open(&bytes).unwrap();
    match &db.internal {
        InternalDatabase::Virtual(v) => {
            assert_eq!(v.parts.len(), 3);
            for (i, p) in v.parts.iter().enumerate() {
                assert_eq!(p.id as usize, i);
                assert!(!p.initialized);
            }
        }
        InternalDatabase::Single(_) => panic!("expected virtual mode"),
    }
}

#[test]
fn test_key_lifecycle() {
    let bytes = file_bytes(Preamble::new(), header(true, 1, true), Vec::new());
    let mut db = Database::open(&bytes).unwrap();

    // partitions are lazy: the first operation asks for partition 0
    match db.get(String::from("foo")) {
        Routing::NeedPartition(0) => {}
        _ => panic!("expected a demand for partition 0"),
    }
    db.init_partition(0, &partition_file(Vec::new())).unwrap();

    // add, then get returns the value
    let r = db.new(String::from("foo"), b"bar".to_vec());
    assert!(matches!(r, Routing::Ready(Ok(_))));
    match db.get(String::from("foo")) {
        Routing::Ready(Ok(item)) => {
            assert_eq!(item.key, "foo");
            assert_eq!(item.data, b"bar");
            assert_eq!(item.length, 3);
        }
        _ => panic!("expected the stored value"),
    }

    // a second add of the same name is refused
    match db.new(String::from("foo"), b"other".to_vec()) {
        Routing::Ready(Err(DatabaseError::KeyAlreadyExists(n))) => assert_eq!(n, "foo"),
        _ => panic!("expected KeyAlreadyExists"),
    }

    // update overwrites, and get sees the new value
    assert!(matches!(
        db.update(String::from("foo"), b"baz".to_vec()),
        Routing::Ready(Ok(_))
    ));
    match db.get(String::from("foo")) {
        Routing::Ready(Ok(item)) => assert_eq!(item.data, b"baz"),
        _ => panic!("expected the overwritten value"),
    }

    // remove succeeds once; after it, get and remove both miss
    assert!(matches!(
        db.remove(String::from("foo")),
        Routing::Ready(Ok(true))
    ));
    match db.get(String::from("foo")) {
        Routing::Ready(Err(DatabaseError::KeyNotFound(n))) => assert_eq!(n, "foo"),
        _ => panic!("expected KeyNotFound"),
    }
    match db.remove(String::from("foo")) {
        Routing::Ready(Err(DatabaseError::KeyNotFound(n))) => assert_eq!(n, "foo"),
        _ => panic!("expected KeyNotFound"),
    }
}

#[test]
fn test_global_uniqueness() {
    // two partitions; the name lands in partition 0, and a second add —
    // which balancing would target at partition 1 — is still rejected:
    // the check spans the whole database
    let bytes = file_bytes(Preamble::new(), header(true, 2, true), Vec::new());
    let mut db = Database::open(&bytes).unwrap();
    db.init_partition(0, &partition_file(Vec::new())).unwrap();
    db.init_partition(1, &partition_file(Vec::new())).unwrap();

    match db.new(String::from("dup"), b"a".to_vec()) {
        Routing::Ready(Ok(k)) => assert_eq!(k.location.id, 0),
        _ => panic!("expected the first add to land in partition 0"),
    }
    match db.new(String::from("dup"), b"b".to_vec()) {
        Routing::Ready(Err(DatabaseError::KeyAlreadyExists(n))) => assert_eq!(n, "dup"),
        _ => panic!("expected KeyAlreadyExists across partitions"),
    }

    // a fresh name goes to the emptier partition 1
    match db.new(String::from("other"), b"c".to_vec()) {
        Routing::Ready(Ok(k)) => assert_eq!(k.location.id, 1),
        _ => panic!("expected placement in partition 1"),
    }
}

#[test]
fn test_init_partition_rejects_cross_duplicate() {
    // loading a partition file that repeats a name held elsewhere violates
    // global uniqueness and is refused; the partition stays uninitialized
    let bytes = file_bytes(Preamble::new(), header(true, 2, true), Vec::new());
    let mut db = Database::open(&bytes).unwrap();
    db.init_partition(0, &partition_file(vec![entry("dup", b"a")]))
        .unwrap();
    let r = db.init_partition(1, &partition_file(vec![entry("dup", b"b")]));
    match r {
        Err(DatabaseError::KeyAlreadyExists(n)) => assert_eq!(n, "dup"),
        _ => panic!("expected KeyAlreadyExists at load"),
    }
    match &db.internal {
        InternalDatabase::Virtual(v) => assert!(!v.parts[1].initialized),
        InternalDatabase::Single(_) => panic!("expected virtual mode"),
    }
}

#[test]
fn test_partition_init_validates_layout() {
    let mut p = Partition::new(0);
    // a plaintext partition body is unsupported
    let plain = file_bytes(Preamble::new_unsafe(), header(false, 0, true), Vec::new());
    assert!(matches!(
        p.init(&plain),
        Err(DatabaseError::UnsupportedLayout)
    ));
    // a non-virtualized partition is unsupported
    let flat = file_bytes(Preamble::new(), header(false, 0, false), Vec::new());
    assert!(matches!(
        p.init(&flat),
        Err(DatabaseError::UnsupportedLayout)
    ));
    // a repeated name inside one file is refused
    let dup = partition_file(vec![entry("k", b"1"), entry("k", b"2")]);
    assert!(matches!(
        p.init(&dup),
        Err(DatabaseError::KeyAlreadyExists(_))
    ));
    assert!(!p.initialized);
    // a sound file initializes, and a second init is a no-op
    let good = partition_file(vec![entry("k", b"1")]);
    assert!(p.init(&good).is_ok());
    assert!(p.initialized);
    assert!(p.init(&plain).is_ok());
    assert!(p.initialized);
}

#[test]
fn test_partition_directory_addressing() {
    // fetch_keys addresses each value block exactly: at the stated offset
    // of the encoded file, relative to the value region, sits the block's
    // length prefix and then the value bytes
    let mut p = Partition::new(7);
    let file = partition_file(vec![entry("ab", b"first"), entry("longer", b"x")]);
    p.init(&file).unwrap();
    let keys = p.fetch_keys();
    assert_eq!(keys.len(), 2);
    let start = 20 + header(false, 0, true).byte_len();
    for (i, k) in keys.iter().enumerate() {
        assert_eq!(k.location.id, 7);
        assert_eq!(k.location.index, i as u64);
        let at = start + k.location.offset as usize;
        let mut prefix = [0u8; 16];
        prefix.copy_from_slice(&file[at..at + 16]);
        assert_eq!(u128::from_be_bytes(prefix), k.length as u128);
    }
    assert_eq!(keys[0].name, "ab");
    assert_eq!(keys[0].length, 5);
    assert_eq!(keys[1].name, "longer");
    assert_eq!(keys[1].length, 1);
    // the first block sits right past the count and the directory
    let dir_len = (16 + 2) + (16 + 6);
    assert_eq!(keys[0].location.offset as usize, 16 + dir_len);
}

#[test]
fn test_partition_encode_reopens_identically() {
    // writing a mutated partition out and reading it back restores the
    // same entries, non-ASCII names included
    let mut p = Partition::new(0);
    p.init(&partition_file(Vec::new())).unwrap();
    p.add(String::from("caf\u{00e9}"), b"au lait".to_vec())
        .unwrap();
    p.add(String::from("plain"), vec![9u8; 40]).unwrap();
    p.remove(String::from("plain")).unwrap();
    p.set(String::from("caf\u{00e9}"), b"noir".to_vec()).unwrap();

    let bytes = p.encode();
    let mut q = Partition::new(0);
    q.init(&bytes).unwrap();
    let item = q.get(String::from("caf\u{00e9}")).unwrap();
    assert_eq!(item.data, b"noir");
    assert_eq!(q.fetch_keys().len(), 1);
}

#[test]
fn test_partition_length_tracks_region() {
    let mut p = Partition::new(0);
    p.init(&partition_file(Vec::new())).unwrap();
    assert_eq!(p.length, 16);
    p.add(String::from("ab"), b"xyz".to_vec()).unwrap();
    // count + (name record) + (value block)
    assert_eq!(p.length, 16 + (16 + 2) + (16 + 3));
}

#[test]
fn test_refresh_keys_snapshot() {
    let bytes = file_bytes(Preamble::new(), header(true, 2, true), Vec::new());
    let mut db = Database::open(&bytes).unwrap();
    db.init_partition(0, &partition_file(vec![entry("a", b"1")]))
        .unwrap();
    db.init_partition(1, &partition_file(vec![entry("b", b"22")]))
        .unwrap();
    match &mut db.internal {
        InternalDatabase::Virtual(v) => {
            assert!(v.keys.is_empty());
            v.refresh_keys();
            assert_eq!(v.keys.len(), 2);
            assert_eq!(v.keys[0].name, "a");
            assert_eq!(v.keys[0].location.id, 0);
            assert_eq!(v.keys[0].length, 1);
            assert_eq!(v.keys[1].name, "b");
            assert_eq!(v.keys[1].location.id, 1);
            assert_eq!(v.keys[1].length, 2);
        }
        InternalDatabase::Single(_) => panic!("expected virtual mode"),
    }
}
