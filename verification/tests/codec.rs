//! Tests of the preamble, header and value-region codecs.

use onelink_database::db::DbDeviceOs;
use onelink_database::db::Header;
use onelink_database::generate_magic;
use onelink_database::preamble::CompressionMode;
use onelink_database::preamble::Preamble;
use onelink_database::region::decode_region;
use onelink_database::region::encode_region;
use onelink_database::region::PartitionEntry;
use onelink_database::utils::GetByteLength;
use onelink_database::DatabaseError;

fn sample_header(partitioned: bool) -> Header {
    Header {
        partitioned,
        partition_index: if partitioned { Some(1) } else { None },
        partitions: if partitioned { Some(3) } else { None },
        created_on: DbDeviceOs::Linux,
        last_open: 258,
        last_close: u128::MAX - 7,
        last_write: 0,
        virtualization: true,
    }
}

#[test]
fn test_generate_magic() {
    let magic = generate_magic();
    assert_eq!(magic.len(), 16);
    assert_eq!(&magic[..13], b"Onelink 1.0.0");
    assert_eq!(&magic[13..], &[0u8, 0, 0]);
}

#[test]
fn test_preamble_round_trip() {
    let p = Preamble::new();
    let bytes = p.encode();
    assert_eq!(bytes.len(), 20);
    assert_eq!(p.byte_len(), 20);
    assert_eq!(Preamble::create(&bytes), Ok(p));

    let q = Preamble {
        version: 100,
        compression: CompressionMode::NoCompression,
        encryption: 7,
    };
    assert_eq!(Preamble::create(&q.encode()), Ok(q));
}

#[test]
fn test_preamble_fields_on_wire() {
    let p = Preamble::new();
    let bytes = p.encode();
    assert_eq!(&bytes[..16], &generate_magic()[..]);
    assert_eq!(&bytes[16..18], &100u16.to_be_bytes());
    assert_eq!(bytes[18], 1); // Zstd
    assert_eq!(bytes[19], 1); // encrypted
    assert!(p.is_encrypted());
    assert!(!Preamble::new_unsafe().is_encrypted());
}

#[test]
fn test_preamble_magic_rejected() {
    let mut bytes = Preamble::new().encode();
    bytes[0] ^= 0xFF;
    assert_eq!(Preamble::create(&bytes), Err(DatabaseError::InvalidFormat));
    // the magic is judged first, whatever the remaining bytes hold
    let garbage = vec![0xABu8; 64];
    assert!(!Preamble::validate_magic(&garbage));
}

#[test]
fn test_preamble_version_gate() {
    assert!(Preamble::validate_version(100));
    for v in [99u16, 101, 0, 65535] {
        assert!(!Preamble::validate_version(v));
        let mut bytes = Preamble::new().encode();
        bytes[16..18].copy_from_slice(&v.to_be_bytes());
        assert_eq!(
            Preamble::create(&bytes),
            Err(DatabaseError::UnsupportedVersion(v))
        );
    }
}

#[test]
fn test_preamble_compression_gate() {
    let mut bytes = Preamble::new().encode();
    bytes[18] = 2;
    assert_eq!(
        Preamble::create(&bytes),
        Err(DatabaseError::InvalidCompressionMode)
    );
}

#[test]
fn test_preamble_truncated() {
    let bytes = Preamble::new().encode();
    assert_eq!(
        Preamble::create(&bytes[..10]),
        Err(DatabaseError::TruncatedHeader)
    );
    assert_eq!(
        Preamble::create(&bytes[..19]),
        Err(DatabaseError::TruncatedHeader)
    );
}

#[test]
fn test_header_round_trip() {
    for partitioned in [false, true] {
        let h = sample_header(partitioned);
        let bytes = h.encode();
        assert_eq!(bytes.len(), h.byte_len());
        assert_eq!(Header::create(&bytes), Ok(h));
    }
}

#[test]
fn test_header_byte_len_matches_consumed() {
    // byte_len equals the bytes decode consumed: trailing bytes change
    // nothing, and the prefix of that length decodes the same.
    let h = sample_header(true);
    let mut bytes = h.encode();
    assert_eq!(h.byte_len(), 53);
    assert_eq!(sample_header(false).byte_len(), 51);
    bytes.extend_from_slice(&[0xEE; 40]);
    let decoded = Header::create(&bytes).unwrap();
    assert_eq!(decoded, h);
    assert_eq!(decoded.byte_len(), 53);
    assert_eq!(Header::create(&bytes[..53]), Ok(h));
}

#[test]
fn test_header_timestamps_big_endian() {
    let h = sample_header(false);
    let bytes = h.encode();
    // flag, os tag, then three sixteen-byte big-endian timestamps
    assert_eq!(bytes[0], 0);
    assert_eq!(bytes[1], 0); // Linux
    assert_eq!(&bytes[2..18], &258u128.to_be_bytes());
    assert_eq!(&bytes[18..34], &(u128::MAX - 7).to_be_bytes());
    assert_eq!(&bytes[34..50], &0u128.to_be_bytes());
    assert_eq!(bytes[50], 1); // virtualized
}

#[test]
fn test_header_unknown_os_tag() {
    let h = sample_header(false);
    let mut bytes = h.encode();
    bytes[1] = 9;
    let decoded = Header::create(&bytes).unwrap();
    assert_eq!(decoded.created_on, DbDeviceOs::Unknown);
}

#[test]
fn test_header_truncated() {
    let h = sample_header(true);
    let bytes = h.encode();
    assert_eq!(Header::create(&[]), Err(DatabaseError::TruncatedHeader));
    assert_eq!(
        Header::create(&bytes[..52]),
        Err(DatabaseError::TruncatedHeader)
    );
}

#[test]
fn test_region_round_trip() {
    let entries = vec![
        PartitionEntry {
            name: String::from("foo"),
            data: b"bar".to_vec(),
        },
        PartitionEntry {
            name: String::from("s\u{00e9}same \u{03a9}"),
            data: Vec::new(),
        },
        PartitionEntry {
            name: String::new(),
            data: vec![0u8; 300],
        },
    ];
    let bytes = encode_region(&entries);
    let decoded = decode_region(&bytes).unwrap();
    assert_eq!(decoded.len(), entries.len());
    for (d, e) in decoded.iter().zip(entries.iter()) {
        assert_eq!(d.name, e.name);
        assert_eq!(d.data, e.data);
    }
}

#[test]
fn test_region_layout_on_wire() {
    let entries = vec![PartitionEntry {
        name: String::from("ab"),
        data: b"xyz".to_vec(),
    }];
    let bytes = encode_region(&entries);
    // count, then one directory record, then one value block
    assert_eq!(&bytes[..16], &1u128.to_be_bytes());
    assert_eq!(&bytes[16..32], &2u128.to_be_bytes());
    assert_eq!(&bytes[32..34], b"ab");
    assert_eq!(&bytes[34..50], &3u128.to_be_bytes());
    assert_eq!(&bytes[50..], b"xyz");
}

#[test]
fn test_region_rejects_bad_utf8_name() {
    let mut bytes = Vec::new();
    bytes.extend_from_slice(&1u128.to_be_bytes());
    bytes.extend_from_slice(&1u128.to_be_bytes());
    bytes.push(0xFF); // not valid UTF-8
    bytes.extend_from_slice(&0u128.to_be_bytes());
    assert!(matches!(
        decode_region(&bytes),
        Err(DatabaseError::TruncatedHeader)
    ));
}

#[test]
fn test_region_rejects_trailing_garbage() {
    let mut bytes = encode_region(&Vec::new());
    assert_eq!(bytes.len(), 16);
    assert_eq!(decode_region(&bytes).unwrap().len(), 0);
    bytes.push(0);
    assert!(matches!(
        decode_region(&bytes),
        Err(DatabaseError::TruncatedHeader)
    ));
}

#[test]
fn test_byte_len_through_trait() {
    let p = Preamble::new();
    assert_eq!(GetByteLength::byte_len(&p), 20);
    let h = sample_header(true);
    assert_eq!(GetByteLength::byte_len(&h), 53);
}
