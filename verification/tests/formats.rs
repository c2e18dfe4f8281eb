use ecsdb::error::EcsDbError;
use ecsdb::error::Result;
use ecsdb::persistence::file_wal::{encode_record, parse_wal_file, WalFileHeader};
use ecsdb::persistence::names::{parse_snapshot_file_name, parse_wal_file_name, snapshot_file_name, wal_file_name};
use ecsdb::persistence::snapshot::{frame_snapshot, unframe_snapshot};
use ecsdb::replication::delta_encoder::{DeltaEncoder, Frame, FrameFlag, PROTOCOL_VERSION};
use ecsdb::storage::delta::{Delta, DeltaOp};
use ecsdb::transaction::wal::{WalEntry, WalOp};

#[test]
fn test_frame_encode_decode() -> Result<()> {
    let payload = vec![1u8, 2, 3, 4, 5];
    let frame = Frame::new(FrameFlag::Delta.to_bits(), payload.clone());
    let encoded = frame.encode();
    let decoded = Frame::decode(encoded)?;
    assert_eq!(decoded.version, PROTOCOL_VERSION);
    assert_eq!(decoded.flags, FrameFlag::Delta.to_bits());
    assert_eq!(decoded.payload, payload);
    Ok(())
}

#[test]
fn test_frame_compression() -> Result<()> {
    let payload = vec![1u8, 2, 3, 4, 5];
    let mut frame = Frame::new(FrameFlag::Delta.to_bits(), payload);
    frame.compress(3)?;
    assert!(frame.is_compressed());
    frame.decompress()?;
    assert!(!frame.is_compressed());
    Ok(())
}

#[test]
fn test_delta_encoder() -> Result<()> {
    let delta = Delta {
        ops: vec![DeltaOp::Insert { table_id: 1, entity_id: 100, data: vec![1, 2, 3] }],
        version: 5,
        timestamp: 12345,
    };
    let frame = DeltaEncoder::encode(&delta, false)?;
    let decoded = DeltaEncoder::decode(frame)?;
    assert_eq!(decoded.version, delta.version);
    assert_eq!(decoded.timestamp, delta.timestamp);
    assert_eq!(decoded.ops.len(), 1);
    Ok(())
}

#[test]
fn test_delta_op_serialization() -> Result<()> {
    let mut delta = Delta::new(0, 0);
    delta.push(DeltaOp::Insert { table_id: 1, entity_id: 100, data: vec![1, 2, 3] });
    let bytes = delta.serialize()?;
    let decoded = Delta::deserialize(&bytes)?;
    match &decoded.ops[0] {
        DeltaOp::Insert { table_id, entity_id, data } => {
            assert_eq!(*table_id, 1);
            assert_eq!(*entity_id, 100);
            assert_eq!(data, &vec![1, 2, 3]);
        }
        _ => panic!("Unexpected variant"),
    }
    Ok(())
}

#[test]
fn test_delta_serialization() -> Result<()> {
    let mut delta = Delta::new(5, 12345);
    delta.push(DeltaOp::Insert { table_id: 2, entity_id: 200, data: vec![4, 5, 6] });
    let bytes = delta.serialize()?;
    let decoded = Delta::deserialize(&bytes)?;
    assert_eq!(decoded.version, 5);
    assert_eq!(decoded.timestamp, 12345);
    assert_eq!(decoded.ops.len(), 1);
    Ok(())
}

#[test]
fn test_delta_encoding_roundtrip() -> Result<()> {
    let payload = b"test payload";
    let frame = Frame::new(FrameFlag::Delta.to_bits(), payload.to_vec());
    let encoded = frame.encode();
    let decoded = Frame::decode(encoded)?;
    assert_eq!(decoded.version, frame.version);
    assert_eq!(decoded.flags, frame.flags);
    assert_eq!(decoded.payload, frame.payload);
    Ok(())
}

#[test]
fn delta_bytes_are_fixed_width_little_endian() -> Result<()> {
    let mut delta = Delta::new(7, 9);
    delta.push(DeltaOp::CreateEntity { entity_id: 0x0102 });
    let bytes = delta.serialize()?;
    let mut expected = Vec::new();
    expected.extend_from_slice(&1u64.to_le_bytes());
    expected.extend_from_slice(&3u32.to_le_bytes());
    expected.extend_from_slice(&0x0102u64.to_le_bytes());
    expected.extend_from_slice(&7u64.to_le_bytes());
    expected.extend_from_slice(&9u64.to_le_bytes());
    assert_eq!(bytes, expected);
    Ok(())
}

#[test]
fn delta_with_every_change_round_trips() -> Result<()> {
    let mut delta = Delta::new(11, 22);
    delta.push(DeltaOp::Insert { table_id: 1, entity_id: 2, data: vec![3] });
    delta.push(DeltaOp::Update { table_id: 4, entity_id: 5, field_offset: 6, old_data: vec![7, 8], new_data: vec![] });
    delta.push(DeltaOp::Delete { table_id: 9, entity_id: 10, old_data: vec![11] });
    delta.push(DeltaOp::CreateEntity { entity_id: 12 });
    delta.push(DeltaOp::DeleteEntity { entity_id: 13 });
    let bytes = delta.serialize()?;
    let back = Delta::deserialize(&bytes)?;
    assert_eq!(back.version, 11);
    assert_eq!(back.timestamp, 22);
    assert_eq!(back.ops.len(), 5);
    match &back.ops[1] {
        DeltaOp::Update { table_id, entity_id, field_offset, old_data, new_data } => {
            assert_eq!((*table_id, *entity_id, *field_offset), (4, 5, 6));
            assert_eq!(old_data, &vec![7, 8]);
            assert!(new_data.is_empty());
        }
        _ => panic!("Unexpected op"),
    }
    Ok(())
}

#[test]
fn truncated_delta_is_a_serialization_error() -> Result<()> {
    let mut delta = Delta::new(1, 2);
    delta.push(DeltaOp::Insert { table_id: 1, entity_id: 2, data: vec![3, 4] });
    let bytes = delta.serialize()?;
    let r = Delta::deserialize(&bytes[..bytes.len() - 1]);
    assert!(matches!(r, Err(EcsDbError::SerializationError(_))));
    Ok(())
}

#[test]
fn frame_with_bad_checksum_is_refused() {
    let frame = Frame::new(FrameFlag::Heartbeat.to_bits(), vec![9, 9]);
    let mut bytes = frame.encode();
    let last = bytes.len() - 1;
    bytes[last] ^= 0xff;
    assert!(matches!(Frame::decode(bytes), Err(EcsDbError::ReplicationError(_))));
}

#[test]
fn compressed_delta_frame_decodes() -> Result<()> {
    let delta = Delta {
        ops: vec![DeltaOp::Delete { table_id: 3, entity_id: 4, old_data: vec![0; 64] }],
        version: 8,
        timestamp: 99,
    };
    let frame = DeltaEncoder::encode(&delta, true)?;
    assert!(frame.is_compressed());
    let back = DeltaEncoder::decode(frame)?;
    assert_eq!(back.version, 8);
    assert_eq!(back.ops.len(), 1);
    Ok(())
}

#[test]
fn frame_flags_read_back() {
    let bits = FrameFlag::Compressed.to_bits() | FrameFlag::Delta.to_bits();
    assert_eq!(bits, 0x09);
    assert_eq!(FrameFlag::from_bits(bits), vec![FrameFlag::Compressed, FrameFlag::Delta]);
}

#[test]
fn snapshot_file_frame_round_trips() -> Result<()> {
    let payload = vec![5u8, 6, 7, 8];
    let file = frame_snapshot(payload.clone(), false)?;
    assert_eq!(file.len(), 28 + 4);
    assert_eq!(&file[0..8], b"ECSSNAP\x00");
    assert_eq!(unframe_snapshot(&file)?, payload);
    let packed = frame_snapshot(payload.clone(), true)?;
    assert_eq!(packed[12], 1);
    assert_eq!(unframe_snapshot(&packed)?, payload);
    Ok(())
}

#[test]
fn snapshot_file_errors() -> Result<()> {
    let file = frame_snapshot(vec![1, 2, 3], false)?;
    assert!(matches!(unframe_snapshot(&file[..20]), Err(EcsDbError::IoError(_))));
    let mut bad_magic = file.clone();
    bad_magic[0] = b'X';
    assert!(matches!(unframe_snapshot(&bad_magic), Err(EcsDbError::SnapshotError(_))));
    let mut bad_version = file.clone();
    bad_version[8] = 2;
    assert!(matches!(unframe_snapshot(&bad_version), Err(EcsDbError::SnapshotError(_))));
    let mut bad_data = file.clone();
    bad_data[28] ^= 1;
    assert!(matches!(unframe_snapshot(&bad_data), Err(EcsDbError::SnapshotError(_))));
    Ok(())
}

#[test]
fn wal_file_reads_back_its_records() -> Result<()> {
    let mut file = Vec::new();
    WalFileHeader::new().write(&mut file)?;
    let a = WalEntry::stamped(10, 1, 0, WalOp::Insert { table_id: 2, entity_id: 3, data: vec![4, 5] });
    let b = WalEntry::stamped(11, 1, 1, WalOp::Commit { transaction_id: 1 });
    file.extend(encode_record(&a));
    file.extend(encode_record(&b));
    let entries = parse_wal_file(&file)?;
    assert_eq!(entries.len(), 2);
    assert_eq!(entries[0].timestamp, 10);
    assert_eq!(entries[0].operation, WalOp::Insert { table_id: 2, entity_id: 3, data: vec![4, 5] });
    assert_eq!(entries[1].operation, WalOp::Commit { transaction_id: 1 });
    assert!(entries[0].validate_checksum());
    Ok(())
}

#[test]
fn wal_file_errors() -> Result<()> {
    let mut file = Vec::new();
    WalFileHeader::new().write(&mut file)?;
    let a = WalEntry::stamped(1, 2, 0, WalOp::Delete { table_id: 1, entity_id: 1 });
    file.extend(encode_record(&a));
    assert!(matches!(parse_wal_file(&file[..31]), Err(EcsDbError::IoError(_))));
    assert!(matches!(parse_wal_file(&file[..file.len() - 1]), Err(EcsDbError::IoError(_))));
    let mut bad_magic = file.clone();
    bad_magic[0] = 0;
    assert!(matches!(parse_wal_file(&bad_magic), Err(EcsDbError::WalError(_))));
    let mut bad_version = file.clone();
    bad_version[8] = 9;
    assert!(matches!(parse_wal_file(&bad_version), Err(EcsDbError::WalError(_))));
    let mut bad_op = file.clone();
    bad_op[32 + 4 + 20] = 7;
    assert!(matches!(parse_wal_file(&bad_op), Err(EcsDbError::SerializationError(_))));
    let mut tail = file.clone();
    tail.extend_from_slice(&[0, 0, 0]);
    assert_eq!(parse_wal_file(&tail)?.len(), 1);
    Ok(())
}

#[test]
fn wal_header_has_magic_version_and_zeros() -> Result<()> {
    let mut out = Vec::new();
    WalFileHeader::new().write(&mut out)?;
    let mut expected = b"ECSWAL\x00\x00".to_vec();
    expected.extend_from_slice(&[1, 0, 0, 0, 0, 0, 0, 0]);
    expected.extend_from_slice(&[0; 16]);
    assert_eq!(out, expected);
    let mut short = out.clone();
    short.truncate(31);
    assert!(matches!(WalFileHeader::read(&short), Err(EcsDbError::IoError(_))));
    Ok(())
}

#[test]
fn file_names_round_trip() {
    assert_eq!(snapshot_file_name(0x1f), "snapshot_000000000000001f.bin");
    assert_eq!(parse_snapshot_file_name("snapshot_000000000000001f.bin"), Some(0x1f));
    assert_eq!(parse_snapshot_file_name(&snapshot_file_name(u64::MAX)), Some(u64::MAX));
    assert_eq!(wal_file_name(7), "wal_0007.wal");
    assert_eq!(wal_file_name(123456), "wal_123456.wal");
    assert_eq!(parse_wal_file_name("wal_0007.wal"), Some(7));
    assert_eq!(parse_wal_file_name("wal_+12.wal"), Some(12));
    assert_eq!(parse_wal_file_name("wal_.wal"), None);
    assert_eq!(parse_wal_file_name("wal_12.bin"), None);
    assert_eq!(parse_snapshot_file_name("snapshot_xyz.bin"), None);
}

#[test]
fn delta_bytes_match_bincode_layout() -> Result<()> {
    let delta = Delta {
        ops: vec![
            DeltaOp::Insert { table_id: 3, entity_id: 70000, data: vec![1, 2, 3] },
            DeltaOp::Update { table_id: 4, entity_id: 9, field_offset: 12, old_data: vec![5], new_data: vec![6, 7] },
            DeltaOp::Delete { table_id: 65535, entity_id: u64::MAX, old_data: vec![] },
            DeltaOp::CreateEntity { entity_id: 42 },
            DeltaOp::DeleteEntity { entity_id: 43 },
        ],
        version: 17,
        timestamp: 1_700_000_000_123,
    };
    let mut expected = bincode::serialize(&5u64).unwrap();
    expected.extend(bincode::serialize(&(0u32, 3u16, 70000u64, vec![1u8, 2, 3])).unwrap());
    expected.extend(bincode::serialize(&(1u32, 4u16, 9u64, 12u64, vec![5u8], vec![6u8, 7])).unwrap());
    expected.extend(bincode::serialize(&(2u32, 65535u16, u64::MAX, Vec::<u8>::new())).unwrap());
    expected.extend(bincode::serialize(&(3u32, 42u64)).unwrap());
    expected.extend(bincode::serialize(&(4u32, 43u64)).unwrap());
    expected.extend(bincode::serialize(&(17u64, 1_700_000_000_123u64)).unwrap());
    let bytes = delta.serialize()?;
    assert_eq!(bytes, expected);
    let back = Delta::deserialize(&expected)?;
    assert_eq!(back.ops.len(), 5);
    assert_eq!(back.version, 17);
    assert_eq!(back.timestamp, 1_700_000_000_123);
    Ok(())
}

#[test]
fn wal_record_bytes_match_bincode_layout() {
    let entries = vec![
        (WalOp::Insert { table_id: 2, entity_id: 11, data: vec![9, 8] }, (0u32, 2u16, 11u64, Some(vec![9u8, 8]))),
        (WalOp::Update { table_id: 2, entity_id: 11, data: vec![1] }, (1u32, 2u16, 11u64, Some(vec![1u8]))),
        (WalOp::Delete { table_id: 2, entity_id: 11 }, (2u32, 2u16, 11u64, None)),
    ];
    for (op, (tag, table_id, entity_id, data)) in entries {
        let e = WalEntry::new(5, 1, op);
        let mut body = bincode::serialize(&(e.timestamp, e.transaction_id, e.sequence, tag, table_id, entity_id)).unwrap();
        if let Some(d) = data {
            body.extend(bincode::serialize(&d).unwrap());
        }
        body.extend(bincode::serialize(&e.checksum).unwrap());
        let mut expected = (body.len() as u32).to_le_bytes().to_vec();
        expected.extend(body);
        assert_eq!(encode_record(&e), expected);
    }
    for (op, tag) in [(WalOp::Commit { transaction_id: 77 }, 3u32), (WalOp::Rollback { transaction_id: 77 }, 4u32)] {
        let e = WalEntry::new(77, 2, op);
        let body = bincode::serialize(&(e.timestamp, e.transaction_id, e.sequence, tag, 77u64, e.checksum)).unwrap();
        let mut expected = (body.len() as u32).to_le_bytes().to_vec();
        expected.extend(body);
        assert_eq!(encode_record(&e), expected);
    }
}
