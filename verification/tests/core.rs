use ecsdb::component::{Component, ZeroCopyComponent};
use ecsdb::config::PersistenceConfig;
use ecsdb::entity::archetype::{ArchetypeMask, ArchetypeRegistry};
use ecsdb::entity::registry::EntityRegistry;
use ecsdb::error::Result;
use ecsdb::persistence::file_wal::{WalFileHeader, HEADER_SIZE, WAL_VERSION};
use ecsdb::replication::conflict::{Conflict, ConflictMerge, ConflictResolver, ConflictStrategy};
use ecsdb::replication::delta_log::DeltaLog;
use ecsdb::schema::types::{FieldDefinition, FieldType};
use ecsdb::storage::buffer::ArcStorageBuffer;
use ecsdb::storage::delta::{ComponentMap, Delta, DeltaOp, DeltaTracker};
use ecsdb::storage::layout::{compute_record_layout, layout_check};
use ecsdb::storage::sparse::SparseSet;
use ecsdb::storage::table::ComponentTable;
use ecsdb::transaction::wal::{WalEntry, WalLogger, WalOp};

#[derive(Debug, PartialEq, Clone, Copy)]
struct TestComponent {
    x: f32,
    y: f32,
    id: u32,
}

impl Component for TestComponent {
    const TABLE_ID: u16 = 1;
    const TABLE_NAME: &'static str = "test_component";
}

impl ZeroCopyComponent for TestComponent {
    fn static_size() -> usize {
        std::mem::size_of::<TestComponent>()
    }

    fn alignment() -> usize {
        std::mem::align_of::<TestComponent>()
    }
}

fn encode(c: &TestComponent) -> Vec<u8> {
    let mut v = Vec::new();
    v.extend_from_slice(&c.x.to_le_bytes());
    v.extend_from_slice(&c.y.to_le_bytes());
    v.extend_from_slice(&c.id.to_le_bytes());
    v
}

fn decode(b: &[u8]) -> TestComponent {
    TestComponent {
        x: f32::from_le_bytes([b[0], b[1], b[2], b[3]]),
        y: f32::from_le_bytes([b[4], b[5], b[6], b[7]]),
        id: u32::from_le_bytes([b[8], b[9], b[10], b[11]]),
    }
}

fn field(name: &str, field_type: FieldType) -> FieldDefinition {
    FieldDefinition {
        name: name.to_string(),
        field_type,
        nullable: false,
        indexed: false,
        primary_key: false,
        foreign_key: None,
    }
}

#[test]
fn test_default_config() {
    let config = PersistenceConfig::default();
    assert_eq!(config.snapshot_dir, "./snapshots");
    assert!(config.compress_snapshots);
}

#[test]
fn test_archetype_mask() {
    let mut mask = ArchetypeMask::empty();
    assert!(!mask.contains(0));
    assert!(!mask.contains(5));

    mask.add_component(5);
    assert!(mask.contains(5));
    assert!(!mask.contains(4));
    assert_eq!(mask.bits(), 1 << 5);

    mask.remove_component(5);
    assert!(!mask.contains(5));
    assert_eq!(mask.bits(), 0);
}

#[test]
fn test_archetype_registry() {
    let mut reg = ArchetypeRegistry::new();

    reg.add_entity(1, ArchetypeMask::empty());
    assert_eq!(reg.get_archetype(1), Some(ArchetypeMask::empty()));
    assert_eq!(reg.archetype_size(ArchetypeMask::empty()), 1);

    reg.add_component(1, 3);
    let expected = ArchetypeMask::with_component(3);
    assert_eq!(reg.get_archetype(1), Some(expected));
    assert_eq!(reg.archetype_size(ArchetypeMask::empty()), 0);
    assert_eq!(reg.archetype_size(expected), 1);

    reg.remove_component(1, 3);
    assert_eq!(reg.get_archetype(1), Some(ArchetypeMask::empty()));
    assert_eq!(reg.archetype_size(expected), 0);
    assert_eq!(reg.archetype_size(ArchetypeMask::empty()), 1);

    reg.remove_entity(1);
    assert_eq!(reg.get_archetype(1), None);
    assert_eq!(reg.archetype_size(ArchetypeMask::empty()), 0);
}

#[test]
fn test_wal_file_header() {
    let mut buffer = Vec::new();
    let header = WalFileHeader::new();
    header.write(&mut buffer).unwrap();
    assert_eq!(buffer.len(), HEADER_SIZE);

    let read_header = WalFileHeader::read(&buffer).unwrap();
    assert_eq!(read_header.magic, *b"ECSWAL\x00\x00");
    assert_eq!(read_header.version, WAL_VERSION);
}

#[test]
fn test_resolve_server_authoritative() -> Result<()> {
    let mut resolver = ConflictResolver::new(ConflictStrategy::ServerAuthoritative);
    let mut server_current = ComponentMap::new();
    server_current.insert(1, 100, vec![1, 2, 3]);

    let client_delta = Delta {
        ops: vec![DeltaOp::Update {
            table_id: 1,
            entity_id: 100,
            field_offset: 0,
            old_data: vec![1, 2, 3],
            new_data: vec![4, 5, 6],
        }],
        version: 2,
        timestamp: 2000,
    };

    let resolved = resolver.resolve(1, 1000, client_delta, &server_current)?;
    assert_eq!(resolved.ops.len(), 1);
    Ok(())
}

#[test]
fn test_resolve_last_write_wins() -> Result<()> {
    let mut resolver = ConflictResolver::new(ConflictStrategy::LastWriteWins);
    let mut server_current = ComponentMap::new();
    server_current.insert(1, 100, vec![1, 2, 3]);

    let client_delta = Delta {
        ops: vec![DeltaOp::Update {
            table_id: 1,
            entity_id: 100,
            field_offset: 0,
            old_data: vec![0, 0, 0],
            new_data: vec![4, 5, 6],
        }],
        version: 2,
        timestamp: 2000,
    };

    let resolved = resolver.resolve(1, 1000, client_delta, &server_current)?;
    assert_eq!(resolved.ops.len(), 1);
    if let DeltaOp::Update { new_data, .. } = &resolved.ops[0] {
        assert_eq!(new_data, &vec![4, 5, 6]);
    } else {
        panic!("Unexpected op");
    }
    Ok(())
}

#[test]
fn test_delta_log() {
    let mut log = DeltaLog::new(3);
    let delta = Delta {
        ops: vec![DeltaOp::Insert { table_id: 1, entity_id: 100, data: vec![1, 2, 3] }],
        version: 5,
        timestamp: 1234567890,
    };
    log.record(&delta);
    assert_eq!(log.entries().len(), 1);
    let entry = &log.entries()[0];
    assert_eq!(entry.version, 5);
    assert_eq!(entry.first_op_type, "insert");
    assert_eq!(entry.first_table_id, Some(1));
    assert_eq!(entry.first_entity_id, Some(100));
}

#[test]
fn test_delta_tracker_record_insert() {
    let mut tracker = DeltaTracker::new(1, 1000);
    tracker.record_insert(3, 300, &[7, 8, 9]);
    let delta = tracker.take_delta();
    assert_eq!(delta.version, 1);
    assert_eq!(delta.timestamp, 1000);
    assert_eq!(delta.ops.len(), 1);
    match &delta.ops[0] {
        DeltaOp::Insert { table_id, entity_id, data } => {
            assert_eq!(*table_id, 3);
            assert_eq!(*entity_id, 300);
            assert_eq!(data, &vec![7, 8, 9]);
        }
        _ => panic!("Unexpected op"),
    }
}

#[test]
fn test_delta_tracker_record_update() {
    let mut tracker = DeltaTracker::new(2, 2000);
    tracker.record_update(4, 400, 0, &[1], &[2]);
    let delta = tracker.take_delta();
    assert_eq!(delta.ops.len(), 1);
    match &delta.ops[0] {
        DeltaOp::Update { table_id, entity_id, field_offset, old_data, new_data } => {
            assert_eq!(*table_id, 4);
            assert_eq!(*entity_id, 400);
            assert_eq!(*field_offset, 0);
            assert_eq!(old_data, &vec![1]);
            assert_eq!(new_data, &vec![2]);
        }
        _ => panic!("Unexpected op"),
    }
}

#[test]
fn test_delta_tracker_record_delete() {
    let mut tracker = DeltaTracker::new(3, 3000);
    tracker.record_delete(5, 500, &[10, 11]);
    let delta = tracker.take_delta();
    assert_eq!(delta.ops.len(), 1);
    match &delta.ops[0] {
        DeltaOp::Delete { table_id, entity_id, old_data } => {
            assert_eq!(*table_id, 5);
            assert_eq!(*entity_id, 500);
            assert_eq!(old_data, &vec![10, 11]);
        }
        _ => panic!("Unexpected op"),
    }
}

#[test]
fn test_delta_tracker_record_create_delete_entity() {
    let mut tracker = DeltaTracker::new(4, 4000);
    tracker.record_create_entity(600);
    tracker.record_delete_entity(600);
    let delta = tracker.take_delta();
    assert_eq!(delta.ops.len(), 2);
    match &delta.ops[0] {
        DeltaOp::CreateEntity { entity_id } => assert_eq!(*entity_id, 600),
        _ => panic!("Unexpected op"),
    }
    match &delta.ops[1] {
        DeltaOp::DeleteEntity { entity_id } => assert_eq!(*entity_id, 600),
        _ => panic!("Unexpected op"),
    }
}

#[test]
fn test_delta_tracker_before_images() {
    let mut tracker = DeltaTracker::new(5, 5000);
    tracker.store_before_image(6, 700, vec![20, 21]);
    assert_eq!(tracker.get_before_image(6, 700), Some(vec![20, 21]));
    assert_eq!(tracker.get_before_image(6, 701), None);
    tracker.clear_before_images();
    assert_eq!(tracker.get_before_image(6, 700), None);
}

#[test]
fn test_delta_tracker_take_delta_resets() {
    let mut tracker = DeltaTracker::new(6, 6000);
    tracker.record_insert(7, 800, &[30]);
    let delta1 = tracker.take_delta();
    assert_eq!(delta1.ops.len(), 1);
    assert!(tracker.take_delta().is_empty());
}

#[test]
fn test_primitive_layout() -> Result<()> {
    let fields = vec![field("a", FieldType::U32), field("b", FieldType::U64)];
    let custom_types = Vec::new();
    let layout = compute_record_layout(&fields, &custom_types)?;
    assert_eq!(layout.fields[0].offset, 0);
    assert_eq!(layout.fields[0].size, 4);
    assert_eq!(layout.fields[1].offset, 8);
    assert_eq!(layout.fields[1].size, 8);
    assert_eq!(layout.total_size, 16);
    Ok(())
}

#[test]
fn test_array_layout() -> Result<()> {
    let fields = vec![field(
        "arr",
        FieldType::Array { element_type: Box::new(FieldType::U32), length: 3 },
    )];
    let custom_types = Vec::new();
    let layout = compute_record_layout(&fields, &custom_types)?;
    assert_eq!(layout.fields[0].offset, 0);
    assert_eq!(layout.fields[0].size, 12);
    assert_eq!(layout.total_size, 12);
    Ok(())
}

#[test]
fn test_sparse_set_basic() {
    let mut set = SparseSet::new();
    assert!(!set.contains(1));
    assert_eq!(set.len(), 0);

    set.insert(1, "component_a");
    assert!(set.contains(1));
    assert_eq!(set.len(), 1);
    assert_eq!(set.get(1), Some(&"component_a"));

    set.insert(2, "component_b");
    assert_eq!(set.len(), 2);
    assert_eq!(set.get(2), Some(&"component_b"));

    set.insert(1, "component_a2");
    assert_eq!(set.get(1), Some(&"component_a2"));
    assert_eq!(set.len(), 2);

    let removed = set.remove(1);
    assert_eq!(removed, Some("component_a2"));
    assert!(!set.contains(1));
    assert_eq!(set.len(), 1);

    assert!(set.remove(999).is_none());
}

#[test]
fn test_sparse_set_iter() {
    let mut set = SparseSet::new();
    set.insert(1, "a");
    set.insert(2, "b");
    set.insert(3, "c");

    let mut pairs: Vec<(u64, &&str)> = set.iter().into_iter().collect();
    pairs.sort_by_key(|&(e, _)| e);
    assert_eq!(pairs, vec![(1, &"a"), (2, &"b"), (3, &"c")]);

    for component in set.iter_mut() {
        *component = "updated";
    }

    assert_eq!(set.get(1), Some(&"updated"));
    assert_eq!(set.get(2), Some(&"updated"));
    assert_eq!(set.get(3), Some(&"updated"));
}

#[test]
fn test_table_insert_get() -> Result<()> {
    let mut table = ComponentTable::<TestComponent>::with_static_size(1024);

    let comp = TestComponent { x: 1.0, y: 2.0, id: 42 };
    table.insert(1, &encode(&comp))?;
    table.commit();

    let retrieved = decode(&table.get(1)?);
    assert_eq!(retrieved, comp);

    let updated = TestComponent { x: 3.0, y: 4.0, id: 43 };
    table.update(1, &encode(&updated))?;
    table.commit();
    let retrieved = decode(&table.get(1)?);
    assert_eq!(retrieved, updated);

    table.delete(1)?;
    table.commit();
    assert!(table.get(1).is_err());
    Ok(())
}

#[test]
fn test_table_commit() -> Result<()> {
    let mut table = ComponentTable::<TestComponent>::with_static_size(1024);
    let comp = TestComponent { x: 1.0, y: 2.0, id: 42 };
    table.insert(1, &encode(&comp))?;
    table.commit();
    let retrieved = decode(&table.get(1)?);
    assert_eq!(retrieved, comp);
    Ok(())
}

#[test]
fn test_table_compact() -> Result<()> {
    let mut table = ComponentTable::<TestComponent>::with_static_size(1024);
    let comp_a = TestComponent { x: 1.0, y: 2.0, id: 1 };
    let comp_b = TestComponent { x: 3.0, y: 4.0, id: 2 };
    let comp_c = TestComponent { x: 5.0, y: 6.0, id: 3 };
    table.insert(1, &encode(&comp_a))?;
    table.insert(2, &encode(&comp_b))?;
    table.insert(3, &encode(&comp_c))?;
    table.commit();
    table.delete(2)?;
    table.commit();
    assert!(table.get(2).is_err());
    table.compact();
    table.commit();
    assert_eq!(decode(&table.get(1)?), comp_a);
    assert_eq!(decode(&table.get(3)?), comp_c);
    Ok(())
}

#[test]
fn test_wal_entry_checksum() {
    let entry = WalEntry::new(1, 0, WalOp::Insert { table_id: 1, entity_id: 100, data: vec![1, 2, 3] });
    assert!(entry.validate_checksum());
    let mut tampered = entry.clone();
    tampered.checksum = 0;
    assert!(!tampered.validate_checksum());
}

#[test]
fn test_wal_logger() {
    let mut wal = WalLogger::new();
    let txn_id = wal.begin_transaction();
    wal.log_operation(txn_id, 0, WalOp::Insert { table_id: 1, entity_id: 100, data: vec![] }).unwrap();
    wal.log_commit(txn_id).unwrap();
    assert_eq!(wal.len(), 2);
    let entries = wal.entries_for_transaction(txn_id);
    assert_eq!(entries.len(), 2);
    match &entries[0].operation {
        WalOp::Insert { table_id, entity_id, .. } => {
            assert_eq!(*table_id, 1);
            assert_eq!(*entity_id, 100);
        }
        _ => panic!("expected Insert"),
    }
    match &entries[1].operation {
        WalOp::Commit { transaction_id } => {
            assert_eq!(*transaction_id, txn_id);
        }
        _ => panic!("expected Commit"),
    }
}

#[test]
fn test_entity_registry() -> Result<()> {
    let mut registry = EntityRegistry::new();
    let entity_id = registry.create_entity(0)?;
    assert_eq!(entity_id.0, 1);

    let entity = registry.get_entity(entity_id)?;
    assert_eq!(entity.id.0, 1);
    assert_eq!(entity.version.0, 0);

    registry.delete_entity(entity_id)?;
    let entity_id2 = registry.create_entity(0)?;
    assert_eq!(entity_id2.0, 1);
    assert_eq!(registry.entity_count(), 2);
    Ok(())
}

#[test]
fn conflicts_are_logged_in_order() -> Result<()> {
    let mut resolver = ConflictResolver::new(ConflictStrategy::LastWriteWins);
    let mut server_current = ComponentMap::new();
    server_current.insert(1, 100, vec![9, 9]);
    server_current.insert(1, 200, vec![7]);
    let client_delta = Delta {
        ops: vec![
            DeltaOp::Update { table_id: 1, entity_id: 100, field_offset: 0, old_data: vec![1, 1], new_data: vec![2, 2] },
            DeltaOp::Update { table_id: 1, entity_id: 300, field_offset: 0, old_data: vec![1], new_data: vec![5] },
            DeltaOp::Insert { table_id: 1, entity_id: 200, data: vec![8] },
        ],
        version: 4,
        timestamp: 50,
    };
    let resolved = resolver.resolve(6, 10, client_delta, &server_current)?;
    assert_eq!(resolved.version, 7);
    assert_eq!(resolved.timestamp, 50);
    let log = resolver.log().conflicts();
    assert_eq!(log.len(), 2);
    assert_eq!(log[0].entity_id, 100);
    assert_eq!(log[0].field_offset, Some(0));
    assert_eq!(log[0].server_value, vec![9, 9]);
    assert_eq!(log[0].client_value, vec![2, 2]);
    assert_eq!(log[0].server_version, 6);
    assert_eq!(log[0].client_version, 4);
    assert_eq!(log[1].entity_id, 200);
    assert_eq!(log[1].field_offset, None);
    assert_eq!(log[1].client_value, vec![8]);
    Ok(())
}

#[test]
fn last_write_wins_keeps_the_newer_server_value() -> Result<()> {
    let mut resolver = ConflictResolver::new(ConflictStrategy::LastWriteWins);
    let mut server_current = ComponentMap::new();
    server_current.insert(1, 100, vec![1, 2, 3]);
    let client_delta = Delta {
        ops: vec![DeltaOp::Update { table_id: 1, entity_id: 100, field_offset: 0, old_data: vec![0, 0, 0], new_data: vec![4, 5, 6] }],
        version: 2,
        timestamp: 500,
    };
    let resolved = resolver.resolve(1, 1000, client_delta, &server_current)?;
    match &resolved.ops[0] {
        DeltaOp::Update { new_data, .. } => assert_eq!(new_data, &vec![1, 2, 3]),
        _ => panic!("Unexpected op"),
    }
    assert_eq!(resolved.timestamp, 1000);
    Ok(())
}

struct SumMerge;

impl ConflictMerge for SumMerge {
    fn merge(&self, conflict: Conflict) -> Result<Vec<u8>> {
        if conflict.entity_id == 7 {
            return Err(ecsdb::error::EcsDbError::ReplicationError("refused".to_string()));
        }
        Ok(conflict.server_value.iter().zip(conflict.client_value.iter()).map(|(a, b)| a + b).collect())
    }
}

#[test]
fn custom_merge_decides_conflicts() -> Result<()> {
    let mut resolver = ConflictResolver::new(ConflictStrategy::CustomMerge);
    let mut server_current = ComponentMap::new();
    server_current.insert(1, 100, vec![1, 2]);
    server_current.insert(1, 7, vec![1]);
    let delta = |entity_id: u64| Delta {
        ops: vec![DeltaOp::Insert { table_id: 1, entity_id, data: vec![10, 20] }],
        version: 3,
        timestamp: 5,
    };
    match resolver.resolve(1, 1, delta(100), &server_current) {
        Err(ecsdb::error::EcsDbError::ReplicationError(m)) => assert_eq!(m, "Custom merge function not set"),
        _ => panic!("expected the missing merge function to be reported"),
    }
    let mut resolver = resolver.set_custom_merge(SumMerge);
    let resolved = resolver.resolve(1, 1, delta(100), &server_current)?;
    match &resolved.ops[0] {
        DeltaOp::Insert { data, .. } => assert_eq!(data, &vec![11, 22]),
        _ => panic!("Unexpected op"),
    }
    match resolver.resolve(1, 1, delta(7), &server_current) {
        Err(ecsdb::error::EcsDbError::ReplicationError(m)) => assert_eq!(m, "refused"),
        _ => panic!("expected the merge function's error"),
    }
    Ok(())
}

#[test]
fn layout_test_refuses_self_containing_types() {
    let field = |name: &str, field_type: FieldType| FieldDefinition {
        name: name.to_string(),
        field_type,
        nullable: false,
        indexed: false,
        primary_key: false,
        foreign_key: None,
    };
    let fields = vec![field("a", FieldType::U32), field("b", FieldType::Custom("Node".to_string()))];
    let looping = vec![("Node".to_string(), vec![field("next", FieldType::Custom("Node".to_string()))])];
    assert!(!layout_check(&fields, &looping));
    let fine = vec![("Node".to_string(), vec![field("x", FieldType::U8)])];
    assert!(layout_check(&fields, &fine));
    let missing: Vec<(String, Vec<FieldDefinition>)> = Vec::new();
    assert!(layout_check(&fields, &missing));
    let huge = vec![field("big", FieldType::Array { element_type: Box::new(FieldType::U64), length: usize::MAX })];
    assert!(!layout_check(&huge, &missing));
}

#[test]
fn deleted_entity_id_comes_back_with_next_version() -> Result<()> {
    let mut registry = EntityRegistry::new();
    let a = registry.create_entity(0)?;
    let b = registry.create_entity(0)?;
    registry.delete_entity(a)?;
    assert!(!registry.contains_entity(a));
    assert!(registry.contains_entity(b));
    assert_eq!(registry.entity_count(), 2);
    assert!(registry.get_entity(a).is_err());
    let c = registry.create_entity(7)?;
    assert_eq!(c, a);
    assert_eq!(registry.get_entity(c)?.version.0, 1);
    assert_eq!(registry.entity_count(), 3);
    Ok(())
}

#[test]
fn freed_slots_are_reused_last_freed_first() -> Result<()> {
    let mut b = ArcStorageBuffer::new(4, 8);
    assert_eq!(b.insert(&[1, 1, 1, 1])?, 0);
    assert_eq!(b.insert(&[2, 2, 2, 2])?, 4);
    assert_eq!(b.insert(&[3, 3, 3, 3])?, 8);
    b.free_slot(4);
    b.free_slot(0);
    assert_eq!(b.record_count(), 1);
    assert_eq!(b.insert(&[9, 9, 9, 9])?, 0);
    assert_eq!(b.insert(&[8, 8, 8, 8])?, 4);
    assert_eq!(b.insert(&[7, 7, 7, 7])?, 12);
    assert_eq!(b.record_count(), 4);
    b.commit();
    assert_eq!(b.read(0, 4)?, vec![9, 9, 9, 9]);
    assert_eq!(b.read(4, 4)?, vec![8, 8, 8, 8]);
    assert_eq!(b.read(12, 4)?, vec![7, 7, 7, 7]);
    assert!(b.insert(&[1, 2]).is_err());
    Ok(())
}
