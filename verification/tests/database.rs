use ecsdb::client::client_db::ClientDB;
use ecsdb::component::{Component, ZeroCopyComponent};
use ecsdb::config::PersistenceConfig;
use ecsdb::db::Database;
use ecsdb::error::{EcsDbError, Result};
use ecsdb::persistence::compaction::{compact_offline, plan_compaction, CompactionWorker};
use ecsdb::persistence::manager::{group_committed, sort_pairs, PersistenceManager};
use ecsdb::persistence::snapshot::DatabaseSnapshot;
use ecsdb::schema::types::{DatabaseSchema, FieldDefinition, FieldType, TableDefinition};
use ecsdb::schema::parser::SchemaParser;
use ecsdb::schema::validator::SchemaValidator;
use ecsdb::storage::delta::{Delta, DeltaOp};
use ecsdb::transaction::wal::{WalEntry, WalOp};
use ecsdb::transaction::write_queue::{BatchStep, WriteOpWithoutResponse, WriteWorker};

struct Position;

impl Component for Position {
    const TABLE_ID: u16 = 1;
    const TABLE_NAME: &'static str = "test_component";
}

impl ZeroCopyComponent for Position {
    fn static_size() -> usize {
        12
    }

    fn alignment() -> usize {
        4
    }
}

fn field(name: &str, field_type: FieldType) -> FieldDefinition {
    FieldDefinition { name: name.to_string(), field_type, nullable: false, indexed: false, primary_key: false, foreign_key: None }
}

fn schema() -> DatabaseSchema {
    DatabaseSchema {
        name: "test".to_string(),
        version: "1.0".to_string(),
        tables: vec![TableDefinition {
            name: "test_component".to_string(),
            fields: vec![field("x", FieldType::F32), field("y", FieldType::F32), field("id", FieldType::U32)],
            parent_table: None,
            description: None,
        }],
        enums: Vec::new(),
        custom_types: Vec::new(),
    }
}

fn record(x: f32, y: f32, id: u32) -> Vec<u8> {
    let mut v = Vec::new();
    v.extend_from_slice(&x.to_le_bytes());
    v.extend_from_slice(&y.to_le_bytes());
    v.extend_from_slice(&id.to_le_bytes());
    v
}

fn database() -> Result<Database> {
    let mut db = Database::from_schema(schema())?;
    db.register_component::<Position>()?;
    Ok(db)
}

#[test]
fn database_insert_commit_get() -> Result<()> {
    let mut db = database()?;
    let entity = db.create_entity()?;
    db.insert(1, entity.0, record(1.0, 2.0, 42))?;
    assert!(db.get(1, entity.0).is_err());
    assert_eq!(db.commit()?, 1);
    assert_eq!(db.get(1, entity.0)?, record(1.0, 2.0, 42));
    let rows = db.get_entities_for_table(1, 10, 0)?;
    assert_eq!(rows.len(), 1);
    assert_eq!(rows[0].0, entity.0);
    assert_eq!(db.get_table_id_by_name("test_component"), Some(1));
    assert_eq!(db.take_outgoing_deltas().len(), 1);
    Ok(())
}

#[test]
fn insert_for_missing_entity_is_refused_and_rolled_back() -> Result<()> {
    let mut db = database()?;
    let entity = db.create_entity()?;
    let ops = vec![
        WriteOpWithoutResponse::Insert { table_id: 1, entity_id: entity.0, data: record(1.0, 1.0, 1) },
        WriteOpWithoutResponse::Insert { table_id: 1, entity_id: 999, data: record(2.0, 2.0, 2) },
    ];
    let r = db.apply_batch(&ops);
    assert!(matches!(r, Err(EcsDbError::EntityNotFound(999))));
    assert_eq!(db.get_entity_count_for_table(1), 1);
    db.insert(1, 999, record(0.0, 0.0, 0))?;
    assert!(db.commit().is_err());
    assert_eq!(db.version(), 0);
    Ok(())
}

#[test]
fn wrong_record_size_is_a_schema_error() -> Result<()> {
    let mut db = database()?;
    let entity = db.create_entity()?;
    let r = db.apply_single(&WriteOpWithoutResponse::Insert { table_id: 1, entity_id: entity.0, data: vec![1, 2, 3] });
    assert!(matches!(r, Err(EcsDbError::SchemaError(_))));
    Ok(())
}

#[test]
fn unknown_component_is_a_schema_error() {
    struct Unknown;
    impl Component for Unknown {
        const TABLE_ID: u16 = 2;
        const TABLE_NAME: &'static str = "missing";
    }
    impl ZeroCopyComponent for Unknown {
        fn static_size() -> usize {
            4
        }
        fn alignment() -> usize {
            4
        }
    }
    let mut db = Database::from_schema(schema()).unwrap();
    assert!(matches!(db.register_component::<Unknown>(), Err(EcsDbError::SchemaError(_))));
}

#[test]
fn snapshot_records_committed_state() -> Result<()> {
    let mut db = database()?;
    let entity = db.create_entity()?;
    db.insert(1, entity.0, record(3.0, 4.0, 5))?;
    db.commit()?;
    let snap = DatabaseSnapshot::from_database(&db)?;
    assert_eq!(snap.version, 1);
    assert_eq!(snap.tables.len(), 1);
    assert_eq!(snap.tables[0].table_name, "test_component");
    assert_eq!(snap.tables[0].entity_mapping.len(), 1);
    assert_eq!(snap.tables[0].active_count, 1);
    let rs = snap.tables[0].record_size;
    assert_eq!(rs, 12);
    let total = snap.tables[0].buffer_data.len() / rs;
    assert_eq!(snap.tables[0].free_slots.len(), total - 1);
    let back = snap.restore()?;
    assert_eq!(back.version(), 1);
    assert_eq!(back.get(1, entity.0)?, record(3.0, 4.0, 5));
    Ok(())
}

#[test]
fn snapshot_without_tables_restores() -> Result<()> {
    let mut db = Database::from_schema(schema())?;
    db.create_entity()?;
    db.set_version(7);
    let snap = db.create_snapshot()?;
    let back = snap.restore()?;
    assert_eq!(back.version(), 7);
    assert_eq!(back.table_count(), 0);
    Ok(())
}

#[test]
fn only_committed_transactions_are_gathered() {
    let entries = vec![
        WalEntry::stamped(1, 2, 0, WalOp::Insert { table_id: 1, entity_id: 1, data: vec![1] }),
        WalEntry::stamped(2, 3, 0, WalOp::Insert { table_id: 1, entity_id: 2, data: vec![2] }),
        WalEntry::stamped(3, 4, 0, WalOp::Delete { table_id: 1, entity_id: 3 }),
        WalEntry::stamped(4, 3, 1, WalOp::Commit { transaction_id: 3 }),
        WalEntry::stamped(5, 4, 1, WalOp::Rollback { transaction_id: 4 }),
        WalEntry::stamped(6, 2, 1, WalOp::Commit { transaction_id: 2 }),
        WalEntry::stamped(7, 1, 0, WalOp::Insert { table_id: 1, entity_id: 9, data: vec![9] }),
        WalEntry::stamped(8, 1, 1, WalOp::Commit { transaction_id: 1 }),
        WalEntry::stamped(9, 5, 0, WalOp::Update { table_id: 1, entity_id: 1, data: vec![5] }),
    ];
    let (committed, max_id, open) = group_committed(entries, 1);
    assert_eq!(committed.len(), 2);
    assert_eq!(committed[0].0, 3);
    assert_eq!(committed[1].0, 2);
    assert_eq!(committed[1].1, vec![WalOp::Insert { table_id: 1, entity_id: 1, data: vec![1] }]);
    assert_eq!(max_id, 3);
    assert_eq!(open, 1);
    let sorted = sort_pairs(committed);
    assert_eq!(sorted[0].0, 2);
    assert_eq!(sorted[1].0, 3);
}

#[test]
fn sorting_keeps_order_of_equal_keys() {
    let v = vec![(3u64, "a"), (1, "b"), (3, "c"), (2, "d"), (1, "e")];
    assert_eq!(sort_pairs(v), vec![(1, "b"), (1, "e"), (2, "d"), (3, "a"), (3, "c")]);
}

#[test]
fn replay_applies_committed_writes_and_sets_version() -> Result<()> {
    let mut db = database()?;
    let a = db.create_entity()?.0;
    let b = db.create_entity()?.0;
    let entries = vec![
        WalEntry::stamped(1, 1, 0, WalOp::Insert { table_id: 1, entity_id: a, data: record(1.0, 1.0, 1) }),
        WalEntry::stamped(2, 1, 1, WalOp::Commit { transaction_id: 1 }),
        WalEntry::stamped(3, 2, 0, WalOp::Insert { table_id: 1, entity_id: b, data: record(2.0, 2.0, 2) }),
        WalEntry::stamped(4, 3, 0, WalOp::Insert { table_id: 1, entity_id: b, data: record(3.0, 3.0, 3) }),
        WalEntry::stamped(5, 3, 1, WalOp::Rollback { transaction_id: 3 }),
    ];
    let manager = PersistenceManager::new(PersistenceConfig::default());
    manager.replay_wal_entries_onto_db(entries, 0, &mut db)?;
    assert_eq!(db.version(), 1);
    assert_eq!(db.get_entity_count_for_table(1), 1);
    Ok(())
}

#[test]
fn replay_stops_at_a_failing_write() -> Result<()> {
    let mut db = database()?;
    let entries = vec![
        WalEntry::stamped(1, 6, 0, WalOp::Insert { table_id: 1, entity_id: 77, data: record(1.0, 1.0, 1) }),
        WalEntry::stamped(2, 6, 1, WalOp::Commit { transaction_id: 6 }),
    ];
    let manager = PersistenceManager::new(PersistenceConfig::default());
    let r = manager.replay_wal_entries_onto_db(entries, 0, &mut db);
    assert!(matches!(r, Err(EcsDbError::EntityNotFound(77))));
    assert_eq!(db.version(), 0);
    Ok(())
}

#[test]
fn compaction_plan_picks_files_between_first_two_snapshots() {
    assert_eq!(plan_compaction(&vec![5], &vec![5, 6]), None);
    assert_eq!(plan_compaction(&vec![5, 9], &vec![1, 10]), None);
    assert_eq!(plan_compaction(&vec![5, 9, 12], &vec![4, 5, 8, 9, 10]), Some((5, 9, vec![1, 2])));
}

#[test]
fn compaction_worker_state() {
    let mut w = CompactionWorker::new(PersistenceConfig::default());
    assert!(!w.running());
    let secs = w.begin();
    assert_eq!(secs, PersistenceConfig::default().compaction_interval_seconds);
    assert!(w.running());
    w.stop();
    assert!(!w.running());
}

#[test]
fn offline_compaction_merges_latest_snapshot_with_log() -> Result<()> {
    assert!(matches!(compact_offline(Vec::new(), Vec::new()), Err(EcsDbError::CompactionError(_))));
    let mut db = database()?;
    let a = db.create_entity()?.0;
    let b = db.create_entity()?.0;
    let old = DatabaseSnapshot::from_database(&db)?;
    db.insert(1, a, record(1.0, 1.0, 1))?;
    db.commit()?;
    let latest = DatabaseSnapshot::from_database(&db)?;
    let entries = vec![
        WalEntry::stamped(1, 1, 0, WalOp::Insert { table_id: 1, entity_id: a, data: record(9.0, 9.0, 9) }),
        WalEntry::stamped(2, 1, 1, WalOp::Commit { transaction_id: 1 }),
        WalEntry::stamped(3, 4, 0, WalOp::Insert { table_id: 1, entity_id: b, data: record(2.0, 2.0, 2) }),
        WalEntry::stamped(4, 4, 1, WalOp::Commit { transaction_id: 4 }),
    ];
    let merged = compact_offline(vec![latest, old], entries)?;
    assert_eq!(merged.version, 4);
    let back = merged.restore()?;
    assert_eq!(back.get(1, a)?, record(9.0, 9.0, 9));
    assert_eq!(back.get(1, b)?, record(2.0, 2.0, 2));
    Ok(())
}

#[test]
fn client_mirror_follows_deltas() {
    let mut c = ClientDB::new();
    let d1 = Delta {
        ops: vec![
            DeltaOp::CreateEntity { entity_id: 5 },
            DeltaOp::Insert { table_id: 2, entity_id: 5, data: vec![1, 2] },
            DeltaOp::Update { table_id: 2, entity_id: 5, field_offset: 0, old_data: vec![1, 2], new_data: vec![3, 4] },
        ],
        version: 4,
        timestamp: 0,
    };
    c.apply_delta(d1).unwrap();
    assert_eq!(c.version(), 4);
    assert!(c.contains_entity(5));
    assert_eq!(c.get(2, 5).unwrap(), vec![3, 4]);
    let d2 = Delta { ops: vec![DeltaOp::DeleteEntity { entity_id: 5 }], version: 5, timestamp: 0 };
    c.apply_delta(d2).unwrap();
    assert!(!c.contains_entity(5));
    assert!(c.get(2, 5).is_err());
    assert!(c.get(9, 5).is_err());
}

#[test]
fn delete_by_table_name_removes_at_once() -> Result<()> {
    let mut db = database()?;
    let entity = db.create_entity()?;
    db.apply_single(&WriteOpWithoutResponse::Insert { table_id: 1, entity_id: entity.0, data: record(3.0, 4.0, 5) })?;
    assert_eq!(db.get_entity_count_for_table(1), 1);
    assert!(matches!(db.delete_by_table("missing", entity.0), Err(EcsDbError::SchemaError(_))));
    assert_eq!(db.get_entity_count_for_table(1), 1);
    db.delete_by_table("test_component", entity.0)?;
    assert_eq!(db.get_entity_count_for_table(1), 0);
    Ok(())
}

#[test]
fn test_database_basic() -> Result<()> {
    let mut db = Database::from_schema(schema())?;
    db.register_component::<Position>()?;
    let entity_id = db.create_entity()?;
    let (x, y, id) = (1.0f32, 2.0f32, 42u32);
    db.insert(Position::TABLE_ID, entity_id.0, record(x, y, id))?;
    db.commit()?;
    let retrieved = db.get(Position::TABLE_ID, entity_id.0)?;
    assert_eq!(retrieved, record(x, y, id));

    let table_id = db.get_table_id_by_name("test_component").unwrap();
    let rows = db.get_entities_for_table(table_id, 10, 0)?;
    assert_eq!(rows.len(), 1);
    let (retrieved_entity_id, bytes) = &rows[0];
    assert_eq!(*retrieved_entity_id, entity_id.0);
    let f32_at = |o: usize| f32::from_le_bytes([bytes[o], bytes[o + 1], bytes[o + 2], bytes[o + 3]]);
    assert_eq!(f32_at(0) as f64, 1.0);
    assert_eq!(f32_at(4) as f64, 2.0);
    assert_eq!(u32::from_le_bytes([bytes[8], bytes[9], bytes[10], bytes[11]]) as u64, 42);
    Ok(())
}

#[test]
fn writes_become_visible_at_commit() -> Result<()> {
    let mut db = database()?;
    let first = db.create_entity()?;
    let second = db.create_entity()?;
    db.insert(1, first.0, record(1.0, 1.0, 1))?;
    db.commit()?;
    db.apply_single(&WriteOpWithoutResponse::Update { table_id: 1, entity_id: first.0, data: record(2.0, 2.0, 2) })?;
    assert_eq!(db.get(1, first.0)?, record(1.0, 1.0, 1));
    db.insert(1, second.0, record(3.0, 3.0, 3))?;
    assert_eq!(db.commit()?, 2);
    assert_eq!(db.get(1, first.0)?, record(2.0, 2.0, 2));
    assert_eq!(db.get(1, second.0)?, record(3.0, 3.0, 3));
    Ok(())
}

#[test]
fn validation_reports_the_first_failing_check() {
    let mut s = schema();
    s.tables[0].name = "table".to_string();
    s.tables[0].fields.push(field("x", FieldType::U8));
    match SchemaValidator.validate(&s) {
        Err(EcsDbError::SchemaError(m)) => assert_eq!(m, "Table name is reserved: 'table'"),
        _ => panic!("expected a schema error"),
    }
    s.tables[0].name = "things".to_string();
    match SchemaValidator.validate(&s) {
        Err(EcsDbError::SchemaError(m)) => assert_eq!(m, "Field name is reserved: 'id'"),
        _ => panic!("expected a schema error"),
    }
    s.tables[0].fields[2].name = "ident".to_string();
    match SchemaValidator.validate(&s) {
        Err(EcsDbError::SchemaError(m)) => assert_eq!(m, "Duplicate field name 'x'"),
        _ => panic!("expected a schema error"),
    }
    s.tables[0].fields.pop();
    assert!(SchemaValidator.validate(&s).is_ok());
}

#[test]
fn compaction_replays_old_transactions_in_commit_order() -> Result<()> {
    let mut db = database()?;
    let a = db.create_entity()?.0;
    db.set_version(10);
    let snap = DatabaseSnapshot::from_database(&db)?;
    let entries = vec![
        WalEntry::stamped(1, 5, 0, WalOp::Insert { table_id: 1, entity_id: a, data: record(5.0, 5.0, 5) }),
        WalEntry::stamped(2, 3, 0, WalOp::Insert { table_id: 1, entity_id: a, data: record(3.0, 3.0, 3) }),
        WalEntry::stamped(3, 5, 1, WalOp::Commit { transaction_id: 5 }),
        WalEntry::stamped(4, 3, 1, WalOp::Commit { transaction_id: 3 }),
    ];
    let merged = compact_offline(vec![snap], entries)?;
    assert_eq!(merged.version, 10);
    let back = merged.restore()?;
    assert_eq!(back.get(1, a)?, record(3.0, 3.0, 3));
    Ok(())
}

#[test]
fn schema_reads_from_toml_text() -> Result<()> {
    let text = r#"
[database]
name = "game_db"

[tables.position]
fields = [
    { name = "x", type = "f32" },
    { name = "y", type = "f32" },
]

[tables.health]
fields = [{ name = "hp", type = "u32" }]
"#;
    let schema = SchemaParser::from_string(text)?;
    assert_eq!(schema.name, "game_db");
    assert_eq!(schema.version, "1.0.0");
    assert_eq!(schema.tables.len(), 2);
    let position = schema.tables.iter().find(|t| t.name == "position").unwrap();
    assert_eq!(position.fields.len(), 2);
    assert!(matches!(SchemaParser::from_string("[database"), Err(EcsDbError::SchemaError(_))));
    assert!(matches!(SchemaParser::from_string("[database]\nversion = \"2\""), Err(EcsDbError::SchemaError(_))));
    Ok(())
}

#[test]
fn batch_steps_stop_at_first_failure() {
    let ops = vec![
        WriteOpWithoutResponse::Insert { table_id: 1, entity_id: 5, data: vec![1] },
        WriteOpWithoutResponse::Delete { table_id: 1, entity_id: 6 },
    ];
    let mut worker = WriteWorker::new();
    assert!(matches!(worker.batch_step(9, &ops, 0, Ok(())), BatchStep::Apply(0)));
    assert!(matches!(worker.batch_step(9, &ops, 1, Ok(())), BatchStep::Apply(1)));
    assert!(matches!(worker.batch_step(9, &ops, 2, Ok(())), BatchStep::Done(Ok(9))));
    let mut worker = WriteWorker::new();
    assert!(matches!(worker.batch_step(4, &ops, 0, Ok(())), BatchStep::Apply(0)));
    match worker.batch_step(4, &ops, 1, Err(EcsDbError::EntityNotFound(5))) {
        BatchStep::Done(Err(EcsDbError::EntityNotFound(5))) => {}
        _ => panic!("expected the batch to end with the write's error"),
    }
    let empty: Vec<WriteOpWithoutResponse> = Vec::new();
    let mut worker = WriteWorker::new();
    assert!(matches!(worker.batch_step(2, &empty, 0, Ok(())), BatchStep::Done(Ok(2))));
}
