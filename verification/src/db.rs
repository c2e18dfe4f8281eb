//! The database: a schema, the entity and archetype registries, one table
//! of encoded components per registered component type, pending writes and
//! the version counter.
use crate::clock::now_micros;
use crate::codec::{le_value, read_le};
use crate::component::{Component, ZeroCopyComponent};
use crate::entity::archetype::{lists_without, ArchetypeMask, ArchetypeRegistry};
use crate::entity::registry::{EntityId, EntityRecord, EntityRegistry, EntityVersion};
use crate::error::{EcsDbError, Result};
use crate::schema::types::{copy_fields, DatabaseSchema, FieldDefinition};
use crate::storage::buffer::{copy_bytes, copy_range, free_post, insert_post, update_post, ArcStorageBuffer};
use crate::storage::delta::{ops_view, Delta, DeltaTracker, OpView};
use crate::storage::layout::{compute_record_layout, layout_computable, layout_ok, RecordLayout};
use crate::storage::table::ComponentTable;
use crate::text::{join, join_num, owned};
use crate::transaction::wal::WalEntry;
use crate::persistence::snapshot::{DatabaseSnapshot, TableSnapshot};
use crate::schema::types::same_schema;
use std::collections::HashMap;
use crate::transaction::write_queue::{op_table, WriteOpWithoutResponse, WriteWorker};
use vstd::prelude::*;

verus! {

/// The component type of the tables a database holds: records whose layout
/// the schema gives.
pub struct SchemaRecord;

impl Component for SchemaRecord {
    const TABLE_ID: u16 = 0;
    const TABLE_NAME: &'static str = "schema_record";
}

/// A registered table: its identifier, name, fields and layout, and the
/// stored records.
pub struct TableEntry {
    table_id: u16,
    table_name: String,
    field_definitions: Vec<FieldDefinition>,
    record_layout: RecordLayout,
    table: ComponentTable<SchemaRecord>,
}

impl TableEntry {
    pub closed spec fn id(&self) -> u16 {
        self.table_id
    }

    pub closed spec fn name(&self) -> Seq<char> {
        self.table_name@
    }

    pub closed spec fn store(&self) -> ComponentTable<SchemaRecord> {
        self.table
    }

    pub closed spec fn fields(&self) -> Seq<FieldDefinition> {
        self.field_definitions@
    }

    /// Offsets of the fields in a record, in field order.
    pub closed spec fn offsets(&self) -> Seq<usize> {
        self.record_layout.fields@.map_values(|f: crate::storage::layout::FieldLayout| f.offset)
    }
}

/// The position of the table with identifier `id`, if one is registered.
pub open spec fn table_pos(tables: Seq<TableEntry>, id: u16) -> Option<int> {
    if exists|i: int| 0 <= i < tables.len() && tables[i].id() == id {
        Some(choose|i: int| 0 <= i < tables.len() && tables[i].id() == id)
    } else {
        None
    }
}

/// How the foreign-key check of `data` ends, from field `i` on: `None` when
/// every foreign key names a live entity, `Some(true)` when a foreign-key
/// field lies beyond the data, `Some(false)` when one names no live entity.
pub open spec fn fk_outcome(
    fields: Seq<FieldDefinition>,
    offsets: Seq<usize>,
    live: Map<u64, usize>,
    data: Seq<u8>,
    i: nat,
) -> Option<bool>
    decreases fields.len() - i,
{
    if i >= fields.len() || i >= offsets.len() {
        None
    } else if fields[i as int].foreign_key is None {
        fk_outcome(fields, offsets, live, data, i + 1)
    } else {
        let off = offsets[i as int] as int;
        if off + 8 > data.len() {
            Some(true)
        } else if !live.contains_key(le_value(data.subrange(off, off + 8)) as u64) {
            Some(false)
        } else {
            fk_outcome(fields, offsets, live, data, i + 1)
        }
    }
}

/// A copy of entity-offset pairs.
fn copy_pairs(v: &Vec<(u64, usize)>) -> (r: Vec<(u64, usize)>)
    ensures
        r@ == v@,
{
    let mut r: Vec<(u64, usize)> = Vec::new();
    let mut i: usize = 0;
    while i < v.len()
        invariant
            i <= v@.len(),
            r@ == v@.subrange(0, i as int),
        decreases v@.len() - i,
    {
        r.push(v[i]);
        i += 1;
        assert(r@ =~= v@.subrange(0, i as int));
    }
    assert(v@.subrange(0, v@.len() as int) =~= v@);
    r
}

/// The table that table snapshot `t` loads into a database for `schema`.
#[verifier::spinoff_prover]
fn load_entry(schema: &DatabaseSchema, t: &TableSnapshot) -> (res: Result<TableEntry>)
    requires
        layouts_computable(*schema),
    ensures
        res is Ok <==> table_fits(*schema, *t),
        res matches Ok(e) ==> table_loaded(*t, e) && e.store().wf(),
        res matches Err(e) ==> (e is SnapshotError || e is SchemaError),
{
    let def = match schema.find_table(t.table_name.as_str()) {
        Some(d) => d,
        None => {
            let m = join(join(owned("Table "), t.table_name.as_str()), " not found in database");
            return Err(EcsDbError::SnapshotError(m));
        },
    };
    let ghost k = crate::schema::types::spec_find_table(schema.tables@, t.table_name@).unwrap();
    proof {
        assert(layout_computable(schema.tables@[k].fields@, schema.custom_types@)) by {
            reveal(layouts_computable);
        }
    }
    let mut entry = match make_entry(t.table_id, t.table_name.as_str(), def, &schema.custom_types, t.record_size) {
        Ok(e) => e,
        Err(e) => return Err(e),
    };
    let rs = t.record_size;
    let nm = t.entity_mapping.len();
    let mut j: usize = 0;
    while j < nm
        invariant
            nm == t.entity_mapping@.len(),
            j <= nm,
            rs == t.record_size,
            forall|a: int| 0 <= a < j ==> #[trigger] t.entity_mapping@[a].1 + rs <= usize::MAX,
        decreases nm - j,
    {
        if t.entity_mapping[j].1 > usize::MAX - rs {
            assert(t.entity_mapping@[j as int].1 + rs > usize::MAX);
            let m = join(join(owned("Table "), t.table_name.as_str()), " has a record beyond the address space");
            return Err(EcsDbError::SnapshotError(m));
        }
        j += 1;
    }
    match entry.table.load_snapshot(copy_bytes(&t.buffer_data), copy_pairs(&t.entity_mapping), crate::storage::buffer::copy_usizes(&t.free_slots)) {
        Ok(()) => {},
        Err(e) => return Err(e),
    }
    Ok(entry)
}

/// A new, empty table for `def`, with records of `record_size` bytes.
fn make_entry(
    table_id: u16,
    name: &str,
    def: &crate::schema::types::TableDefinition,
    custom_types: &crate::schema::types::CustomTypes,
    record_size: usize,
) -> (res: Result<TableEntry>)
    requires
        layout_computable(def.fields@, custom_types@),
    ensures
        !layout_ok(def.fields@, custom_types@) ==> res matches Err(EcsDbError::SchemaError(_)),
        layout_ok(def.fields@, custom_types@) ==> (res matches Ok(e) && {
            &&& e.id() == table_id
            &&& e.name() == name@
            &&& e.fields() == def.fields@
            &&& e.store().wf()
            &&& e.store().index() == Map::<u64, usize>::empty()
            &&& e.store().rs() == record_size
        }),
{
    proof {
        reveal(layout_computable);
        reveal(layout_ok);
    }
    let record_layout = match compute_record_layout(def.fields.as_slice(), custom_types) {
        Ok(l) => l,
        Err(e) => return Err(e),
    };
    Ok(TableEntry {
        table_id,
        table_name: owned(name),
        field_definitions: copy_fields(def.fields.as_slice()),
        record_layout,
        table: ComponentTable::<SchemaRecord>::new(record_size, 1024),
    })
}

/// No table of the schema has a layout whose computation overflows or
/// recurses forever.
#[verifier::opaque]
pub open spec fn layouts_computable(s: DatabaseSchema) -> bool {
    forall|i: int|
        0 <= i < s.tables@.len() ==> layout_computable((#[trigger] s.tables@[i]).fields@, s.custom_types@)
}

/// Whether every table layout of `schema` can be computed: a test for
/// what `register_component` and `from_snapshot` require.
pub fn layouts_check(schema: &DatabaseSchema) -> (b: bool)
    ensures
        b ==> layouts_computable(*schema),
{
    let mut i: usize = 0;
    while i < schema.tables.len()
        invariant
            i <= schema.tables@.len(),
            forall|k: int| 0 <= k < i ==> layout_computable(#[trigger] schema.tables@[k].fields@, schema.custom_types@),
        decreases schema.tables@.len() - i,
    {
        if !crate::storage::layout::layout_check(schema.tables[i].fields.as_slice(), &schema.custom_types) {
            return false;
        }
        i += 1;
    }
    proof {
        reveal(layouts_computable);
    }
    true
}

/// The layout of the `k`th table of the schema can be computed.
pub open spec fn table_layout_ok(s: DatabaseSchema, k: int) -> bool {
    layout_ok(s.tables@[k].fields@, s.custom_types@)
}

/// What writing `op` does to a table store: `ok` and the new store, or an
/// error that leaves the store as it was. An insert of a record of the wrong
/// size, or beyond the machine's limits, fails; an update or delete of an
/// entity without a record fails, as does an update of the wrong size.
pub open spec fn store_step(
    t0: ComponentTable<SchemaRecord>,
    t1: ComponentTable<SchemaRecord>,
    op: WriteOpWithoutResponse,
    ok: bool,
) -> bool {
    match op {
        WriteOpWithoutResponse::Insert { entity_id, data, .. } => if data@.len() != t0.rs()
            || !t0.buffer().can_insert() {
            !ok && t1 == t0
        } else {
            &&& ok
            &&& insert_post(&t0.buffer(), &t1.buffer(), data@)
            &&& t1.index() == t0.index().insert(entity_id, t0.buffer().insert_offset() as usize)
        },
        WriteOpWithoutResponse::Update { entity_id, data, .. } => if !t0.index().contains_key(entity_id)
            || data@.len() != t0.rs() || t0.index()[entity_id] + data@.len()
            > t0.buffer().write_view().len() {
            !ok && t1 == t0
        } else {
            &&& ok
            &&& update_post(&t0.buffer(), &t1.buffer(), t0.index()[entity_id], data@)
            &&& t1.index() == t0.index()
        },
        WriteOpWithoutResponse::Delete { entity_id, .. } => if !t0.index().contains_key(entity_id) {
            !ok && t1 == t0
        } else {
            &&& ok
            &&& t1.index() == t0.index().remove(entity_id)
            &&& free_post(&t0.buffer(), &t1.buffer(), t0.index()[entity_id])
        },
    }
}

/// The entity a write is for.
pub open spec fn op_entity(op: WriteOpWithoutResponse) -> u64 {
    match op {
        WriteOpWithoutResponse::Insert { entity_id, .. } => entity_id,
        WriteOpWithoutResponse::Update { entity_id, .. } => entity_id,
        WriteOpWithoutResponse::Delete { entity_id, .. } => entity_id,
    }
}

/// The data a write carries (empty for a delete).
pub open spec fn op_data(op: WriteOpWithoutResponse) -> Seq<u8> {
    match op {
        WriteOpWithoutResponse::Insert { data, .. } => data@,
        WriteOpWithoutResponse::Update { data, .. } => data@,
        WriteOpWithoutResponse::Delete { .. } => Seq::empty(),
    }
}

/// The archetype mask of entity `e` after a successful write `op` to table
/// `t` (inserts add the table's bit, deletes clear it, updates keep it).
pub open spec fn masks_after(masks: Map<u64, ArchetypeMask>, op: WriteOpWithoutResponse) -> Map<u64, ArchetypeMask> {
    let e = op_entity(op);
    let t = op_table(op);
    if !masks.contains_key(e) {
        masks
    } else {
        match op {
            WriteOpWithoutResponse::Insert { .. } => masks.insert(e, ArchetypeMask(masks[e].0 | (1u64 << t))),
            WriteOpWithoutResponse::Delete { .. } => masks.insert(e, ArchetypeMask(masks[e].0 & !(1u64 << t))),
            WriteOpWithoutResponse::Update { .. } => masks,
        }
    }
}

/// Checks the foreign keys of `data` for `entry`: each foreign-key field
/// holds, at its offset, the little-endian ID of a live entity.
fn validate_foreign_keys(entry: &TableEntry, registry: &EntityRegistry, data: &[u8]) -> (res: Result<()>)
    ensures
        fk_outcome(entry.fields(), entry.offsets(), registry.index_view(), data@, 0) is None ==> res is Ok,
        fk_outcome(entry.fields(), entry.offsets(), registry.index_view(), data@, 0) == Some(true) ==> (res matches Err(EcsDbError::SchemaError(_))),
        fk_outcome(entry.fields(), entry.offsets(), registry.index_view(), data@, 0) == Some(false) ==> (res matches Err(EcsDbError::ReferentialIntegrityViolation(_))),
{
    let n = if entry.field_definitions.len() < entry.record_layout.fields.len() {
        entry.field_definitions.len()
    } else {
        entry.record_layout.fields.len()
    };
    let ghost fs = entry.fields();
    let ghost os = entry.offsets();
    let ghost live = registry.index_view();
    let mut i: usize = 0;
    while i < n
        invariant
            i <= n,
            n <= fs.len(),
            n <= os.len(),
            n == fs.len() || n == os.len(),
            fs == entry.fields(),
            os == entry.offsets(),
            live == registry.index_view(),
            fk_outcome(fs, os, live, data@, 0) == fk_outcome(fs, os, live, data@, i as nat),
        decreases n - i,
    {
        if entry.field_definitions[i].foreign_key.is_some() {
            let offset = entry.record_layout.fields[i].offset;
            assert(offset == os[i as int]);
            if offset > data.len() || data.len() - offset < 8 {
                return Err(EcsDbError::SchemaError(owned("Data too short for foreign key field")));
            }
            let referenced = read_le(data, offset, 8);
            if !registry.contains_entity(EntityId(referenced)) {
                let m = join_num(owned("Foreign key references non-existent entity "), referenced);
                return Err(EcsDbError::ReferentialIntegrityViolation(m));
            }
        }
        i += 1;
    }
    Ok(())
}

/// The snapshot of one table's committed state.
fn snapshot_table(entry: &TableEntry) -> (s: TableSnapshot)
    requires
        entry.store().wf(),
        entry.store().rs() > 0,
    ensures
        table_snapshot_of(*entry, s),
{
    let rs = entry.table.record_size();
    let buffer_data = entry.table.snapshot();
    let entity_mapping = entry.table.entity_mapping();
    let mut occupied: HashMap<usize, u64> = HashMap::new();
    let mut i: usize = 0;
    assert(entry.store() == entry.table);
    while i < entity_mapping.len()
        invariant
            i <= entity_mapping@.len(),
            entity_mapping@.len() == entry.store().index().len(),
            forall|a: int| 0 <= a < entity_mapping@.len() ==> #[trigger] entry.store().index().contains_key(entity_mapping@[a].0)
                && entry.store().index()[entity_mapping@[a].0] == entity_mapping@[a].1,
            forall|e: u64|
                entry.store().index().contains_key(e) ==> exists|a: int|
                    0 <= a < entity_mapping@.len() && #[trigger] entity_mapping@[a].0 == e,
            forall|o: usize| #[trigger] occupied@.contains_key(o) <==> exists|a: int| 0 <= a < i && entity_mapping@[a].1 == o,
        decreases entity_mapping@.len() - i,
    {
        let (e, o) = entity_mapping[i];
        occupied.insert(o, e);
        proof {
            assert forall|x: usize| #[trigger] occupied@.contains_key(x) <==> exists|a: int| 0 <= a < i + 1 && entity_mapping@[a].1 == x by {
                if x == o {
                    assert(entity_mapping@[i as int].1 == x);
                }
            }
        }
        i += 1;
    }
    proof {
        assert forall|o: usize| occupied@.contains_key(o) <==> #[trigger] entry.store().index().values().contains(o) by {
            if occupied@.contains_key(o) {
                let a = choose|a: int| 0 <= a < entity_mapping@.len() && entity_mapping@[a].1 == o;
                assert(entry.store().index().contains_key(entity_mapping@[a].0));
            }
            if entry.store().index().values().contains(o) {
                let e = choose|e: u64| entry.store().index().contains_key(e) && entry.store().index()[e] == o;
                let a = choose|a: int| 0 <= a < entity_mapping@.len() && #[trigger] entity_mapping@[a].0 == e;
                assert(entry.store().index()[entity_mapping@[a].0] == entity_mapping@[a].1);
                assert(occupied@.contains_key(entity_mapping@[a].1));
            }
        }
    }
    let blen = buffer_data.len();
    let total = blen / rs;
    let mut free: Vec<usize> = Vec::new();
    let mut s: usize = 0;
    while s < total
        invariant
            s <= total,
            blen == buffer_data@.len(),
            total == blen / rs,
            rs > 0,
            rs == entry.store().rs(),
            forall|o: usize| occupied@.contains_key(o) <==> #[trigger] entry.store().index().values().contains(o),
            free@ == free_offsets(rs as nat, s as nat, entry.store().index().values()),
        decreases total - s,
    {
        assert(s * rs <= blen) by (nonlinear_arith)
            requires s < total, total == blen / rs, rs > 0;
        let off = s * rs;
        if !occupied.contains_key(&off) {
            free.push(off);
        }
        s += 1;
    }
    assert(total * rs <= blen) by (nonlinear_arith)
        requires total == blen / rs, rs > 0;
    let whole = copy_range(&buffer_data, 0, total * rs);
    let active = entity_mapping.len();
    TableSnapshot {
        table_id: entry.table_id,
        table_name: owned(entry.table_name.as_str()),
        record_size: rs,
        buffer_data: whole,
        entity_mapping,
        free_slots: free,
        active_count: active,
    }
}

/// `s` records the committed state of `d`: its schema, registries, version
/// and every table.
pub open spec fn snapshot_of(d: Database, s: DatabaseSnapshot) -> bool {
    &&& same_schema(s.schema, d.schema_view())
    &&& s.entity_registry.records_view() == d.entities().records_view()
    &&& s.entity_registry.index_view() == d.entities().index_view()
    &&& s.entity_registry.free_view() == d.entities().free_view()
    &&& s.entity_registry.next() == d.entities().next()
    &&& s.archetype_registry.lists() == d.archetypes().lists()
    &&& s.archetype_registry.masks() == d.archetypes().masks()
    &&& s.version == d.current_version()
    &&& s.tables@.len() == d.tables_view().len()
    &&& forall|q: int| 0 <= q < s.tables@.len() ==> table_snapshot_of(d.tables_view()[q], #[trigger] s.tables@[q])
}

/// Table snapshot `t` fits a database for `schema`: the schema has a table
/// of its name whose layout exists, its record offsets leave room for a
/// record before the end of the address space, and its bytes and free slots
/// fit its record size.
pub open spec fn table_fits(schema: DatabaseSchema, t: TableSnapshot) -> bool {
    let rs = t.record_size as int;
    let n: int = if rs == 0 { 0 } else { t.buffer_data@.len() as int / rs };
    &&& crate::schema::types::spec_find_table(schema.tables@, t.table_name@) matches Some(k) && table_layout_ok(schema, k)
    &&& forall|i: int| 0 <= i < t.entity_mapping@.len() ==> #[trigger] t.entity_mapping@[i].1 + rs <= usize::MAX
    &&& if rs == 0 { t.buffer_data@.len() == 0 } else { t.buffer_data@.len() as int % rs == 0 }
    &&& t.free_slots@.len() <= n
    &&& forall|i: int| 0 <= i < t.free_slots@.len() ==> {
        &&& #[trigger] t.free_slots@[i] < n * rs
        &&& t.free_slots@[i] as int % rs == 0
    }
}

/// Table snapshot `q` of `tables` can be loaded into a database for
/// `schema`: it fits, and no earlier table snapshot has its identifier.
pub open spec fn table_loadable(schema: DatabaseSchema, tables: Seq<TableSnapshot>, q: int) -> bool {
    &&& table_fits(schema, tables[q])
    &&& forall|p: int| 0 <= p < q ==> tables[p].table_id != tables[q].table_id
}

/// Table `e` is table snapshot `t` loaded: its identifier, name and record
/// size, its bytes on both sides, its free slots and its entities' offsets
/// are the snapshot's.
pub open spec fn table_loaded(t: TableSnapshot, e: TableEntry) -> bool {
    let rs = t.record_size as int;
    let n: int = if rs == 0 { 0 } else { t.buffer_data@.len() as int / rs };
    let b = e.store().buffer();
    &&& e.id() == t.table_id
    &&& e.name() == t.table_name@
    &&& e.store().rs() == t.record_size
    &&& b.write_view() == t.buffer_data@
    &&& b.read_view() == t.buffer_data@
    &&& b.slots() == n
    &&& b.free_view() == t.free_slots@
    &&& b.active() == n - t.free_slots@.len()
    &&& e.store().index() == crate::storage::table::pairs_to_map(t.entity_mapping@)
}

/// `db` is the database that snapshot `s` restores: the snapshot's schema,
/// registries and version, each table snapshot loaded in order, and nothing
/// pending.
pub open spec fn restored_from(s: DatabaseSnapshot, db: Database) -> bool {
    &&& db.schema_view() == s.schema
    &&& db.entities() == s.entity_registry
    &&& db.archetypes() == s.archetype_registry
    &&& db.current_version() == s.version
    &&& db.tables_view().len() == s.tables@.len()
    &&& forall|q: int| 0 <= q < s.tables@.len() ==> table_loaded(s.tables@[q], #[trigger] db.tables_view()[q])
    &&& db.pending().len() == 0
    &&& (s.entity_registry.wf() ==> db.wf())
}

/// Restoring a snapshot of a database without tables gives back its schema,
/// its registries and its version.
pub proof fn law_snapshot_restore(d: Database, s: DatabaseSnapshot, db: Database)
    requires
        d.tables_view().len() == 0,
        snapshot_of(d, s),
        restored_from(s, db),
    ensures
        same_schema(db.schema_view(), d.schema_view()),
        db.entities().records_view() == d.entities().records_view(),
        db.entities().index_view() == d.entities().index_view(),
        db.entities().free_view() == d.entities().free_view(),
        db.entities().next() == d.entities().next(),
        db.archetypes().lists() == d.archetypes().lists(),
        db.archetypes().masks() == d.archetypes().masks(),
        db.current_version() == d.current_version(),
        db.tables_view().len() == 0,
{
}

/// The database.
pub struct Database {
    schema: DatabaseSchema,
    entity_registry: EntityRegistry,
    archetype_registry: ArchetypeRegistry,
    tables: Vec<TableEntry>,
    writer: WriteWorker,
    pending_ops: Vec<WriteOpWithoutResponse>,
    version: u64,
    outgoing: Vec<Delta>,
}

/// What applying the write `op` to `d0` leaves in `d1`, with outcome `res`.
pub open spec fn write_outcome(d0: Database, d1: Database, op: WriteOpWithoutResponse, res: Result<()>) -> bool {
    &&& (d1.schema_view() == d0.schema_view())
    &&& (d1.entities() == d0.entities())
    &&& (d1.pending() == d0.pending())
    &&& (d1.current_version() == d0.current_version())
    &&& (d1.outbox() == d0.outbox())
    &&& (d1.log() == d0.log())
    &&& (d1.tables_view().len() == d0.tables_view().len())
    &&& (res is Err ==> d1.tables_view() == d0.tables_view() && d1.archetypes() == d0.archetypes())
    &&& (!(op is Delete) && !d0.entities().index_view().contains_key(op_entity(op)) ==> res == Err::<(), EcsDbError>(
        EcsDbError::EntityNotFound(op_entity(op)),
    ))
    &&& ((op is Delete || d0.entities().index_view().contains_key(op_entity(op))) && table_pos(d0.tables_view(), op_table(op)) is None ==> (
        res matches Err(EcsDbError::ComponentNotFound { entity_id, .. }) && entity_id == op_entity(op)))
    &&& ((op is Delete || d0.entities().index_view().contains_key(op_entity(op))) ==> (table_pos(d0.tables_view(), op_table(op)) matches Some(k) ==> {
        let entry = d0.tables_view()[k];
        let fk = if op is Delete {
            None
        } else {
            fk_outcome(entry.fields(), entry.offsets(), d0.entities().index_view(), op_data(op), 0)
        };
        &&& fk == Some(true) ==> (res matches Err(EcsDbError::SchemaError(_)))
        &&& fk == Some(false) ==> (res matches Err(EcsDbError::ReferentialIntegrityViolation(_)))
        &&& fk is None ==> {
            &&& store_step(entry.store(), d1.tables_view()[k].store(), op, res is Ok)
            &&& res is Ok ==> {
                &&& d1.archetypes().masks() == masks_after(d0.archetypes().masks(), op)
                &&& forall|j: int| 0 <= j < d0.tables_view().len() && j != k ==> d1.tables_view()[j] == d0.tables_view()[j]
                &&& d1.tables_view()[k].id() == entry.id()
                &&& d1.tables_view()[k].name() == entry.name()
                &&& d1.tables_view()[k].fields() == entry.fields()
                &&& d1.tables_view()[k].offsets() == entry.offsets()
            }
        }
    }))
    &&& forall|j: int| 0 <= j < d0.tables_view().len() ==> #[trigger] d1.tables_view()[j].id() == d0.tables_view()[j].id() && d1.tables_view()[j].store().rs() == d0.tables_view()[j].store().rs()
        && d1.tables_view()[j].store().buffer().read_view() == d0.tables_view()[j].store().buffer().read_view()
        && d1.tables_view()[j].store().buffer().gen() == d0.tables_view()[j].store().buffer().gen()
}

/// `states` runs through the writes of `ops` in order, each succeeding:
/// state `i + 1` is state `i` after write `i`.
pub open spec fn chain(states: Seq<Database>, ops: Seq<WriteOpWithoutResponse>) -> bool {
    &&& states.len() == ops.len() + 1
    &&& forall|i: int| #![trigger ops[i]] 0 <= i < ops.len() ==> write_outcome(states[i], states[i + 1], ops[i], Ok(()))
}

/// `d1` is `d0` after applying every write of `ops` in order, each
/// succeeding.
pub open spec fn batch_applied(d0: Database, d1: Database, ops: Seq<WriteOpWithoutResponse>) -> bool {
    exists|states: Seq<Database>| #[trigger] chain(states, ops) && states[0] == d0 && states.last() == d1
}

/// The write side of table `t1` is that of `t0`, and so are its identifier
/// and committed data.
pub open spec fn store_restored(t0: TableEntry, t1: TableEntry) -> bool {
    let b0 = t0.store().buffer();
    let b1 = t1.store().buffer();
    &&& t1.id() == t0.id()
    &&& t1.store().rs() == t0.store().rs()
    &&& b1.write_view() == b0.write_view()
    &&& b1.slots() == b0.slots()
    &&& b1.free_view() == b0.free_view()
    &&& b1.active() == b0.active()
    &&& b1.read_view() == b0.read_view()
    &&& b1.gen() == b0.gen()
}

/// `d1` is `d0` with every table's write side and the archetypes put back.
pub open spec fn rolled_back(d0: Database, d1: Database) -> bool {
    &&& d1.tables_view().len() == d0.tables_view().len()
    &&& forall|q: int| 0 <= q < d0.tables_view().len() ==> store_restored(d0.tables_view()[q], #[trigger] d1.tables_view()[q])
    &&& d1.archetypes().lists() == d0.archetypes().lists()
    &&& d1.archetypes().masks() == d0.archetypes().masks()
    &&& d1.schema_view() == d0.schema_view()
    &&& d1.entities() == d0.entities()
    &&& d1.pending() == d0.pending()
    &&& d1.current_version() == d0.current_version()
    &&& d1.outbox() == d0.outbox()
    &&& d1.log() == d0.log()
}

/// The committed record of entity `e` in table store `t`, if it has one
/// within the committed data.
pub open spec fn committed(t: ComponentTable<SchemaRecord>, e: u64) -> Option<Seq<u8>> {
    if t.index().contains_key(e) && t.index()[e] + t.rs() <= t.buffer().read_view().len() {
        Some(t.buffer().read_view().subrange(t.index()[e] as int, t.index()[e] + t.rs()))
    } else {
        None
    }
}

/// The change a write records in the delta of its commit, read against the
/// committed data of `tables`: an insert as it is; an update as an update
/// from the committed record, or as an insert when there is none; a delete
/// with the committed record, or nothing when there is none. A write to an
/// unregistered table records nothing, but for an insert.
pub open spec fn delta_of(tables: Seq<TableEntry>, op: WriteOpWithoutResponse) -> Seq<OpView> {
    match op {
        WriteOpWithoutResponse::Insert { table_id, entity_id, data } => seq![
            OpView::Insert { table_id, entity_id, data: data@ },
        ],
        WriteOpWithoutResponse::Update { table_id, entity_id, data } => match table_pos(tables, table_id) {
            None => Seq::empty(),
            Some(k) => match committed(tables[k].store(), entity_id) {
                Some(old) => seq![
                    OpView::Update { table_id, entity_id, field_offset: 0, old_data: old, new_data: data@ },
                ],
                None => seq![OpView::Insert { table_id, entity_id, data: data@ }],
            },
        },
        WriteOpWithoutResponse::Delete { table_id, entity_id } => match table_pos(tables, table_id) {
            None => Seq::empty(),
            Some(k) => match committed(tables[k].store(), entity_id) {
                Some(old) => seq![OpView::Delete { table_id, entity_id, old_data: old }],
                None => Seq::empty(),
            },
        },
    }
}

/// The changes the writes `ops` record, in order.
pub open spec fn deltas_of(tables: Seq<TableEntry>, ops: Seq<WriteOpWithoutResponse>) -> Seq<OpView>
    decreases ops.len(),
{
    if ops.len() == 0 {
        Seq::empty()
    } else {
        deltas_of(tables, ops.drop_last()) + delta_of(tables, ops.last())
    }
}

/// Some entity of `t` has a record that lies beyond the committed data.
pub open spec fn has_unreadable(t: ComponentTable<SchemaRecord>) -> bool {
    exists|x: u64| t.index().contains_key(x) && #[trigger] committed(t, x) is None
}

/// `t1` is `t0` with its writes made visible under generation `gen`.
pub open spec fn table_committed(t0: TableEntry, t1: TableEntry, gen: u64) -> bool {
    &&& t1.id() == t0.id()
    &&& t1.name() == t0.name()
    &&& t1.fields() == t0.fields()
    &&& t1.store().index() == t0.store().index()
    &&& t1.store().rs() == t0.store().rs()
    &&& crate::storage::buffer::commit_post(&t0.store().buffer(), &t1.store().buffer())
    &&& t1.store().buffer().gen() == gen
}

/// What a commit of the queued writes of `d0` does, ending in `d1` with
/// result `res`: with nothing queued it returns the version and changes
/// nothing. Otherwise the queue is emptied; an error is that of the first
/// queued write that fails after the ones before it applied, and leaves the
/// version, the outbox, every table's write and read sides and the
/// archetypes as they were; success applies every write in order, commits
/// every table under the next version, returns it, and sends the changes,
/// if any, as one delta of that version.
pub open spec fn commit_done(d0: Database, d1: Database, res: Result<u64>) -> bool {
    &&& d0.pending().len() == 0 ==> res == Ok::<u64, EcsDbError>(d0.current_version()) && d1 == d0
    &&& d0.pending().len() > 0 ==> {
        let v = (d0.current_version() + 1) as u64;
        &&& d1.pending().len() == 0
        &&& d1.schema_view() == d0.schema_view()
        &&& d1.entities() == d0.entities()
        &&& res is Err ==> {
            &&& exists|i: int, states: Seq<Database>, dx: Database|
                #![trigger chain(states, d0.pending().take(i)), write_outcome(states.last(), dx, d0.pending()[i], Err::<(), EcsDbError>(res->Err_0))]
                0 <= i < d0.pending().len() && chain(states, d0.pending().take(i))
                && states[0].tables_view() == d0.tables_view() && states[0].archetypes() == d0.archetypes()
                && states[0].entities() == d0.entities()
                && write_outcome(states.last(), dx, d0.pending()[i], Err::<(), EcsDbError>(res->Err_0))
            &&& d1.current_version() == d0.current_version()
            &&& d1.outbox() == d0.outbox()
            &&& d1.tables_view().len() == d0.tables_view().len()
            &&& forall|q: int| 0 <= q < d0.tables_view().len() ==> store_restored(d0.tables_view()[q], #[trigger] d1.tables_view()[q])
            &&& d1.archetypes().lists() == d0.archetypes().lists()
            &&& d1.archetypes().masks() == d0.archetypes().masks()
        }
        &&& res is Ok ==> {
            &&& res == Ok::<u64, EcsDbError>(v)
            &&& d1.current_version() == v
            &&& exists|dm: Database, db: Database| #[trigger] batch_applied(dm, db, d0.pending())
                && dm.tables_view() == d0.tables_view() && dm.archetypes() == d0.archetypes()
                && dm.entities() == d0.entities()
                && d1.archetypes() == db.archetypes()
                && d1.tables_view().len() == db.tables_view().len()
                && forall|q: int| 0 <= q < db.tables_view().len() ==> table_committed(db.tables_view()[q], #[trigger] d1.tables_view()[q], v)
            &&& deltas_of(d0.tables_view(), d0.pending()).len() == 0 ==> d1.outbox() == d0.outbox()
            &&& deltas_of(d0.tables_view(), d0.pending()).len() > 0 ==> {
                &&& d1.outbox().len() == d0.outbox().len() + 1
                &&& d1.outbox().drop_last() == d0.outbox()
                &&& ops_view(d1.outbox().last().ops@) == deltas_of(d0.tables_view(), d0.pending())
                &&& d1.outbox().last().version == v
            }
        }
    }
}

/// A commit is all or nothing. With nothing queued it returns the version
/// and changes nothing. Otherwise it empties the queue, and either every
/// table's writes become visible under the next version, which it returns,
/// or it returns an error and leaves the version, every table's write and
/// read sides and the archetypes as they were.
pub proof fn law_commit_all_or_nothing(d0: Database, d1: Database, res: Result<u64>)
    requires
        commit_done(d0, d1, res),
    ensures
        d0.pending().len() == 0 ==> res == Ok::<u64, EcsDbError>(d0.current_version()) && d1 == d0,
        d0.pending().len() > 0 ==> d1.pending().len() == 0,
        d0.pending().len() > 0 && res is Ok ==> {
            let v = (d0.current_version() + 1) as u64;
            &&& res == Ok::<u64, EcsDbError>(v)
            &&& d1.current_version() == v
            &&& forall|q: int| 0 <= q < d1.tables_view().len() ==> {
                let b = (#[trigger] d1.tables_view()[q]).store().buffer();
                &&& b.gen() == v
                &&& b.read_view() == b.write_view()
            }
        },
        d0.pending().len() > 0 && res is Err ==> {
            &&& d1.current_version() == d0.current_version()
            &&& d1.tables_view().len() == d0.tables_view().len()
            &&& forall|q: int| 0 <= q < d0.tables_view().len() ==> {
                let b0 = d0.tables_view()[q].store().buffer();
                let b1 = (#[trigger] d1.tables_view()[q]).store().buffer();
                &&& b1.write_view() == b0.write_view()
                &&& b1.read_view() == b0.read_view()
                &&& b1.gen() == b0.gen()
            }
            &&& d1.archetypes().lists() == d0.archetypes().lists()
            &&& d1.archetypes().masks() == d0.archetypes().masks()
        },
{
    if d0.pending().len() > 0 && res is Ok {
        let (dm, db) = choose|dm: Database, db: Database| #[trigger] batch_applied(dm, db, d0.pending())
            && dm.tables_view() == d0.tables_view() && dm.archetypes() == d0.archetypes()
            && dm.entities() == d0.entities()
            && d1.archetypes() == db.archetypes()
            && d1.tables_view().len() == db.tables_view().len()
            && forall|q: int| 0 <= q < db.tables_view().len() ==> table_committed(db.tables_view()[q], #[trigger] d1.tables_view()[q], (d0.current_version() + 1) as u64);
        assert forall|q: int| 0 <= q < d1.tables_view().len() implies {
            let b = (#[trigger] d1.tables_view()[q]).store().buffer();
            &&& b.gen() == (d0.current_version() + 1) as u64
            &&& b.read_view() == b.write_view()
        } by {
            assert(table_committed(db.tables_view()[q], d1.tables_view()[q], (d0.current_version() + 1) as u64));
        }
    }
    if d0.pending().len() > 0 && res is Err {
        assert forall|q: int| 0 <= q < d0.tables_view().len() implies {
            let b0 = d0.tables_view()[q].store().buffer();
            let b1 = (#[trigger] d1.tables_view()[q]).store().buffer();
            &&& b1.write_view() == b0.write_view()
            &&& b1.read_view() == b0.read_view()
            &&& b1.gen() == b0.gen()
        } by {
            assert(store_restored(d0.tables_view()[q], d1.tables_view()[q]));
        }
    }
}

/// A successful commit sends every queued delete of a component that has a
/// committed record in a registered table: the delta it sends holds a
/// delete of that entity from that table carrying the committed record, so
/// such a commit never sends an empty delta.
pub proof fn law_commit_sends_deletes(d0: Database, d1: Database, res: Result<u64>, i: int, k: int)
    requires
        d0.wf(),
        commit_done(d0, d1, res),
        res is Ok,
        d0.current_version() < u64::MAX,
        0 <= i < d0.pending().len(),
        0 <= k < d0.tables_view().len(),
        d0.pending()[i] matches WriteOpWithoutResponse::Delete { table_id, entity_id }
            && d0.tables_view()[k].id() == table_id && committed(d0.tables_view()[k].store(), entity_id) is Some,
    ensures
        d1.outbox().len() == d0.outbox().len() + 1,
        d1.outbox().drop_last() == d0.outbox(),
        d1.outbox().last().version == d0.current_version() + 1,
        ops_view(d1.outbox().last().ops@).contains(
            OpView::Delete {
                table_id: d0.tables_view()[k].id(),
                entity_id: d0.pending()[i]->Delete_entity_id,
                old_data: committed(d0.tables_view()[k].store(), d0.pending()[i]->Delete_entity_id)->0,
            },
        ),
{
    let tables = d0.tables_view();
    let ops = d0.pending();
    let t = tables[k].id();
    let e = ops[i]->Delete_entity_id;
    let want = OpView::Delete { table_id: t, entity_id: e, old_data: committed(tables[k].store(), e)->0 };
    assert(table_pos(tables, t) == Some(k)) by {
        let j = choose|j: int| 0 <= j < tables.len() && tables[j].id() == t;
        if j != k {
            if j < k {
                assert(d0.tables@[j].table_id != d0.tables@[k].table_id);
            } else {
                assert(d0.tables@[k].table_id != d0.tables@[j].table_id);
            }
        }
    }
    assert(delta_of(tables, ops[i]) == seq![want]);
    assert(delta_of(tables, ops[i])[0] == want);
    lemma_deltas_hold(tables, ops, i, want);
}

/// A successful commit sends every queued insert as it is: the delta it
/// sends holds an insert of the same entity, table and bytes.
pub proof fn law_commit_sends_inserts(d0: Database, d1: Database, res: Result<u64>, i: int)
    requires
        commit_done(d0, d1, res),
        res is Ok,
        d0.current_version() < u64::MAX,
        0 <= i < d0.pending().len(),
        d0.pending()[i] is Insert,
    ensures
        d1.outbox().len() == d0.outbox().len() + 1,
        d1.outbox().drop_last() == d0.outbox(),
        d1.outbox().last().version == d0.current_version() + 1,
        ops_view(d1.outbox().last().ops@).contains(
            OpView::Insert {
                table_id: d0.pending()[i]->Insert_table_id,
                entity_id: d0.pending()[i]->Insert_entity_id,
                data: d0.pending()[i]->Insert_data@,
            },
        ),
{
    let op = d0.pending()[i];
    let want = OpView::Insert { table_id: op->Insert_table_id, entity_id: op->Insert_entity_id, data: op->Insert_data@ };
    assert(delta_of(d0.tables_view(), op)[0] == want);
    lemma_deltas_hold(d0.tables_view(), d0.pending(), i, want);
}

/// What the `i`th write records is among what all the writes record.
proof fn lemma_deltas_hold(tables: Seq<TableEntry>, ops: Seq<WriteOpWithoutResponse>, i: int, x: OpView)
    requires
        0 <= i < ops.len(),
        delta_of(tables, ops[i]).contains(x),
    ensures
        deltas_of(tables, ops).contains(x),
    decreases ops.len(),
{
    let prev = deltas_of(tables, ops.drop_last());
    let last = delta_of(tables, ops.last());
    assert(deltas_of(tables, ops) == prev + last);
    if i == ops.len() - 1 {
        let m = choose|m: int| 0 <= m < last.len() && last[m] == x;
        assert((prev + last)[prev.len() + m] == x);
    } else {
        assert(ops.drop_last()[i] == ops[i]);
        lemma_deltas_hold(tables, ops.drop_last(), i, x);
        let m = choose|m: int| 0 <= m < prev.len() && prev[m] == x;
        assert((prev + last)[m] == x);
    }
}

/// Until a commit, a write changes no read: every entity but the one written
/// reads as before, and so does an updated one.
pub proof fn law_write_invisible_until_commit(
    t0: ComponentTable<SchemaRecord>,
    t1: ComponentTable<SchemaRecord>,
    op: WriteOpWithoutResponse,
    ok: bool,
)
    requires
        store_step(t0, t1, op, ok),
    ensures
        forall|x: u64| x != op_entity(op) ==> #[trigger] committed(t1, x) == committed(t0, x),
        op is Update ==> committed(t1, op_entity(op)) == committed(t0, op_entity(op)),
{
    assert forall|x: u64| x != op_entity(op) implies #[trigger] committed(t1, x) == committed(t0, x) by {
        if ok {
            match op {
                WriteOpWithoutResponse::Insert { .. } => {
                    assert(t1.index().contains_key(x) == t0.index().contains_key(x));
                },
                WriteOpWithoutResponse::Delete { .. } => {
                    assert(t1.index().contains_key(x) == t0.index().contains_key(x));
                },
                _ => {},
            }
        }
    }
}

/// A successful write, once committed, is what a read of its entity gives
/// back: the written record after an insert or an update, nothing after a
/// delete.
pub proof fn law_committed_write_read(
    t0: ComponentTable<SchemaRecord>,
    t1: ComponentTable<SchemaRecord>,
    t2: ComponentTable<SchemaRecord>,
    op: WriteOpWithoutResponse,
)
    requires
        store_step(t0, t1, op, true),
        t2.index() == t1.index(),
        t2.rs() == t1.rs(),
        crate::storage::buffer::commit_post(&t1.buffer(), &t2.buffer()),
    ensures
        !(op is Delete) ==> committed(t2, op_entity(op)) == Some(op_data(op)),
        op is Delete ==> committed(t2, op_entity(op)) is None,
{
    match op {
        WriteOpWithoutResponse::Insert { entity_id, data, .. } => {
            let b0 = t0.buffer();
            let off = b0.insert_offset();
            let grown = if b0.insert_grows() {
                b0.write_view() + crate::storage::buffer::zeros(b0.write_view().len())
            } else {
                b0.write_view()
            };
            crate::storage::buffer::lemma_splice_len(grown, off, data@);
            assert(t2.index()[entity_id] == off);
            assert(t2.buffer().read_view().subrange(off, off + t2.rs()) =~= data@);
        },
        WriteOpWithoutResponse::Update { entity_id, data, .. } => {
            let off = t0.index()[entity_id] as int;
            crate::storage::buffer::lemma_splice_len(t0.buffer().write_view(), off, data@);
            assert(t2.buffer().read_view().subrange(off, off + t2.rs()) =~= data@);
        },
        WriteOpWithoutResponse::Delete { .. } => {},
    }
}

/// A write that a commit applied is what a read gives back afterwards:
/// `d1` is `d0` after the single write `op`, and `d2` is `d1` with every
/// table's writes made visible.
pub proof fn law_commit_then_read(d0: Database, d1: Database, d2: Database, op: WriteOpWithoutResponse, v: u64)
    requires
        d0.wf(),
        batch_applied(d0, d1, seq![op]),
        d2.tables_view().len() == d1.tables_view().len(),
        forall|q: int| 0 <= q < d1.tables_view().len() ==> table_committed(d1.tables_view()[q], #[trigger] d2.tables_view()[q], v),
    ensures
        table_pos(d2.tables_view(), op_table(op)) matches Some(k) && {
            &&& !(op is Delete) ==> committed(d2.tables_view()[k].store(), op_entity(op)) == Some(op_data(op))
            &&& op is Delete ==> committed(d2.tables_view()[k].store(), op_entity(op)) is None
        },
{
    let states = choose|states: Seq<Database>| #[trigger] chain(states, seq![op]) && states[0] == d0 && states.last() == d1;
    assert(seq![op][0] == op);
    assert(write_outcome(states[0], states[1], op, Ok(())));
    let t = op_table(op);
    assert(states.len() == 2 && states[1] == d1);
    assert(op is Delete || d0.entities().index_view().contains_key(op_entity(op)));
    assert(table_pos(d0.tables_view(), t) is Some);
    let k = table_pos(d0.tables_view(), t)->0;
    let entry = d0.tables_view()[k];
    let fk = if op is Delete {
        None
    } else {
        fk_outcome(entry.fields(), entry.offsets(), d0.entities().index_view(), op_data(op), 0)
    };
    assert(write_outcome(d0, d1, op, Ok(())));
    if let Some(b) = fk {
        if b {
            assert(fk == Some(true));
        } else {
            assert(fk == Some(false));
        }
    }
    assert(store_step(entry.store(), d1.tables_view()[k].store(), op, true));
    assert(d2.tables_view()[k].id() == t) by {
        assert(table_committed(d1.tables_view()[k], d2.tables_view()[k], v));
    }
    assert forall|i: int| 0 <= i < d2.tables_view().len() && d2.tables_view()[i].id() == t implies i == k by {
        assert(table_committed(d1.tables_view()[i], d2.tables_view()[i], v));
        assert(d1.tables_view()[i].id() == d0.tables_view()[i].id());
        assert(d0.tables_view()[i].id() == t);
    }
    assert(table_pos(d2.tables_view(), t) == Some(k));
    assert(table_committed(d1.tables_view()[k], d2.tables_view()[k], v));
    law_committed_write_read(d0.tables_view()[k].store(), d1.tables_view()[k].store(), d2.tables_view()[k].store(), op);
}

/// The offsets of the slots among the first `n` of `rs` bytes each whose
/// offset no record occupies, in increasing order.
pub open spec fn free_offsets(rs: nat, n: nat, occupied: Set<usize>) -> Seq<usize>
    decreases n,
{
    if n == 0 {
        Seq::empty()
    } else {
        let rest = free_offsets(rs, (n - 1) as nat, occupied);
        let off = ((n - 1) * rs) as usize;
        if occupied.contains(off) {
            rest
        } else {
            rest.push(off)
        }
    }
}

/// `s` records table `t` as it stands committed: its whole records of
/// committed bytes (a tail shorter than a record is left out).
pub open spec fn table_snapshot_of(t: TableEntry, s: TableSnapshot) -> bool {
    let st = t.store();
    let n = (st.buffer().read_view().len() / st.rs()) as nat;
    &&& s.table_id == t.id()
    &&& s.table_name@ == t.name()
    &&& s.record_size == st.rs()
    &&& s.buffer_data@ == st.buffer().read_view().subrange(0, (n * st.rs()) as int)
    &&& s.entity_mapping@.len() == st.index().len()
    &&& (forall|i: int| 0 <= i < s.entity_mapping@.len() ==> #[trigger] st.index().contains_key(s.entity_mapping@[i].0)
        && st.index()[s.entity_mapping@[i].0] == s.entity_mapping@[i].1)
    &&& (forall|i: int, j: int| 0 <= i < j < s.entity_mapping@.len() ==> s.entity_mapping@[i].0 != s.entity_mapping@[j].0)
    &&& s.free_slots@ == free_offsets(st.rs(), n, st.index().values())
    &&& s.active_count == st.index().len()
}

impl Database {
    pub closed spec fn schema_view(&self) -> DatabaseSchema {
        self.schema
    }

    pub closed spec fn entities(&self) -> EntityRegistry {
        self.entity_registry
    }

    pub closed spec fn archetypes(&self) -> ArchetypeRegistry {
        self.archetype_registry
    }

    pub closed spec fn tables_view(&self) -> Seq<TableEntry> {
        self.tables@
    }

    pub closed spec fn pending(&self) -> Seq<WriteOpWithoutResponse> {
        self.pending_ops@
    }

    pub closed spec fn current_version(&self) -> u64 {
        self.version
    }

    /// The deltas of the commits not yet handed out for broadcast.
    pub closed spec fn outbox(&self) -> Seq<Delta> {
        self.outgoing@
    }

    pub closed spec fn log(&self) -> Seq<WalEntry> {
        self.writer.log()
    }

    /// The transaction number the writer gives the next single write.
    pub closed spec fn log_next_id(&self) -> u64 {
        self.writer.next_id()
    }

    /// Registries and tables are well formed, table identifiers are
    /// distinct, and records fit the address space.
    pub closed spec fn wf(&self) -> bool {
        &&& self.entity_registry.wf()
        &&& forall|i: int| 0 <= i < self.tables@.len() ==> (#[trigger] self.tables@[i]).table.wf()
        &&& forall|i: int, j: int|
            0 <= i < j < self.tables@.len() ==> (#[trigger] self.tables@[i]).table_id != (
            #[trigger] self.tables@[j]).table_id
    }

    /// A database for `schema`, with no entity and no table registered.
    pub fn from_schema(schema: DatabaseSchema) -> (res: Result<Self>)
        ensures
            res matches Ok(db) && {
                &&& db.wf()
                &&& db.schema_view() == schema
                &&& db.tables_view().len() == 0
                &&& db.pending().len() == 0
                &&& db.current_version() == 0
                &&& db.entities().index_view() == Map::<u64, usize>::empty()
                &&& db.archetypes().masks() == Map::<u64, ArchetypeMask>::empty()
                &&& db.outbox().len() == 0
                &&& db.log().len() == 0
            },
    {
        Ok(Database {
            schema,
            entity_registry: EntityRegistry::new(),
            archetype_registry: ArchetypeRegistry::new(),
            tables: Vec::new(),
            writer: WriteWorker::new(),
            pending_ops: Vec::new(),
            version: 0,
            outgoing: Vec::new(),
        })
    }

    fn find_table(&self, table_id: u16) -> (r: Option<usize>)
        requires
            self.wf(),
        ensures
            r matches Some(i) ==> i < self.tables_view().len() && table_pos(self.tables_view(), table_id)
                == Some(i as int) && self.tables_view()[i as int].id() == table_id,
            r is None ==> table_pos(self.tables_view(), table_id) is None,
    {
        let mut i: usize = 0;
        while i < self.tables.len()
            invariant
                i <= self.tables@.len(),
                self.wf(),
                forall|k: int| 0 <= k < i ==> self.tables@[k].table_id != table_id,
            decreases self.tables@.len() - i,
        {
            if self.tables[i].table_id == table_id {
                proof {
                    let c = choose|c: int| 0 <= c < self.tables@.len() && self.tables@[c].id() == table_id;
                    if c < i {
                        assert(self.tables@[c].table_id != self.tables@[i as int].table_id);
                    } else if c > i {
                        assert(self.tables@[i as int].table_id != self.tables@[c].table_id);
                    }
                }
                return Some(i);
            }
            i += 1;
        }
        None
    }

    /// Registers the table of component type `T`, laid out as the schema's
    /// table of the same name describes; registering twice does nothing.
    pub fn register_component<T: Component + ZeroCopyComponent>(&mut self) -> (res: Result<()>)
        requires
            old(self).wf(),
            layouts_computable(old(self).schema_view()),
        ensures
            final(self).wf(),
            final(self).schema_view() == old(self).schema_view(),
            final(self).entities() == old(self).entities(),
            final(self).archetypes() == old(self).archetypes(),
            final(self).pending() == old(self).pending(),
            final(self).current_version() == old(self).current_version(),
            table_pos(old(self).tables_view(), T::TABLE_ID) is Some ==> res is Ok && final(self).tables_view()
                == old(self).tables_view(),
            table_pos(old(self).tables_view(), T::TABLE_ID) is None ==> {
                match crate::schema::types::spec_find_table(old(self).schema_view().tables@, T::TABLE_NAME@) {
                    None => (res matches Err(EcsDbError::SchemaError(_)) && final(self).tables_view()
                        == old(self).tables_view()),
                    Some(k) => if !table_layout_ok(old(self).schema_view(), k) {
                        res matches Err(EcsDbError::SchemaError(_)) && final(self).tables_view()
                            == old(self).tables_view()
                    } else {
                        &&& res is Ok
                        &&& final(self).tables_view().len() == old(self).tables_view().len() + 1
                        &&& final(self).tables_view().drop_last() == old(self).tables_view()
                        &&& final(self).tables_view().last().id() == T::TABLE_ID
                        &&& final(self).tables_view().last().name() == T::TABLE_NAME@
                        &&& final(self).tables_view().last().fields() == old(self).schema_view().tables@[k].fields@
                        &&& final(self).tables_view().last().store().index() == Map::<u64, usize>::empty()
                    },
                }
            },
    {
        let table_id = T::TABLE_ID;
        if self.find_table(table_id).is_some() {
            return Ok(());
        }
        let table_def = match self.schema.find_table(T::TABLE_NAME) {
            Some(t) => t,
            None => {
                let m = join(join(owned("Table '"), T::TABLE_NAME), "' not found in schema");
                return Err(EcsDbError::SchemaError(m));
            },
        };
        proof {
            let k = crate::schema::types::spec_find_table(self.schema.tables@, T::TABLE_NAME@).unwrap();
            assert(0 <= k < self.schema.tables@.len());
            assert(self.schema.tables@[k] == *table_def);
            assert(self.schema == old(self).schema_view());
            assert(layout_computable(self.schema.tables@[k].fields@, self.schema.custom_types@)) by {
                reveal(layouts_computable);
            }
        }
        let entry = match make_entry(table_id, T::TABLE_NAME, table_def, &self.schema.custom_types, <T as ZeroCopyComponent>::static_size()) {
            Ok(e) => e,
            Err(e) => return Err(e),
        };
        self.tables.push(entry);
        proof {
            assert(self.tables@.drop_last() =~= old(self).tables@);
            assert forall|i: int, j: int| 0 <= i < j < self.tables@.len() implies (#[trigger] self.tables@[i]).table_id != (
                #[trigger] self.tables@[j]).table_id by {
                if j == self.tables@.len() - 1 {
                    assert(old(self).tables@[i].id() != table_id);
                }
            }
        }
        Ok(())
    }

    /// Creates an entity with an empty archetype and returns its ID.
    pub fn create_entity(&mut self) -> (res: Result<EntityId>)
        requires
            old(self).wf(),
            old(self).entities().free_view().len() == 0 ==> old(self).entities().next() < u64::MAX,
        ensures
            final(self).wf(),
            ({
                let (id, _) = old(self).entities().next_identity();
                &&& res == Ok::<EntityId, EcsDbError>(id)
                &&& final(self).entities().index_view().contains_key(id.0)
                &&& final(self).entities().index_view().remove(id.0) == old(self).entities().index_view().remove(id.0)
                &&& final(self).archetypes().masks() == old(self).archetypes().masks().insert(
                    id.0,
                    ArchetypeMask(0),
                )
            }),
            final(self).tables_view() == old(self).tables_view(),
            final(self).pending() == old(self).pending(),
            final(self).current_version() == old(self).current_version(),
            final(self).schema_view() == old(self).schema_view(),
    {
        let entity_id = match self.entity_registry.create_entity(0) {
            Ok(id) => id,
            Err(e) => return Err(e),
        };
        self.archetype_registry.add_entity(entity_id.0, ArchetypeMask::empty());
        Ok(entity_id)
    }

    /// Deletes an entity; refused while any table holds a component of it.
    pub fn delete_entity(&mut self, entity_id: u64) -> (res: Result<()>)
        requires
            old(self).wf(),
            old(self).entities().index_view().contains_key(entity_id) ==> old(self).entities().records_view()[
                old(self).entities().index_view()[entity_id] as int].version.0 < u32::MAX,
        ensures
            final(self).wf(),
            final(self).tables_view() == old(self).tables_view(),
            final(self).pending() == old(self).pending(),
            final(self).current_version() == old(self).current_version(),
            (exists|i: int| 0 <= i < old(self).tables_view().len() && (#[trigger] old(self).tables_view()[i]).store().index().contains_key(entity_id))
                ==> (res matches Err(EcsDbError::ReferentialIntegrityViolation(_)) && *final(self) == *old(self)),
            final(self).schema_view() == old(self).schema_view(),
            final(self).outbox() == old(self).outbox(),
            final(self).log() == old(self).log(),
            !(exists|i: int| 0 <= i < old(self).tables_view().len() && (#[trigger] old(self).tables_view()[i]).store().index().contains_key(entity_id))
                ==> {
                &&& final(self).archetypes().masks() == old(self).archetypes().masks().remove(entity_id)
                &&& (old(self).archetypes().masks().contains_key(entity_id) ==> final(self).archetypes().lists()
                    == lists_without(
                    old(self).archetypes().lists(),
                    old(self).archetypes().masks()[entity_id].0,
                    entity_id,
                ))
                &&& (!old(self).archetypes().masks().contains_key(entity_id) ==> final(self).archetypes().lists()
                    == old(self).archetypes().lists())
                &&& final(self).entities().index_view() == old(self).entities().index_view().remove(entity_id)
                &&& final(self).entities().next() == old(self).entities().next()
                &&& (res is Ok <==> old(self).entities().index_view().contains_key(entity_id))
                &&& (res matches Err(e) ==> e == EcsDbError::EntityNotFound(entity_id))
                &&& (!old(self).entities().index_view().contains_key(entity_id) ==> {
                    &&& final(self).entities().records_view() == old(self).entities().records_view()
                    &&& final(self).entities().free_view() == old(self).entities().free_view()
                })
                &&& (old(self).entities().index_view().contains_key(entity_id) ==> {
                    let off = old(self).entities().index_view()[entity_id] as int;
                    let rec = old(self).entities().records_view()[off];
                    let bumped = EntityRecord {
                        id: rec.id,
                        version: EntityVersion((rec.version.0 + 1) as u32),
                        archetype_hash: rec.archetype_hash,
                    };
                    &&& final(self).entities().records_view() == old(self).entities().records_view().update(off, bumped)
                    &&& final(self).entities().free_view() == old(self).entities().free_view().push(
                        (EntityId(entity_id), bumped.version),
                    )
                })
            },
    {
        let mut i: usize = 0;
        while i < self.tables.len()
            invariant
                i <= self.tables@.len(),
                self.wf(),
                forall|k: int| 0 <= k < i ==> !(#[trigger] self.tables@[k]).table.index().contains_key(entity_id),
            decreases self.tables@.len() - i,
        {
            if self.tables[i].table.contains_entity(entity_id) {
                assert(old(self).tables_view()[i as int].store().index().contains_key(entity_id));
                let m = join(join_num(owned("Entity "), entity_id), " still has components");
                return Err(EcsDbError::ReferentialIntegrityViolation(m));
            }
            i += 1;
        }
        let _ = self.archetype_registry.remove_entity(entity_id);
        self.entity_registry.delete_entity(EntityId(entity_id))
    }

    /// Queues an insert of encoded component bytes; it takes effect at the
    /// next commit.
    pub fn insert(&mut self, table_id: u16, entity_id: u64, data: Vec<u8>) -> (res: Result<()>)
        ensures
            res is Ok,
            final(self).pending() == old(self).pending().push(
                WriteOpWithoutResponse::Insert { table_id, entity_id, data },
            ),
            final(self).tables_view() == old(self).tables_view(),
            final(self).entities() == old(self).entities(),
            final(self).archetypes() == old(self).archetypes(),
            final(self).current_version() == old(self).current_version(),
            old(self).wf() ==> final(self).wf(),
    {
        self.pending_ops.push(WriteOpWithoutResponse::Insert { table_id, entity_id, data });
        Ok(())
    }

    /// Queues an update of encoded component bytes.
    pub fn update(&mut self, table_id: u16, entity_id: u64, data: Vec<u8>) -> (res: Result<()>)
        ensures
            res is Ok,
            final(self).pending() == old(self).pending().push(
                WriteOpWithoutResponse::Update { table_id, entity_id, data },
            ),
            final(self).tables_view() == old(self).tables_view(),
            final(self).entities() == old(self).entities(),
            final(self).archetypes() == old(self).archetypes(),
            final(self).current_version() == old(self).current_version(),
            old(self).wf() ==> final(self).wf(),
    {
        self.pending_ops.push(WriteOpWithoutResponse::Update { table_id, entity_id, data });
        Ok(())
    }

    /// Queues a delete of a component.
    pub fn delete(&mut self, table_id: u16, entity_id: u64) -> (res: Result<()>)
        ensures
            res is Ok,
            final(self).pending() == old(self).pending().push(
                WriteOpWithoutResponse::Delete { table_id, entity_id },
            ),
            final(self).tables_view() == old(self).tables_view(),
            final(self).entities() == old(self).entities(),
            final(self).archetypes() == old(self).archetypes(),
            final(self).current_version() == old(self).current_version(),
            old(self).wf() ==> final(self).wf(),
    {
        self.pending_ops.push(WriteOpWithoutResponse::Delete { table_id, entity_id });
        Ok(())
    }

    /// The current version: the number of commits that changed something.
    pub fn version(&self) -> (v: u64)
        ensures
            v == self.current_version(),
    {
        self.version
    }

    /// The number of registered tables.
    pub fn table_count(&self) -> (n: usize)
        ensures
            n == self.tables_view().len(),
    {
        self.tables.len()
    }

    /// The identifier of the first registered table named `table_name`.
    pub fn get_table_id_by_name(&self, table_name: &str) -> (r: Option<u16>)
        ensures
            r matches Some(id) ==> exists|i: int| 0 <= i < self.tables_view().len() && (#[trigger] self.tables_view()[i]).name() == table_name@ && self.tables_view()[i].id() == id,
            r is None ==> forall|i: int| 0 <= i < self.tables_view().len() ==> (#[trigger] self.tables_view()[i]).name() != table_name@,
    {
        let key = owned(table_name);
        let mut i: usize = 0;
        while i < self.tables.len()
            invariant
                i <= self.tables@.len(),
                key@ == table_name@,
                forall|k: int| 0 <= k < i ==> (#[trigger] self.tables@[k]).table_name@ != table_name@,
            decreases self.tables@.len() - i,
        {
            if self.tables[i].table_name == key {
                assert(self.tables_view()[i as int].name() == table_name@);
                return Some(self.tables[i].table_id);
            }
            i += 1;
        }
        None
    }

    /// The number of entities with a component in a table; 0 for an
    /// unregistered table.
    pub fn get_entity_count_for_table(&self, table_id: u16) -> (n: usize)
        requires
            self.wf(),
        ensures
            table_pos(self.tables_view(), table_id) matches Some(i) ==> n == self.tables_view()[i].store().index().len(),
            table_pos(self.tables_view(), table_id) is None ==> n == 0,
    {
        match self.find_table(table_id) {
            Some(i) => self.tables[i].table.len(),
            None => 0,
        }
    }

    /// The schema.
    pub fn schema(&self) -> (s: &DatabaseSchema)
        ensures
            *s == self.schema_view(),
    {
        &self.schema
    }

    /// The write `op` may reach the archetype registry only for a table whose
    /// bit fits in a 64-bit mask.
    pub open spec fn op_fits(&self, op: WriteOpWithoutResponse) -> bool {
        (exists|i: int| 0 <= i < self.tables_view().len() && #[trigger] self.tables_view()[i].id() == op_table(op))
            ==> op_table(op) < 64
    }

    /// Applies one write at once, checking first that the entity exists (for
    /// inserts and updates), that the table is registered and that foreign
    /// keys name live entities; on success an insert or delete also updates
    /// the entity's archetype. Nothing changes when the write fails.
    pub fn apply_write_op(&mut self, op: &WriteOpWithoutResponse) -> (res: Result<()>)
        requires
            old(self).wf(),
            old(self).op_fits(*op),
        ensures
            final(self).wf(),
            write_outcome(*old(self), *final(self), *op, res),
    {
        let table_id = match op {
            WriteOpWithoutResponse::Insert { table_id, .. } => *table_id,
            WriteOpWithoutResponse::Update { table_id, .. } => *table_id,
            WriteOpWithoutResponse::Delete { table_id, .. } => *table_id,
        };
        let entity_id = match op {
            WriteOpWithoutResponse::Insert { entity_id, .. } => *entity_id,
            WriteOpWithoutResponse::Update { entity_id, .. } => *entity_id,
            WriteOpWithoutResponse::Delete { entity_id, .. } => *entity_id,
        };
        let is_delete = match op {
            WriteOpWithoutResponse::Delete { .. } => true,
            _ => false,
        };
        if !is_delete && !self.entity_registry.contains_entity(EntityId(entity_id)) {
            return Err(EcsDbError::EntityNotFound(entity_id));
        }
        let k = match self.find_table(table_id) {
            Some(k) => k,
            None => {
                let m = join_num(owned("table_id="), table_id as u64);
                return Err(EcsDbError::ComponentNotFound { entity_id, component_type: m });
            },
        };
        match op {
            WriteOpWithoutResponse::Insert { data, .. } | WriteOpWithoutResponse::Update { data, .. } => {
                match validate_foreign_keys(&self.tables[k], &self.entity_registry, data.as_slice()) {
                    Ok(()) => {},
                    Err(e) => return Err(e),
                }
            },
            WriteOpWithoutResponse::Delete { .. } => {},
        }
        let ghost tables0 = self.tables@;
        let mut entry = self.tables.remove(k);
        let result = match op {
            WriteOpWithoutResponse::Insert { data, .. } => {
                if data.len() == entry.table.record_size() && !entry.table.has_room() {
                    Err(EcsDbError::SchemaError(owned("Table storage is full")))
                } else {
                    match entry.table.insert(entity_id, data.as_slice()) {
                        Ok(_) => Ok(()),
                        Err(e) => Err(e),
                    }
                }
            },
            WriteOpWithoutResponse::Update { data, .. } => entry.table.update(entity_id, data.as_slice()),
            WriteOpWithoutResponse::Delete { .. } => entry.table.delete(entity_id),
        };
        self.tables.insert(k, entry);
        proof {
            assert forall|j: int| 0 <= j < self.tables@.len() && j != k implies self.tables@[j] == tables0[j] by {}
            assert forall|i: int, j: int| 0 <= i < j < self.tables@.len() implies (#[trigger] self.tables@[i]).table_id != (
                #[trigger] self.tables@[j]).table_id by {
                assert(tables0[i].table_id != tables0[j].table_id);
            }
            if result is Err {
                assert(self.tables@ =~= tables0);
            }
        }
        match result {
            Ok(()) => {
                match op {
                    WriteOpWithoutResponse::Insert { .. } => {
                        let _ = self.archetype_registry.add_component(entity_id, table_id);
                    },
                    WriteOpWithoutResponse::Delete { .. } => {
                        let _ = self.archetype_registry.remove_component(entity_id, table_id);
                    },
                    WriteOpWithoutResponse::Update { .. } => {},
                }
                Ok(())
            },
            Err(e) => Err(e),
        }
    }

    /// Applies the writes of `ops` in order, all or nothing: at the first
    /// write that fails, the write side of every table and the archetypes
    /// are put back as they were before the batch, and that write's error is
    /// returned. The tables' entity indexes are not put back.
    pub fn apply_batch(&mut self, ops: &Vec<WriteOpWithoutResponse>) -> (res: Result<()>)
        requires
            old(self).wf(),
            forall|i: int| 0 <= i < ops@.len() ==> old(self).op_fits(#[trigger] ops@[i]),
        ensures
            final(self).wf(),
            final(self).schema_view() == old(self).schema_view(),
            final(self).entities() == old(self).entities(),
            final(self).pending() == old(self).pending(),
            final(self).current_version() == old(self).current_version(),
            final(self).outbox() == old(self).outbox(),
            final(self).log() == old(self).log(),
            final(self).tables_view().len() == old(self).tables_view().len(),
            res is Ok ==> batch_applied(*old(self), *final(self), ops@),
            res is Err ==> rolled_back(*old(self), *final(self)) && exists|i: int, states: Seq<Database>, dx: Database|
                #![trigger chain(states, ops@.take(i)), write_outcome(states.last(), dx, ops@[i], res)]
                0 <= i < ops@.len() && chain(states, ops@.take(i)) && states[0] == *old(self) && write_outcome(
                    states.last(),
                    dx,
                    ops@[i],
                    res,
                ),
    {
        let ghost d0 = *self;
        assert(d0 == *old(self));
        let n = self.tables.len();
        let mut states: Vec<(Vec<u8>, u64, Vec<usize>, u64)> = Vec::new();
        let mut j: usize = 0;
        while j < n
            invariant
                n == self.tables@.len(),
                *self == d0,
                self.wf(),
                j <= n,
                states@.len() == j,
                forall|q: int| 0 <= q < j ==> {
                    let t = (#[trigger] self.tables@[q]).table;
                    &&& states@[q].0@ == t.buffer().write_view()
                    &&& states@[q].1 == t.buffer().slots()
                    &&& states@[q].2@ == t.buffer().free_view()
                    &&& states@[q].3 == t.buffer().active()
                    &&& ArcStorageBuffer::valid_state(states@[q].0@, states@[q].1, t.rs(), states@[q].2@)
                },
            decreases n - j,
        {
            states.push(self.tables[j].table.snapshot_write_state());
            j += 1;
        }
        let saved_archetypes = self.archetype_registry.duplicate();
        let mut i: usize = 0;
        let ghost mut trail: Seq<Database> = seq![d0];
        assert(ops@.take(0) =~= Seq::<WriteOpWithoutResponse>::empty());
        while i < ops.len()
            invariant
                self.wf(),
                i <= ops@.len(),
                n == d0.tables_view().len(),
                states@.len() == n,
                saved_archetypes.lists() == d0.archetypes().lists(),
                saved_archetypes.masks() == d0.archetypes().masks(),
                forall|q: int| 0 <= q < n ==> {
                    let t = (#[trigger] d0.tables_view()[q]).store();
                    &&& states@[q].0@ == t.buffer().write_view()
                    &&& states@[q].1 == t.buffer().slots()
                    &&& states@[q].2@ == t.buffer().free_view()
                    &&& states@[q].3 == t.buffer().active()
                    &&& ArcStorageBuffer::valid_state(states@[q].0@, states@[q].1, t.rs(), states@[q].2@)
                },
                forall|k: int| 0 <= k < ops@.len() ==> d0.op_fits(#[trigger] ops@[k]),
                chain(trail, ops@.take(i as int)),
                trail[0] == d0,
                trail.last() == *self,
                d0 == *old(self),
                self.tables_view().len() == n,
                forall|q: int| 0 <= q < n ==> (#[trigger] self.tables_view()[q]).id() == d0.tables_view()[q].id()
                    && self.tables_view()[q].store().rs() == d0.tables_view()[q].store().rs()
                    && self.tables_view()[q].store().buffer().read_view() == d0.tables_view()[q].store().buffer().read_view()
                    && self.tables_view()[q].store().buffer().gen() == d0.tables_view()[q].store().buffer().gen(),
                self.schema_view() == d0.schema_view(),
                self.entities() == d0.entities(),
                self.pending() == d0.pending(),
                self.current_version() == d0.current_version(),
                self.outbox() == d0.outbox(),
                self.log() == d0.log(),
            decreases ops@.len() - i,
        {
            let ghost dm = *self;
            proof {
                assert(self.op_fits(ops@[i as int])) by {
                    assert(d0.op_fits(ops@[i as int]));
                    if exists|q: int| 0 <= q < self.tables_view().len() && #[trigger] self.tables_view()[q].id() == op_table(ops@[i as int]) {
                        let q = choose|q: int| 0 <= q < self.tables_view().len() && #[trigger] self.tables_view()[q].id() == op_table(ops@[i as int]);
                        assert(d0.tables_view()[q].id() == op_table(ops@[i as int]));
                    }
                }
            }
            let r = self.apply_write_op(&ops[i]);
            match r {
                Ok(()) => {
                    proof {
                        assert forall|q: int| 0 <= q < n implies (#[trigger] self.tables_view()[q]).id() == d0.tables_view()[q].id()
                            && self.tables_view()[q].store().rs() == d0.tables_view()[q].store().rs()
                            && self.tables_view()[q].store().buffer().read_view() == d0.tables_view()[q].store().buffer().read_view()
                            && self.tables_view()[q].store().buffer().gen() == d0.tables_view()[q].store().buffer().gen() by {
                            assert(self.tables_view()[q].id() == dm.tables_view()[q].id());
                        }
                        let s1 = trail.push(*self);
                        let o1 = ops@.take(i + 1);
                        assert forall|k: int| #![trigger o1[k]] 0 <= k < o1.len() implies write_outcome(s1[k], s1[k + 1], o1[k], Ok(())) by {
                            if k < i {
                                assert(o1[k] == ops@.take(i as int)[k]);
                            } else {
                                assert(o1[k] == ops@[i as int]);
                            }
                        }
                        trail = s1;
                    }
                },
                Err(e) => {
                    let ghost dx = *self;
                    proof {
                        assert(write_outcome(trail.last(), dx, ops@[i as int], Err::<(), EcsDbError>(e)));
                        assert(chain(trail, ops@.take(i as int)));
                    }
                    self.restore_tables(states, Ghost(d0));
                    self.archetype_registry = saved_archetypes;
                    assert(self.tables_view().len() == d0.tables_view().len());
                    assert(rolled_back(d0, *self));
                    return Err(e);
                },
            }
            i += 1;
        }
        proof {
            assert(ops@.take(ops@.len() as int) =~= ops@);
            assert(chain(trail, ops@));
        }
        Ok(())
    }

    /// Puts back the write sides of all tables from saved states.
    fn restore_tables(&mut self, states: Vec<(Vec<u8>, u64, Vec<usize>, u64)>, d0: Ghost<Database>)
        requires
            old(self).wf(),
            states@.len() == old(self).tables_view().len(),
            old(self).tables_view().len() == d0@.tables_view().len(),
            forall|q: int| 0 <= q < states@.len() ==> {
                let t = (#[trigger] d0@.tables_view()[q]).store();
                &&& states@[q].0@ == t.buffer().write_view()
                &&& states@[q].1 == t.buffer().slots()
                &&& states@[q].2@ == t.buffer().free_view()
                &&& states@[q].3 == t.buffer().active()
                &&& ArcStorageBuffer::valid_state(states@[q].0@, states@[q].1, t.rs(), states@[q].2@)
            },
            forall|q: int| 0 <= q < states@.len() ==> (#[trigger] old(self).tables_view()[q]).id() == d0@.tables_view()[q].id()
                && old(self).tables_view()[q].store().rs() == d0@.tables_view()[q].store().rs()
                && old(self).tables_view()[q].store().buffer().read_view() == d0@.tables_view()[q].store().buffer().read_view()
                && old(self).tables_view()[q].store().buffer().gen() == d0@.tables_view()[q].store().buffer().gen(),
        ensures
            final(self).wf(),
            final(self).tables_view().len() == old(self).tables_view().len(),
            forall|q: int| 0 <= q < states@.len() ==> store_restored(d0@.tables_view()[q], #[trigger] final(self).tables_view()[q]),
            final(self).schema_view() == old(self).schema_view(),
            final(self).entities() == old(self).entities(),
            final(self).archetypes() == old(self).archetypes(),
            final(self).pending() == old(self).pending(),
            final(self).current_version() == old(self).current_version(),
            final(self).outbox() == old(self).outbox(),
            final(self).log() == old(self).log(),
    {
        let mut states = states;
        let n = self.tables.len();
        let mut j = n;
        while j > 0
            invariant
                j <= n,
                n == self.tables@.len(),
                states@.len() == j,
                self.wf(),
                forall|q: int| 0 <= q < j ==> {
                    let t = (#[trigger] d0@.tables_view()[q]).store();
                    &&& states@[q].0@ == t.buffer().write_view()
                    &&& states@[q].1 == t.buffer().slots()
                    &&& states@[q].2@ == t.buffer().free_view()
                    &&& states@[q].3 == t.buffer().active()
                    &&& ArcStorageBuffer::valid_state(states@[q].0@, states@[q].1, t.rs(), states@[q].2@)
                },
                forall|q: int| 0 <= q < j ==> (#[trigger] self.tables_view()[q]).id() == d0@.tables_view()[q].id()
                    && self.tables_view()[q].store().rs() == d0@.tables_view()[q].store().rs()
                    && self.tables_view()[q].store().buffer().read_view() == d0@.tables_view()[q].store().buffer().read_view()
                    && self.tables_view()[q].store().buffer().gen() == d0@.tables_view()[q].store().buffer().gen(),
                forall|q: int| j <= q < n ==> store_restored(d0@.tables_view()[q], #[trigger] self.tables_view()[q]),
                self.schema_view() == old(self).schema_view(),
                self.entities() == old(self).entities(),
                self.archetypes() == old(self).archetypes(),
                self.pending() == old(self).pending(),
                self.current_version() == old(self).current_version(),
                self.outbox() == old(self).outbox(),
                self.log() == old(self).log(),
            decreases j,
        {
            j -= 1;
            let ghost states0 = states@;
            let (w, slots, free, active) = states.pop().unwrap();
            assert(states@ =~= states0.drop_last());
            assert(w@ == states0[j as int].0@ && slots == states0[j as int].1 && free@ == states0[j as int].2@ && active == states0[j as int].3);
            assert forall|q: int| 0 <= q < j implies #[trigger] states@[q] == states0[q] by {}
            let ghost tables0 = self.tables@;
            let ghost t0j = d0@.tables_view()[j as int];
            assert(self.tables_view()[j as int].id() == t0j.id());
            let mut entry = self.tables.remove(j);
            entry.table.restore_write_state(w, slots, free, active);
            self.tables.insert(j, entry);
            proof {
                assert forall|q: int| 0 <= q < n && q != j implies self.tables@[q] == tables0[q] by {}
                assert(store_restored(t0j, self.tables_view()[j as int]));
                assert forall|a: int, b: int| 0 <= a < b < self.tables@.len() implies (#[trigger] self.tables@[a]).table_id != (
                    #[trigger] self.tables@[b]).table_id by {
                    assert(tables0[a].table_id != tables0[b].table_id);
                }
            }
        }
    }

    /// Records, for the delta of the next commit, the change each pending
    /// write makes, read against the committed data.
    fn track_pending(&self, tracker: &mut DeltaTracker)
        requires
            self.wf(),
            old(tracker).pending().ops@.len() == 0,
        ensures
            ops_view(final(tracker).pending().ops@) == deltas_of(self.tables_view(), self.pending()),
            final(tracker).pending().version == old(tracker).pending().version,
            final(tracker).pending().timestamp == old(tracker).pending().timestamp,
    {
        let mut i: usize = 0;
        proof {
            assert(ops_view(tracker.pending().ops@) =~= Seq::<OpView>::empty());
            assert(self.pending_ops@.take(0) =~= Seq::<WriteOpWithoutResponse>::empty());
        }
        while i < self.pending_ops.len()
            invariant
                self.wf(),
                i <= self.pending_ops@.len(),
                ops_view(tracker.pending().ops@) == deltas_of(self.tables_view(), self.pending_ops@.take(i as int)),
                tracker.pending().version == old(tracker).pending().version,
                tracker.pending().timestamp == old(tracker).pending().timestamp,
            decreases self.pending_ops@.len() - i,
        {
            let ghost before = tracker.pending().ops@;
            let ghost op = self.pending_ops@[i as int];
            proof {
                assert(self.pending_ops@.take(i + 1).drop_last() =~= self.pending_ops@.take(i as int));
                assert(self.pending_ops@.take(i + 1).last() == op);
            }
            match &self.pending_ops[i] {
                WriteOpWithoutResponse::Insert { table_id, entity_id, data } => {
                    tracker.record_insert(*table_id, *entity_id, data.as_slice());
                    assert(ops_view(tracker.pending().ops@) =~= ops_view(before) + delta_of(self.tables_view(), op));
                },
                WriteOpWithoutResponse::Update { table_id, entity_id, data } => {
                    match self.find_table(*table_id) {
                        Some(k) => {
                            match self.tables[k].table.get(*entity_id) {
                                Ok(old) => {
                                    tracker.record_update(*table_id, *entity_id, 0, old.as_slice(), data.as_slice());
                                },
                                Err(_) => {
                                    tracker.record_insert(*table_id, *entity_id, data.as_slice());
                                },
                            }
                            assert(ops_view(tracker.pending().ops@) =~= ops_view(before) + delta_of(self.tables_view(), op));
                        },
                        None => {
                            assert(ops_view(tracker.pending().ops@) =~= ops_view(before) + delta_of(self.tables_view(), op));
                        },
                    }
                },
                WriteOpWithoutResponse::Delete { table_id, entity_id } => {
                    match self.find_table(*table_id) {
                        Some(k) => {
                            match self.tables[k].table.get(*entity_id) {
                                Ok(old) => {
                                    tracker.record_delete(*table_id, *entity_id, old.as_slice());
                                },
                                Err(_) => {},
                            }
                            assert(ops_view(tracker.pending().ops@) =~= ops_view(before) + delta_of(self.tables_view(), op));
                        },
                        None => {
                            assert(ops_view(tracker.pending().ops@) =~= ops_view(before) + delta_of(self.tables_view(), op));
                        },
                    }
                },
            }
            i += 1;
        }
        assert(self.pending_ops@.take(self.pending_ops@.len() as int) =~= self.pending_ops@);
    }

    /// Makes the writes of every table visible under generation `gen`.
    pub(crate) fn commit_tables(&mut self, gen: u64)
        requires
            old(self).wf(),
        ensures
            final(self).wf(),
            final(self).tables_view().len() == old(self).tables_view().len(),
            forall|q: int| 0 <= q < old(self).tables_view().len() ==> table_committed(old(self).tables_view()[q], #[trigger] final(self).tables_view()[q], gen),
            final(self).schema_view() == old(self).schema_view(),
            final(self).entities() == old(self).entities(),
            final(self).archetypes() == old(self).archetypes(),
            final(self).pending() == old(self).pending(),
            final(self).current_version() == old(self).current_version(),
            final(self).outbox() == old(self).outbox(),
            final(self).log() == old(self).log(),
    {
        let n = self.tables.len();
        let mut j: usize = 0;
        while j < n
            invariant
                j <= n,
                n == self.tables@.len(),
                n == old(self).tables@.len(),
                self.wf(),
                forall|q: int| 0 <= q < j ==> table_committed(old(self).tables_view()[q], #[trigger] self.tables_view()[q], gen),
                forall|q: int| j <= q < n ==> #[trigger] self.tables_view()[q] == old(self).tables_view()[q],
                self.schema_view() == old(self).schema_view(),
                self.entities() == old(self).entities(),
                self.archetypes() == old(self).archetypes(),
                self.pending() == old(self).pending(),
                self.current_version() == old(self).current_version(),
                self.outbox() == old(self).outbox(),
                self.log() == old(self).log(),
            decreases n - j,
        {
            assert(self.tables_view()[j as int] == old(self).tables_view()[j as int]);
            let ghost tables0 = self.tables@;
            let mut entry = self.tables.remove(j);
            entry.table.commit_with_generation(gen);
            self.tables.insert(j, entry);
            proof {
                assert forall|q: int| 0 <= q < n && q != j implies self.tables@[q] == tables0[q] by {}
                assert(tables0[j as int] == old(self).tables_view()[j as int]);
                assert(table_committed(old(self).tables_view()[j as int], self.tables_view()[j as int], gen));
                assert forall|q: int| 0 <= q < j + 1 implies table_committed(old(self).tables_view()[q], #[trigger] self.tables_view()[q], gen) by {
                    if q < j {
                        assert(self.tables_view()[q] == tables0[q]);
                    }
                }
                assert forall|a: int, b: int| 0 <= a < b < self.tables@.len() implies (#[trigger] self.tables@[a]).table_id != (
                    #[trigger] self.tables@[b]).table_id by {
                    assert(tables0[a].table_id != tables0[b].table_id);
                }
            }
            j += 1;
        }
    }

    /// Commits the pending writes as one batch: logs them as the transaction
    /// numbered with the next version, applies them all or none, and on
    /// success makes every table's writes visible under that version, bumps
    /// the version and keeps the delta of the changes (when there are any)
    /// for broadcast. With no pending write it returns the current version.
    /// The pending writes are dropped either way.
    pub fn commit(&mut self) -> (res: Result<u64>)
        requires
            old(self).wf(),
            forall|i: int| 0 <= i < old(self).pending().len() ==> old(self).op_fits(#[trigger] old(self).pending()[i]),
            old(self).pending().len() > 0 ==> old(self).current_version() < u64::MAX,
        ensures
            final(self).wf(),
            commit_done(*old(self), *final(self), res),
    {
        if self.pending_ops.len() == 0 {
            return Ok(self.version);
        }
        let ghost d0 = *self;
        let new_version = self.version + 1;
        let timestamp = now_micros();
        let mut tracker = DeltaTracker::new(new_version, timestamp);
        self.track_pending(&mut tracker);
        let mut batch: Vec<WriteOpWithoutResponse> = Vec::new();
        std::mem::swap(&mut batch, &mut self.pending_ops);
        self.writer.begin_batch(new_version, &batch);
        let ghost dm = *self;
        proof {
            assert forall|i: int| 0 <= i < batch@.len() implies self.op_fits(#[trigger] batch@[i]) by {
                assert(d0.op_fits(batch@[i]));
                if exists|q: int| 0 <= q < self.tables_view().len() && #[trigger] self.tables_view()[q].id() == op_table(batch@[i]) {
                    let q = choose|q: int| 0 <= q < self.tables_view().len() && #[trigger] self.tables_view()[q].id() == op_table(batch@[i]);
                    assert(d0.tables_view()[q].id() == op_table(batch@[i]));
                }
            }
        }
        let applied = self.apply_batch(&batch);
        let ghost db = *self;
        self.writer.finish(new_version, applied.is_ok());
        match applied {
            Ok(()) => {},
            Err(e) => {
                proof {
                    let (i, states, dx) = choose|i: int, states: Seq<Database>, dx: Database|
                        #![trigger chain(states, batch@.take(i)), write_outcome(states.last(), dx, batch@[i], applied)]
                        0 <= i < batch@.len() && chain(states, batch@.take(i)) && states[0] == dm && write_outcome(
                            states.last(),
                            dx,
                            batch@[i],
                            applied,
                        );
                    assert(batch@ == d0.pending());
                    assert(applied == Err::<(), EcsDbError>(e));
                    let r = Err::<u64, EcsDbError>(e);
                    assert(Err::<(), EcsDbError>(r->Err_0) == applied);
                    assert(chain(states, d0.pending().take(i)) && write_outcome(states.last(), dx, d0.pending()[i], Err::<(), EcsDbError>(r->Err_0)));
                }
                return Err(e);
            },
        }
        self.commit_tables(new_version);
        self.version = new_version;
        let delta = tracker.take_delta();
        if !delta.is_empty() {
            self.outgoing.push(delta);
            proof {
                assert(self.outgoing@.drop_last() =~= d0.outbox());
            }
        }
        Ok(new_version)
    }

    /// The committed record bytes of an entity in a table.
    pub fn get(&self, table_id: u16, entity_id: u64) -> (res: Result<Vec<u8>>)
        requires
            self.wf(),
        ensures
            table_pos(self.tables_view(), table_id) is None ==> (res matches Err(EcsDbError::ComponentNotFound { entity_id: id, .. }) && id == entity_id),
            table_pos(self.tables_view(), table_id) matches Some(k) ==> {
                let t = self.tables_view()[k].store();
                &&& !t.index().contains_key(entity_id) ==> (res matches Err(EcsDbError::ComponentNotFound { entity_id: id, .. }) && id == entity_id)
                &&& t.index().contains_key(entity_id) && committed(t, entity_id) is None ==> (res matches Err(EcsDbError::SchemaError(_)))
                &&& committed(t, entity_id) matches Some(v) ==> (res matches Ok(r) && r@ == v)
            },
    {
        match self.find_table(table_id) {
            Some(k) => self.tables[k].table.get(entity_id),
            None => {
                let m = join_num(owned("table_id="), table_id as u64);
                Err(EcsDbError::ComponentNotFound { entity_id, component_type: m })
            },
        }
    }

    /// A page of the entities of a table with their committed records: the
    /// entities from position `offset` (at most `limit` of them) in the
    /// table's own order.
    pub fn get_entities_for_table(&self, table_id: u16, limit: usize, offset: usize) -> (res: Result<Vec<(u64, Vec<u8>)>>)
        requires
            self.wf(),
            offset + limit <= usize::MAX,
        ensures
            table_pos(self.tables_view(), table_id) is None ==> (res matches Err(EcsDbError::SchemaError(_))),
            table_pos(self.tables_view(), table_id) matches Some(k) ==> {
                let t = self.tables_view()[k].store();
                let total = t.index().len();
                let start = if offset < total { offset as int } else { total as int };
                let end = if offset + limit < total { offset + limit } else { total as int };
                &&& res matches Ok(r) ==> {
                    &&& r@.len() == end - start
                    &&& forall|i: int| 0 <= i < r@.len() ==> #[trigger] committed(t, r@[i].0) == Some(r@[i].1@)
                    &&& forall|i: int, j: int| 0 <= i < j < r@.len() ==> r@[i].0 != r@[j].0
                }
                &&& res matches Err(e) ==> (e is SchemaError && has_unreadable(t))
                &&& !has_unreadable(t) ==> res is Ok
            },
    {
        let k = match self.find_table(table_id) {
            Some(k) => k,
            None => {
                let m = join(join_num(owned("Table "), table_id as u64), " not found");
                return Err(EcsDbError::SchemaError(m));
            },
        };
        let table = &self.tables[k].table;
        let mapping = table.entity_mapping();
        let total = mapping.len();
        let start = if offset < total { offset } else { total };
        let end = if offset + limit < total { offset + limit } else { total };
        let mut results: Vec<(u64, Vec<u8>)> = Vec::new();
        let mut i = start;
        while i < end
            invariant
                start <= i <= end <= total,
                total == mapping@.len(),
                table.wf(),
                k < self.tables_view().len(),
                table_pos(self.tables_view(), table_id) == Some(k as int),
                *table == self.tables_view()[k as int].store(),
                mapping@.len() == table.index().len(),
                forall|a: int| 0 <= a < mapping@.len() ==> #[trigger] table.index().contains_key(mapping@[a].0) && table.index()[mapping@[a].0] == mapping@[a].1,
                forall|a: int, b: int| 0 <= a < b < mapping@.len() ==> mapping@[a].0 != mapping@[b].0,
                results@.len() == i - start,
                forall|a: int| 0 <= a < results@.len() ==> #[trigger] results@[a].0 == mapping@[start + a].0 && committed(*table, results@[a].0) == Some(results@[a].1@),
            decreases end - i,
        {
            let (entity_id, _) = mapping[i];
            assert(table.index().contains_key(mapping@[i as int].0));
            let data = match table.get(entity_id) {
                Ok(d) => d,
                Err(e) => {
                    assert(self.tables_view()[k as int].store().index().contains_key(entity_id));
                    assert(committed(self.tables_view()[k as int].store(), entity_id) is None);
                    assert(has_unreadable(self.tables_view()[k as int].store()));
                    return Err(e);
                },
            };
            results.push((entity_id, data));
            i += 1;
        }
        proof {
            assert forall|a: int, b: int| 0 <= a < b < results@.len() implies results@[a].0 != results@[b].0 by {
                assert(results@[a].0 == mapping@[start + a].0);
                assert(results@[b].0 == mapping@[start + b].0);
            }
        }
        Ok(results)
    }

    /// Applies one write at once, as the writer does for a single request:
    /// logs it as a transaction of its own, applies it, and logs its commit
    /// or rollback.
    pub fn apply_single(&mut self, op: &WriteOpWithoutResponse) -> (res: Result<()>)
        requires
            old(self).wf(),
            old(self).op_fits(*op),
            old(self).log_next_id() < u64::MAX,
        ensures
            final(self).wf(),
            exists|dm: Database, dx: Database| #[trigger] write_outcome(dm, dx, *op, res) && dm.tables_view() == old(self).tables_view()
                && dm.archetypes() == old(self).archetypes() && dm.entities() == old(self).entities()
                && final(self).tables_view() == dx.tables_view() && final(self).archetypes() == dx.archetypes(),
            final(self).entities() == old(self).entities(),
            final(self).pending() == old(self).pending(),
            final(self).current_version() == old(self).current_version(),
            final(self).outbox() == old(self).outbox(),
    {
        let id = self.writer.begin_single(op);
        let ghost dm = *self;
        proof {
            if exists|q: int| 0 <= q < self.tables_view().len() && #[trigger] self.tables_view()[q].id() == op_table(*op) {
                let q = choose|q: int| 0 <= q < self.tables_view().len() && #[trigger] self.tables_view()[q].id() == op_table(*op);
                assert(old(self).tables_view()[q].id() == op_table(*op));
            }
        }
        let applied = self.apply_write_op(op);
        let ghost d1 = *self;
        self.writer.finish(id, applied.is_ok());
        proof {
            assert(write_outcome(dm, d1, *op, applied));
        }
        applied
    }

    /// Deletes an entity's component from the table named `table_name` at
    /// once, as a single write; a name that no table has is a schema error
    /// and changes nothing.
    pub fn delete_by_table(&mut self, table_name: &str, entity_id: u64) -> (res: Result<()>)
        requires
            old(self).wf(),
            old(self).log_next_id() < u64::MAX,
            forall|i: int| 0 <= i < old(self).tables_view().len() && (#[trigger] old(self).tables_view()[i]).name() == table_name@
                ==> old(self).tables_view()[i].id() < 64,
        ensures
            final(self).wf(),
            (forall|i: int| 0 <= i < old(self).tables_view().len() ==> (#[trigger] old(self).tables_view()[i]).name() != table_name@)
                ==> (res matches Err(EcsDbError::SchemaError(_)) && *final(self) == *old(self)),
            (exists|i: int| 0 <= i < old(self).tables_view().len() && (#[trigger] old(self).tables_view()[i]).name() == table_name@)
                ==> exists|k: int, dm: Database, dx: Database|
                    0 <= k < old(self).tables_view().len() && old(self).tables_view()[k].name() == table_name@
                    && #[trigger] write_outcome(dm, dx, WriteOpWithoutResponse::Delete { table_id: old(self).tables_view()[k].id(), entity_id }, res)
                    && dm.tables_view() == old(self).tables_view() && dm.archetypes() == old(self).archetypes()
                    && dm.entities() == old(self).entities()
                    && final(self).tables_view() == dx.tables_view() && final(self).archetypes() == dx.archetypes(),
            final(self).entities() == old(self).entities(),
            final(self).pending() == old(self).pending(),
            final(self).current_version() == old(self).current_version(),
            final(self).outbox() == old(self).outbox(),
    {
        match self.get_table_id_by_name(table_name) {
            None => {
                let m = join(join(owned("Table '"), table_name), "' not found");
                Err(EcsDbError::SchemaError(m))
            },
            Some(table_id) => {
                let ghost k = choose|i: int| 0 <= i < self.tables_view().len() && (#[trigger] self.tables_view()[i]).name() == table_name@ && self.tables_view()[i].id() == table_id;
                let op = WriteOpWithoutResponse::Delete { table_id, entity_id };
                proof {
                    assert(self.tables_view()[k].id() < 64);
                }
                self.apply_single(&op)
            },
        }
    }

    /// Sets the version, as recovery does after replaying the log.
    pub fn set_version(&mut self, new_version: u64)
        ensures
            final(self).current_version() == new_version,
            final(self).tables_view() == old(self).tables_view(),
            final(self).entities() == old(self).entities(),
            final(self).archetypes() == old(self).archetypes(),
            final(self).pending() == old(self).pending(),
            final(self).schema_view() == old(self).schema_view(),
            final(self).outbox() == old(self).outbox(),
            final(self).log() == old(self).log(),
            old(self).wf() ==> final(self).wf(),
    {
        self.version = new_version;
    }

    /// A snapshot of the committed state: schema, registries, every table's
    /// committed records with its entities and free slots, and the version.
    pub fn create_snapshot(&self) -> (res: Result<DatabaseSnapshot>)
        requires
            self.wf(),
            forall|q: int| 0 <= q < self.tables_view().len() ==> (#[trigger] self.tables_view()[q]).store().rs() > 0,
        ensures
            res matches Ok(s) && snapshot_of(*self, s),
    {
        let mut tables: Vec<TableSnapshot> = Vec::new();
        let mut j: usize = 0;
        while j < self.tables.len()
            invariant
                self.wf(),
                forall|q: int| 0 <= q < self.tables_view().len() ==> (#[trigger] self.tables_view()[q]).store().rs() > 0,
                j <= self.tables@.len(),
                tables@.len() == j,
                forall|q: int| 0 <= q < j ==> table_snapshot_of(self.tables_view()[q], #[trigger] tables@[q]),
            decreases self.tables@.len() - j,
        {
            let entry = &self.tables[j];
            assert(entry.table.rs() > 0) by {
                assert(self.tables_view()[j as int].store().rs() > 0);
            }
            tables.push(snapshot_table(entry));
            j += 1;
        }
        Ok(DatabaseSnapshot {
            schema: self.schema.duplicate(),
            entity_registry: self.entity_registry.duplicate(),
            archetype_registry: self.archetype_registry.duplicate(),
            tables,
            version: self.version,
        })
    }

    /// A database from a snapshot: a new database for the snapshot's schema
    /// with a table for each table snapshot, loaded from it, and the
    /// snapshot's registries and version. A table snapshot whose table the
    /// schema lacks, or that repeats an identifier, is a snapshot error, as
    /// are bytes or slots that do not fit its records.
    pub fn from_snapshot(snapshot: DatabaseSnapshot) -> (res: Result<Database>)
        requires
            layouts_computable(snapshot.schema),
        ensures
            res is Ok <==> forall|q: int| 0 <= q < snapshot.tables@.len() ==> #[trigger] table_loadable(snapshot.schema, snapshot.tables@, q),
            res matches Ok(db) ==> restored_from(snapshot, db),
            res matches Err(e) ==> (e is SnapshotError || e is SchemaError),
    {
        let ghost s0 = snapshot;
        let DatabaseSnapshot { schema, entity_registry, archetype_registry, tables, version } = snapshot;
        let mut db = match Database::from_schema(schema) {
            Ok(d) => d,
            Err(e) => return Err(e),
        };
        let nt = tables.len();
        let mut i: usize = 0;
        while i < nt
            invariant
                nt == tables@.len(),
                tables == s0.tables,
                s0 == snapshot,
                i <= nt,
                db.wf(),
                db.schema_view() == s0.schema,
                db.pending().len() == 0,
                layouts_computable(s0.schema),
                db.tables_view().len() == i,
                forall|q: int| 0 <= q < i ==> table_loadable(s0.schema, s0.tables@, q),
                forall|q: int| 0 <= q < i ==> table_loaded(s0.tables@[q], #[trigger] db.tables_view()[q]),
            decreases nt - i,
        {
            let t = &tables[i];
            proof {
                assert forall|p: int| 0 <= p < i implies db.tables_view()[p].id() == s0.tables@[p].table_id by {
                    assert(table_loaded(s0.tables@[p], db.tables_view()[p]));
                }
            }
            match db.find_table(t.table_id) {
                Some(p) => {
                    proof {
                        assert(table_loaded(s0.tables@[p as int], db.tables_view()[p as int]));
                        assert(!table_loadable(s0.schema, s0.tables@, i as int));
                    }
                    let m = join(join(owned("Table "), t.table_name.as_str()), " appears twice in snapshot");
                    return Err(EcsDbError::SnapshotError(m));
                },
                None => {},
            }
            proof {
                assert forall|p: int| 0 <= p < i implies s0.tables@[p].table_id != t.table_id by {
                    if s0.tables@[p].table_id == t.table_id {
                        assert(db.tables_view()[p].id() == t.table_id);
                    }
                }
            }
            let entry = match load_entry(&db.schema, t) {
                Ok(e) => e,
                Err(e) => {
                    assert(!table_loadable(s0.schema, s0.tables@, i as int));
                    return Err(e);
                },
            };
            let ghost tv = db.tables_view();
            db.tables.push(entry);
            proof {
                assert(db.tables_view().drop_last() =~= tv);
                assert forall|a: int, b: int| 0 <= a < b < db.tables@.len() implies (#[trigger] db.tables@[a]).table_id != (
                    #[trigger] db.tables@[b]).table_id by {
                    if b == i {
                        assert(s0.tables@[a].table_id != t.table_id);
                        assert(table_loaded(s0.tables@[a], db.tables_view()[a]));
                    }
                }
                assert(table_loaded(s0.tables@[i as int], db.tables_view()[i as int]));
                assert(table_loadable(s0.schema, s0.tables@, i as int));
            }
            i += 1;
        }
        db.entity_registry = entity_registry;
        db.archetype_registry = archetype_registry;
        db.version = version;
        Ok(db)
    }

    /// Each table's id, free slots, slots handed out so far (their ratio is
    /// the table's fragmentation) and record size.
    pub fn table_stats(&self) -> (r: Vec<(u16, usize, u64, usize)>)
        ensures
            r@.len() == self.tables_view().len(),
            forall|q: int| 0 <= q < r@.len() ==> {
                let t = (#[trigger] self.tables_view()[q]);
                &&& r@[q].0 == t.id()
                &&& r@[q].1 == t.store().buffer().free_view().len()
                &&& r@[q].2 == t.store().buffer().slots()
                &&& r@[q].3 == t.store().rs()
            },
    {
        let mut r: Vec<(u16, usize, u64, usize)> = Vec::new();
        let mut j: usize = 0;
        while j < self.tables.len()
            invariant
                j <= self.tables@.len(),
                r@.len() == j,
                forall|q: int| 0 <= q < j ==> {
                    let t = (#[trigger] self.tables_view()[q]);
                    &&& r@[q].0 == t.id()
                    &&& r@[q].1 == t.store().buffer().free_view().len()
                    &&& r@[q].2 == t.store().buffer().slots()
                    &&& r@[q].3 == t.store().rs()
                },
            decreases self.tables@.len() - j,
        {
            let (free, slots) = self.tables[j].table.fragmentation_counts();
            let rs = self.tables[j].table.record_size();
            r.push((self.tables[j].table_id, free, slots, rs));
            j += 1;
        }
        r
    }

    /// Compacts the table with id `table_id`; false when there is none.
    pub fn compact_table(&mut self, table_id: u16) -> (found: bool)
        requires
            old(self).wf(),
        ensures
            final(self).wf(),
            found == table_pos(old(self).tables_view(), table_id) is Some,
            final(self).tables_view().len() == old(self).tables_view().len(),
            match table_pos(old(self).tables_view(), table_id) {
                Some(k) => {
                    let t0 = old(self).tables_view()[k].store();
                    let t1 = final(self).tables_view()[k].store();
                    &&& crate::storage::buffer::compact_buffer_post(&t0.buffer(), &t1.buffer())
                    &&& t1.index().dom() == t0.index().dom()
                    &&& forall|e: u64| #[trigger] t0.index().contains_key(e) ==> t1.index()[e] == crate::storage::buffer::relocated(&t0.buffer(), t0.index()[e])
                    &&& final(self).tables_view()[k].id() == old(self).tables_view()[k].id()
                    &&& final(self).tables_view()[k].name() == old(self).tables_view()[k].name()
                    &&& final(self).tables_view()[k].fields() == old(self).tables_view()[k].fields()
                    &&& final(self).tables_view()[k].offsets() == old(self).tables_view()[k].offsets()
                    &&& forall|q: int| 0 <= q < old(self).tables_view().len() && q != k ==> #[trigger] final(self).tables_view()[q] == old(self).tables_view()[q]
                },
                None => final(self).tables_view() == old(self).tables_view(),
            },
            final(self).schema_view() == old(self).schema_view(),
            final(self).entities() == old(self).entities(),
            final(self).archetypes() == old(self).archetypes(),
            final(self).pending() == old(self).pending(),
            final(self).current_version() == old(self).current_version(),
            final(self).outbox() == old(self).outbox(),
            final(self).log() == old(self).log(),
    {
        match self.find_table(table_id) {
            None => false,
            Some(j) => {
                let ghost tables0 = self.tables@;
                let mut entry = self.tables.remove(j);
                entry.table.compact();
                self.tables.insert(j, entry);
                proof {
                    assert forall|q: int| 0 <= q < tables0.len() && q != j implies self.tables@[q] == tables0[q] by {}
                    assert forall|a: int, b: int| 0 <= a < b < self.tables@.len() implies (#[trigger] self.tables@[a]).table_id != (
                        #[trigger] self.tables@[b]).table_id by {
                        assert(tables0[a].table_id != tables0[b].table_id);
                    }
                }
                true
            },
        }
    }

    /// Hands out the deltas of past commits, for broadcast.
    pub fn take_outgoing_deltas(&mut self) -> (d: Vec<Delta>)
        ensures
            d@ == old(self).outbox(),
            final(self).outbox().len() == 0,
            final(self).tables_view() == old(self).tables_view(),
            final(self).entities() == old(self).entities(),
            final(self).archetypes() == old(self).archetypes(),
            final(self).pending() == old(self).pending(),
            final(self).current_version() == old(self).current_version(),
            final(self).schema_view() == old(self).schema_view(),
            old(self).wf() ==> final(self).wf(),
    {
        let mut d: Vec<Delta> = Vec::new();
        std::mem::swap(&mut d, &mut self.outgoing);
        d
    }
}

} // verus!
