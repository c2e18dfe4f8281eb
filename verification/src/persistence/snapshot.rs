//! Snapshots of the database state and the frame of snapshot files: a
//! 28-byte header (magic "ECSSNAP\0", format version, flags, CRC-32 of the
//! data, 8 reserved bytes; integers little-endian) followed by the data,
//! zstd-compressed when flag bit 0 is set.
use crate::checksum::{crc32, crc32_of};
use crate::codec::{le_bytes, le_value, push_bytes, push_u32, read_le};
use crate::db::{layouts_computable, restored_from, snapshot_of, table_loadable, Database};
use crate::compression::{zstd_compressed, zstd_decode, zstd_decompressed, zstd_encode};
use crate::entity::archetype::ArchetypeRegistry;
use crate::entity::registry::EntityRegistry;
use crate::error::{EcsDbError, Result};
use crate::schema::types::DatabaseSchema;
use crate::text::{join_num, owned};
use vstd::prelude::*;

verus! {

/// The state of one component table.
pub struct TableSnapshot {
    pub table_id: u16,
    pub table_name: String,
    /// Bytes per record.
    pub record_size: usize,
    /// The committed records.
    pub buffer_data: Vec<u8>,
    /// Each entity with the byte offset of its record.
    pub entity_mapping: Vec<(u64, usize)>,
    /// Offsets of the slots that hold no record, in increasing order.
    pub free_slots: Vec<usize>,
    pub active_count: usize,
}

/// The state of the whole database.
pub struct DatabaseSnapshot {
    pub schema: DatabaseSchema,
    pub entity_registry: EntityRegistry,
    pub archetype_registry: ArchetypeRegistry,
    pub tables: Vec<TableSnapshot>,
    pub version: u64,
}

/// The eight bytes that open a snapshot file.
pub open spec fn snapshot_magic() -> Seq<u8> {
    seq![0x45u8, 0x43u8, 0x53u8, 0x53u8, 0x4eu8, 0x41u8, 0x50u8, 0x00u8]
}

/// The header of a snapshot file.
pub open spec fn snapshot_header(flags: u32, checksum: u32) -> Seq<u8> {
    snapshot_magic() + le_bytes(1, 4) + le_bytes(flags as nat, 4) + le_bytes(checksum as nat, 4) + le_bytes(0, 8)
}

/// A snapshot file holding `data` (the stored, possibly compressed form).
pub open spec fn snapshot_file(flags: u32, data: Seq<u8>) -> Seq<u8> {
    snapshot_header(flags, crc32_of(data)) + data
}

/// The snapshot file of `payload`: compressed at level 3 with flag bit 0
/// when `compress` is set, stored as it is otherwise.
pub fn frame_snapshot(payload: Vec<u8>, compress: bool) -> (res: Result<Vec<u8>>)
    ensures
        !compress ==> (res matches Ok(v) && v@ == snapshot_file(0, payload@)),
        compress ==> (res matches Ok(v) ==> v@ == snapshot_file(1, zstd_compressed(payload@, 3))
            && zstd_decompressed(zstd_compressed(payload@, 3)) == payload@),
        res matches Err(e) ==> compress && e is CompressionError,
{
    let (flags, data): (u32, Vec<u8>) = if compress {
        match zstd_encode(payload.as_slice(), 3) {
            Ok(c) => (1, c),
            Err(m) => return Err(EcsDbError::CompressionError(m)),
        }
    } else {
        (0, payload)
    };
    let checksum = crc32(data.as_slice());
    let mut out: Vec<u8> = Vec::new();
    push_bytes(&mut out, &[0x45u8, 0x43u8, 0x53u8, 0x53u8, 0x4eu8, 0x41u8, 0x50u8, 0x00u8]);
    push_u32(&mut out, 1);
    push_u32(&mut out, flags);
    push_u32(&mut out, checksum);
    crate::codec::push_le(&mut out, 0, 8);
    push_bytes(&mut out, data.as_slice());
    assert(out@ =~= snapshot_file(flags, data@));
    Ok(out)
}

/// Whether `b` opens with the snapshot magic.
pub open spec fn magic_ok(b: Seq<u8>) -> bool {
    b.len() >= 8 && b.subrange(0, 8) == snapshot_magic()
}

/// Reads the data of a snapshot file: checks the header (magic, format
/// version 1) and the checksum of the data, and decompresses when flag bit 0
/// is set.
pub fn unframe_snapshot(file: &[u8]) -> (res: Result<Vec<u8>>)
    ensures
        file@.len() < 28 ==> (res matches Err(EcsDbError::IoError(_))),
        file@.len() >= 28 && !magic_ok(file@) ==> (res matches Err(EcsDbError::SnapshotError(_))),
        file@.len() >= 28 && magic_ok(file@) && le_value(file@.subrange(8, 12)) != 1 ==> (res matches Err(
            EcsDbError::SnapshotError(_),
        )),
        file@.len() >= 28 && magic_ok(file@) && le_value(file@.subrange(8, 12)) == 1 ==> {
            let flags = le_value(file@.subrange(12, 16));
            let checksum = le_value(file@.subrange(16, 20));
            let data = file@.subrange(28, file@.len() as int);
            &&& crc32_of(data) != checksum ==> (res matches Err(EcsDbError::SnapshotError(_)))
            &&& crc32_of(data) == checksum && flags % 2 == 0 ==> (res matches Ok(v) && v@ == data)
            &&& crc32_of(data) == checksum && flags % 2 == 1 ==> match res {
                Ok(v) => v@ == zstd_decompressed(data),
                Err(e) => e is CompressionError,
            }
        },
{
    if file.len() < 28 {
        return Err(EcsDbError::IoError(owned("failed to fill whole buffer")));
    }
    let mut k: usize = 0;
    let magic: [u8; 8] = [0x45u8, 0x43u8, 0x53u8, 0x53u8, 0x4eu8, 0x41u8, 0x50u8, 0x00u8];
    while k < 8
        invariant
            k <= 8,
            file@.len() >= 28,
            magic@ == snapshot_magic(),
            forall|q: int| 0 <= q < k ==> file@[q] == snapshot_magic()[q],
        decreases 8 - k,
    {
        if file[k] != magic[k] {
            assert(!magic_ok(file@)) by {
                if file@.subrange(0, 8) == snapshot_magic() {
                    assert(file@[k as int] == file@.subrange(0, 8)[k as int]);
                }
            }
            return Err(EcsDbError::SnapshotError(owned("Invalid snapshot magic")));
        }
        k += 1;
    }
    assert(file@.subrange(0, 8) =~= snapshot_magic());
    let version = read_le(file, 8, 4);
    if version != 1 {
        let m = join_num(owned("Unsupported snapshot version "), version);
        return Err(EcsDbError::SnapshotError(m));
    }
    let flags = read_le(file, 12, 4);
    let checksum = read_le(file, 16, 4);
    let mut data: Vec<u8> = Vec::new();
    let mut i: usize = 28;
    while i < file.len()
        invariant
            28 <= i <= file@.len(),
            data@ == file@.subrange(28, i as int),
        decreases file@.len() - i,
    {
        data.push(file[i]);
        i += 1;
        assert(data@ =~= file@.subrange(28, i as int));
    }
    let computed = crc32(data.as_slice());
    if computed as u64 != checksum {
        return Err(EcsDbError::SnapshotError(owned("Checksum mismatch")));
    }
    if flags % 2 == 1 {
        match zstd_decode(data.as_slice()) {
            Ok(d) => Ok(d),
            Err(m) => Err(EcsDbError::CompressionError(m)),
        }
    } else {
        Ok(data)
    }
}

impl DatabaseSnapshot {
    /// The snapshot of the committed state of `db`.
    pub fn from_database(db: &Database) -> (res: Result<Self>)
        requires
            db.wf(),
            forall|q: int| 0 <= q < db.tables_view().len() ==> (#[trigger] db.tables_view()[q]).store().rs() > 0,
        ensures
            res matches Ok(s) && snapshot_of(*db, s),
    {
        db.create_snapshot()
    }

    /// A new database holding what this snapshot recorded.
    pub fn restore(self) -> (res: Result<Database>)
        requires
            layouts_computable(self.schema),
        ensures
            res is Ok <==> forall|q: int| 0 <= q < self.tables@.len() ==> #[trigger] table_loadable(self.schema, self.tables@, q),
            res matches Ok(db) ==> restored_from(self, db),
            res matches Err(e) ==> (e is SnapshotError || e is SchemaError),
    {
        Database::from_snapshot(self)
    }
}

/// An uncompressed snapshot file reads back as the payload it was made of.
pub proof fn law_snapshot_frame_roundtrip(payload: Seq<u8>)
    ensures
        ({
            let f = snapshot_file(0, payload);
            &&& f.len() >= 28
            &&& magic_ok(f)
            &&& le_value(f.subrange(8, 12)) == 1
            &&& le_value(f.subrange(12, 16)) == 0
            &&& le_value(f.subrange(16, 20)) == crc32_of(f.subrange(28, f.len() as int))
            &&& f.subrange(28, f.len() as int) == payload
        }),
{
    let f = snapshot_file(0, payload);
    crate::codec::lemma_pow256_small();
    crate::codec::lemma_le_bytes_len(1, 4);
    crate::codec::lemma_le_bytes_len(0, 4);
    crate::codec::lemma_le_bytes_len(crc32_of(payload) as nat, 4);
    crate::codec::lemma_le_bytes_len(0, 8);
    assert(f.subrange(0, 8) =~= snapshot_magic());
    assert(f.subrange(8, 12) =~= le_bytes(1, 4));
    assert(f.subrange(12, 16) =~= le_bytes(0, 4));
    assert(f.subrange(16, 20) =~= le_bytes(crc32_of(payload) as nat, 4));
    assert(f.subrange(28, f.len() as int) =~= payload);
    crate::codec::lemma_le_roundtrip_small(1, 4);
    crate::codec::lemma_le_roundtrip_small(0, 4);
    crate::codec::lemma_le_roundtrip_small(crc32_of(payload) as nat, 4);
}

/// A compressed snapshot file reads back as the payload it was made of,
/// given that decompressing the compressed payload gives it back (as
/// `frame_snapshot` states of what it writes): its header is valid, its
/// flag asks for decompression, its checksum matches, and decompressing its
/// data gives the payload.
pub proof fn law_compressed_snapshot_frame_roundtrip(payload: Seq<u8>)
    requires
        zstd_decompressed(zstd_compressed(payload, 3)) == payload,
    ensures
        ({
            let f = snapshot_file(1, zstd_compressed(payload, 3));
            &&& f.len() >= 28
            &&& magic_ok(f)
            &&& le_value(f.subrange(8, 12)) == 1
            &&& le_value(f.subrange(12, 16)) % 2 == 1
            &&& le_value(f.subrange(16, 20)) == crc32_of(f.subrange(28, f.len() as int))
            &&& zstd_decompressed(f.subrange(28, f.len() as int)) == payload
        }),
{
    let c = zstd_compressed(payload, 3);
    let f = snapshot_file(1, c);
    crate::codec::lemma_pow256_small();
    crate::codec::lemma_le_bytes_len(1, 4);
    crate::codec::lemma_le_bytes_len(crc32_of(c) as nat, 4);
    crate::codec::lemma_le_bytes_len(0, 8);
    assert(f.subrange(0, 8) =~= snapshot_magic());
    assert(f.subrange(8, 12) =~= le_bytes(1, 4));
    assert(f.subrange(12, 16) =~= le_bytes(1, 4));
    assert(f.subrange(16, 20) =~= le_bytes(crc32_of(c) as nat, 4));
    assert(f.subrange(28, f.len() as int) =~= c);
    crate::codec::lemma_le_roundtrip_small(1, 4);
    crate::codec::lemma_le_roundtrip_small(crc32_of(c) as nat, 4);
}

} // verus!
