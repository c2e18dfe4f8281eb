//! The write-ahead log on disk. A log file opens with a 32-byte header
//! (magic "ECSWAL\0\0", format version, flags, 16 reserved bytes; integers
//! little-endian) followed by records, each an entry's length as four
//! little-endian bytes and then the entry. Files are named `wal_NNNN.wal`
//! after their number.
use crate::codec::{
    le_bytes, le_value, lemma_le_bytes_len, lemma_le_value_bound, lemma_pow256_small, push_bytes, push_u32,
    read_le,
};
use crate::error::{EcsDbError, Result};
use crate::storage::delta_codec::{
    holds_at, lemma_framed_at, lemma_holds_split, lemma_le_value_inverse, lemma_read_back, take_framed,
    take_le,
};
use crate::text::{join_num, owned};
use crate::transaction::wal::{checked_bytes, entry_valid, lemma_txn_entries_len, op_bytes, push_op, txn_entries, WalEntry, WalOp};
use vstd::prelude::*;

verus! {

/// The log format version that this library writes and reads.
pub const WAL_VERSION: u32 = 1;

/// The size at which a log file is closed and the next one begun (64 MiB).
pub const DEFAULT_MAX_FILE_SIZE: u64 = 67108864;

/// Bytes in a log file header.
pub const HEADER_SIZE: usize = 32;

/// The variant index of an operation.
pub open spec fn wal_op_tag(op: WalOp) -> nat {
    match op {
        WalOp::Insert { .. } => 0,
        WalOp::Update { .. } => 1,
        WalOp::Delete { .. } => 2,
        WalOp::Commit { .. } => 3,
        WalOp::Rollback { .. } => 4,
    }
}

/// What the bytes at `pos` say of an operation whose encoding they hold.
pub open spec fn wal_fields_at(b: Seq<u8>, pos: int, op: WalOp) -> bool {
    &&& pos + 4 <= b.len()
    &&& le_value(b.subrange(pos, pos + 4)) == wal_op_tag(op)
    &&& match op {
        WalOp::Commit { transaction_id } | WalOp::Rollback { transaction_id } => {
            &&& pos + 12 <= b.len()
            &&& le_value(b.subrange(pos + 4, pos + 12)) == transaction_id
        },
        WalOp::Delete { table_id, entity_id } => {
            &&& pos + 14 <= b.len()
            &&& le_value(b.subrange(pos + 4, pos + 6)) == table_id
            &&& le_value(b.subrange(pos + 6, pos + 14)) == entity_id
        },
        WalOp::Insert { table_id, entity_id, data } | WalOp::Update { table_id, entity_id, data } => {
            &&& pos + 22 + data@.len() <= b.len()
            &&& le_value(b.subrange(pos + 4, pos + 6)) == table_id
            &&& le_value(b.subrange(pos + 6, pos + 14)) == entity_id
            &&& le_value(b.subrange(pos + 14, pos + 22)) == data@.len()
            &&& b.subrange(pos + 22, pos + 22 + data@.len()) == data@
        },
    }
}

/// The fields of an operation can be read back from its encoding.
pub proof fn lemma_wal_op_fields(b: Seq<u8>, pos: int, op: WalOp)
    requires
        b.len() < 0x1_0000_0000_0000_0000,
        holds_at(b, pos, op_bytes(op)),
    ensures
        wal_fields_at(b, pos, op),
{
    lemma_pow256_small();
    lemma_le_bytes_len(wal_op_tag(op), 4);
    let t = le_bytes(wal_op_tag(op), 4);
    match op {
        WalOp::Commit { transaction_id } | WalOp::Rollback { transaction_id } => {
            lemma_holds_split(b, pos, t, le_bytes(transaction_id as nat, 8));
            lemma_read_back(b, pos, wal_op_tag(op), 4);
            lemma_le_bytes_len(transaction_id as nat, 8);
            lemma_read_back(b, pos + 4, transaction_id as nat, 8);
        },
        WalOp::Delete { table_id, entity_id } => {
            let x = le_bytes(table_id as nat, 2);
            let y = le_bytes(entity_id as nat, 8);
            lemma_le_bytes_len(table_id as nat, 2);
            lemma_le_bytes_len(entity_id as nat, 8);
            assert(op_bytes(op) == t + (x + y));
            lemma_holds_split(b, pos, t, x + y);
            lemma_holds_split(b, pos + 4, x, y);
            lemma_read_back(b, pos, wal_op_tag(op), 4);
            lemma_read_back(b, pos + 4, table_id as nat, 2);
            lemma_read_back(b, pos + 6, entity_id as nat, 8);
        },
        WalOp::Insert { table_id, entity_id, data } | WalOp::Update { table_id, entity_id, data } => {
            let x = le_bytes(table_id as nat, 2);
            let y = le_bytes(entity_id as nat, 8);
            let f = le_bytes(data@.len(), 8) + data@;
            lemma_le_bytes_len(table_id as nat, 2);
            lemma_le_bytes_len(entity_id as nat, 8);
            assert(op_bytes(op) == t + (x + (y + f)));
            lemma_holds_split(b, pos, t, x + (y + f));
            lemma_holds_split(b, pos + 4, x, y + f);
            lemma_holds_split(b, pos + 6, y, f);
            lemma_read_back(b, pos, wal_op_tag(op), 4);
            lemma_read_back(b, pos + 4, table_id as nat, 2);
            lemma_read_back(b, pos + 6, entity_id as nat, 8);
            lemma_framed_at(b, pos + 14, data@);
        },
    }
}

proof fn lemma_no_wal_op_here(b: Seq<u8>, pos: int)
    requires
        b.len() < 0x1_0000_0000_0000_0000,
    ensures
        forall|o: WalOp| #[trigger] holds_at(b, pos, op_bytes(o)) ==> wal_fields_at(b, pos, o),
{
    assert forall|o: WalOp| #[trigger] holds_at(b, pos, op_bytes(o)) implies wal_fields_at(b, pos, o) by {
        lemma_wal_op_fields(b, pos, o);
    }
}

/// Two operations encoded at one place have the same encoding.
proof fn lemma_wal_op_unique(b: Seq<u8>, pos: int, o1: WalOp)
    requires
        b.len() < 0x1_0000_0000_0000_0000,
        holds_at(b, pos, op_bytes(o1)),
    ensures
        forall|o: WalOp| #[trigger] holds_at(b, pos, op_bytes(o)) ==> op_bytes(o) == op_bytes(o1),
{
    lemma_wal_op_fields(b, pos, o1);
    assert forall|o: WalOp| #[trigger] holds_at(b, pos, op_bytes(o)) implies op_bytes(o) == op_bytes(o1) by {
        lemma_wal_op_fields(b, pos, o);
        match o {
            WalOp::Insert { data, .. } | WalOp::Update { data, .. } => {
                match o1 {
                    WalOp::Insert { data: d1, .. } | WalOp::Update { data: d1, .. } => {
                        assert(data@ == d1@);
                    },
                    _ => {},
                }
            },
            _ => {},
        }
    }
}

/// Reads one operation at `pos`.
pub fn parse_wal_op(bytes: &[u8], pos: usize) -> (r: Option<(WalOp, usize)>)
    requires
        pos <= bytes@.len(),
    ensures
        r matches Some((op, p)) ==> p <= bytes@.len() && p == pos + op_bytes(op).len() && holds_at(
            bytes@,
            pos as int,
            op_bytes(op),
        ),
        forall|o: WalOp| #[trigger] holds_at(bytes@, pos as int, op_bytes(o)) ==> (r matches Some((
            op,
            p,
        )) && op_bytes(op) == op_bytes(o)),
{
    let ghost b = bytes@;
    let blen = bytes.len();
    proof {
        assert(b.len() < 0x1_0000_0000_0000_0000);
        lemma_pow256_small();
    }
    let (tag, p1) = match take_le(bytes, pos, 4) {
        Some(x) => x,
        None => {
            proof { lemma_no_wal_op_here(b, pos as int); }
            return None;
        },
    };
    proof {
        lemma_le_value_inverse(b.subrange(pos as int, p1 as int));
    }
    if tag == 3 || tag == 4 {
        let (transaction_id, p2) = match take_le(bytes, p1, 8) {
            Some(x) => x,
            None => {
                proof { lemma_no_wal_op_here(b, pos as int); }
                return None;
            },
        };
        let op = if tag == 3 {
            WalOp::Commit { transaction_id }
        } else {
            WalOp::Rollback { transaction_id }
        };
        proof {
            lemma_le_value_inverse(b.subrange(p1 as int, p2 as int));
            assert(b.subrange(pos as int, p2 as int) =~= b.subrange(pos as int, p1 as int) + b.subrange(p1 as int, p2 as int));
            lemma_le_bytes_len(transaction_id as nat, 8);
            assert(b.subrange(pos as int, p2 as int) =~= op_bytes(op));
            lemma_wal_op_unique(b, pos as int, op);
        }
        return Some((op, p2));
    }
    if tag > 4 {
        proof { lemma_no_wal_op_here(b, pos as int); }
        return None;
    }
    let (table_id, p2) = match take_le(bytes, p1, 2) {
        Some(x) => x,
        None => {
            proof { lemma_no_wal_op_here(b, pos as int); }
            return None;
        },
    };
    let (entity_id, p3) = match take_le(bytes, p2, 8) {
        Some(x) => x,
        None => {
            proof { lemma_no_wal_op_here(b, pos as int); }
            return None;
        },
    };
    proof {
        lemma_le_value_inverse(b.subrange(p1 as int, p2 as int));
        lemma_le_value_inverse(b.subrange(p2 as int, p3 as int));
        lemma_le_bytes_len(table_id as nat, 2);
        lemma_le_bytes_len(entity_id as nat, 8);
        lemma_le_value_bound(b.subrange(p1 as int, p2 as int));
    }
    let table_id = table_id as u16;
    if tag == 2 {
        let op = WalOp::Delete { table_id, entity_id };
        proof {
            assert(b.subrange(pos as int, p3 as int) =~= b.subrange(pos as int, p1 as int) + b.subrange(p1 as int, p2 as int) + b.subrange(p2 as int, p3 as int));
            assert(b.subrange(pos as int, p3 as int) =~= op_bytes(op));
            lemma_wal_op_unique(b, pos as int, op);
        }
        return Some((op, p3));
    }
    let (data, p4) = match take_framed(bytes, p3) {
        Some(x) => x,
        None => {
            proof { lemma_no_wal_op_here(b, pos as int); }
            return None;
        },
    };
    let op = if tag == 0 {
        WalOp::Insert { table_id, entity_id, data }
    } else {
        WalOp::Update { table_id, entity_id, data }
    };
    proof {
        assert(b.subrange(pos as int, p4 as int) =~= b.subrange(pos as int, p1 as int) + b.subrange(p1 as int, p2 as int) + b.subrange(p2 as int, p3 as int) + b.subrange(p3 as int, p4 as int));
        assert(b.subrange(pos as int, p4 as int) =~= op_bytes(op));
        lemma_wal_op_unique(b, pos as int, op);
    }
    Some((op, p4))
}

/// The binary form of a log entry: the bytes its checksum covers, then the
/// checksum.
pub open spec fn entry_bytes(e: WalEntry) -> Seq<u8> {
    checked_bytes(e.timestamp, e.transaction_id, e.sequence, e.operation) + le_bytes(e.checksum as nat, 4)
}

/// Appends the binary form of `e`.
pub fn push_entry(buf: &mut Vec<u8>, e: &WalEntry)
    ensures
        final(buf)@ == old(buf)@ + entry_bytes(*e),
{
    let ghost b0 = buf@;
    crate::codec::push_u64(buf, e.timestamp);
    crate::codec::push_u64(buf, e.transaction_id);
    push_u32(buf, e.sequence);
    push_op(buf, &e.operation);
    push_u32(buf, e.checksum);
    assert(buf@ =~= b0 + entry_bytes(*e));
}

/// Reads one entry at `pos`.
pub fn parse_wal_entry(bytes: &[u8], pos: usize) -> (r: Option<(WalEntry, usize)>)
    requires
        pos <= bytes@.len(),
    ensures
        r matches Some((e, p)) ==> p <= bytes@.len() && p == pos + entry_bytes(e).len() && holds_at(
            bytes@,
            pos as int,
            entry_bytes(e),
        ),
        forall|x: WalEntry| #[trigger] holds_at(bytes@, pos as int, entry_bytes(x)) ==> (r matches Some((
            e,
            p,
        )) && entry_bytes(e) == entry_bytes(x)),
{
    let ghost b = bytes@;
    let blen = bytes.len();
    proof {
        assert(b.len() < 0x1_0000_0000_0000_0000);
        lemma_pow256_small();
    }
    proof {
        assert forall|x: WalEntry| #[trigger] holds_at(b, pos as int, entry_bytes(x)) implies {
            &&& holds_at(b, pos as int, le_bytes(x.timestamp as nat, 8))
            &&& holds_at(b, pos + 8, le_bytes(x.transaction_id as nat, 8))
            &&& holds_at(b, pos + 16, le_bytes(x.sequence as nat, 4))
            &&& holds_at(b, pos + 20, op_bytes(x.operation))
            &&& holds_at(b, pos + 20 + op_bytes(x.operation).len(), le_bytes(x.checksum as nat, 4))
        } by {
            let t = le_bytes(x.timestamp as nat, 8);
            let n = le_bytes(x.transaction_id as nat, 8);
            let q = le_bytes(x.sequence as nat, 4);
            let o = op_bytes(x.operation);
            let c = le_bytes(x.checksum as nat, 4);
            lemma_le_bytes_len(x.timestamp as nat, 8);
            lemma_le_bytes_len(x.transaction_id as nat, 8);
            lemma_le_bytes_len(x.sequence as nat, 4);
            assert(entry_bytes(x) =~= t + (n + (q + (o + c))));
            lemma_holds_split(b, pos as int, t, n + (q + (o + c)));
            lemma_holds_split(b, pos + 8, n, q + (o + c));
            lemma_holds_split(b, pos + 16, q, o + c);
            lemma_holds_split(b, pos + 20, o, c);
        }
    }
    let (timestamp, p1) = match take_le(bytes, pos, 8) {
        Some(x) => x,
        None => {
            proof {
                assert forall|x: WalEntry| !#[trigger] holds_at(b, pos as int, entry_bytes(x)) by {
                    if holds_at(b, pos as int, entry_bytes(x)) {
                        lemma_le_bytes_len(x.timestamp as nat, 8);
                    }
                }
            }
            return None;
        },
    };
    let (transaction_id, p2) = match take_le(bytes, p1, 8) {
        Some(x) => x,
        None => {
            proof {
                assert forall|x: WalEntry| !#[trigger] holds_at(b, pos as int, entry_bytes(x)) by {
                    if holds_at(b, pos as int, entry_bytes(x)) {
                        lemma_le_bytes_len(x.transaction_id as nat, 8);
                    }
                }
            }
            return None;
        },
    };
    let (sequence, p3) = match take_le(bytes, p2, 4) {
        Some(x) => x,
        None => {
            proof {
                assert forall|x: WalEntry| !#[trigger] holds_at(b, pos as int, entry_bytes(x)) by {
                    if holds_at(b, pos as int, entry_bytes(x)) {
                        lemma_le_bytes_len(x.sequence as nat, 4);
                    }
                }
            }
            return None;
        },
    };
    proof {
        lemma_le_value_inverse(b.subrange(pos as int, p1 as int));
        lemma_le_value_inverse(b.subrange(p1 as int, p2 as int));
        lemma_le_value_inverse(b.subrange(p2 as int, p3 as int));
        lemma_le_value_bound(b.subrange(p2 as int, p3 as int));
        assert forall|x: WalEntry| #[trigger] holds_at(b, pos as int, entry_bytes(x)) implies {
            &&& x.timestamp == timestamp
            &&& x.transaction_id == transaction_id
            &&& x.sequence == sequence
        } by {
            lemma_le_bytes_len(x.timestamp as nat, 8);
            lemma_le_bytes_len(x.transaction_id as nat, 8);
            lemma_le_bytes_len(x.sequence as nat, 4);
            lemma_read_back(b, pos as int, x.timestamp as nat, 8);
            lemma_read_back(b, pos + 8, x.transaction_id as nat, 8);
            lemma_read_back(b, pos + 16, x.sequence as nat, 4);
        }
    }
    let sequence = sequence as u32;
    let (operation, p4) = match parse_wal_op(bytes, p3) {
        Some(x) => x,
        None => return None,
    };
    let (checksum, p5) = match take_le(bytes, p4, 4) {
        Some(x) => x,
        None => {
            proof {
                assert forall|x: WalEntry| !#[trigger] holds_at(b, pos as int, entry_bytes(x)) by {
                    if holds_at(b, pos as int, entry_bytes(x)) {
                        assert(holds_at(b, p3 as int, op_bytes(x.operation)));
                        lemma_le_bytes_len(x.checksum as nat, 4);
                    }
                }
            }
            return None;
        },
    };
    proof {
        lemma_le_value_inverse(b.subrange(p4 as int, p5 as int));
        lemma_le_value_bound(b.subrange(p4 as int, p5 as int));
    }
    let checksum = checksum as u32;
    let e = WalEntry { timestamp, transaction_id, sequence, operation, checksum };
    proof {
        lemma_le_bytes_len(timestamp as nat, 8);
        lemma_le_bytes_len(transaction_id as nat, 8);
        lemma_le_bytes_len(sequence as nat, 4);
        lemma_le_bytes_len(checksum as nat, 4);
        assert(b.subrange(pos as int, p5 as int) =~= b.subrange(pos as int, p1 as int) + b.subrange(p1 as int, p2 as int) + b.subrange(p2 as int, p3 as int) + b.subrange(p3 as int, p4 as int) + b.subrange(p4 as int, p5 as int));
        assert(b.subrange(pos as int, p5 as int) =~= entry_bytes(e));
        assert forall|x: WalEntry| #[trigger] holds_at(b, pos as int, entry_bytes(x)) implies entry_bytes(x) == entry_bytes(e) by {
            assert(holds_at(b, p3 as int, op_bytes(x.operation)));
            lemma_le_bytes_len(x.checksum as nat, 4);
            lemma_read_back(b, p4 as int, x.checksum as nat, 4);
        }
    }
    Some((e, p5))
}

/// The eight bytes that open a log file.
pub open spec fn wal_magic() -> Seq<u8> {
    seq![0x45u8, 0x43u8, 0x53u8, 0x57u8, 0x41u8, 0x4cu8, 0x00u8, 0x00u8]
}

/// The header of a log file.
pub struct WalFileHeader {
    pub magic: [u8; 8],
    pub version: u32,
    pub flags: u32,
    pub reserved: [u8; 16],
}

/// The bytes of a header.
pub open spec fn header_bytes(h: WalFileHeader) -> Seq<u8> {
    h.magic@ + le_bytes(h.version as nat, 4) + le_bytes(h.flags as nat, 4) + h.reserved@
}

/// The 32 bytes hold a header this library reads: the magic, then version 1.
pub open spec fn header_ok(b: Seq<u8>) -> bool {
    &&& b.len() >= 32
    &&& b.subrange(0, 8) == wal_magic()
    &&& le_value(b.subrange(8, 12)) == 1
}

impl WalFileHeader {
    /// The header this library writes: the magic, version 1, no flags.
    pub fn new() -> (h: Self)
        ensures
            h.magic@ == wal_magic(),
            h.version == WAL_VERSION,
            h.flags == 0,
            h.reserved@ == Seq::new(16, |i: int| 0u8),
    {
        let h = WalFileHeader {
            magic: [0x45u8, 0x43u8, 0x53u8, 0x57u8, 0x41u8, 0x4cu8, 0x00u8, 0x00u8],
            version: WAL_VERSION,
            flags: 0,
            reserved: [0u8, 0u8, 0u8, 0u8, 0u8, 0u8, 0u8, 0u8, 0u8, 0u8, 0u8, 0u8, 0u8, 0u8, 0u8, 0u8],
        };
        assert(h.magic@ =~= wal_magic());
        assert(h.reserved@ =~= Seq::new(16, |i: int| 0u8));
        h
    }

    /// Appends the header's 32 bytes to `out`.
    pub fn write(&self, out: &mut Vec<u8>) -> (res: Result<()>)
        ensures
            res is Ok,
            final(out)@ == old(out)@ + header_bytes(*self),
    {
        let ghost b0 = out@;
        push_bytes(out, &self.magic);
        push_u32(out, self.version);
        push_u32(out, self.flags);
        push_bytes(out, &self.reserved);
        assert(out@ =~= b0 + header_bytes(*self));
        Ok(())
    }

    /// Reads a header from the first 32 bytes of `bytes`: fewer bytes is an
    /// I/O error, another magic or another version than 1 a log error.
    pub fn read(bytes: &[u8]) -> (res: Result<Self>)
        ensures
            bytes@.len() < 32 ==> (res matches Err(EcsDbError::IoError(_))),
            bytes@.len() >= 32 && bytes@.subrange(0, 8) != wal_magic() ==> (res matches Err(
                EcsDbError::WalError(_),
            )),
            bytes@.len() >= 32 && bytes@.subrange(0, 8) == wal_magic() && le_value(bytes@.subrange(8, 12))
                != 1 ==> (res matches Err(EcsDbError::WalError(_))),
            header_ok(bytes@) ==> (res matches Ok(h) && header_bytes(h) == bytes@.subrange(0, 32)),
    {
        if bytes.len() < 32 {
            return Err(EcsDbError::IoError(owned("failed to fill whole buffer")));
        }
        let mut magic = [0u8; 8];
        let mut i: usize = 0;
        while i < 8
            invariant
                i <= 8,
                bytes@.len() >= 32,
                forall|k: int| 0 <= k < i ==> magic@[k] == bytes@[k],
            decreases 8 - i,
        {
            magic.set(i, bytes[i]);
            i += 1;
        }
        let mut reserved = [0u8; 16];
        let mut j: usize = 0;
        while j < 16
            invariant
                j <= 16,
                bytes@.len() >= 32,
                forall|k: int| 0 <= k < j ==> reserved@[k] == bytes@[16 + k],
            decreases 16 - j,
        {
            reserved.set(j, bytes[16 + j]);
            j += 1;
        }
        assert(magic@ =~= bytes@.subrange(0, 8));
        assert(reserved@ =~= bytes@.subrange(16, 32));
        let version = read_le(bytes, 8, 4);
        let flags = read_le(bytes, 12, 4);
        let mut k: usize = 0;
        let expected: [u8; 8] = [0x45u8, 0x43u8, 0x53u8, 0x57u8, 0x41u8, 0x4cu8, 0x00u8, 0x00u8];
        assert(expected@ =~= wal_magic());
        while k < 8
            invariant
                k <= 8,
                bytes@.len() >= 32,
                magic@ == bytes@.subrange(0, 8),
                expected@ == wal_magic(),
                forall|q: int| 0 <= q < k ==> magic@[q] == wal_magic()[q],
            decreases 8 - k,
        {
            if magic[k] != expected[k] {
                assert(magic@[k as int] != wal_magic()[k as int]);
                return Err(EcsDbError::WalError(owned("Invalid WAL magic")));
            }
            k += 1;
        }
        assert(magic@ =~= wal_magic());
        if version != 1 {
            let m = join_num(owned("Unsupported WAL version "), version);
            return Err(EcsDbError::WalError(m));
        }
        proof {
            lemma_pow256_small();
            lemma_le_value_bound(bytes@.subrange(12, 16));
            lemma_le_value_inverse(bytes@.subrange(8, 12));
            lemma_le_value_inverse(bytes@.subrange(12, 16));
        }
        let h = WalFileHeader { magic, version: 1, flags: flags as u32, reserved };
        assert(header_bytes(h) =~= bytes@.subrange(0, 32));
        Ok(h)
    }
}

/// The bytes of a header read back as the header: magic, version, flags
/// and reserved bytes sit where `read` takes them from.
pub proof fn law_header_fields(h: WalFileHeader)
    ensures
        header_bytes(h).len() == HEADER_SIZE,
        header_bytes(h).subrange(0, 8) == h.magic@,
        le_value(header_bytes(h).subrange(8, 12)) == h.version,
        le_value(header_bytes(h).subrange(12, 16)) == h.flags,
        header_bytes(h).subrange(16, 32) == h.reserved@,
{
    let b = header_bytes(h);
    lemma_pow256_small();
    lemma_le_bytes_len(h.version as nat, 4);
    lemma_le_bytes_len(h.flags as nat, 4);
    assert(b.subrange(0, 8) =~= h.magic@);
    assert(b.subrange(8, 12) =~= le_bytes(h.version as nat, 4));
    assert(b.subrange(12, 16) =~= le_bytes(h.flags as nat, 4));
    assert(b.subrange(16, 32) =~= h.reserved@);
    crate::codec::lemma_le_roundtrip_small(h.version as nat, 4);
    crate::codec::lemma_le_roundtrip_small(h.flags as nat, 4);
}

/// One record of a log file: the entry's length as four bytes, then the entry.
pub open spec fn record_bytes(e: WalEntry) -> Seq<u8> {
    le_bytes(entry_bytes(e).len(), 4) + entry_bytes(e)
}

/// The records of `es`, one after the other.
pub open spec fn records_bytes(es: Seq<WalEntry>) -> Seq<u8>
    decreases es.len(),
{
    if es.len() == 0 {
        Seq::empty()
    } else {
        record_bytes(es[0]) + records_bytes(es.drop_first())
    }
}

/// The bytes of `b` from `pos` on are records of the entries `es`, then
/// fewer than four bytes. A record's length may cover bytes after its entry.
pub open spec fn records_hold(b: Seq<u8>, pos: int, es: Seq<WalEntry>) -> bool
    decreases es.len(),
{
    if es.len() == 0 {
        0 <= pos <= b.len() && b.len() - pos < 4
    } else {
        let n = le_value(b.subrange(pos, pos + 4));
        &&& 0 <= pos
        &&& pos + 4 + n <= b.len()
        &&& entry_bytes(es[0]).len() <= n
        &&& holds_at(b, pos + 4, entry_bytes(es[0]))
        &&& records_hold(b, pos + 4 + n, es.drop_first())
    }
}

/// The record of `e`.
pub fn encode_record(e: &WalEntry) -> (v: Vec<u8>)
    requires
        entry_bytes(*e).len() < 0x1_0000_0000,
    ensures
        v@ == record_bytes(*e),
{
    let mut body: Vec<u8> = Vec::new();
    push_entry(&mut body, e);
    let mut v: Vec<u8> = Vec::new();
    assert(body@ == entry_bytes(*e));
    push_u32(&mut v, body.len() as u32);
    push_bytes(&mut v, body.as_slice());
    v
}

/// Copies `len` bytes of `bytes` from `pos`.
fn copy_out(bytes: &[u8], pos: usize, len: usize) -> (out: Vec<u8>)
    requires
        pos + len <= bytes@.len(),
    ensures
        out@ == bytes@.subrange(pos as int, pos + len),
{
    let blen = bytes.len();
    let mut out: Vec<u8> = Vec::new();
    let mut i: usize = 0;
    while i < len
        invariant
            i <= len,
            blen == bytes@.len(),
            pos + len <= blen,
            out@ == bytes@.subrange(pos as int, pos + i),
        decreases len - i,
    {
        out.push(bytes[pos + i]);
        i += 1;
        assert(out@ =~= bytes@.subrange(pos as int, pos + i));
    }
    out
}

/// Reading the records of `b` from offset 32 has reached `pos` with the
/// entries `out`: whatever records follow, they complete `out`, and every
/// way of reading `b` as records starts with `out` and goes on at `pos`.
#[verifier::opaque]
spec fn parse_progress(b: Seq<u8>, pos: int, out: Seq<WalEntry>) -> bool {
    &&& forall|rest: Seq<WalEntry>| #[trigger] records_hold(b, pos, rest) ==> records_hold(b, 32, out + rest)
    &&& forall|es: Seq<WalEntry>| #[trigger] records_hold(b, 32, es) ==> {
        &&& out.len() <= es.len()
        &&& forall|i: int| 0 <= i < out.len() ==> entry_bytes(#[trigger] out[i]) == entry_bytes(es[i])
        &&& records_hold(b, pos, es.skip(out.len() as int))
    }
}

proof fn lemma_progress_start(b: Seq<u8>)
    ensures
        parse_progress(b, 32, Seq::empty()),
{
    reveal(parse_progress);
    assert forall|rest: Seq<WalEntry>| #[trigger] records_hold(b, 32, rest) implies records_hold(b, 32, Seq::<WalEntry>::empty() + rest) by {
        assert(Seq::<WalEntry>::empty() + rest =~= rest);
    }
    assert forall|es: Seq<WalEntry>| #[trigger] records_hold(b, 32, es) implies records_hold(b, 32, es.skip(0)) by {
        assert(es.skip(0) =~= es);
    }
}

proof fn lemma_progress_end(b: Seq<u8>, pos: int, out: Seq<WalEntry>)
    requires
        parse_progress(b, pos, out),
        0 <= pos <= b.len(),
        b.len() - pos < 4,
    ensures
        records_hold(b, 32, out),
        forall|es: Seq<WalEntry>| #[trigger] records_hold(b, 32, es) ==> es.len() == out.len()
            && forall|i: int| 0 <= i < es.len() ==> entry_bytes(#[trigger] out[i]) == entry_bytes(es[i]),
{
    reveal(parse_progress);
    assert(records_hold(b, pos, Seq::<WalEntry>::empty()));
    assert(out + Seq::<WalEntry>::empty() =~= out);
    assert forall|es: Seq<WalEntry>| #[trigger] records_hold(b, 32, es) implies es.len() == out.len() by {
        let r = es.skip(out.len() as int);
        assert(records_hold(b, pos, r));
        if r.len() > 0 {
            assert(pos + 4 <= b.len());
        }
    }
}

proof fn lemma_progress_stuck(b: Seq<u8>, pos: int, out: Seq<WalEntry>)
    requires
        parse_progress(b, pos, out),
        0 <= pos,
        b.len() - pos >= 4,
        pos + 4 + le_value(b.subrange(pos, pos + 4)) > b.len() || forall|x: WalEntry|
            !(entry_bytes(x).len() <= le_value(b.subrange(pos, pos + 4)) && #[trigger] holds_at(b, pos + 4, entry_bytes(x))),
    ensures
        forall|es: Seq<WalEntry>| !#[trigger] records_hold(b, 32, es),
{
    reveal(parse_progress);
    assert forall|es: Seq<WalEntry>| !#[trigger] records_hold(b, 32, es) by {
        if records_hold(b, 32, es) {
            let r = es.skip(out.len() as int);
            assert(records_hold(b, pos, r));
            if r.len() > 0 {
                assert(holds_at(b, pos + 4, entry_bytes(r[0])));
            }
        }
    }
}

proof fn lemma_progress_step(b: Seq<u8>, pos: int, out: Seq<WalEntry>, e: WalEntry)
    requires
        parse_progress(b, pos, out),
        0 <= pos,
        pos + 4 + le_value(b.subrange(pos, pos + 4)) <= b.len(),
        entry_bytes(e).len() <= le_value(b.subrange(pos, pos + 4)),
        holds_at(b, pos + 4, entry_bytes(e)),
        forall|x: WalEntry|
            entry_bytes(x).len() <= le_value(b.subrange(pos, pos + 4)) && #[trigger] holds_at(b, pos + 4, entry_bytes(x))
                ==> entry_bytes(x) == entry_bytes(e),
    ensures
        parse_progress(b, pos + 4 + le_value(b.subrange(pos, pos + 4)), out.push(e)),
{
    reveal(parse_progress);
    let next = pos + 4 + le_value(b.subrange(pos, pos + 4));
    assert forall|rest: Seq<WalEntry>| #[trigger] records_hold(b, next, rest) implies records_hold(b, 32, out.push(e) + rest) by {
        let r2 = seq![e] + rest;
        assert(r2[0] == e);
        assert(r2.drop_first() =~= rest);
        assert(records_hold(b, pos, r2));
        assert(out + r2 =~= out.push(e) + rest);
    }
    assert forall|es: Seq<WalEntry>| #[trigger] records_hold(b, 32, es) implies {
        &&& out.push(e).len() <= es.len()
        &&& forall|i: int| 0 <= i < out.push(e).len() ==> entry_bytes(#[trigger] out.push(e)[i]) == entry_bytes(es[i])
        &&& records_hold(b, next, es.skip(out.push(e).len() as int))
    } by {
        let r = es.skip(out.len() as int);
        assert(records_hold(b, pos, r));
        assert(r.len() > 0);
        assert(holds_at(b, pos + 4, entry_bytes(r[0])));
        assert(r.drop_first() =~= es.skip(out.len() + 1int));
        assert(es[out.len() as int] == r[0]);
    }
}

/// The entries of one log file: the header is checked as `WalFileHeader::read`
/// does, then records are read until fewer than four bytes are left. A record
/// whose length runs past the end is an I/O error, one whose bytes do not
/// start with an entry a serialization error.
pub fn parse_wal_file(bytes: &[u8]) -> (res: Result<Vec<WalEntry>>)
    ensures
        bytes@.len() < 32 ==> (res matches Err(EcsDbError::IoError(_))),
        bytes@.len() >= 32 && bytes@.subrange(0, 8) != wal_magic() ==> (res matches Err(
            EcsDbError::WalError(_),
        )),
        bytes@.len() >= 32 && bytes@.subrange(0, 8) == wal_magic() && le_value(bytes@.subrange(8, 12))
            != 1 ==> (res matches Err(EcsDbError::WalError(_))),
        res matches Ok(v) ==> header_ok(bytes@) && records_hold(bytes@, 32, v@),
        forall|es: Seq<WalEntry>| header_ok(bytes@) && #[trigger] records_hold(bytes@, 32, es) ==> (res matches Ok(v)
            && v@.len() == es.len() && forall|i: int| 0 <= i < es.len() ==> entry_bytes(#[trigger] v@[i]) == entry_bytes(es[i])),
{
    let ghost b = bytes@;
    match WalFileHeader::read(bytes) {
        Ok(_) => {},
        Err(e) => {
            return Err(e);
        },
    }
    proof {
        if !header_ok(b) {
            assert(b.len() >= 32 && b.subrange(0, 8) == wal_magic());
        }
        lemma_progress_start(b);
    }
    let blen = bytes.len();
    let mut pos: usize = 32;
    let mut out: Vec<WalEntry> = Vec::new();
    loop
        invariant
            header_ok(b),
            b == bytes@,
            blen == b.len(),
            32 <= pos <= blen,
            parse_progress(b, pos as int, out@),
        decreases blen - pos,
    {
        if blen - pos < 4 {
            proof { lemma_progress_end(b, pos as int, out@); }
            return Ok(out);
        }
        let n = read_le(bytes, pos, 4);
        if ((blen - pos - 4) as u64) < n {
            proof { lemma_progress_stuck(b, pos as int, out@); }
            return Err(EcsDbError::IoError(owned("failed to fill whole buffer")));
        }
        let len = n as usize;
        let record = copy_out(bytes, pos + 4, len);
        let ghost rec = record@;
        proof {
            assert forall|x: WalEntry| entry_bytes(x).len() <= len && #[trigger] holds_at(b, pos + 4, entry_bytes(x)) implies holds_at(rec, 0, entry_bytes(x)) by {
                assert(rec.subrange(0, entry_bytes(x).len() as int) =~= b.subrange(pos + 4, pos + 4 + entry_bytes(x).len()));
            }
        }
        let e = match parse_wal_entry(record.as_slice(), 0) {
            Some((e, _)) => e,
            None => {
                proof { lemma_progress_stuck(b, pos as int, out@); }
                return Err(EcsDbError::SerializationError(owned("failed to read a log entry")));
            },
        };
        proof {
            assert(holds_at(b, pos + 4, entry_bytes(e))) by {
                assert(b.subrange(pos + 4, pos + 4 + entry_bytes(e).len()) =~= rec.subrange(0, entry_bytes(e).len() as int));
            }
            lemma_progress_step(b, pos as int, out@, e);
        }
        out.push(e);
        pos = pos + 4 + len;
    }
}

/// Records written one after another, behind any prefix, read back as the
/// entries they were written from.
pub proof fn law_records_roundtrip(prefix: Seq<u8>, es: Seq<WalEntry>)
    requires
        forall|i: int| 0 <= i < es.len() ==> (#[trigger] entry_bytes(es[i])).len() < 0x1_0000_0000,
    ensures
        records_hold(prefix + records_bytes(es), prefix.len() as int, es),
    decreases es.len(),
{
    let b = prefix + records_bytes(es);
    if es.len() == 0 {
        assert(records_bytes(es) =~= Seq::<u8>::empty());
        assert(b =~= prefix);
    } else {
        let e = es[0];
        let rest = es.drop_first();
        let eb = entry_bytes(e);
        assert(eb.len() < 0x1_0000_0000);
        assert forall|i: int| 0 <= i < rest.len() implies (#[trigger] entry_bytes(rest[i])).len() < 0x1_0000_0000 by {
            assert(rest[i] == es[i + 1]);
        }
        let p2 = prefix + record_bytes(e);
        law_records_roundtrip(p2, rest);
        assert(b =~= p2 + records_bytes(rest));
        lemma_pow256_small();
        lemma_le_bytes_len(eb.len(), 4);
        let pos = prefix.len() as int;
        assert(holds_at(b, pos, record_bytes(e))) by {
            assert(b.subrange(pos, pos + record_bytes(e).len()) =~= record_bytes(e));
        }
        lemma_holds_split(b, pos, le_bytes(eb.len(), 4), eb);
        lemma_read_back(b, pos, eb.len(), 4);
        assert(p2.len() == pos + 4 + eb.len());
    }
}

/// A file operation the log needs before it writes its next record.
#[derive(Debug)]
pub enum WalFileStep {
    /// Open log file `file_id` for appending, writing a header first when
    /// `write_header` is set.
    OpenFile { file_id: u64, write_header: bool },
}

/// The highest transaction id among `es`, or 0.
pub open spec fn max_txn(es: Seq<WalEntry>) -> u64
    decreases es.len(),
{
    if es.len() == 0 {
        0
    } else if es.last().transaction_id > max_txn(es.drop_last()) {
        es.last().transaction_id
    } else {
        max_txn(es.drop_last())
    }
}

/// The state of a log kept in numbered files: which file is open and how
/// large it is, the next transaction id, and the entries written.
pub struct FileWal {
    dir: String,
    max_file_size: u64,
    file_open: bool,
    current_file_id: u64,
    current_file_size: u64,
    sync_on_write: bool,
    next_transaction_id: u64,
    entries: Vec<WalEntry>,
}

impl FileWal {
    pub closed spec fn log(&self) -> Seq<WalEntry> {
        self.entries@
    }

    pub closed spec fn dir_view(&self) -> Seq<char> {
        self.dir@
    }

    pub closed spec fn next_id(&self) -> u64 {
        self.next_transaction_id
    }

    pub closed spec fn file_id(&self) -> u64 {
        self.current_file_id
    }

    pub closed spec fn file_size(&self) -> u64 {
        self.current_file_size
    }

    pub closed spec fn is_open(&self) -> bool {
        self.file_open
    }

    pub closed spec fn max_size(&self) -> u64 {
        self.max_file_size
    }

    /// Whether each record is synced to disk as it is written.
    pub closed spec fn syncs(&self) -> bool {
        self.sync_on_write
    }

    /// The log as found in `dir`: `entries` are those read from its files in
    /// order, `last_file_id` the number of the last file if its name gives
    /// one, `last_file_size` the size of the last file if there is a file,
    /// which stays open for appending. Writing goes on in the file after the
    /// last, transactions after the highest id seen.
    pub fn opened(
        dir: String,
        max_file_size: Option<u64>,
        last_file_id: Option<u64>,
        last_file_size: Option<u64>,
        entries: Vec<WalEntry>,
    ) -> (w: Self)
        requires
            last_file_id != Some(u64::MAX),
        ensures
            w.log() == entries@,
            w.dir_view() == dir@,
            w.next_id() == (if max_txn(entries@) == u64::MAX { u64::MAX } else { (max_txn(entries@) + 1) as u64 }),
            w.file_id() == (match last_file_id { Some(id) => (id + 1) as u64, None => 1 }),
            w.is_open() == last_file_size is Some,
            w.file_size() == (match last_file_size { Some(n) => n, None => 0 }),
            w.max_size() == (match max_file_size { Some(n) => n, None => DEFAULT_MAX_FILE_SIZE }),
            w.syncs(),
    {
        let mut top: u64 = 0;
        let mut i: usize = 0;
        while i < entries.len()
            invariant
                i <= entries@.len(),
                top == max_txn(entries@.take(i as int)),
            decreases entries@.len() - i,
        {
            assert(entries@.take(i + 1int).drop_last() =~= entries@.take(i as int));
            if entries[i].transaction_id > top {
                top = entries[i].transaction_id;
            }
            i += 1;
        }
        assert(entries@.take(entries@.len() as int) =~= entries@);
        let next_transaction_id = top.saturating_add(1);
        let current_file_id = match last_file_id {
            Some(id) => id + 1,
            None => 1,
        };
        let (file_open, current_file_size) = match last_file_size {
            Some(n) => (true, n),
            None => (false, 0),
        };
        FileWal {
            dir,
            max_file_size: match max_file_size {
                Some(n) => n,
                None => DEFAULT_MAX_FILE_SIZE,
            },
            file_open,
            current_file_id,
            current_file_size,
            sync_on_write: true,
            next_transaction_id,
            entries,
        }
    }

    /// Starts a transaction and returns its id.
    pub fn begin_transaction(&mut self) -> (id: u64)
        requires
            old(self).next_id() < u64::MAX,
        ensures
            id == old(self).next_id(),
            final(self).next_id() == id + 1,
            final(self).log() == old(self).log(),
            final(self).file_id() == old(self).file_id(),
            final(self).file_size() == old(self).file_size(),
            final(self).is_open() == old(self).is_open(),
    {
        let id = self.next_transaction_id;
        self.next_transaction_id = id + 1;
        id
    }

    fn open_step(&mut self, steps: &mut Vec<WalFileStep>)
        ensures
            final(self).is_open(),
            !old(self).is_open() ==> {
                &&& final(steps)@ == old(steps)@.push(
                    WalFileStep::OpenFile { file_id: old(self).file_id(), write_header: old(self).file_size() == 0 },
                )
                &&& final(self).file_size() == (if old(self).file_size() == 0 { HEADER_SIZE as u64 } else { old(self).file_size() })
            },
            old(self).is_open() ==> final(steps)@ == old(steps)@ && final(self).file_size() == old(self).file_size(),
            final(self).file_id() == old(self).file_id(),
            final(self).log() == old(self).log(),
            final(self).next_id() == old(self).next_id(),
            final(self).max_size() == old(self).max_size(),
    {
        if !self.file_open {
            let write_header = self.current_file_size == 0;
            steps.push(WalFileStep::OpenFile { file_id: self.current_file_id, write_header });
            if write_header {
                self.current_file_size = HEADER_SIZE as u64;
            }
            self.file_open = true;
        }
    }

    /// The file operations due before the next record: open the current
    /// file if none is open (with a header when it is new), then, when the
    /// file has reached the size limit, move on to the next file.
    pub fn prepare_append(&mut self) -> (steps: Vec<WalFileStep>)
        requires
            old(self).file_id() < u64::MAX,
        ensures
            final(self).is_open(),
            final(self).log() == old(self).log(),
            final(self).next_id() == old(self).next_id(),
            final(self).max_size() == old(self).max_size(),
            ({
                let size1 = if old(self).is_open() { old(self).file_size() } else if old(self).file_size() == 0 {
                    HEADER_SIZE as u64
                } else {
                    old(self).file_size()
                };
                let first = if old(self).is_open() { Seq::<WalFileStep>::empty() } else {
                    seq![WalFileStep::OpenFile { file_id: old(self).file_id(), write_header: old(self).file_size() == 0 }]
                };
                if size1 >= old(self).max_size() {
                    &&& steps@ == first.push(WalFileStep::OpenFile { file_id: (old(self).file_id() + 1) as u64, write_header: true })
                    &&& final(self).file_id() == old(self).file_id() + 1
                    &&& final(self).file_size() == HEADER_SIZE
                } else {
                    &&& steps@ == first
                    &&& final(self).file_id() == old(self).file_id()
                    &&& final(self).file_size() == size1
                }
            }),
    {
        let mut steps: Vec<WalFileStep> = Vec::new();
        self.open_step(&mut steps);
        if self.current_file_size >= self.max_file_size {
            self.file_open = false;
            self.current_file_id = self.current_file_id + 1;
            self.current_file_size = 0;
            self.open_step(&mut steps);
        }
        steps
    }

    /// Notes that the record of `entry`, `record_len` bytes after its length,
    /// was written.
    pub fn record_appended(&mut self, entry: WalEntry, record_len: u64)
        requires
            old(self).file_size() + 4 + record_len <= u64::MAX,
        ensures
            final(self).log() == old(self).log().push(entry),
            final(self).file_size() == old(self).file_size() + 4 + record_len,
            final(self).file_id() == old(self).file_id(),
            final(self).is_open() == old(self).is_open(),
            final(self).next_id() == old(self).next_id(),
            final(self).max_size() == old(self).max_size(),
    {
        self.current_file_size = self.current_file_size + 4 + record_len;
        self.entries.push(entry);
    }

    fn sequence_for(&self, transaction_id: u64) -> (n: u32)
        ensures
            n == txn_entries(self.log(), transaction_id).len() as u32,
    {
        let mut count: usize = 0;
        let mut i: usize = 0;
        while i < self.entries.len()
            invariant
                i <= self.entries@.len(),
                count == txn_entries(self.entries@.subrange(0, i as int), transaction_id).len(),
            decreases self.entries@.len() - i,
        {
            let ghost s = self.entries@.subrange(0, i + 1);
            assert(s.drop_last() =~= self.entries@.subrange(0, i as int));
            proof {
                lemma_txn_entries_len(s.drop_last(), transaction_id);
            }
            if self.entries[i].transaction_id == transaction_id {
                count += 1;
            }
            i += 1;
        }
        assert(self.entries@.subrange(0, self.entries@.len() as int) =~= self.entries@);
        count as u32
    }

    /// The entry that commits a transaction, numbered after its entries so far.
    pub fn commit_entry(&self, transaction_id: u64) -> (e: WalEntry)
        ensures
            e.transaction_id == transaction_id,
            e.sequence == txn_entries(self.log(), transaction_id).len() as u32,
            e.operation == (WalOp::Commit { transaction_id }),
            entry_valid(e),
    {
        let seq = self.sequence_for(transaction_id);
        WalEntry::new(transaction_id, seq, WalOp::Commit { transaction_id })
    }

    /// The entry that rolls back a transaction, numbered after its entries so
    /// far.
    pub fn rollback_entry(&self, transaction_id: u64) -> (e: WalEntry)
        ensures
            e.transaction_id == transaction_id,
            e.sequence == txn_entries(self.log(), transaction_id).len() as u32,
            e.operation == (WalOp::Rollback { transaction_id }),
            entry_valid(e),
    {
        let seq = self.sequence_for(transaction_id);
        WalEntry::new(transaction_id, seq, WalOp::Rollback { transaction_id })
    }

    /// The entries of a transaction, in log order.
    pub fn entries_for_transaction(&self, transaction_id: u64) -> (r: Vec<&WalEntry>)
        ensures
            r@.len() == txn_entries(self.log(), transaction_id).len(),
            forall|k: int| 0 <= k < r@.len() ==> *r@[k] == txn_entries(self.log(), transaction_id)[k],
    {
        let mut r: Vec<&WalEntry> = Vec::new();
        let mut i: usize = 0;
        while i < self.entries.len()
            invariant
                i <= self.entries@.len(),
                r@.len() == txn_entries(self.entries@.subrange(0, i as int), transaction_id).len(),
                forall|k: int| 0 <= k < r@.len() ==> *r@[k] == txn_entries(self.entries@.subrange(0, i as int), transaction_id)[k],
            decreases self.entries@.len() - i,
        {
            let ghost s = self.entries@.subrange(0, i + 1);
            assert(s.drop_last() =~= self.entries@.subrange(0, i as int));
            if self.entries[i].transaction_id == transaction_id {
                r.push(&self.entries[i]);
            }
            i += 1;
        }
        assert(self.entries@.subrange(0, self.entries@.len() as int) =~= self.entries@);
        r
    }

    /// The number of entries written.
    pub fn len(&self) -> (n: usize)
        ensures
            n == self.log().len(),
    {
        self.entries.len()
    }

    /// Whether no entry was written.
    pub fn is_empty(&self) -> (b: bool)
        ensures
            b == (self.log().len() == 0),
    {
        self.entries.len() == 0
    }

    /// The number of the current log file.
    pub fn current_file_id(&self) -> (id: u64)
        ensures
            id == self.file_id(),
    {
        self.current_file_id
    }

    /// The id the next transaction gets.
    pub fn next_transaction_id(&self) -> (id: u64)
        ensures
            id == self.next_id(),
    {
        self.next_transaction_id
    }

    /// Whether each record is synced to disk as it is written.
    pub fn sync_on_write(&self) -> (b: bool)
        ensures
            b == self.syncs(),
    {
        self.sync_on_write
    }

    /// The directory of the log files.
    pub fn dir(&self) -> (d: &str)
        ensures
            d@ == self.dir_view(),
    {
        self.dir.as_str()
    }

    /// The path of the current log file: the directory, `/`, its name.
    pub fn current_file_path(&self) -> (p: String)
        ensures
            p@ == self.dir_view() + seq!['/'] + crate::persistence::names::wal_name(self.file_id()),
    {
        let mut p = crate::text::owned(self.dir.as_str());
        crate::text::push_char(&mut p, '/');
        let name = crate::persistence::names::wal_file_name(self.current_file_id);
        crate::text::join(p, name.as_str())
    }

    /// Forgets every entry and starts over at file 1 and transaction 1; the
    /// files themselves are removed by the caller.
    pub fn clear(&mut self)
        ensures
            final(self).log() == Seq::<WalEntry>::empty(),
            final(self).next_id() == 1,
            final(self).file_id() == 1,
            final(self).file_size() == 0,
            !final(self).is_open(),
            final(self).max_size() == old(self).max_size(),
    {
        self.file_open = false;
        self.current_file_id = 1;
        self.current_file_size = 0;
        self.next_transaction_id = 1;
        self.entries.clear();
    }
}

} // verus!
