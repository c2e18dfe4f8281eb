use crate::checksum::{crc32, crc32_of};
use crate::clock::now_micros;
use crate::codec::{le_bytes, push_bytes, push_u16, push_u32, push_u64};
use crate::error::Result;
use vstd::prelude::*;

verus! {

/// An operation recorded in the write-ahead log.
#[derive(Debug, Clone, PartialEq, Eq)]
pub enum WalOp {
    Insert { table_id: u16, entity_id: u64, data: Vec<u8> },
    Update { table_id: u16, entity_id: u64, data: Vec<u8> },
    Delete { table_id: u16, entity_id: u64 },
    Commit { transaction_id: u64 },
    Rollback { transaction_id: u64 },
}

/// A byte string with its length as eight little-endian bytes in front.
pub open spec fn framed(data: Seq<u8>) -> Seq<u8> {
    le_bytes(data.len(), 8) + data
}

/// The binary form of an operation: the variant's index as four
/// little-endian bytes, then its fields in order, integers little-endian
/// and byte strings framed by their length.
pub open spec fn op_bytes(op: WalOp) -> Seq<u8> {
    match op {
        WalOp::Insert { table_id, entity_id, data } => le_bytes(0, 4) + le_bytes(table_id as nat, 2)
            + le_bytes(entity_id as nat, 8) + framed(data@),
        WalOp::Update { table_id, entity_id, data } => le_bytes(1, 4) + le_bytes(table_id as nat, 2)
            + le_bytes(entity_id as nat, 8) + framed(data@),
        WalOp::Delete { table_id, entity_id } => le_bytes(2, 4) + le_bytes(table_id as nat, 2)
            + le_bytes(entity_id as nat, 8),
        WalOp::Commit { transaction_id } => le_bytes(3, 4) + le_bytes(transaction_id as nat, 8),
        WalOp::Rollback { transaction_id } => le_bytes(4, 4) + le_bytes(transaction_id as nat, 8),
    }
}

/// Appends the binary form of `op`.
pub fn push_op(buf: &mut Vec<u8>, op: &WalOp)
    ensures
        final(buf)@ == old(buf)@ + op_bytes(*op),
{
    let ghost b0 = buf@;
    match op {
        WalOp::Insert { table_id, entity_id, data } => {
            push_u32(buf, 0);
            push_u16(buf, *table_id);
            push_u64(buf, *entity_id);
            push_u64(buf, data.len() as u64);
            push_bytes(buf, data.as_slice());
            assert(buf@ =~= b0 + op_bytes(*op));
        },
        WalOp::Update { table_id, entity_id, data } => {
            push_u32(buf, 1);
            push_u16(buf, *table_id);
            push_u64(buf, *entity_id);
            push_u64(buf, data.len() as u64);
            push_bytes(buf, data.as_slice());
            assert(buf@ =~= b0 + op_bytes(*op));
        },
        WalOp::Delete { table_id, entity_id } => {
            push_u32(buf, 2);
            push_u16(buf, *table_id);
            push_u64(buf, *entity_id);
            assert(buf@ =~= b0 + op_bytes(*op));
        },
        WalOp::Commit { transaction_id } => {
            push_u32(buf, 3);
            push_u64(buf, *transaction_id);
            assert(buf@ =~= b0 + op_bytes(*op));
        },
        WalOp::Rollback { transaction_id } => {
            push_u32(buf, 4);
            push_u64(buf, *transaction_id);
            assert(buf@ =~= b0 + op_bytes(*op));
        },
    }
}

/// The binary form of an operation.
pub fn encode_op(op: &WalOp) -> (v: Vec<u8>)
    ensures
        v@ == op_bytes(*op),
{
    let mut v: Vec<u8> = Vec::new();
    push_op(&mut v, op);
    assert(Seq::<u8>::empty() + op_bytes(*op) =~= op_bytes(*op));
    v
}

/// One entry of the write-ahead log.
#[derive(Debug, Clone)]
pub struct WalEntry {
    /// Microseconds since the Unix epoch when the entry was made.
    pub timestamp: u64,
    pub transaction_id: u64,
    /// Position of the entry within its transaction.
    pub sequence: u32,
    pub operation: WalOp,
    /// CRC-32 of every other field.
    pub checksum: u32,
}

/// The bytes that the checksum of an entry covers: timestamp, transaction
/// and sequence little-endian, then the operation.
pub open spec fn checked_bytes(timestamp: u64, transaction_id: u64, sequence: u32, op: WalOp) -> Seq<
    u8,
> {
    le_bytes(timestamp as nat, 8) + le_bytes(transaction_id as nat, 8) + le_bytes(sequence as nat, 4)
        + op_bytes(op)
}

/// The checksum that an entry with these fields carries.
pub open spec fn entry_checksum(e: WalEntry) -> u32 {
    crc32_of(checked_bytes(e.timestamp, e.transaction_id, e.sequence, e.operation))
}

/// Whether an entry's checksum matches its fields.
pub open spec fn entry_valid(e: WalEntry) -> bool {
    e.checksum == entry_checksum(e)
}

fn compute_checksum(timestamp: u64, transaction_id: u64, sequence: u32, op: &WalOp) -> (c: u32)
    ensures
        c == crc32_of(checked_bytes(timestamp, transaction_id, sequence, *op)),
{
    let mut bytes: Vec<u8> = Vec::new();
    push_u64(&mut bytes, timestamp);
    push_u64(&mut bytes, transaction_id);
    push_u32(&mut bytes, sequence);
    push_op(&mut bytes, op);
    assert(bytes@ =~= checked_bytes(timestamp, transaction_id, sequence, *op));
    crc32(bytes.as_slice())
}

impl WalEntry {
    /// An entry made now, with its checksum.
    pub fn new(transaction_id: u64, sequence: u32, operation: WalOp) -> (e: Self)
        ensures
            e.transaction_id == transaction_id,
            e.sequence == sequence,
            e.operation == operation,
            entry_valid(e),
    {
        let timestamp = now_micros();
        Self::stamped(timestamp, transaction_id, sequence, operation)
    }

    /// An entry made at `timestamp`, with its checksum.
    pub fn stamped(timestamp: u64, transaction_id: u64, sequence: u32, operation: WalOp) -> (e: Self)
        ensures
            e.timestamp == timestamp,
            e.transaction_id == transaction_id,
            e.sequence == sequence,
            e.operation == operation,
            entry_valid(e),
    {
        let checksum = compute_checksum(timestamp, transaction_id, sequence, &operation);
        WalEntry { timestamp, transaction_id, sequence, operation, checksum }
    }

    /// Whether the checksum matches the other fields.
    pub fn validate_checksum(&self) -> (b: bool)
        ensures
            b == entry_valid(*self),
    {
        compute_checksum(self.timestamp, self.transaction_id, self.sequence, &self.operation)
            == self.checksum
    }
}

/// The entries of `s` that belong to transaction `id`, in log order.
pub open spec fn txn_entries(s: Seq<WalEntry>, id: u64) -> Seq<WalEntry>
    decreases s.len(),
{
    if s.len() == 0 {
        Seq::empty()
    } else if s.last().transaction_id == id {
        txn_entries(s.drop_last(), id).push(s.last())
    } else {
        txn_entries(s.drop_last(), id)
    }
}

pub proof fn lemma_txn_entries_len(s: Seq<WalEntry>, id: u64)
    ensures
        txn_entries(s, id).len() <= s.len(),
    decreases s.len(),
{
    if s.len() > 0 {
        lemma_txn_entries_len(s.drop_last(), id);
    }
}

/// An in-memory write-ahead log.
pub struct WalLogger {
    entries: Vec<WalEntry>,
    next_transaction_id: u64,
}

impl WalLogger {
    /// The entries in log order.
    pub closed spec fn log(&self) -> Seq<WalEntry> {
        self.entries@
    }

    /// The identifier the next transaction will get.
    pub closed spec fn next_id(&self) -> u64 {
        self.next_transaction_id
    }

    /// An empty log whose first transaction is 1.
    pub fn new() -> (w: Self)
        ensures
            w.log() == Seq::<WalEntry>::empty(),
            w.next_id() == 1,
    {
        WalLogger { entries: Vec::new(), next_transaction_id: 1 }
    }

    /// Starts a transaction and returns its identifier.
    pub fn begin_transaction(&mut self) -> (id: u64)
        requires
            old(self).next_id() < u64::MAX,
        ensures
            id == old(self).next_id(),
            final(self).next_id() == id + 1,
            final(self).log() == old(self).log(),
    {
        let id = self.next_transaction_id;
        self.next_transaction_id = id + 1;
        id
    }

    /// Appends an entry for `operation`.
    pub fn log_operation(&mut self, transaction_id: u64, sequence: u32, operation: WalOp) -> (res:
        Result<()>)
        ensures
            res is Ok,
            final(self).log().len() == old(self).log().len() + 1,
            final(self).log().drop_last() == old(self).log(),
            final(self).log().last().transaction_id == transaction_id,
            final(self).log().last().sequence == sequence,
            final(self).log().last().operation == operation,
            entry_valid(final(self).log().last()),
            final(self).next_id() == old(self).next_id(),
    {
        let entry = WalEntry::new(transaction_id, sequence, operation);
        self.entries.push(entry);
        assert(self.entries@.drop_last() =~= old(self).entries@);
        Ok(())
    }

    /// The number of entries of transaction `id`, as a sequence number.
    fn next_sequence_for_transaction(&self, id: u64) -> (n: u32)
        ensures
            n == txn_entries(self.log(), id).len() as u32,
    {
        let mut count: usize = 0;
        let mut i: usize = 0;
        while i < self.entries.len()
            invariant
                i <= self.entries@.len(),
                count == txn_entries(self.entries@.subrange(0, i as int), id).len(),
            decreases self.entries@.len() - i,
        {
            let ghost s = self.entries@.subrange(0, i + 1);
            assert(s.drop_last() =~= self.entries@.subrange(0, i as int));
            proof {
                lemma_txn_entries_len(s.drop_last(), id);
            }
            if self.entries[i].transaction_id == id {
                count += 1;
            }
            i += 1;
        }
        assert(self.entries@.subrange(0, self.entries@.len() as int) =~= self.entries@);
        count as u32
    }

    /// Appends a commit marker for transaction `id`, numbered after its
    /// other entries.
    pub fn log_commit(&mut self, transaction_id: u64) -> (res: Result<()>)
        ensures
            res is Ok,
            final(self).log().len() == old(self).log().len() + 1,
            final(self).log().drop_last() == old(self).log(),
            final(self).log().last().transaction_id == transaction_id,
            final(self).log().last().sequence == txn_entries(old(self).log(), transaction_id).len() as u32,
            final(self).log().last().operation == (WalOp::Commit { transaction_id }),
            entry_valid(final(self).log().last()),
            final(self).next_id() == old(self).next_id(),
    {
        let seq = self.next_sequence_for_transaction(transaction_id);
        let entry = WalEntry::new(transaction_id, seq, WalOp::Commit { transaction_id });
        self.entries.push(entry);
        assert(self.entries@.drop_last() =~= old(self).entries@);
        Ok(())
    }

    /// Appends a rollback marker for transaction `id`, numbered after its
    /// other entries.
    pub fn log_rollback(&mut self, transaction_id: u64) -> (res: Result<()>)
        ensures
            res is Ok,
            final(self).log().len() == old(self).log().len() + 1,
            final(self).log().drop_last() == old(self).log(),
            final(self).log().last().transaction_id == transaction_id,
            final(self).log().last().sequence == txn_entries(old(self).log(), transaction_id).len() as u32,
            final(self).log().last().operation == (WalOp::Rollback { transaction_id }),
            entry_valid(final(self).log().last()),
            final(self).next_id() == old(self).next_id(),
    {
        let seq = self.next_sequence_for_transaction(transaction_id);
        let entry = WalEntry::new(transaction_id, seq, WalOp::Rollback { transaction_id });
        self.entries.push(entry);
        assert(self.entries@.drop_last() =~= old(self).entries@);
        Ok(())
    }

    /// The entries of transaction `id`, in log order.
    pub fn entries_for_transaction(&self, transaction_id: u64) -> (r: Vec<&WalEntry>)
        ensures
            r@.len() == txn_entries(self.log(), transaction_id).len(),
            forall|k: int| 0 <= k < r@.len() ==> *r@[k] == txn_entries(self.log(), transaction_id)[k],
    {
        let mut r: Vec<&WalEntry> = Vec::new();
        let mut i: usize = 0;
        while i < self.entries.len()
            invariant
                i <= self.entries@.len(),
                r@.len() == txn_entries(self.entries@.subrange(0, i as int), transaction_id).len(),
                forall|k: int|
                    0 <= k < r@.len() ==> *r@[k] == txn_entries(
                        self.entries@.subrange(0, i as int),
                        transaction_id,
                    )[k],
            decreases self.entries@.len() - i,
        {
            let ghost s = self.entries@.subrange(0, i + 1);
            assert(s.drop_last() =~= self.entries@.subrange(0, i as int));
            if self.entries[i].transaction_id == transaction_id {
                r.push(&self.entries[i]);
            }
            i += 1;
        }
        assert(self.entries@.subrange(0, self.entries@.len() as int) =~= self.entries@);
        r
    }

    /// The id the next transaction gets.
    pub fn next_transaction_id(&self) -> (id: u64)
        ensures
            id == self.next_id(),
    {
        self.next_transaction_id
    }

    /// The number of entries.
    pub fn len(&self) -> (n: usize)
        ensures
            n == self.log().len(),
    {
        self.entries.len()
    }

    /// Whether the log holds no entry.
    pub fn is_empty(&self) -> (b: bool)
        ensures
            b == (self.log().len() == 0),
    {
        self.entries.len() == 0
    }

    /// Drops every entry; transaction numbering goes on.
    pub fn clear(&mut self)
        ensures
            final(self).log() == Seq::<WalEntry>::empty(),
            final(self).next_id() == old(self).next_id(),
    {
        self.entries.clear();
    }
}

impl Default for WalLogger {
    fn default() -> (w: Self)
        ensures
            w.log() == Seq::<WalEntry>::empty(),
            w.next_id() == 1,
    {
        WalLogger::new()
    }
}

} // verus!
