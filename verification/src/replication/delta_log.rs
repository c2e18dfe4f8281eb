//! A log of recent deltas, for monitoring.
use crate::storage::delta::{Delta, DeltaOp};
use crate::text::owned;
use vstd::prelude::*;

verus! {

/// A summary of one delta.
#[derive(Debug, Clone)]
pub struct DeltaLogEntry {
    /// Position of the delta in the log's history, from 0.
    pub seq: u64,
    pub version: u64,
    pub timestamp: u64,
    pub operation_count: usize,
    /// The kind of the first change: "insert", "update", "delete",
    /// "create_entity", "delete_entity", or "empty" when there is none.
    pub first_op_type: String,
    pub first_table_id: Option<u16>,
    pub first_entity_id: Option<u64>,
}

/// The kind, table and entity of the first change of `ops`.
pub open spec fn first_summary(ops: Seq<DeltaOp>) -> (Seq<char>, Option<u16>, Option<u64>) {
    if ops.len() == 0 {
        ("empty"@, None, None)
    } else {
        match ops[0] {
            DeltaOp::CreateEntity { entity_id } => ("create_entity"@, None, Some(entity_id)),
            DeltaOp::DeleteEntity { entity_id } => ("delete_entity"@, None, Some(entity_id)),
            DeltaOp::Insert { table_id, entity_id, .. } => ("insert"@, Some(table_id), Some(entity_id)),
            DeltaOp::Update { table_id, entity_id, .. } => ("update"@, Some(table_id), Some(entity_id)),
            DeltaOp::Delete { table_id, entity_id, .. } => ("delete"@, Some(table_id), Some(entity_id)),
        }
    }
}

/// `e` summarises `delta` as the entry numbered `seq`.
pub open spec fn summarises(e: DeltaLogEntry, seq: u64, delta: Delta) -> bool {
    let (kind, table, entity) = first_summary(delta.ops@);
    &&& e.seq == seq
    &&& e.version == delta.version
    &&& e.timestamp == delta.timestamp
    &&& e.operation_count == delta.ops@.len()
    &&& e.first_op_type@ == kind
    &&& e.first_table_id == table
    &&& e.first_entity_id == entity
}

impl DeltaLogEntry {
    /// The summary of `delta` as entry `seq`.
    pub fn from_delta(seq: u64, delta: &Delta) -> (e: Self)
        ensures
            summarises(e, seq, *delta),
    {
        let (first_op_type, first_table_id, first_entity_id) = if delta.ops.len() == 0 {
            (owned("empty"), None, None)
        } else {
            match &delta.ops[0] {
                DeltaOp::CreateEntity { entity_id } => (owned("create_entity"), None, Some(*entity_id)),
                DeltaOp::DeleteEntity { entity_id } => (owned("delete_entity"), None, Some(*entity_id)),
                DeltaOp::Insert { table_id, entity_id, .. } => (
                    owned("insert"),
                    Some(*table_id),
                    Some(*entity_id),
                ),
                DeltaOp::Update { table_id, entity_id, .. } => (
                    owned("update"),
                    Some(*table_id),
                    Some(*entity_id),
                ),
                DeltaOp::Delete { table_id, entity_id, .. } => (
                    owned("delete"),
                    Some(*table_id),
                    Some(*entity_id),
                ),
            }
        };
        DeltaLogEntry {
            seq,
            version: delta.version,
            timestamp: delta.timestamp,
            operation_count: delta.ops.len(),
            first_op_type,
            first_table_id,
            first_entity_id,
        }
    }
}

/// The most recent delta summaries, at most a fixed number of them.
pub struct DeltaLog {
    entries: Vec<DeltaLogEntry>,
    max_entries: usize,
    next_seq: u64,
}

impl DeltaLog {
    /// The summaries kept, oldest first.
    pub closed spec fn kept(&self) -> Seq<DeltaLogEntry> {
        self.entries@
    }

    /// How many summaries the log keeps.
    pub closed spec fn capacity(&self) -> nat {
        self.max_entries as nat
    }

    /// The number the next summary gets.
    pub closed spec fn next(&self) -> u64 {
        self.next_seq
    }

    /// An empty log keeping up to `max_entries` summaries.
    pub fn new(max_entries: usize) -> (l: Self)
        ensures
            l.kept() == Seq::<DeltaLogEntry>::empty(),
            l.capacity() == max_entries,
            l.next() == 0,
    {
        DeltaLog { entries: Vec::new(), max_entries, next_seq: 0 }
    }

    /// Records the summary of `delta`, dropping the oldest one when the log
    /// is full.
    pub fn record(&mut self, delta: &Delta)
        requires
            old(self).capacity() > 0 || old(self).kept().len() > 0,
            old(self).next() < u64::MAX,
        ensures
            final(self).next() == old(self).next() + 1,
            final(self).capacity() == old(self).capacity(),
            final(self).kept().len() > 0,
            summarises(final(self).kept().last(), old(self).next(), *delta),
            final(self).kept().drop_last() == if old(self).kept().len() >= old(self).capacity() {
                old(self).kept().drop_first()
            } else {
                old(self).kept()
            },
    {
        let entry = DeltaLogEntry::from_delta(self.next_seq, delta);
        self.next_seq = self.next_seq + 1;
        let ghost before = self.entries@;
        if self.entries.len() >= self.max_entries {
            self.entries.remove(0);
        }
        let ghost mid = self.entries@;
        self.entries.push(entry);
        assert(self.entries@.drop_last() =~= mid);
    }

    /// The summaries kept, oldest first.
    pub fn entries(&self) -> (r: &[DeltaLogEntry])
        ensures
            r@ == self.kept(),
    {
        self.entries.as_slice()
    }

    /// Drops every summary; numbering goes on.
    pub fn clear(&mut self)
        ensures
            final(self).kept() == Seq::<DeltaLogEntry>::empty(),
            final(self).capacity() == old(self).capacity(),
            final(self).next() == old(self).next(),
    {
        self.entries.clear();
    }
}

} // verus!
