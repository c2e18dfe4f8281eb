use crate::error::{EcsDbError, Result};
use crate::storage::buffer::copy_bytes;
use crate::transaction::wal::{txn_entries, WalEntry, WalLogger, WalOp};
use std::sync::mpsc::Sender;
use vstd::prelude::*;

verus! {

/// A request to the writer, with the channel on which the outcome goes back.
#[derive(Debug)]
pub enum WriteOp {
    Insert { table_id: u16, entity_id: u64, data: Vec<u8>, response: Sender<Result<()>> },
    Update { table_id: u16, entity_id: u64, data: Vec<u8>, response: Sender<Result<()>> },
    Delete { table_id: u16, entity_id: u64, response: Sender<Result<()>> },
    CommitBatch {
        transaction_id: u64,
        operations: Vec<WriteOpWithoutResponse>,
        response: Sender<Result<u64>>,
    },
    Shutdown,
}

/// A write to a component table.
#[derive(Debug, Clone)]
pub enum WriteOpWithoutResponse {
    Insert { table_id: u16, entity_id: u64, data: Vec<u8> },
    Update { table_id: u16, entity_id: u64, data: Vec<u8> },
    Delete { table_id: u16, entity_id: u64 },
}

/// `w` is the log record of the write `op`.
pub open spec fn logs(w: WalOp, op: WriteOpWithoutResponse) -> bool {
    match op {
        WriteOpWithoutResponse::Insert { table_id, entity_id, data } => w matches WalOp::Insert {
            table_id: t,
            entity_id: e,
            data: d,
        } && t == table_id && e == entity_id && d@ == data@,
        WriteOpWithoutResponse::Update { table_id, entity_id, data } => w matches WalOp::Update {
            table_id: t,
            entity_id: e,
            data: d,
        } && t == table_id && e == entity_id && d@ == data@,
        WriteOpWithoutResponse::Delete { table_id, entity_id } => w == WalOp::Delete {
            table_id,
            entity_id,
        },
    }
}

/// The table a write goes to.
pub open spec fn op_table(op: WriteOpWithoutResponse) -> u16 {
    match op {
        WriteOpWithoutResponse::Insert { table_id, .. } => table_id,
        WriteOpWithoutResponse::Update { table_id, .. } => table_id,
        WriteOpWithoutResponse::Delete { table_id, .. } => table_id,
    }
}

/// The log record of a write.
pub fn to_wal_op(op: &WriteOpWithoutResponse) -> (w: WalOp)
    ensures
        logs(w, *op),
{
    match op {
        WriteOpWithoutResponse::Insert { table_id, entity_id, data } => WalOp::Insert {
            table_id: *table_id,
            entity_id: *entity_id,
            data: copy_bytes(data),
        },
        WriteOpWithoutResponse::Update { table_id, entity_id, data } => WalOp::Update {
            table_id: *table_id,
            entity_id: *entity_id,
            data: copy_bytes(data),
        },
        WriteOpWithoutResponse::Delete { table_id, entity_id } => WalOp::Delete {
            table_id: *table_id,
            entity_id: *entity_id,
        },
    }
}

/// What the writer does next with a batch that is applied write by write.
pub enum BatchStep {
    /// Apply the write at this position; it is logged already.
    Apply(usize),
    /// The batch is over, with this outcome; how it ended is logged.
    Done(Result<u64>),
}

/// The log side of the writer: it records each write before it is applied
/// and, once applied, whether it took effect.
pub struct WriteWorker {
    wal: WalLogger,
}

impl WriteWorker {
    /// The writer's log.
    pub closed spec fn log(&self) -> Seq<WalEntry> {
        self.wal.log()
    }

    /// The identifier the next single write will get.
    pub closed spec fn next_id(&self) -> u64 {
        self.wal.next_id()
    }

    /// A writer with an empty log.
    pub fn new() -> (w: Self)
        ensures
            w.log() == Seq::<WalEntry>::empty(),
            w.next_id() == 1,
    {
        WriteWorker { wal: WalLogger::new() }
    }

    /// Opens a transaction for one write and logs the write as its first
    /// entry; returns the transaction.
    pub fn begin_single(&mut self, op: &WriteOpWithoutResponse) -> (id: u64)
        requires
            old(self).next_id() < u64::MAX,
        ensures
            id == old(self).next_id(),
            final(self).next_id() == id + 1,
            final(self).log().len() == old(self).log().len() + 1,
            final(self).log().drop_last() == old(self).log(),
            final(self).log().last().transaction_id == id,
            final(self).log().last().sequence == 0,
            logs(final(self).log().last().operation, *op),
    {
        let id = self.wal.begin_transaction();
        let w = to_wal_op(op);
        let _ = self.wal.log_operation(id, 0, w);
        id
    }

    /// Logs the write `op` as entry `sequence` of batch `id`, before it is
    /// applied.
    pub fn log_batch_op(&mut self, id: u64, sequence: u32, op: &WriteOpWithoutResponse)
        ensures
            final(self).next_id() == old(self).next_id(),
            final(self).log().len() == old(self).log().len() + 1,
            final(self).log().drop_last() == old(self).log(),
            final(self).log().last().transaction_id == id,
            final(self).log().last().sequence == sequence,
            logs(final(self).log().last().operation, *op),
    {
        let w = to_wal_op(op);
        let _ = self.wal.log_operation(id, sequence, w);
    }

    /// Logs the operations of batch `id`, numbered from 0 in order.
    pub fn begin_batch(&mut self, id: u64, ops: &Vec<WriteOpWithoutResponse>)
        ensures
            final(self).next_id() == old(self).next_id(),
            final(self).log().len() == old(self).log().len() + ops@.len(),
            final(self).log().subrange(0, old(self).log().len() as int) == old(self).log(),
            forall|k: int|
                0 <= k < ops@.len() ==> {
                    let e = #[trigger] final(self).log()[old(self).log().len() + k];
                    &&& e.transaction_id == id
                    &&& e.sequence == k as u32
                    &&& logs(e.operation, ops@[k])
                },
    {
        let mut i: usize = 0;
        while i < ops.len()
            invariant
                i <= ops@.len(),
                self.next_id() == old(self).next_id(),
                self.log().len() == old(self).log().len() + i,
                self.log().subrange(0, old(self).log().len() as int) == old(self).log(),
                forall|k: int|
                    0 <= k < i ==> {
                        let e = #[trigger] self.log()[old(self).log().len() + k];
                        &&& e.transaction_id == id
                        &&& e.sequence == k as u32
                        &&& logs(e.operation, ops@[k])
                    },
            decreases ops@.len() - i,
        {
            let w = to_wal_op(&ops[i]);
            let ghost before = self.log();
            let _ = self.wal.log_operation(id, i as u32, w);
            assert(self.log().subrange(0, old(self).log().len() as int) =~= before.subrange(
                0,
                old(self).log().len() as int,
            ));
            assert forall|k: int| 0 <= k < i + 1 implies {
                let e = #[trigger] self.log()[old(self).log().len() + k];
                &&& e.transaction_id == id
                &&& e.sequence == k as u32
                &&& logs(e.operation, ops@[k])
            } by {
                if k < i {
                    assert(self.log()[old(self).log().len() + k] == before[old(self).log().len() + k]);
                }
            }
            i += 1;
        }
    }

    /// One step of batch `id` applied write by write, after the writes
    /// before position `next` were applied and the last of them gave
    /// `last` (`Ok` before the first): a failure ends the batch with that
    /// error and a rollback marker; past the last write the batch ends with
    /// `id` and a commit marker; otherwise the write at `next` is logged
    /// under sequence `next` and is the one to apply.
    pub fn batch_step(
        &mut self,
        id: u64,
        ops: &Vec<WriteOpWithoutResponse>,
        next: usize,
        last: Result<()>,
    ) -> (step: BatchStep)
        requires
            next <= ops@.len(),
        ensures
            final(self).next_id() == old(self).next_id(),
            final(self).log().len() == old(self).log().len() + 1,
            final(self).log().drop_last() == old(self).log(),
            final(self).log().last().transaction_id == id,
            last matches Err(e) ==> {
                &&& step == BatchStep::Done(Err::<u64, EcsDbError>(e))
                &&& final(self).log().last().operation == (WalOp::Rollback { transaction_id: id })
            },
            last is Ok && next == ops@.len() ==> {
                &&& step == BatchStep::Done(Ok::<u64, EcsDbError>(id))
                &&& final(self).log().last().operation == (WalOp::Commit { transaction_id: id })
            },
            last is Ok && next < ops@.len() ==> {
                &&& step == BatchStep::Apply(next)
                &&& final(self).log().last().sequence == next as u32
                &&& logs(final(self).log().last().operation, ops@[next as int])
            },
    {
        match last {
            Err(e) => {
                self.finish(id, false);
                BatchStep::Done(Err(e))
            },
            Ok(()) => {
                if next == ops.len() {
                    self.finish(id, true);
                    BatchStep::Done(Ok(id))
                } else {
                    let sequence: u32 = next as u32;
                    self.log_batch_op(id, sequence, &ops[next]);
                    BatchStep::Apply(next)
                }
            },
        }
    }

    /// The id the next single write gets.
    pub fn next_transaction_id(&self) -> (id: u64)
        ensures
            id == self.next_id(),
    {
        self.wal.next_transaction_id()
    }

    /// Logs how transaction `id` ended: a commit marker when it took effect,
    /// a rollback marker otherwise.
    pub fn finish(&mut self, id: u64, took_effect: bool)
        ensures
            final(self).next_id() == old(self).next_id(),
            final(self).log().len() == old(self).log().len() + 1,
            final(self).log().drop_last() == old(self).log(),
            final(self).log().last().transaction_id == id,
            final(self).log().last().sequence == txn_entries(old(self).log(), id).len() as u32,
            took_effect ==> final(self).log().last().operation == (WalOp::Commit { transaction_id: id }),
            !took_effect ==> final(self).log().last().operation == (WalOp::Rollback { transaction_id: id }),
    {
        if took_effect {
            let _ = self.wal.log_commit(id);
        } else {
            let _ = self.wal.log_rollback(id);
        }
    }
}

} // verus!
