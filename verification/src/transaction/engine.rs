use crate::error::Result;
use std::sync::mpsc::Sender;
use vstd::prelude::*;

verus! {

#[verifier::external_type_specification]
#[verifier::external_body]
#[verifier::reject_recursive_types(T)]
pub struct ExSender<T>(Sender<T>);

/// An operation of a transaction.
#[derive(Debug, Clone)]
pub enum TransactionOp {
    Insert { table_id: u16, entity_id: u64, data: Vec<u8> },
    Update { table_id: u16, entity_id: u64, field_offset: usize, data: Vec<u8> },
    Delete { table_id: u16, entity_id: u64 },
}

/// A batch of operations, with the channel on which its outcome is reported.
pub struct Transaction {
    operations: Vec<TransactionOp>,
    #[allow(dead_code)]
    response_tx: Sender<Result<u64>>,
}

impl Transaction {
    /// The operations added so far.
    pub closed spec fn ops(&self) -> Seq<TransactionOp> {
        self.operations@
    }

    /// The channel the outcome is reported on.
    pub closed spec fn reply_to(&self) -> Sender<Result<u64>> {
        self.response_tx
    }

    /// An empty transaction that reports on `response_tx`.
    pub fn new(response_tx: Sender<Result<u64>>) -> (t: Self)
        ensures
            t.ops() == Seq::<TransactionOp>::empty(),
            t.reply_to() == response_tx,
    {
        Transaction { operations: Vec::new(), response_tx }
    }

    /// Adds an insert.
    pub fn insert(&mut self, table_id: u16, entity_id: u64, data: Vec<u8>)
        ensures
            final(self).reply_to() == old(self).reply_to(),
            final(self).ops() == old(self).ops().push(TransactionOp::Insert { table_id, entity_id, data }),
    {
        self.operations.push(TransactionOp::Insert { table_id, entity_id, data });
    }

    /// Adds an update of the bytes from `field_offset` on.
    pub fn update(&mut self, table_id: u16, entity_id: u64, field_offset: usize, data: Vec<u8>)
        ensures
            final(self).reply_to() == old(self).reply_to(),
            final(self).ops() == old(self).ops().push(
                TransactionOp::Update { table_id, entity_id, field_offset, data },
            ),
    {
        self.operations.push(TransactionOp::Update { table_id, entity_id, field_offset, data });
    }

    /// Adds a delete.
    pub fn delete(&mut self, table_id: u16, entity_id: u64)
        ensures
            final(self).reply_to() == old(self).reply_to(),
            final(self).ops() == old(self).ops().push(TransactionOp::Delete { table_id, entity_id }),
    {
        self.operations.push(TransactionOp::Delete { table_id, entity_id });
    }

    /// Hands the transaction over; this engine reports version 0.
    pub fn commit(self) -> (res: Result<u64>)
        ensures
            res == Ok::<u64, crate::error::EcsDbError>(0),
    {
        Ok(0)
    }
}

/// Logs transactions and counts versions.
pub struct TransactionEngine {
    wal: Vec<TransactionOp>,
    version: u64,
}

impl TransactionEngine {
    /// The operations logged so far, in order.
    pub closed spec fn logged(&self) -> Seq<TransactionOp> {
        self.wal@
    }

    /// The number of transactions processed.
    pub closed spec fn current_version(&self) -> u64 {
        self.version
    }

    /// An engine with an empty log at version 0.
    pub fn new() -> (e: Self)
        ensures
            e.logged() == Seq::<TransactionOp>::empty(),
            e.current_version() == 0,
    {
        TransactionEngine { wal: Vec::new(), version: 0 }
    }

    /// Logs the operations of `txn` and returns the next version.
    pub fn process_transaction(&mut self, txn: Transaction) -> (res: Result<u64>)
        requires
            old(self).current_version() < u64::MAX,
        ensures
            final(self).logged() == old(self).logged() + txn.ops(),
            final(self).current_version() == old(self).current_version() + 1,
            res == Ok::<u64, crate::error::EcsDbError>(final(self).current_version()),
    {
        let mut ops = txn.operations;
        self.wal.append(&mut ops);
        self.version = self.version + 1;
        Ok(self.version)
    }
}

impl Default for TransactionEngine {
    fn default() -> (e: Self)
        ensures
            e.logged() == Seq::<TransactionOp>::empty(),
            e.current_version() == 0,
    {
        TransactionEngine::new()
    }
}

} // verus!
