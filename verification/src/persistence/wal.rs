//! What every write-ahead log offers, and a log kept in memory.
use crate::error::Result;
use crate::transaction::wal::{entry_valid, txn_entries, WalEntry, WalLogger, WalOp};
use vstd::prelude::*;

verus! {

/// A write-ahead log.
pub trait Wal: Send + Sync {
    /// The entries in log order.
    spec fn log_view(&self) -> Seq<WalEntry>;

    /// The identifier the next transaction will get.
    spec fn next_txn(&self) -> u64;

    /// Starts a transaction and returns its identifier.
    fn begin_transaction(&mut self) -> (id: u64)
        requires
            old(self).next_txn() < u64::MAX,
        ensures
            id == old(self).next_txn(),
            final(self).next_txn() == id + 1,
            final(self).log_view() == old(self).log_view(),
    ;

    /// Appends an entry for `operation`.
    fn log_operation(&mut self, transaction_id: u64, sequence: u32, operation: WalOp) -> (res: Result<()>)
        ensures
            res is Ok ==> {
                &&& final(self).log_view().len() == old(self).log_view().len() + 1
                &&& final(self).log_view().drop_last() == old(self).log_view()
                &&& final(self).log_view().last().transaction_id == transaction_id
                &&& final(self).log_view().last().sequence == sequence
                &&& final(self).log_view().last().operation == operation
                &&& entry_valid(final(self).log_view().last())
            },
            final(self).next_txn() == old(self).next_txn(),
    ;

    /// Appends a commit marker, numbered after the transaction's other entries.
    fn log_commit(&mut self, transaction_id: u64) -> (res: Result<()>)
        ensures
            res is Ok ==> {
                &&& final(self).log_view().len() == old(self).log_view().len() + 1
                &&& final(self).log_view().drop_last() == old(self).log_view()
                &&& final(self).log_view().last().transaction_id == transaction_id
                &&& final(self).log_view().last().sequence == txn_entries(old(self).log_view(), transaction_id).len() as u32
                &&& final(self).log_view().last().operation == (WalOp::Commit { transaction_id })
                &&& entry_valid(final(self).log_view().last())
            },
            final(self).next_txn() == old(self).next_txn(),
    ;

    /// Appends a rollback marker, numbered after the transaction's other
    /// entries.
    fn log_rollback(&mut self, transaction_id: u64) -> (res: Result<()>)
        ensures
            res is Ok ==> {
                &&& final(self).log_view().len() == old(self).log_view().len() + 1
                &&& final(self).log_view().drop_last() == old(self).log_view()
                &&& final(self).log_view().last().transaction_id == transaction_id
                &&& final(self).log_view().last().sequence == txn_entries(old(self).log_view(), transaction_id).len() as u32
                &&& final(self).log_view().last().operation == (WalOp::Rollback { transaction_id })
                &&& entry_valid(final(self).log_view().last())
            },
            final(self).next_txn() == old(self).next_txn(),
    ;

    /// The entries of a transaction, in log order.
    fn entries_for_transaction(&self, transaction_id: u64) -> (r: Vec<&WalEntry>)
        ensures
            r@.len() == txn_entries(self.log_view(), transaction_id).len(),
            forall|k: int| 0 <= k < r@.len() ==> *r@[k] == txn_entries(self.log_view(), transaction_id)[k],
    ;

    /// The number of entries.
    fn len(&self) -> (n: usize)
        ensures
            n == self.log_view().len(),
    ;

    /// Whether the log holds no entry.
    fn is_empty(&self) -> (b: bool)
        ensures
            b == (self.log_view().len() == 0),
    ;

    /// Drops every entry.
    fn clear(&mut self)
        ensures
            final(self).log_view() == Seq::<WalEntry>::empty(),
    ;

    /// Makes written entries durable.
    fn sync(&self) -> (res: Result<()>);
}

/// A write-ahead log kept in memory.
pub struct InMemoryWal {
    log: WalLogger,
}

impl InMemoryWal {
    /// An empty log whose first transaction is 1.
    pub fn new() -> (w: Self)
        ensures
            w.log_view() == Seq::<WalEntry>::empty(),
            w.next_txn() == 1,
    {
        InMemoryWal { log: WalLogger::new() }
    }
}

impl Default for InMemoryWal {
    fn default() -> (w: Self)
        ensures
            w.log_view() == Seq::<WalEntry>::empty(),
            w.next_txn() == 1,
    {
        InMemoryWal::new()
    }
}

impl Wal for InMemoryWal {
    closed spec fn log_view(&self) -> Seq<WalEntry> {
        self.log.log()
    }

    closed spec fn next_txn(&self) -> u64 {
        self.log.next_id()
    }

    fn begin_transaction(&mut self) -> (id: u64) {
        self.log.begin_transaction()
    }

    fn log_operation(&mut self, transaction_id: u64, sequence: u32, operation: WalOp) -> (res: Result<()>)
        ensures
            res is Ok,
    {
        self.log.log_operation(transaction_id, sequence, operation)
    }

    fn log_commit(&mut self, transaction_id: u64) -> (res: Result<()>)
        ensures
            res is Ok,
    {
        self.log.log_commit(transaction_id)
    }

    fn log_rollback(&mut self, transaction_id: u64) -> (res: Result<()>)
        ensures
            res is Ok,
    {
        self.log.log_rollback(transaction_id)
    }

    fn entries_for_transaction(&self, transaction_id: u64) -> (r: Vec<&WalEntry>) {
        self.log.entries_for_transaction(transaction_id)
    }

    fn len(&self) -> (n: usize) {
        self.log.len()
    }

    fn is_empty(&self) -> (b: bool) {
        self.log.is_empty()
    }

    fn clear(&mut self) {
        self.log.clear()
    }

    fn sync(&self) -> (res: Result<()>)
        ensures
            res is Ok,
    {
        Ok(())
    }
}

impl Wal for WalLogger {
    closed spec fn log_view(&self) -> Seq<WalEntry> {
        self.log()
    }

    closed spec fn next_txn(&self) -> u64 {
        self.next_id()
    }

    fn begin_transaction(&mut self) -> (id: u64) {
        WalLogger::begin_transaction(self)
    }

    fn log_operation(&mut self, transaction_id: u64, sequence: u32, operation: WalOp) -> (res: Result<()>)
        ensures
            res is Ok,
    {
        WalLogger::log_operation(self, transaction_id, sequence, operation)
    }

    fn log_commit(&mut self, transaction_id: u64) -> (res: Result<()>)
        ensures
            res is Ok,
    {
        WalLogger::log_commit(self, transaction_id)
    }

    fn log_rollback(&mut self, transaction_id: u64) -> (res: Result<()>)
        ensures
            res is Ok,
    {
        WalLogger::log_rollback(self, transaction_id)
    }

    fn entries_for_transaction(&self, transaction_id: u64) -> (r: Vec<&WalEntry>) {
        WalLogger::entries_for_transaction(self, transaction_id)
    }

    fn len(&self) -> (n: usize) {
        WalLogger::len(self)
    }

    fn is_empty(&self) -> (b: bool) {
        WalLogger::is_empty(self)
    }

    fn clear(&mut self) {
        WalLogger::clear(self)
    }

    fn sync(&self) -> (res: Result<()>)
        ensures
            res is Ok,
    {
        Ok(())
    }
}

} // verus!
