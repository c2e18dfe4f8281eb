//! Deltas waiting to be broadcast.
use crate::error::Result;
use crate::storage::delta::{Delta, DeltaOp};
use std::collections::VecDeque;
use std::time::Duration;
use vstd::prelude::*;

verus! {

/// The changes of one delta, ready for broadcast.
#[derive(Debug, Clone)]
pub struct DeltaBatch {
    pub ops: Vec<DeltaOp>,
    pub version: u64,
    pub timestamp: u64,
}

impl From<Delta> for DeltaBatch {
    fn from(delta: Delta) -> (b: Self) {
        DeltaBatch { ops: delta.ops, version: delta.version, timestamp: delta.timestamp }
    }
}

impl vstd::std_specs::convert::FromSpecImpl<Delta> for DeltaBatch {
    open spec fn obeys_from_spec() -> bool {
        true
    }

    open spec fn from_spec(delta: Delta) -> Self {
        DeltaBatch { ops: delta.ops, version: delta.version, timestamp: delta.timestamp }
    }
}

/// `Duration::from_millis` of `ms`.
pub uninterp spec fn duration_of_millis(ms: u64) -> Duration;

/// `Duration::from_millis`: the duration of `ms` milliseconds.
#[verifier::external_body]
fn from_millis(ms: u64) -> (d: Duration)
    ensures
        d == duration_of_millis(ms),
{
    Duration::from_millis(ms)
}

/// Deltas waiting to be broadcast, oldest first.
pub struct BroadcastQueue {
    queue: VecDeque<DeltaBatch>,
    batch_size: usize,
    throttle_interval: Duration,
}

impl BroadcastQueue {
    /// The batches waiting, oldest first.
    pub closed spec fn pending(&self) -> Seq<DeltaBatch> {
        self.queue@
    }

    pub closed spec fn throttle(&self) -> Duration {
        self.throttle_interval
    }

    /// An empty queue that waits 10 ms between broadcasts.
    pub fn new(batch_size: usize) -> (q: Self)
        ensures
            q.pending() == Seq::<DeltaBatch>::empty(),
            q.throttle() == duration_of_millis(10),
    {
        BroadcastQueue { queue: VecDeque::new(), batch_size, throttle_interval: from_millis(10) }
    }

    /// Queues a delta as one batch.
    pub fn enqueue(&mut self, delta: Delta) -> (res: Result<()>)
        ensures
            res is Ok,
            final(self).pending() == old(self).pending().push(
                DeltaBatch { ops: delta.ops, version: delta.version, timestamp: delta.timestamp },
            ),
            final(self).throttle() == old(self).throttle(),
    {
        let batch = DeltaBatch { ops: delta.ops, version: delta.version, timestamp: delta.timestamp };
        self.queue.push_back(batch);
        Ok(())
    }

    /// The next delta to broadcast: none while `throttled` (the last
    /// broadcast was less than the throttle interval ago), else the oldest
    /// batch, taken off the queue.
    pub fn next_batch(&mut self, throttled: bool) -> (r: Option<Delta>)
        ensures
            final(self).throttle() == old(self).throttle(),
            throttled ==> r is None && final(self).pending() == old(self).pending(),
            !throttled && old(self).pending().len() == 0 ==> r is None && final(self).pending() == old(self).pending(),
            !throttled && old(self).pending().len() > 0 ==> {
                let b = old(self).pending()[0];
                &&& r == Some(Delta { ops: b.ops, version: b.version, timestamp: b.timestamp })
                &&& final(self).pending() == old(self).pending().drop_first()
            },
    {
        if throttled {
            return None;
        }
        match self.queue.pop_front() {
            Some(b) => Some(Delta { ops: b.ops, version: b.version, timestamp: b.timestamp }),
            None => None,
        }
    }

    /// The number of batches waiting.
    pub fn pending_count(&self) -> (n: usize)
        ensures
            n == self.pending().len(),
    {
        self.queue.len()
    }

    /// Drops every waiting batch.
    pub fn clear(&mut self)
        ensures
            final(self).pending() == Seq::<DeltaBatch>::empty(),
            final(self).throttle() == old(self).throttle(),
    {
        self.queue.clear();
    }

    /// The least time between two broadcasts.
    pub fn throttle_interval(&self) -> (d: Duration)
        ensures
            d == self.throttle(),
    {
        self.throttle_interval
    }

    /// Sets the least time between two broadcasts.
    pub fn set_throttle_interval(&mut self, interval: Duration)
        ensures
            final(self).throttle() == interval,
            final(self).pending() == old(self).pending(),
    {
        self.throttle_interval = interval;
    }
}

} // verus!
