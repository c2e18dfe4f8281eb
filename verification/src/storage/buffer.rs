use crate::error::{EcsDbError, Result};
use crate::text::{join, join_num, owned};
use std::collections::HashMap;
use vstd::prelude::*;

verus! {

broadcast use vstd::std_specs::hash::group_hash_axioms;

/// `buf` with the bytes from `off` on replaced by `rec`.
pub open spec fn splice(buf: Seq<u8>, off: int, rec: Seq<u8>) -> Seq<u8> {
    buf.subrange(0, off) + rec + buf.subrange(off + rec.len(), buf.len() as int)
}

/// Splicing within bounds keeps the length.
pub proof fn lemma_splice_len(buf: Seq<u8>, off: int, rec: Seq<u8>)
    requires
        0 <= off,
        off + rec.len() <= buf.len(),
    ensures
        splice(buf, off, rec).len() == buf.len(),
        forall|p: int| 0 <= p < off ==> #[trigger] splice(buf, off, rec)[p] == buf[p],
        forall|p: int| off <= p < off + rec.len() ==> #[trigger] splice(buf, off, rec)[p] == rec[p - off],
        forall|p: int| off + rec.len() <= p < buf.len() ==> #[trigger] splice(buf, off, rec)[p] == buf[p],
{
}

/// `n` zero bytes.
pub open spec fn zeros(n: nat) -> Seq<u8> {
    Seq::new(n, |i: int| 0u8)
}

/// Copies `rec` into `buf` at byte offset `off`.
pub fn copy_into(buf: &mut Vec<u8>, off: usize, rec: &[u8])
    requires
        off + rec@.len() <= old(buf)@.len(),
    ensures
        final(buf)@ == splice(old(buf)@, off as int, rec@),
{
    let n = rec.len();
    let blen = buf.len();
    let mut i: usize = 0;
    while i < n
        invariant
            n == rec@.len(),
            blen == buf@.len(),
            off + n <= blen,
            buf@.len() == old(buf)@.len(),
            i <= n,
            forall|p: int| 0 <= p < off ==> buf@[p] == old(buf)@[p],
            forall|p: int| off <= p < off + i ==> buf@[p] == rec@[p - off],
            forall|p: int| off + i <= p < buf@.len() ==> buf@[p] == old(buf)@[p],
        decreases n - i,
    {
        buf.set(off + i, rec[i]);
        i += 1;
    }
    assert(buf@ =~= splice(old(buf)@, off as int, rec@));
}

/// Appends `n` zero bytes to `buf`.
fn append_zeros(buf: &mut Vec<u8>, n: usize)
    ensures
        final(buf)@ == old(buf)@ + zeros(n as nat),
{
    let mut i: usize = 0;
    while i < n
        invariant
            i <= n,
            buf@ =~= old(buf)@ + zeros(i as nat),
        decreases n - i,
    {
        buf.push(0u8);
        i += 1;
    }
}

/// Copies the `size` bytes of `src` that start at `off`.
pub fn copy_range(src: &Vec<u8>, off: usize, size: usize) -> (out: Vec<u8>)
    requires
        off + size <= src@.len(),
    ensures
        out@ == src@.subrange(off as int, off + size),
{
    let mut out: Vec<u8> = Vec::new();
    let slen = src.len();
    let mut i: usize = 0;
    while i < size
        invariant
            slen == src@.len(),
            off + size <= slen,
            i <= size,
            out@ =~= src@.subrange(off as int, off + i),
        decreases size - i,
    {
        out.push(src[off + i]);
        i += 1;
    }
    out
}

/// Copies a vector of offsets.
pub fn copy_usizes(src: &Vec<usize>) -> (out: Vec<usize>)
    ensures
        out@ == src@,
{
    let mut out: Vec<usize> = Vec::new();
    let mut i: usize = 0;
    while i < src.len()
        invariant
            i <= src@.len(),
            out@ =~= src@.subrange(0, i as int),
        decreases src@.len() - i,
    {
        out.push(src[i]);
        i += 1;
    }
    assert(out@ =~= src@);
    out
}

/// Copies a whole byte vector.
pub fn copy_bytes(src: &Vec<u8>) -> (out: Vec<u8>)
    ensures
        out@ == src@,
{
    let out = copy_range(src, 0, src.len());
    assert(src@.subrange(0, src@.len() as int) =~= src@);
    out
}

proof fn lemma_slot_end(f: int, rs: int, slots: int)
    requires
        rs > 0,
        0 <= f,
        f % rs == 0,
        f < slots * rs,
    ensures
        f + rs <= slots * rs,
{
    let k = f / rs;
    vstd::arithmetic::div_mod::lemma_fundamental_div_mod(f, rs);
    assert(f == rs * k);
    if k + 1 > slots {
        vstd::arithmetic::mul::lemma_mul_inequality(slots, k, rs);
        vstd::arithmetic::mul::lemma_mul_is_commutative(rs, k);
        assert(false);
    }
    vstd::arithmetic::mul::lemma_mul_inequality(k + 1, slots, rs);
    vstd::arithmetic::mul::lemma_mul_is_distributive_add_other_way(rs, k, 1);
    vstd::arithmetic::mul::lemma_mul_is_commutative(rs, k);
}

/// Fixed-size record storage with a write buffer that readers do not see
/// until `commit` copies it into the read buffer.
pub struct StorageBuffer {
    read_buffer: Vec<u8>,
    write_buffer: Vec<u8>,
    staging_buffer: Vec<u8>,
    record_count: u64,
    record_size: usize,
    capacity: usize,
}

impl StorageBuffer {
    pub closed spec fn read_view(&self) -> Seq<u8> {
        self.read_buffer@
    }

    pub closed spec fn write_view(&self) -> Seq<u8> {
        self.write_buffer@
    }

    pub closed spec fn count(&self) -> nat {
        self.record_count as nat
    }

    pub closed spec fn size(&self) -> nat {
        self.record_size as nat
    }

    pub closed spec fn cap(&self) -> nat {
        self.capacity as nat
    }

    /// The write buffer holds the capacity, and the records appended so far fit in it.
    pub closed spec fn wf(&self) -> bool {
        &&& self.write_buffer@.len() == self.capacity
        &&& self.staging_buffer@.len() <= self.capacity
        &&& self.record_count * self.record_size <= self.capacity
        &&& self.record_count <= usize::MAX
    }

    pub fn new(record_size: usize, initial_capacity: usize) -> (b: Self)
        ensures
            b.wf(),
            b.read_view() == zeros(initial_capacity as nat),
            b.write_view() == zeros(initial_capacity as nat),
            b.count() == 0,
            b.size() == record_size,
            b.cap() == initial_capacity,
    {
        let r = vec![0u8; initial_capacity];
        let w = vec![0u8; initial_capacity];
        let s = vec![0u8; initial_capacity];
        assert(r@ =~= zeros(initial_capacity as nat));
        assert(w@ =~= zeros(initial_capacity as nat));
        StorageBuffer {
            read_buffer: r,
            write_buffer: w,
            staging_buffer: s,
            record_count: 0,
            record_size,
            capacity: initial_capacity,
        }
    }

    /// The capacity after making room for the next appended record.
    pub open spec fn grown_cap(&self) -> nat {
        if self.count() * self.size() + self.size() > self.cap() {
            (self.cap() * 2) as nat
        } else {
            self.cap()
        }
    }

    /// Appends a record; returns its byte offset.
    pub fn insert(&mut self, record: &[u8]) -> (res: Result<usize>)
        requires
            old(self).wf(),
            record@.len() == old(self).size() ==> {
                &&& old(self).count() + 1 <= usize::MAX
                &&& (old(self).count() + 1) * old(self).size() <= old(self).grown_cap()
                &&& old(self).grown_cap() <= usize::MAX
            },
        ensures
            final(self).wf(),
            record@.len() != old(self).size() ==> (res matches Err(EcsDbError::SchemaError(_))
                && *final(self) == *old(self)),
            record@.len() == old(self).size() ==> {
                let off = old(self).count() * old(self).size();
                let grown = old(self).write_view() + zeros(
                    (old(self).grown_cap() - old(self).cap()) as nat,
                );
                &&& res == Ok::<usize, EcsDbError>(off as usize)
                &&& final(self).cap() == old(self).grown_cap()
                &&& final(self).write_view() == splice(grown, off as int, record@)
                &&& final(self).count() == old(self).count() + 1
                &&& final(self).read_view() == old(self).read_view()
                &&& final(self).size() == old(self).size()
            },
    {
        if record.len() != self.record_size {
            let m = join_num(owned("Record size mismatch: expected "), self.record_size as u64);
            let m = join_num(join(m, ", got "), record.len() as u64);
            return Err(EcsDbError::SchemaError(m));
        }
        let ghost c = self.record_count as int;
        let ghost rs = self.record_size as int;
        assert((c + 1) * rs == c * rs + rs) by (nonlinear_arith);
        let count = self.record_count as usize;
        let offset = count * self.record_size;
        if offset + self.record_size > self.capacity {
            self.grow();
        }
        copy_into(&mut self.write_buffer, offset, record);
        self.record_count += 1;
        Ok(offset)
    }

    /// Overwrites bytes of the write buffer in place.
    pub fn update(&mut self, offset: usize, record: &[u8]) -> (res: Result<()>)
        requires
            old(self).wf(),
            offset + record@.len() <= usize::MAX,
        ensures
            final(self).wf(),
            offset + record@.len() > old(self).write_view().len() ==> (res matches Err(
                EcsDbError::SchemaError(_),
            ) && *final(self) == *old(self)),
            offset + record@.len() <= old(self).write_view().len() ==> {
                &&& res is Ok
                &&& final(self).write_view() == splice(
                    old(self).write_view(),
                    offset as int,
                    record@,
                )
                &&& final(self).read_view() == old(self).read_view()
                &&& final(self).count() == old(self).count()
                &&& final(self).size() == old(self).size()
                &&& final(self).cap() == old(self).cap()
            },
    {
        if offset + record.len() > self.write_buffer.len() {
            return Err(EcsDbError::SchemaError(owned("Offset out of bounds")));
        }
        copy_into(&mut self.write_buffer, offset, record);
        Ok(())
    }

    /// Copies `size` bytes at `offset` from the read buffer.
    pub fn read(&self, offset: usize, size: usize) -> (res: Result<Vec<u8>>)
        requires
            offset + size <= usize::MAX,
        ensures
            offset + size > self.read_view().len() ==> res matches Err(EcsDbError::SchemaError(_)),
            offset + size <= self.read_view().len() ==> (res matches Ok(v) && v@
                == self.read_view().subrange(offset as int, offset + size)),
    {
        if offset + size > self.read_buffer.len() {
            return Err(EcsDbError::SchemaError(owned("Offset out of bounds")));
        }
        Ok(copy_range(&self.read_buffer, offset, size))
    }

    /// Makes the write buffer visible to readers.
    pub fn commit(&mut self)
        requires
            old(self).wf(),
        ensures
            final(self).wf(),
            final(self).read_view() == old(self).write_view(),
            final(self).write_view() == old(self).write_view(),
            final(self).count() == old(self).count(),
            final(self).size() == old(self).size(),
            final(self).cap() == old(self).cap(),
    {
        self.staging_buffer = copy_bytes(&self.write_buffer);
        self.read_buffer = copy_bytes(&self.staging_buffer);
    }

    fn grow(&mut self)
        requires
            old(self).wf(),
            old(self).capacity * 2 <= usize::MAX,
        ensures
            final(self).wf(),
            final(self).capacity == old(self).capacity * 2,
            final(self).write_buffer@ == old(self).write_buffer@ + zeros(old(self).capacity as nat),
            final(self).read_buffer == old(self).read_buffer,
            final(self).record_count == old(self).record_count,
            final(self).record_size == old(self).record_size,
    {
        let old_cap = self.capacity;
        self.capacity = self.capacity * 2;
        append_zeros(&mut self.write_buffer, old_cap);
        let extra = self.capacity - self.staging_buffer.len();
        append_zeros(&mut self.staging_buffer, extra);
    }

    pub fn record_count(&self) -> (n: u64)
        ensures
            n == self.count(),
    {
        self.record_count
    }
}


/// The byte at position `k` of slot `j` (records of `rs` bytes).
pub open spec fn slot_byte(buf: Seq<u8>, rs: nat, j: int, k: int) -> u8 {
    buf[j * rs + k]
}

/// Whether slot `s` is named by an offset in `free` (records of `rs` bytes).
pub open spec fn slot_is_free(free: Seq<usize>, rs: nat, s: int) -> bool {
    exists|i: int| 0 <= i < free.len() && free[i] as int / rs as int == s
}

/// The slots below `total` that no free offset names, in increasing order.
pub open spec fn live_slots(free: Seq<usize>, rs: nat, total: nat) -> Seq<int>
    decreases total,
{
    if total == 0 {
        Seq::empty()
    } else {
        let prev = live_slots(free, rs, (total - 1) as nat);
        if slot_is_free(free, rs, total - 1) {
            prev
        } else {
            prev.push(total - 1)
        }
    }
}

proof fn lemma_live_slots_props(free: Seq<usize>, rs: nat, total: nat)
    ensures
        live_slots(free, rs, total).len() <= total,
        forall|j: int|
            0 <= j < live_slots(free, rs, total).len() ==> j <= #[trigger] live_slots(
                free,
                rs,
                total,
            )[j] < total && !slot_is_free(free, rs, live_slots(free, rs, total)[j]),
        forall|j: int, k: int|
            0 <= j < k < live_slots(free, rs, total).len() ==> live_slots(free, rs, total)[j]
                < live_slots(free, rs, total)[k],
    decreases total,
{
    if total > 0 {
        lemma_live_slots_props(free, rs, (total - 1) as nat);
    }
}


/// What an insert of `rec` does to the storage.
pub open spec fn insert_post(b0: &ArcStorageBuffer, b1: &ArcStorageBuffer, rec: Seq<u8>) -> bool {
    let off = b0.insert_offset();
    let grown = if b0.insert_grows() {
        b0.write_view() + zeros(b0.write_view().len())
    } else {
        b0.write_view()
    };
    &&& 0 <= off
    &&& off + rec.len() <= grown.len()
    &&& grown.len() <= usize::MAX
    &&& b1.write_view() == splice(grown, off, rec)
    &&& b1.free_view() == if b0.free_view().len() > 0 {
        b0.free_view().drop_last()
    } else {
        b0.free_view()
    }
    &&& b1.slots() == if b0.free_view().len() > 0 {
        b0.slots()
    } else {
        b0.slots() + 1
    }
    &&& b1.active() == b0.active() + 1
    &&& b1.read_view() == b0.read_view()
    &&& b1.gen() == b0.gen()
    &&& b1.size() == b0.size()
}

/// Whether `offset` starts a slot that was handed out.
pub open spec fn freeable(b: &ArcStorageBuffer, offset: usize) -> bool {
    (if b.size() == 0 {
        offset == 0
    } else {
        offset as int % b.size() as int == 0
    }) && offset < b.slots() * b.size()
}

/// What marking `offset` free does to the storage.
pub open spec fn free_post(b0: &ArcStorageBuffer, b1: &ArcStorageBuffer, offset: usize) -> bool {
    &&& freeable(b0, offset) ==> b1.free_view() == b0.free_view().push(offset) && b1.active() == (
    if b0.active() > 0 {
        b0.active() - 1
    } else {
        0
    })
    &&& !freeable(b0, offset) ==> b1.free_view() == b0.free_view() && b1.active() == b0.active()
    &&& b1.write_view() == b0.write_view()
    &&& b1.read_view() == b0.read_view()
    &&& b1.slots() == b0.slots()
    &&& b1.gen() == b0.gen()
    &&& b1.size() == b0.size()
}

/// What overwriting bytes at `offset` does to the storage.
pub open spec fn update_post(
    b0: &ArcStorageBuffer,
    b1: &ArcStorageBuffer,
    offset: usize,
    rec: Seq<u8>,
) -> bool {
    &&& b1.write_view() == splice(b0.write_view(), offset as int, rec)
    &&& b1.read_view() == b0.read_view()
    &&& b1.slots() == b0.slots()
    &&& b1.free_view() == b0.free_view()
    &&& b1.active() == b0.active()
    &&& b1.gen() == b0.gen()
    &&& b1.size() == b0.size()
}

/// What committing does to the storage (the generation aside).
pub open spec fn commit_post(b0: &ArcStorageBuffer, b1: &ArcStorageBuffer) -> bool {
    &&& b1.read_view() == b0.write_view()
    &&& b1.write_view() == b0.write_view()
    &&& b1.slots() == b0.slots()
    &&& b1.free_view() == b0.free_view()
    &&& b1.active() == b0.active()
    &&& b1.size() == b0.size()
}

/// Where compaction moves the record that starts at byte offset `o`
/// (offsets that start no live slot stay where they are).
pub open spec fn relocated(b0: &ArcStorageBuffer, o: usize) -> usize {
    let rs = b0.size();
    let live = live_slots(b0.free_view(), rs, b0.slots());
    if exists|j: int| 0 <= j < live.len() && #[trigger] (live[j] * rs) as usize == o {
        let j = choose|j: int| 0 <= j < live.len() && #[trigger] (live[j] * rs) as usize == o;
        (j * rs) as usize
    } else {
        o
    }
}

/// Offset `o` starts a slot that is handed out and not free.
pub open spec fn starts_live_slot(b: &ArcStorageBuffer, o: usize) -> bool {
    let live = live_slots(b.free_view(), b.size(), b.slots());
    exists|j: int| 0 <= j < live.len() && #[trigger] (live[j] * b.size()) as usize == o
}

/// Compaction moves the record of live slot `j` to slot `j`: the bytes at
/// its new offset are the bytes it had.
pub proof fn law_compact_moves_record(b0: &ArcStorageBuffer, b1: &ArcStorageBuffer, o: usize)
    requires
        b0.wf(),
        b0.size() > 0,
        compact_buffer_post(b0, b1),
        starts_live_slot(b0, o),
    ensures
        relocated(b0, o) + b0.size() <= b1.write_view().len(),
        o + b0.size() <= b0.write_view().len(),
        b1.write_view().subrange(relocated(b0, o) as int, relocated(b0, o) + b0.size())
            == b0.write_view().subrange(o as int, o + b0.size()),
{
    let rs = b0.size();
    let live = live_slots(b0.free_view(), rs, b0.slots());
    let j = choose|j: int| 0 <= j < live.len() && #[trigger] (live[j] * rs) as usize == o;
    lemma_live_slots_props(b0.free_view(), rs, b0.slots());
    assert(j <= live[j] < b0.slots());
    assert(live[j] * rs + rs <= b0.slots() * rs) by (nonlinear_arith)
        requires live[j] < b0.slots(), rs > 0;
    assert(j * rs + rs <= live[j] * rs + rs) by (nonlinear_arith)
        requires j <= live[j], rs > 0;
    assert(0 <= j * rs) by (nonlinear_arith)
        requires 0 <= j, rs > 0;
    assert((live[j] * rs) as usize == live[j] * rs);
    assert(relocated(b0, o) == (j * rs) as usize);
    let w0 = b0.write_view();
    let w1 = b1.write_view();
    assert forall|k: int| 0 <= k < rs implies #[trigger] w1.subrange(j * rs, j * rs + rs)[k] == w0.subrange(
        live[j] * rs,
        live[j] * rs + rs,
    )[k] by {
        assert(slot_byte(w1, rs, j, k) == slot_byte(w0, rs, live[j], k));
    }
    assert(w1.subrange(j * rs, j * rs + rs) =~= w0.subrange(live[j] * rs, live[j] * rs + rs));
}

/// `st` is the write-side state of `b`, as `snapshot_state` takes it.
pub open spec fn state_of(b: &ArcStorageBuffer, st: (Seq<u8>, u64, Seq<usize>, u64)) -> bool {
    &&& st.0 == b.write_view()
    &&& st.1 == b.slots()
    &&& st.2 == b.free_view()
    &&& st.3 == b.active()
}

/// `b1` is `b0` with the write-side state `st` put back, as `restore_state`
/// does.
pub open spec fn state_restored(b0: &ArcStorageBuffer, b1: &ArcStorageBuffer, st: (Seq<u8>, u64, Seq<usize>, u64)) -> bool {
    &&& state_of(b1, st)
    &&& b1.read_view() == b0.read_view()
    &&& b1.gen() == b0.gen()
    &&& b1.size() == b0.size()
}

/// Restoring a state taken earlier, whatever was done in between, gives the
/// write side back as it was then: the write buffer, the slots handed out,
/// the free list and the record count; the committed side and generation of
/// the buffer at the time of the restore stay.
pub proof fn law_restore_state(b0: &ArcStorageBuffer, st: (Seq<u8>, u64, Seq<usize>, u64), bm: &ArcStorageBuffer, b2: &ArcStorageBuffer)
    requires
        state_of(b0, st),
        state_restored(bm, b2, st),
    ensures
        b2.write_view() == b0.write_view(),
        b2.slots() == b0.slots(),
        b2.free_view() == b0.free_view(),
        b2.active() == b0.active(),
        b2.read_view() == bm.read_view(),
        b2.gen() == bm.gen(),
{
}

/// An insert puts its record in the most recently freed slot that is not
/// yet reused, else in the next fresh slot, and adds one to the record
/// count; once committed, the record reads back at that offset. `b1` is
/// `b0` after inserting `rec`, and `b2` is `b1` committed.
pub proof fn law_insert_commit_read(
    b0: &ArcStorageBuffer,
    b1: &ArcStorageBuffer,
    b2: &ArcStorageBuffer,
    rec: Seq<u8>,
)
    requires
        b0.wf(),
        rec.len() == b0.size(),
        insert_post(b0, b1, rec),
        commit_post(b1, b2),
    ensures
        b0.insert_offset() == if b0.free_view().len() > 0 {
            b0.free_view().last() as int
        } else {
            (b0.slots() * b0.size()) as int
        },
        b2.active() == b0.active() + 1,
        b0.insert_offset() + rec.len() <= b2.read_view().len(),
        b2.read_view().subrange(b0.insert_offset(), b0.insert_offset() + rec.len()) == rec,
{
    let off = b0.insert_offset();
    let grown = if b0.insert_grows() {
        b0.write_view() + zeros(b0.write_view().len())
    } else {
        b0.write_view()
    };
    lemma_splice_len(grown, off, rec);
    assert(b2.read_view().subrange(off, off + rec.len()) =~= rec);
}

/// Appending to a buffer that holds no record places records one after
/// another: the `i`th append returns offset `i` times the record size.
/// `bs` are the buffers before and after each append and `offs` the offsets
/// returned.
pub proof fn law_append_offsets(bs: Seq<StorageBuffer>, offs: Seq<int>)
    requires
        bs.len() == offs.len() + 1,
        bs[0].count() == 0,
        forall|i: int| 0 <= i < offs.len() ==> {
            &&& #[trigger] offs[i] == bs[i].count() * bs[i].size()
            &&& bs[i + 1].count() == bs[i].count() + 1
            &&& bs[i + 1].size() == bs[i].size()
        },
    ensures
        forall|i: int| 0 <= i < offs.len() ==> #[trigger] offs[i] == i * bs[0].size(),
    decreases offs.len(),
{
    if offs.len() > 0 {
        let n = offs.len() - 1;
        let bs1 = bs.drop_last();
        let offs1 = offs.drop_last();
        assert forall|i: int| 0 <= i < offs1.len() implies {
            &&& #[trigger] offs1[i] == bs1[i].count() * bs1[i].size()
            &&& bs1[i + 1].count() == bs1[i].count() + 1
            &&& bs1[i + 1].size() == bs1[i].size()
        } by {
            assert(offs1[i] == offs[i]);
            assert(bs1[i] == bs[i]);
            assert(bs1[i + 1] == bs[i + 1]);
        }
        law_append_offsets(bs1, offs1);
        assert forall|i: int| 0 <= i <= n implies bs[i].count() == i && bs[i].size() == bs[0].size() by {
            lemma_append_counts(bs, offs, i);
        }
        assert forall|i: int| 0 <= i < offs.len() implies #[trigger] offs[i] == i * bs[0].size() by {
            lemma_append_counts(bs, offs, i);
        }
    }
}

proof fn lemma_append_counts(bs: Seq<StorageBuffer>, offs: Seq<int>, i: int)
    requires
        bs.len() == offs.len() + 1,
        bs[0].count() == 0,
        forall|k: int| 0 <= k < offs.len() ==> {
            &&& #[trigger] offs[k] == bs[k].count() * bs[k].size()
            &&& bs[k + 1].count() == bs[k].count() + 1
            &&& bs[k + 1].size() == bs[k].size()
        },
        0 <= i <= offs.len(),
    ensures
        bs[i].count() == i,
        bs[i].size() == bs[0].size(),
    decreases i,
{
    if i > 0 {
        lemma_append_counts(bs, offs, i - 1);
        assert(offs[i - 1] == bs[i - 1].count() * bs[i - 1].size());
    }
}

/// Compaction never moves a record up.
pub proof fn lemma_relocated_le(b0: &ArcStorageBuffer, o: usize)
    requires
        b0.wf(),
    ensures
        relocated(b0, o) <= o,
{
    let rs = b0.size();
    let live = live_slots(b0.free_view(), rs, b0.slots());
    if exists|j: int| 0 <= j < live.len() && #[trigger] (live[j] * rs) as usize == o {
        let j = choose|j: int| 0 <= j < live.len() && #[trigger] (live[j] * rs) as usize == o;
        lemma_live_slots_props(b0.free_view(), rs, b0.slots());
        assert(j <= live[j]);
        assert(0 <= j * rs <= live[j] * rs) by (nonlinear_arith)
            requires 0 <= j <= live[j], rs >= 0;
        assert(live[j] * rs <= b0.slots() * rs) by (nonlinear_arith)
            requires live[j] < b0.slots(), rs >= 0;
        assert((live[j] * rs) as usize == live[j] * rs);
    }
}

/// What compaction does to the storage buffers.
pub open spec fn compact_buffer_post(b0: &ArcStorageBuffer, b1: &ArcStorageBuffer) -> bool {
    let rs = b0.size();
    let live = live_slots(b0.free_view(), rs, b0.slots());
    let w0 = b0.write_view();
    let w1 = b1.write_view();
    &&& b1.slots() == live.len()
    &&& b1.free_view() == Seq::<usize>::empty()
    &&& w1.len() == w0.len()
    &&& forall|j: int, k: int|
        0 <= j < live.len() && 0 <= k < rs ==> #[trigger] slot_byte(w1, rs, j, k) == slot_byte(
            w0,
            rs,
            live[j],
            k,
        )
    &&& forall|p: int| live.len() * rs <= p < w0.len() ==> w1[p] == w0[p]
    &&& b1.read_view() == b0.read_view()
    &&& b1.active() == b0.active()
    &&& b1.gen() == b0.gen()
    &&& b1.size() == b0.size()
}

/// What compaction does to the storage, given the offset mapping it returned.
pub open spec fn compact_post(
    b0: &ArcStorageBuffer,
    b1: &ArcStorageBuffer,
    mapping: Map<usize, usize>,
) -> bool {
    let rs = b0.size();
    let live = live_slots(b0.free_view(), rs, b0.slots());
    let w0 = b0.write_view();
    let w1 = b1.write_view();
    &&& compact_buffer_post(b0, b1)
    &&& b1.slots() == live.len()
    &&& b1.free_view() == Seq::<usize>::empty()
    &&& w1.len() == w0.len()
    &&& forall|j: int, k: int|
        0 <= j < live.len() && 0 <= k < rs ==> #[trigger] slot_byte(w1, rs, j, k) == slot_byte(
            w0,
            rs,
            live[j],
            k,
        )
    &&& forall|p: int| live.len() * rs <= p < w0.len() ==> w1[p] == w0[p]
    &&& forall|j: int|
        0 <= j < live.len() ==> mapping.contains_key(#[trigger] (live[j] * rs) as usize)
            && mapping[(live[j] * rs) as usize] == (j * rs) as usize
    &&& forall|o: usize|
        mapping.contains_key(o) ==> exists|j: int|
            0 <= j < live.len() && o == #[trigger] (live[j] * rs) as usize
    &&& b1.read_view() == b0.read_view()
    &&& b1.active() == b0.active()
    &&& b1.gen() == b0.gen()
    &&& b1.size() == b0.size()
}

/// Record storage with slot reuse: deleted records leave free slots that
/// later inserts fill before the buffer is extended.
pub struct ArcStorageBuffer {
    read_buffer: Vec<u8>,
    write_buffer: Vec<u8>,
    next_record_offset: u64,
    record_size: usize,
    generation: u64,
    free_list: Vec<usize>,
    active_count: u64,
}

impl ArcStorageBuffer {
    pub closed spec fn read_view(&self) -> Seq<u8> {
        self.read_buffer@
    }

    pub closed spec fn write_view(&self) -> Seq<u8> {
        self.write_buffer@
    }

    /// Number of slots handed out so far (free or not).
    pub closed spec fn slots(&self) -> nat {
        self.next_record_offset as nat
    }

    /// Byte offsets of free slots, the next to be reused last.
    pub closed spec fn free_view(&self) -> Seq<usize> {
        self.free_list@
    }

    pub closed spec fn active(&self) -> nat {
        self.active_count as nat
    }

    pub closed spec fn gen(&self) -> nat {
        self.generation as nat
    }

    pub closed spec fn size(&self) -> nat {
        self.record_size as nat
    }

    /// Every slot handed out lies in the write buffer, and every free offset
    /// starts a slot that was handed out.
    pub closed spec fn wf(&self) -> bool {
        &&& self.next_record_offset * self.record_size <= self.write_buffer@.len()
        &&& self.write_buffer@.len() <= usize::MAX
        &&& self.next_record_offset <= usize::MAX
        &&& forall|i: int|
            0 <= i < self.free_list@.len() ==> {
                &&& #[trigger] self.free_list@[i] < self.next_record_offset * self.record_size
                &&& self.free_list@[i] as int % self.record_size as int == 0
            }
    }

    pub fn new(record_size: usize, initial_capacity: usize) -> (b: Self)
        ensures
            b.wf(),
            b.read_view() == zeros(initial_capacity as nat),
            b.write_view() == zeros(initial_capacity as nat),
            b.slots() == 0,
            b.free_view() == Seq::<usize>::empty(),
            b.active() == 0,
            b.gen() == 0,
            b.size() == record_size,
    {
        let r = vec![0u8; initial_capacity];
        let w = vec![0u8; initial_capacity];
        assert(r@ =~= zeros(initial_capacity as nat));
        assert(w@ =~= zeros(initial_capacity as nat));
        ArcStorageBuffer {
            read_buffer: r,
            write_buffer: w,
            next_record_offset: 0,
            record_size,
            generation: 0,
            free_list: Vec::new(),
            active_count: 0,
        }
    }

    /// Where the next insert puts its record.
    pub open spec fn insert_offset(&self) -> int {
        if self.free_view().len() > 0 {
            self.free_view().last() as int
        } else {
            (self.slots() * self.size()) as int
        }
    }

    /// Whether the next insert doubles the write buffer.
    pub open spec fn insert_grows(&self) -> bool {
        self.free_view().len() == 0 && self.slots() * self.size() + self.size() > self.write_view().len()
    }

    /// The next insert does not overflow a counter, and one doubling of the
    /// write buffer makes room for it.
    pub open spec fn can_insert(&self) -> bool {
        &&& self.active() + 1 <= u64::MAX
        &&& self.free_view().len() == 0 ==> self.slots() + 1 <= usize::MAX
        &&& self.insert_grows() ==> {
            &&& self.write_view().len() * 2 <= usize::MAX
            &&& self.slots() * self.size() + self.size() <= self.write_view().len() * 2
        }
    }

    /// Whether the next insert fits within the machine's limits.
    pub fn has_room(&self) -> (b: bool)
        requires
            self.wf(),
        ensures
            b == self.can_insert(),
    {
        if self.active_count == u64::MAX {
            return false;
        }
        let n = self.next_record_offset as u128;
        let rs = self.record_size as u128;
        let len = self.write_buffer.len() as u128;
        if self.free_list.len() == 0 {
            if n + 1 > usize::MAX as u128 {
                return false;
            }
            assert(n * rs <= len);
            if n * rs + rs > len {
                if len * 2 > usize::MAX as u128 {
                    return false;
                }
                if n * rs + rs > len * 2 {
                    return false;
                }
            }
        }
        true
    }

    /// Stores a record in a free slot, or in a new slot at the end; returns
    /// its byte offset.
    pub fn insert(&mut self, record: &[u8]) -> (res: Result<usize>)
        requires
            old(self).wf(),
            record@.len() == old(self).size() ==> old(self).can_insert(),
        ensures
            final(self).wf(),
            record@.len() != old(self).size() ==> (res matches Err(EcsDbError::SchemaError(_))
                && *final(self) == *old(self)),
            record@.len() == old(self).size() ==> res == Ok::<usize, EcsDbError>(
                old(self).insert_offset() as usize,
            ) && insert_post(old(self), final(self), record@),
    {
        if record.len() != self.record_size {
            let m = join_num(owned("Record size mismatch: expected "), self.record_size as u64);
            let m = join_num(join(m, ", got "), record.len() as u64);
            return Err(EcsDbError::SchemaError(m));
        }
        let ghost n = self.next_record_offset as int;
        let ghost rs = self.record_size as int;
        assert((n + 1) * rs == n * rs + rs) by (nonlinear_arith);
        let offset = if self.free_list.len() > 0 {
            let off = self.free_list.pop().unwrap();
            proof {
                let i = old(self).free_list@.len() - 1;
                assert(old(self).free_list@[i] == off);
                if rs > 0 {
                    lemma_slot_end(off as int, rs, n);
                }
            }
            off
        } else {
            let next = self.next_record_offset as usize;
            let wl = self.write_buffer.len();
            assert(next * self.record_size <= wl);
            let off = next * self.record_size;
            assert(off + self.record_size <= usize::MAX);
            self.next_record_offset = self.next_record_offset + 1;
            if off + self.record_size > self.write_buffer.len() {
                self.grow();
            }
            off
        };
        copy_into(&mut self.write_buffer, offset, record);
        self.active_count = self.active_count + 1;
        proof {
            let n0 = old(self).next_record_offset as int;
            let n1 = self.next_record_offset as int;
            assert(n0 * rs <= n1 * rs) by (nonlinear_arith)
                requires
                    n0 <= n1, rs >= 0,
            ;
            assert forall|i: int| 0 <= i < self.free_list@.len() implies {
                &&& #[trigger] self.free_list@[i] < self.next_record_offset * self.record_size
                &&& self.free_list@[i] as int % self.record_size as int == 0
            } by {
                assert(self.free_list@[i] == old(self).free_list@[i]);
            }
        }
        Ok(offset)
    }

    /// Marks a slot free for reuse; offsets that do not start a handed-out
    /// slot are ignored.
    pub fn free_slot(&mut self, offset: usize)
        requires
            old(self).wf(),
        ensures
            final(self).wf(),
            free_post(old(self), final(self), offset),
    {
        let aligned = if self.record_size == 0 {
            offset == 0
        } else {
            offset % self.record_size == 0
        };
        let next = self.next_record_offset as usize;
        let wl = self.write_buffer.len();
        assert(next * self.record_size <= wl);
        if aligned && offset < next * self.record_size {
            self.free_list.push(offset);
            self.active_count = if self.active_count > 0 {
                self.active_count - 1
            } else {
                0
            };
        }
    }

    /// Overwrites bytes of the write buffer in place.
    pub fn update(&mut self, offset: usize, record: &[u8]) -> (res: Result<()>)
        requires
            old(self).wf(),
            offset + record@.len() <= usize::MAX,
        ensures
            final(self).wf(),
            offset + record@.len() > old(self).write_view().len() ==> (res matches Err(
                EcsDbError::SchemaError(_),
            ) && *final(self) == *old(self)),
            offset + record@.len() <= old(self).write_view().len() ==> {
                &&& res is Ok
                &&& final(self).write_view() == splice(
                    old(self).write_view(),
                    offset as int,
                    record@,
                )
                &&& final(self).read_view() == old(self).read_view()
                &&& final(self).slots() == old(self).slots()
                &&& final(self).free_view() == old(self).free_view()
                &&& final(self).active() == old(self).active()
                &&& final(self).gen() == old(self).gen()
                &&& final(self).size() == old(self).size()
            },
    {
        if offset + record.len() > self.write_buffer.len() {
            return Err(EcsDbError::SchemaError(owned("Offset out of bounds")));
        }
        copy_into(&mut self.write_buffer, offset, record);
        Ok(())
    }

    /// Copies `size` bytes at `offset` from the read buffer.
    pub fn read(&self, offset: usize, size: usize) -> (res: Result<Vec<u8>>)
        requires
            offset + size <= usize::MAX,
        ensures
            offset + size > self.read_view().len() ==> res matches Err(EcsDbError::SchemaError(_)),
            offset + size <= self.read_view().len() ==> (res matches Ok(v) && v@
                == self.read_view().subrange(offset as int, offset + size)),
    {
        if offset + size > self.read_buffer.len() {
            return Err(EcsDbError::SchemaError(owned("Offset out of bounds")));
        }
        Ok(copy_range(&self.read_buffer, offset, size))
    }

    /// Copy of the whole read buffer.
    pub fn current_read_buffer(&self) -> (v: Vec<u8>)
        ensures
            v@ == self.read_view(),
    {
        copy_bytes(&self.read_buffer)
    }

    /// Makes the write buffer visible to readers.
    pub fn commit(&mut self)
        requires
            old(self).wf(),
        ensures
            final(self).wf(),
            final(self).read_view() == old(self).write_view(),
            final(self).write_view() == old(self).write_view(),
            final(self).slots() == old(self).slots(),
            final(self).free_view() == old(self).free_view(),
            final(self).active() == old(self).active(),
            final(self).gen() == old(self).gen(),
            final(self).size() == old(self).size(),
    {
        self.read_buffer = copy_bytes(&self.write_buffer);
    }

    /// Commits and tags the new read buffer with a generation number.
    pub fn commit_with_generation(&mut self, generation: u64)
        requires
            old(self).wf(),
        ensures
            final(self).wf(),
            final(self).read_view() == old(self).write_view(),
            final(self).write_view() == old(self).write_view(),
            final(self).slots() == old(self).slots(),
            final(self).free_view() == old(self).free_view(),
            final(self).active() == old(self).active(),
            final(self).gen() == generation,
            final(self).size() == old(self).size(),
    {
        self.commit();
        self.generation = generation;
    }

    /// Generation of the current read buffer.
    pub fn generation(&self) -> (g: u64)
        ensures
            g == self.gen(),
    {
        self.generation
    }

    fn grow(&mut self)
        requires
            old(self).write_buffer@.len() * 2 <= usize::MAX,
        ensures
            final(self).write_buffer@ == old(self).write_buffer@ + zeros(
                old(self).write_buffer@.len(),
            ),
            final(self).read_buffer == old(self).read_buffer,
            final(self).next_record_offset == old(self).next_record_offset,
            final(self).record_size == old(self).record_size,
            final(self).free_list == old(self).free_list,
            final(self).active_count == old(self).active_count,
            final(self).generation == old(self).generation,
    {
        let n = self.write_buffer.len();
        append_zeros(&mut self.write_buffer, n);
    }


    /// Moves the records of live slots down over the free slots, in slot
    /// order, and empties the free list.  Returns, for each live slot, its
    /// old byte offset mapped to its new one.
    #[verifier::rlimit(40)]
    pub fn compact(&mut self) -> (mapping: HashMap<usize, usize>)
        requires
            old(self).wf(),
        ensures
            final(self).wf(),
            ({
                let rs = old(self).size();
                let live = live_slots(old(self).free_view(), rs, old(self).slots());
                let w0 = old(self).write_view();
                let w1 = final(self).write_view();
                &&& final(self).slots() == live.len()
                &&& final(self).free_view() == Seq::<usize>::empty()
                &&& w1.len() == w0.len()
                &&& forall|j: int, k: int|
                    0 <= j < live.len() && 0 <= k < rs ==> #[trigger] slot_byte(w1, rs, j, k)
                        == slot_byte(w0, rs, live[j], k)
                &&& forall|p: int| live.len() * rs <= p < w0.len() ==> w1[p] == w0[p]
                &&& forall|j: int|
                    0 <= j < live.len() ==> mapping@.contains_key(#[trigger] (live[j] * rs) as usize)
                        && mapping@[(live[j] * rs) as usize] == (j * rs) as usize
                &&& forall|o: usize|
                    mapping@.contains_key(o) ==> exists|j: int|
                        0 <= j < live.len() && o == #[trigger] (live[j] * rs) as usize
            }),
            final(self).read_view() == old(self).read_view(),
            final(self).active() == old(self).active(),
            final(self).gen() == old(self).gen(),
            final(self).size() == old(self).size(),
            compact_post(old(self), final(self), mapping@),
            forall|o: usize| #[trigger] mapping@.contains_key(o) ==> mapping@[o] == relocated(old(self), o),
    {
        let rs = self.record_size;
        let total = self.next_record_offset as usize;
        let ghost free = self.free_list@;
        let ghost w0 = self.write_buffer@;
        let ghost l = w0.len();
        let ghost rsn = rs as nat;
        let wl = self.write_buffer.len();
        assert(total * rs <= wl);
        // Which slots are free.
        let mut is_free: Vec<bool> = Vec::new();
        let mut t: usize = 0;
        while t < total
            invariant
                t <= total,
                is_free@.len() == t,
                forall|s: int| 0 <= s < t ==> !is_free@[s],
            decreases total - t,
        {
            is_free.push(false);
            t += 1;
        }
        let nfree = self.free_list.len();
        let mut i: usize = 0;
        while i < nfree
            invariant
                self.wf(),
                self.free_list@ == free,
                self.record_size == rs,
                self.next_record_offset == total,
                nfree == free.len(),
                i <= nfree,
                is_free@.len() == total,
                forall|s: int|
                    0 <= s < total ==> (is_free@[s] <==> exists|m: int|
                        0 <= m < i && free[m] as int / rs as int == s),
            decreases nfree - i,
        {
            let f = self.free_list[i];
            assert(f < total * rs);
            assert(rs > 0) by {
                if rs == 0 {
                    assert(total * rs == 0) by (nonlinear_arith)
                        requires rs == 0;
                }
            }
            let idx = f / rs;
            assert(idx < total) by (nonlinear_arith)
                requires idx == f / rs, f < total * rs, rs > 0;
            is_free.set(idx, true);
            proof {
                assert forall|s: int| 0 <= s < total implies (is_free@[s] <==> exists|m: int|
                    0 <= m < i + 1 && free[m] as int / rs as int == s) by {
                    if s == idx {
                        assert(free[i as int] as int / rs as int == s);
                    } else {
                        if exists|m: int| 0 <= m < i + 1 && free[m] as int / rs as int == s {
                            let m = choose|m: int| 0 <= m < i + 1 && free[m] as int / rs as int == s;
                            assert(m != i);
                        }
                    }
                }
            }
            i += 1;
        }
        assert forall|s: int| 0 <= s < total implies (is_free@[s] == slot_is_free(free, rsn, s)) by {}
        // Move live records down.
        let mut wb: Vec<u8> = Vec::new();
        std::mem::swap(&mut wb, &mut self.write_buffer);
        let mut mapping: HashMap<usize, usize> = HashMap::new();
        let mut new_slot: usize = 0;
        let mut old_slot: usize = 0;
        proof {
            lemma_live_slots_props(free, rsn, 0);
        }
        while old_slot < total
            invariant
                rsn == rs,
                old_slot <= total,
                total * rs <= l,
                is_free@.len() == total,
                forall|s: int| 0 <= s < total ==> (is_free@[s] == slot_is_free(free, rsn, s)),
                wb@.len() == l,
                wl == l,
                new_slot == live_slots(free, rsn, old_slot as nat).len(),
                new_slot <= old_slot,
                forall|j: int, k: int|
                    0 <= j < new_slot && 0 <= k < rs ==> #[trigger] slot_byte(
                        wb@,
                        rsn,
                        j,
                        k,
                    ) == slot_byte(w0, rsn, live_slots(free, rsn, old_slot as nat)[j], k),
                forall|p: int| new_slot * rs <= p < l ==> wb@[p] == w0[p],
                forall|j: int|
                    0 <= j < new_slot ==> mapping@.contains_key(
                        #[trigger] (live_slots(free, rsn, old_slot as nat)[j] * rs) as usize,
                    ) && mapping@[(live_slots(free, rsn, old_slot as nat)[j] * rs) as usize] == (j
                        * rs) as usize,
                forall|o: usize|
                    mapping@.contains_key(o) ==> exists|j: int|
                        0 <= j < new_slot && o == #[trigger] (live_slots(
                            free,
                            rsn,
                            old_slot as nat,
                        )[j] * rs) as usize,
            decreases total - old_slot,
        {
            let ghost live0 = live_slots(free, rsn, old_slot as nat);
            proof {
                lemma_live_slots_props(free, rsn, old_slot as nat);
                assert(live_slots(free, rsn, (old_slot + 1) as nat) == if slot_is_free(
                    free,
                    rsn,
                    old_slot as int,
                ) {
                    live0
                } else {
                    live0.push(old_slot as int)
                });
            }
            if is_free[old_slot] {
                old_slot += 1;
            } else {
                proof {
                    assert((old_slot + 1) * rs <= total * rs) by (nonlinear_arith)
                        requires old_slot < total, rs >= 0;
                    assert(new_slot * rs <= old_slot * rs) by (nonlinear_arith)
                        requires new_slot <= old_slot, rs >= 0;
                    assert((old_slot + 1) * rs == old_slot * rs + rs) by (nonlinear_arith);
                    assert((new_slot + 1) * rs == new_slot * rs + rs) by (nonlinear_arith);
                }
                let old_offset = old_slot * rs;
                let new_offset = new_slot * rs;
                let ghost w_before = wb@;
                if old_offset != new_offset {
                    proof {
                        assert(new_slot < old_slot) by (nonlinear_arith)
                            requires new_slot <= old_slot, new_slot * rs != old_slot * rs;
                        assert(new_offset + rs <= old_offset) by (nonlinear_arith)
                            requires new_slot < old_slot, new_offset == new_slot * rs, old_offset
                                == old_slot * rs, rs >= 0;
                    }
                    let mut k: usize = 0;
                    while k < rs
                        invariant
                            k <= rs,
                            wl == l,
                            new_offset + rs <= old_offset,
                            old_offset + rs <= l,
                            wb@.len() == l,
                            forall|p: int|
                                0 <= p < l && !(new_offset <= p < new_offset + k)
                                    ==> wb@[p] == w_before[p],
                            forall|p: int|
                                new_offset <= p < new_offset + k ==> wb@[p]
                                    == w_before[p - new_offset + old_offset],
                        decreases rs - k,
                    {
                        let b = wb[old_offset + k];
                        wb.set(new_offset + k, b);
                        k += 1;
                    }
                }
                mapping.insert(old_offset, new_offset);
                proof {
                    let live1 = live0.push(old_slot as int);
                    assert forall|j: int, k: int|
                        0 <= j < new_slot + 1 && 0 <= k < rs implies #[trigger] slot_byte(
                        wb@,
                        rsn,
                        j,
                        k,
                    ) == slot_byte(w0, rsn, live1[j], k) by {
                        assert(j * rs + k < (new_slot + 1) * rs) by (nonlinear_arith)
                            requires j < new_slot + 1, k < rs, 0 <= k, 0 <= j;
                        assert(0 <= j * rs + k) by (nonlinear_arith)
                            requires 0 <= j, 0 <= k, rs >= 0;
                        if j < new_slot {
                            assert(j * rs + k < new_slot * rs) by (nonlinear_arith)
                                requires j < new_slot, k < rs, 0 <= k;
                            assert(live1[j] == live0[j]);
                            assert(slot_byte(w_before, rsn, j, k) == slot_byte(
                                w0,
                                rsn,
                                live0[j],
                                k,
                            ));
                            assert(wb@[j * rs + k] == w_before[j * rs + k]);
                        } else {
                            assert(j == new_slot);
                            assert(live1[j] == old_slot);
                            assert(j * rs == new_offset);
                            assert(old_slot * rs == old_offset);
                            assert(w_before[old_offset + k] == w0[old_offset + k]);
                            if old_offset != new_offset {
                                assert(wb@[new_offset + k] == w_before[old_offset
                                    + k]);
                            } else {
                                assert(wb@[new_offset + k] == w_before[new_offset
                                    + k]);
                            }
                        }
                    }
                    assert forall|p: int| (new_slot + 1) * rs <= p < l implies wb@[p]
                        == w0[p] by {}
                    assert forall|j: int| 0 <= j < new_slot + 1 implies mapping@.contains_key(
                        #[trigger] (live1[j] * rs) as usize,
                    ) && mapping@[(live1[j] * rs) as usize] == (j * rs) as usize by {
                        if j < new_slot {
                            assert(live1[j] == live0[j]);
                            assert(live0[j] < old_slot);
                            if rs > 0 {
                                assert(live0[j] * rs < old_slot * rs) by (nonlinear_arith)
                                    requires live0[j] < old_slot, rs > 0;
                                assert(0 <= live0[j] * rs) by (nonlinear_arith)
                                    requires 0 <= live0[j], rs > 0;
                            } else {
                                assert(live0[j] * rs == 0) by (nonlinear_arith)
                                    requires rs == 0;
                                assert(j * rs == 0) by (nonlinear_arith)
                                    requires rs == 0;
                                assert(old_slot * rs == 0) by (nonlinear_arith)
                                    requires rs == 0;
                                assert(new_slot * rs == 0) by (nonlinear_arith)
                                    requires rs == 0;
                            }
                        }
                    }
                    assert forall|o: usize| mapping@.contains_key(o) implies exists|j: int|
                        0 <= j < new_slot + 1 && o == #[trigger] (live1[j] * rs) as usize by {
                        if o == old_offset {
                            assert(o == (live1[new_slot as int] * rs) as usize);
                        } else {
                            let j = choose|j: int|
                                0 <= j < new_slot && o == #[trigger] (live0[j] * rs) as usize;
                            assert(live1[j] == live0[j]);
                        }
                    }
                }
                new_slot += 1;
                old_slot += 1;
            }
        }
        self.write_buffer = wb;
        self.next_record_offset = new_slot as u64;
        self.free_list.clear();
        proof {
            lemma_live_slots_props(free, rsn, total as nat);
            assert(new_slot * rs <= total * rs) by (nonlinear_arith)
                requires new_slot <= total, rs >= 0;
            let live = live_slots(free, rsn, total as nat);
            assert(old(self).free_view() == free);
            assert(old(self).slots() == total);
            assert(old(self).size() == rsn);
            assert(old(self).write_view() == w0);
            assert(self.write_view() == wb@);
            assert(old_slot == total);
            assert forall|j: int, k: int|
                0 <= j < live.len() && 0 <= k < rsn implies #[trigger] slot_byte(self.write_view(), rsn, j, k)
                == slot_byte(w0, rsn, live[j], k) by {}
            assert forall|j: int|
                0 <= j < live.len() implies mapping@.contains_key(#[trigger] (live[j] * rsn) as usize)
                && mapping@[(live[j] * rsn) as usize] == (j * rsn) as usize by {}
            assert forall|o: usize| mapping@.contains_key(o) implies exists|j: int|
                0 <= j < live.len() && o == #[trigger] (live[j] * rsn) as usize by {}
            assert forall|o: usize| #[trigger] mapping@.contains_key(o) implies mapping@[o] == relocated(old(self), o) by {
                let j = choose|j: int| 0 <= j < live.len() && #[trigger] (live[j] * rsn) as usize == o;
                let j2 = choose|j: int| 0 <= j < live.len() && #[trigger] (live[j] * rsn) as usize == o;
                assert(mapping@[(live[j] * rsn) as usize] == (j * rsn) as usize);
                if rsn > 0 {
                    if j != j2 {
                        if j < j2 {
                            assert(live[j] < live[j2]);
                            assert(live[j] * rsn < live[j2] * rsn) by (nonlinear_arith)
                                requires live[j] < live[j2], rsn > 0;
                        } else {
                            assert(live[j2] < live[j]);
                            assert(live[j2] * rsn < live[j] * rsn) by (nonlinear_arith)
                                requires live[j2] < live[j], rsn > 0;
                        }
                        assert(0 <= live[j] * rsn <= usize::MAX) by (nonlinear_arith)
                            requires 0 <= live[j] < total, rsn > 0, total * rsn <= usize::MAX;
                        assert(0 <= live[j2] * rsn <= usize::MAX) by (nonlinear_arith)
                            requires 0 <= live[j2] < total, rsn > 0, total * rsn <= usize::MAX;
                    }
                } else {
                    assert(j * rsn == 0 && j2 * rsn == 0) by (nonlinear_arith)
                        requires rsn == 0;
                }
            }
        }
        mapping
    }

    /// Whether a saved state satisfies the storage invariant.
    pub open spec fn valid_state(
        write_buffer: Seq<u8>,
        next_record_offset: u64,
        record_size: nat,
        free_list: Seq<usize>,
    ) -> bool {
        &&& next_record_offset * record_size <= write_buffer.len()
        &&& write_buffer.len() <= usize::MAX
        &&& next_record_offset <= usize::MAX
        &&& forall|i: int|
            0 <= i < free_list.len() ==> {
                &&& #[trigger] free_list[i] < next_record_offset * record_size
                &&& free_list[i] as int % record_size as int == 0
            }
    }

    /// The write-side state: write buffer, slots handed out, free list and
    /// record count, for a later `restore_state`.
    pub fn snapshot_state(&self) -> (st: (Vec<u8>, u64, Vec<usize>, u64))
        requires
            self.wf(),
        ensures
            st.0@ == self.write_view(),
            st.1 == self.slots(),
            st.2@ == self.free_view(),
            st.3 == self.active(),
            Self::valid_state(st.0@, st.1, self.size(), st.2@),
    {
        (copy_bytes(&self.write_buffer), self.next_record_offset, copy_usizes(&self.free_list), self.active_count)
    }

    /// Puts back a write-side state taken by `snapshot_state`.
    #[verifier::spinoff_prover]
    pub fn restore_state(
        &mut self,
        write_buffer: Vec<u8>,
        next_record_offset: u64,
        free_list: Vec<usize>,
        active_count: u64,
    )
        ensures
            final(self).write_view() == write_buffer@,
            final(self).slots() == next_record_offset,
            final(self).free_view() == free_list@,
            final(self).active() == active_count,
            final(self).read_view() == old(self).read_view(),
            final(self).gen() == old(self).gen(),
            final(self).size() == old(self).size(),
            final(self).wf() == Self::valid_state(
                write_buffer@,
                next_record_offset,
                old(self).size(),
                free_list@,
            ),
    {
        self.write_buffer = write_buffer;
        self.next_record_offset = next_record_offset;
        self.free_list = free_list;
        self.active_count = active_count;
        assert(self.wf() == Self::valid_state(self.write_buffer@, self.next_record_offset, self.size(), self.free_list@));
    }

    /// Replaces both buffers by `data` (a whole number of records) with the
    /// given free slots; every other slot of `data` counts as a stored record.
    pub fn load_snapshot(&mut self, data: Vec<u8>, free_slots: Vec<usize>) -> (res: Result<()>)
        requires
            old(self).wf(),
        ensures
            final(self).wf(),
            ({
                let rs = old(self).size() as int;
                let n: int = if rs == 0 { 0 } else { data@.len() as int / rs };
                let ok = (if rs == 0 { data@.len() == 0 } else { data@.len() as int % rs == 0 })
                    && free_slots@.len() <= n
                    && forall|i: int| 0 <= i < free_slots@.len() ==> {
                        &&& #[trigger] free_slots@[i] < n * rs
                        &&& free_slots@[i] as int % rs == 0
                    };
                &&& ok ==> {
                    &&& res is Ok
                    &&& final(self).write_view() == data@
                    &&& final(self).read_view() == data@
                    &&& final(self).slots() == n
                    &&& final(self).free_view() == free_slots@
                    &&& final(self).active() == n - free_slots@.len()
                }
                &&& !ok ==> (res matches Err(EcsDbError::SnapshotError(_)) && *final(self)
                    == *old(self))
            }),
            final(self).gen() == old(self).gen(),
            final(self).size() == old(self).size(),
    {
        let rs = self.record_size;
        let len = data.len();
        let aligned = if rs == 0 { len == 0 } else { len % rs == 0 };
        if !aligned {
            return Err(EcsDbError::SnapshotError(owned("Buffer size is not a multiple of the record size")));
        }
        let n = if rs == 0 { 0 } else { len / rs };
        assert(n * rs <= len) by (nonlinear_arith)
            requires rs > 0 ==> n == len / rs, rs == 0 ==> n == 0;
        if free_slots.len() > n {
            return Err(EcsDbError::SnapshotError(owned("More free slots than slots")));
        }
        let nf = free_slots.len();
        let mut i: usize = 0;
        while i < nf
            invariant
                *self == *old(self),
                self.wf(),
                rs == self.record_size,
                aligned,
                nf <= n,
                len == data@.len(),
                n as int == (if rs == 0 { 0 } else { len as int / rs as int }),
                nf == free_slots@.len(),
                i <= nf,
                n * rs <= len,
                forall|m: int| 0 <= m < i ==> {
                    &&& #[trigger] free_slots@[m] < n * rs
                    &&& free_slots@[m] as int % rs as int == 0
                },
            decreases nf - i,
        {
            let f = free_slots[i];
            let ok = f < n * rs && (if rs == 0 { f == 0 } else { f % rs == 0 });
            if !ok {
                assert(n as int == (if rs == 0 { 0 } else { data@.len() as int / rs as int }));
                assert(!(free_slots@[i as int] < n * rs && free_slots@[i as int] as int % rs as int
                    == 0));
                return Err(EcsDbError::SnapshotError(owned("Free slot outside the buffer")));
            }
            i += 1;
        }
        self.read_buffer = copy_bytes(&data);
        self.write_buffer = data;
        self.next_record_offset = n as u64;
        self.free_list = free_slots;
        self.active_count = (n - nf) as u64;
        Ok(())
    }

    /// Size of one record in bytes.
    pub fn record_size(&self) -> (n: usize)
        ensures
            n == self.size(),
    {
        self.record_size
    }

    /// Number of records stored (slots handed out minus freed ones).
    pub fn record_count(&self) -> (n: u64)
        ensures
            n == self.active(),
    {
        self.active_count
    }

    /// The free slots and the slots handed out so far, whose ratio is the
    /// buffer's fragmentation.
    pub fn fragmentation_counts(&self) -> (r: (usize, u64))
        ensures
            r.0 == self.free_view().len(),
            r.1 == self.slots(),
    {
        (self.free_list.len(), self.next_record_offset)
    }
}

} // verus!
