use crate::component::{Component, ZeroCopyComponent};
use crate::error::{EcsDbError, Result};
use crate::storage::buffer::{
    commit_post, compact_buffer_post, free_post, insert_post, lemma_splice_len, relocated,
    starts_live_slot, update_post, zeros, lemma_relocated_le, ArcStorageBuffer,
};
use crate::text::{join, join_num, owned};
use std::collections::HashMap;
use std::marker::PhantomData;
use vstd::prelude::*;

verus! {

broadcast use vstd::std_specs::hash::group_hash_axioms;

/// The pairs of a map from entity IDs to offsets, in the map's own order.
pub fn map_pairs(m: &HashMap<u64, usize>) -> (r: Vec<(u64, usize)>)
    ensures
        r@.len() == m@.len(),
        forall|i: int|
            0 <= i < r@.len() ==> #[trigger] m@.contains_key(r@[i].0) && m@[r@[i].0] == r@[i].1,
        forall|i: int, j: int| 0 <= i < j < r@.len() ==> r@[i].0 != r@[j].0,
        forall|e: u64| m@.contains_key(e) ==> exists|i: int| 0 <= i < r@.len() && #[trigger] r@[i].0 == e,
{
    let mut r: Vec<(u64, usize)> = Vec::new();
    for kv in it: m.iter()
        invariant
            r@.len() == it.index(),
            it.seq().len() == m@.len(),
            it.seq().no_duplicates(),
            forall|i: int|
                0 <= i < it.seq().len() ==> #[trigger] m@.contains_key(*it.seq()[i].0)
                    && m@[*it.seq()[i].0] == *it.seq()[i].1,
            forall|e: u64|
                #[trigger] m@.contains_key(e) ==> exists|i: int|
                    0 <= i < it.seq().len() && *it.seq()[i].0 == e,
            forall|i: int| 0 <= i < r@.len() ==> r@[i] == (*it.seq()[i].0, *it.seq()[i].1),
            forall|i: int, j: int| 0 <= i < j < r@.len() ==> r@[i].0 != r@[j].0,
            forall|e: u64|
                #[trigger] m@.contains_key(e) ==> (exists|i: int| 0 <= i < r@.len() && r@[i].0 == e)
                    || (exists|i: int| it.index() <= i < it.seq().len() && *it.seq()[i].0 == e),
    {
        let (k, v) = kv;
        let ghost idx = it.index();
        assert((k, v) == it.seq()[idx]);
        let ghost r_old = r@;
        r.push((*k, *v));
        proof {
            assert forall|i: int, j: int| 0 <= i < j < r@.len() implies r@[i].0 != r@[j].0 by {
                if r@[i].0 == r@[j].0 {
                    assert(m@.contains_key(*it.seq()[i].0));
                    assert(m@.contains_key(*it.seq()[j].0));
                    assert(it.seq()[i] == it.seq()[j]);
                }
            }
            assert forall|e: u64| #[trigger] m@.contains_key(e) implies (exists|i: int|
                0 <= i < r@.len() && r@[i].0 == e) || (exists|i: int|
                idx + 1 <= i < it.seq().len() && *it.seq()[i].0 == e) by {
                if !(exists|i: int| 0 <= i < r_old.len() && r_old[i].0 == e) {
                    let w = choose|i: int| idx <= i < it.seq().len() && *it.seq()[i].0 == e;
                    if w == idx {
                        assert(r@[idx].0 == e);
                    } else {
                        assert(idx + 1 <= w);
                    }
                } else {
                    let w = choose|i: int| 0 <= i < r_old.len() && r_old[i].0 == e;
                    assert(r@[w] == r_old[w]);
                }
            }
        }
    }
    proof {
        let ghost_seq_len = r@.len();
        assert forall|i: int| 0 <= i < r@.len() implies #[trigger] m@.contains_key(r@[i].0)
            && m@[r@[i].0] == r@[i].1 by {}
    }
    r
}

/// The map that inserting the pairs in order builds (later pairs win).
pub open spec fn pairs_to_map(s: Seq<(u64, usize)>) -> Map<u64, usize>
    decreases s.len(),
{
    if s.len() == 0 {
        Map::empty()
    } else {
        pairs_to_map(s.drop_last()).insert(s.last().0, s.last().1)
    }
}

/// A table of fixed-size records, one per entity, over a slot-reusing
/// double buffer.  Records are the encoded bytes of components of type `T`.
pub struct ComponentTable<T: Component> {
    buffer: ArcStorageBuffer,
    entity_index: HashMap<u64, usize>,
    _marker: PhantomData<T>,
}

impl<T: Component> ComponentTable<T> {
    /// The storage buffer.
    pub closed spec fn buffer(&self) -> ArcStorageBuffer {
        self.buffer
    }

    /// Entity ID to byte offset of its record.
    pub closed spec fn index(&self) -> Map<u64, usize> {
        self.entity_index@
    }

    pub open spec fn rs(&self) -> nat {
        self.buffer().size()
    }

    /// The buffer is well formed and every record offset leaves room for a
    /// record before the end of the address space.
    pub closed spec fn wf(&self) -> bool {
        &&& self.buffer.wf()
        &&& forall|e: u64|
            #[trigger] self.entity_index@.contains_key(e) ==> self.entity_index@[e]
                + self.buffer.size() <= usize::MAX
    }

    /// An empty table of records of `record_size` bytes.
    pub fn new(record_size: usize, initial_capacity: usize) -> (t: Self)
        ensures
            t.wf(),
            t.index() == Map::<u64, usize>::empty(),
            t.buffer().read_view() == zeros(initial_capacity as nat),
            t.buffer().write_view() == zeros(initial_capacity as nat),
            t.buffer().slots() == 0,
            t.buffer().free_view() == Seq::<usize>::empty(),
            t.buffer().active() == 0,
            t.buffer().gen() == 0,
            t.rs() == record_size,
    {
        ComponentTable { buffer: ArcStorageBuffer::new(record_size, initial_capacity), entity_index: HashMap::new(), _marker: PhantomData }
    }

    /// An empty table whose record size is the component's static size.
    pub fn with_static_size(initial_capacity: usize) -> (t: Self)
        where
            T: ZeroCopyComponent,
        ensures
            t.wf(),
            t.index() == Map::<u64, usize>::empty(),
            t.buffer().read_view() == zeros(initial_capacity as nat),
            t.buffer().write_view() == zeros(initial_capacity as nat),
            t.buffer().slots() == 0,
            t.buffer().free_view() == Seq::<usize>::empty(),
            t.buffer().active() == 0,
            t.buffer().gen() == 0,
    {
        let record_size = <T as ZeroCopyComponent>::static_size();
        Self::new(record_size, initial_capacity)
    }

    fn size_mismatch(len: usize, record_size: usize) -> (e: EcsDbError)
        ensures
            e matches EcsDbError::SchemaError(m) && m@ == "Serialized component size "@ + crate::text::spec_decimal(len as nat)
                + " does not match table record size "@ + crate::text::spec_decimal(record_size as nat),
    {
        let m = join_num(owned("Serialized component size "), len as u64);
        let m = join_num(join(m, " does not match table record size "), record_size as u64);
        EcsDbError::SchemaError(m)
    }

    fn not_found(entity_id: u64) -> (e: EcsDbError)
        ensures
            e matches EcsDbError::ComponentNotFound { entity_id: id, .. } && id == entity_id,
    {
        EcsDbError::ComponentNotFound { entity_id, component_type: owned(T::TABLE_NAME) }
    }

    /// Overwrites the record of an entity with new encoded bytes.
    pub fn update(&mut self, entity_id: u64, bytes: &[u8]) -> (res: Result<()>)
        requires
            old(self).wf(),
        ensures
            final(self).wf(),
            final(self).index() == old(self).index(),
            !old(self).index().contains_key(entity_id) ==> (res matches Err(
                EcsDbError::ComponentNotFound { entity_id: id, .. },
            ) && id == entity_id && *final(self) == *old(self)),
            old(self).index().contains_key(entity_id) && bytes@.len() != old(self).rs() ==> (
            res matches Err(EcsDbError::SchemaError(_)) && *final(self) == *old(self)),
            old(self).index().contains_key(entity_id) && bytes@.len() == old(self).rs() ==> {
                let off = old(self).index()[entity_id];
                &&& off + bytes@.len() > old(self).buffer().write_view().len() ==> (res matches Err(
                    EcsDbError::SchemaError(_),
                ) && *final(self) == *old(self))
                &&& off + bytes@.len() <= old(self).buffer().write_view().len() ==> res is Ok
                    && update_post(&old(self).buffer(), &final(self).buffer(), off, bytes@)
            },
    {
        let offset = match self.entity_index.get(&entity_id) {
            Some(o) => *o,
            None => return Err(Self::not_found(entity_id)),
        };
        if bytes.len() != self.buffer.record_size() {
            return Err(Self::size_mismatch(bytes.len(), self.buffer.record_size()));
        }
        self.buffer.update(offset, bytes)
    }

    /// Removes the record of an entity and frees its slot.
    pub fn delete(&mut self, entity_id: u64) -> (res: Result<()>)
        requires
            old(self).wf(),
        ensures
            final(self).wf(),
            !old(self).index().contains_key(entity_id) ==> (res matches Err(
                EcsDbError::ComponentNotFound { entity_id: id, .. },
            ) && id == entity_id && *final(self) == *old(self)),
            old(self).index().contains_key(entity_id) ==> {
                &&& res is Ok
                &&& final(self).index() == old(self).index().remove(entity_id)
                &&& free_post(&old(self).buffer(), &final(self).buffer(), old(self).index()[entity_id])
            },
    {
        if !self.entity_index.contains_key(&entity_id) {
            return Err(Self::not_found(entity_id));
        }
        let offset = self.entity_index.remove(&entity_id).unwrap();
        self.buffer.free_slot(offset);
        Ok(())
    }

    /// The committed record bytes of an entity.
    pub fn get(&self, entity_id: u64) -> (res: Result<Vec<u8>>)
        requires
            self.wf(),
        ensures
            !self.index().contains_key(entity_id) ==> (res matches Err(
                EcsDbError::ComponentNotFound { entity_id: id, .. },
            ) && id == entity_id),
            self.index().contains_key(entity_id) ==> {
                let off = self.index()[entity_id];
                &&& off + self.rs() > self.buffer().read_view().len() ==> (res matches Err(
                    EcsDbError::SchemaError(_),
                ))
                &&& off + self.rs() <= self.buffer().read_view().len() ==> (res matches Ok(v) && v@
                    == self.buffer().read_view().subrange(off as int, off + self.rs()))
            },
    {
        let offset = match self.entity_index.get(&entity_id) {
            Some(o) => *o,
            None => return Err(Self::not_found(entity_id)),
        };
        self.buffer.read(offset, self.buffer.record_size())
    }

    /// Makes pending writes visible to readers.
    pub fn commit(&mut self)
        requires
            old(self).wf(),
        ensures
            final(self).wf(),
            final(self).index() == old(self).index(),
            commit_post(&old(self).buffer(), &final(self).buffer()),
            final(self).buffer().gen() == old(self).buffer().gen(),
    {
        self.buffer.commit();
    }

    /// Makes pending writes visible and tags them with a generation number.
    pub fn commit_with_generation(&mut self, generation: u64)
        requires
            old(self).wf(),
        ensures
            final(self).wf(),
            final(self).index() == old(self).index(),
            commit_post(&old(self).buffer(), &final(self).buffer()),
            final(self).buffer().gen() == generation,
    {
        self.buffer.commit_with_generation(generation);
    }

    /// Generation of the current read buffer.
    pub fn generation(&self) -> (g: u64)
        ensures
            g == self.buffer().gen(),
    {
        self.buffer.generation()
    }

    /// Copy of the committed bytes.
    pub fn snapshot(&self) -> (v: Vec<u8>)
        ensures
            v@ == self.buffer().read_view(),
    {
        self.buffer.current_read_buffer()
    }

    /// Number of entities with a record.
    pub fn len(&self) -> (n: usize)
        ensures
            n == self.index().len(),
    {
        self.entity_index.len()
    }

    /// Whether no entity has a record.
    pub fn is_empty(&self) -> (b: bool)
        ensures
            b == (self.index().len() == 0),
    {
        self.entity_index.len() == 0
    }

    /// Whether the entity has a record.
    pub fn contains_entity(&self, entity_id: u64) -> (b: bool)
        ensures
            b == self.index().contains_key(entity_id),
    {
        self.entity_index.contains_key(&entity_id)
    }

    /// Each entity with its record offset, in no particular order.
    pub fn entity_mapping(&self) -> (r: Vec<(u64, usize)>)
        ensures
            r@.len() == self.index().len(),
            forall|i: int|
                0 <= i < r@.len() ==> #[trigger] self.index().contains_key(r@[i].0)
                    && self.index()[r@[i].0] == r@[i].1,
            forall|i: int, j: int| 0 <= i < j < r@.len() ==> r@[i].0 != r@[j].0,
            forall|e: u64|
                self.index().contains_key(e) ==> exists|i: int|
                    0 <= i < r@.len() && #[trigger] r@[i].0 == e,
    {
        let r = map_pairs(&self.entity_index);
        assert forall|i: int| 0 <= i < r@.len() implies #[trigger] self.index().contains_key(r@[i].0)
            && self.index()[r@[i].0] == r@[i].1 by {
            assert(self.entity_index@.contains_key(r@[i].0));
        }
        r
    }

    /// Size of one record in bytes.
    pub fn record_size(&self) -> (n: usize)
        ensures
            n == self.rs(),
    {
        self.buffer.record_size()
    }

    /// The free slots and the slots handed out so far.
    pub fn fragmentation_counts(&self) -> (r: (usize, u64))
        ensures
            r.0 == self.buffer().free_view().len(),
            r.1 == self.buffer().slots(),
    {
        self.buffer.fragmentation_counts()
    }

    /// Moves live records over free slots and repoints every entity at the
    /// new offset of its record.
    pub fn compact(&mut self)
        requires
            old(self).wf(),
        ensures
            final(self).wf(),
            compact_buffer_post(&old(self).buffer(), &final(self).buffer()),
            final(self).index().dom() == old(self).index().dom(),
            forall|e: u64|
                #[trigger] old(self).index().contains_key(e) ==> final(self).index()[e] == relocated(
                    &old(self).buffer(),
                    old(self).index()[e],
                ),
            forall|e: u64|
                #[trigger] old(self).index().contains_key(e) && old(self).rs() > 0 && starts_live_slot(
                    &old(self).buffer(),
                    old(self).index()[e],
                ) ==> final(self).buffer().write_view().subrange(
                    final(self).index()[e] as int,
                    final(self).index()[e] + old(self).rs(),
                ) == old(self).buffer().write_view().subrange(
                    old(self).index()[e] as int,
                    old(self).index()[e] + old(self).rs(),
                ),
    {
        let ghost b0 = self.buffer;
        let ghost idx0 = self.entity_index@;
        let mapping = self.buffer.compact();
        let pairs = map_pairs(&self.entity_index);
        let mut index: HashMap<u64, usize> = HashMap::new();
        let n = pairs.len();
        let mut i: usize = 0;
        while i < n
            invariant
                n == pairs@.len(),
                i <= n,
                pairs@.len() == idx0.len(),
                forall|m: int|
                    0 <= m < pairs@.len() ==> #[trigger] idx0.contains_key(pairs@[m].0)
                        && idx0[pairs@[m].0] == pairs@[m].1,
                forall|a: int, c: int| 0 <= a < c < pairs@.len() ==> pairs@[a].0 != pairs@[c].0,
                forall|o: usize| #[trigger] mapping@.contains_key(o) ==> mapping@[o] == relocated(&b0, o),
                forall|o: usize|
                    !#[trigger] mapping@.contains_key(o) ==> relocated(&b0, o) == o,
                forall|e: u64|
                    #[trigger] index@.contains_key(e) <==> exists|m: int|
                        0 <= m < i && pairs@[m].0 == e,
                forall|e: u64|
                    #[trigger] index@.contains_key(e) ==> index@[e] == relocated(
                        &b0,
                        idx0[e],
                    ),
            decreases n - i,
        {
            let (e, o) = pairs[i];
            let newo = match mapping.get(&o) {
                Some(v) => *v,
                None => o,
            };
            proof {
                assert(idx0.contains_key(pairs@[i as int].0));
                assert(idx0[e] == o);
                if mapping@.contains_key(o) {
                    assert(newo == relocated(&b0, o));
                } else {
                    assert(newo == relocated(&b0, o));
                }
            }
            index.insert(e, newo);
            proof {
                assert forall|e2: u64| #[trigger] index@.contains_key(e2) <==> exists|m: int|
                    0 <= m < i + 1 && pairs@[m].0 == e2 by {
                    if e2 == e {
                        assert(pairs@[i as int].0 == e);
                    }
                }
            }
            i += 1;
        }
        proof {
            assert forall|e: u64| #[trigger] idx0.contains_key(e) implies index@.contains_key(e) by {
                let m = choose|m: int| 0 <= m < pairs@.len() && #[trigger] pairs@[m].0 == e;
            }
            assert(index@.dom() =~= idx0.dom());
        }
        self.entity_index = index;
        proof {
            assert forall|e: u64| #[trigger] self.entity_index@.contains_key(e) implies self.entity_index@[e]
                + self.buffer.size() <= usize::MAX by {
                lemma_relocated_le(&b0, idx0[e]);
            }
            assert forall|e: u64|
                #[trigger] idx0.contains_key(e) && b0.size() > 0 && starts_live_slot(&b0, idx0[e]) implies self.buffer.write_view().subrange(
                    self.entity_index@[e] as int,
                    self.entity_index@[e] + b0.size(),
                ) == b0.write_view().subrange(idx0[e] as int, idx0[e] + b0.size()) by {
                crate::storage::buffer::law_compact_moves_record(&b0, &self.buffer, idx0[e]);
            }
        }
    }

    /// The buffer's write-side state, for rolling back a batch of writes.
    pub fn snapshot_write_state(&self) -> (st: (Vec<u8>, u64, Vec<usize>, u64))
        requires
            self.wf(),
        ensures
            st.0@ == self.buffer().write_view(),
            st.1 == self.buffer().slots(),
            st.2@ == self.buffer().free_view(),
            st.3 == self.buffer().active(),
            ArcStorageBuffer::valid_state(st.0@, st.1, self.rs(), st.2@),
    {
        self.buffer.snapshot_state()
    }

    /// Puts back a write-side state; the entity index is left as it is.
    pub fn restore_write_state(
        &mut self,
        write_buffer: Vec<u8>,
        next_record_offset: u64,
        free_list: Vec<usize>,
        active_count: u64,
    )
        requires
            old(self).wf(),
        ensures
            final(self).buffer().write_view() == write_buffer@,
            final(self).buffer().slots() == next_record_offset,
            final(self).buffer().free_view() == free_list@,
            final(self).buffer().active() == active_count,
            final(self).buffer().read_view() == old(self).buffer().read_view(),
            final(self).buffer().gen() == old(self).buffer().gen(),
            final(self).rs() == old(self).rs(),
            final(self).index() == old(self).index(),
            final(self).wf() == ArcStorageBuffer::valid_state(
                write_buffer@,
                next_record_offset,
                old(self).rs(),
                free_list@,
            ),
    {
        self.buffer.restore_state(write_buffer, next_record_offset, free_list, active_count);
    }

    /// Replaces the buffers by snapshot bytes and the index by the given
    /// entity offsets (a later pair for the same entity wins).
    pub fn load_snapshot(
        &mut self,
        buffer_data: Vec<u8>,
        entity_mapping: Vec<(u64, usize)>,
        free_slots: Vec<usize>,
    ) -> (res: Result<()>)
        requires
            old(self).wf(),
            forall|i: int|
                0 <= i < entity_mapping@.len() ==> #[trigger] entity_mapping@[i].1 + old(self).rs()
                    <= usize::MAX,
        ensures
            final(self).wf(),
            ({
                let rs = old(self).rs() as int;
                let aligned = if rs == 0 {
                    buffer_data@.len() == 0
                } else {
                    buffer_data@.len() as int % rs == 0
                };
                let n: int = if rs == 0 { 0 } else { buffer_data@.len() as int / rs };
                let slots_ok = free_slots@.len() <= n && forall|i: int|
                    0 <= i < free_slots@.len() ==> {
                        &&& #[trigger] free_slots@[i] < n * rs
                        &&& free_slots@[i] as int % rs == 0
                    };
                &&& !aligned ==> (res matches Err(EcsDbError::SchemaError(_)) && *final(self)
                    == *old(self))
                &&& aligned && !slots_ok ==> (res matches Err(EcsDbError::SnapshotError(_))
                    && final(self).buffer() == old(self).buffer() && final(self).index()
                    == old(self).index())
                &&& aligned && slots_ok ==> {
                    &&& res is Ok
                    &&& final(self).buffer().write_view() == buffer_data@
                    &&& final(self).buffer().read_view() == buffer_data@
                    &&& final(self).buffer().slots() == n
                    &&& final(self).buffer().free_view() == free_slots@
                    &&& final(self).buffer().active() == n - free_slots@.len()
                    &&& final(self).index() == pairs_to_map(entity_mapping@)
                }
            }),
            final(self).rs() == old(self).rs(),
            final(self).buffer().gen() == old(self).buffer().gen(),
    {
        let rs = self.buffer.record_size();
        let aligned = if rs == 0 { buffer_data.len() == 0 } else { buffer_data.len() % rs == 0 };
        if !aligned {
            let m = join_num(owned("Buffer size "), buffer_data.len() as u64);
            let m = join_num(join(m, " is not a multiple of record size "), rs as u64);
            return Err(EcsDbError::SchemaError(m));
        }
        match self.buffer.load_snapshot(buffer_data, free_slots) {
            Ok(()) => {},
            Err(e) => return Err(e),
        }
        let mut index: HashMap<u64, usize> = HashMap::new();
        let n = entity_mapping.len();
        let mut i: usize = 0;
        while i < n
            invariant
                n == entity_mapping@.len(),
                i <= n,
                index@ == pairs_to_map(entity_mapping@.subrange(0, i as int)),
                forall|e: u64| #[trigger] index@.contains_key(e) ==> index@[e] + rs <= usize::MAX,
                forall|m: int|
                    0 <= m < entity_mapping@.len() ==> #[trigger] entity_mapping@[m].1 + rs
                        <= usize::MAX,
            decreases n - i,
        {
            let (e, o) = entity_mapping[i];
            index.insert(e, o);
            proof {
                let s1 = entity_mapping@.subrange(0, i + 1);
                assert(s1.drop_last() =~= entity_mapping@.subrange(0, i as int));
            }
            i += 1;
        }
        assert(entity_mapping@.subrange(0, n as int) =~= entity_mapping@);
        self.entity_index = index;
        Ok(())
    }

    /// Whether one more record fits within the machine's limits.
    pub fn has_room(&self) -> (b: bool)
        requires
            self.wf(),
        ensures
            b == self.buffer().can_insert(),
    {
        self.buffer.has_room()
    }

    /// Stores the encoded component of an entity in a new or reused slot and
    /// points the entity at it; returns the byte offset.
    pub fn insert(&mut self, entity_id: u64, bytes: &[u8]) -> (res: Result<usize>)
        requires
            old(self).wf(),
            bytes@.len() == old(self).rs() ==> old(self).buffer().can_insert(),
        ensures
            final(self).wf(),
            bytes@.len() != old(self).rs() ==> (res matches Err(EcsDbError::SchemaError(_))
                && *final(self) == *old(self)),
            bytes@.len() == old(self).rs() ==> {
                let off = old(self).buffer().insert_offset();
                &&& res == Ok::<usize, EcsDbError>(off as usize)
                &&& insert_post(&old(self).buffer(), &final(self).buffer(), bytes@)
                &&& final(self).index() == old(self).index().insert(entity_id, off as usize)
            },
    {
        if bytes.len() != self.buffer.record_size() {
            return Err(Self::size_mismatch(bytes.len(), self.buffer.record_size()));
        }
        let ghost b0 = self.buffer;
        let offset = match self.buffer.insert(bytes) {
            Ok(o) => o,
            Err(e) => return Err(e),
        };
        proof {
            let grown = if b0.insert_grows() {
                b0.write_view() + zeros(b0.write_view().len())
            } else {
                b0.write_view()
            };
            lemma_splice_len(grown, offset as int, bytes@);
            assert(offset + self.buffer.size() <= self.buffer.write_view().len());
        }
        self.entity_index.insert(entity_id, offset);
        Ok(offset)
    }
}

/// A successful update of an entity's record, once committed, is what a
/// read of the entity gives back: `t1` is `t0` after the update of `e`'s
/// record to `data`, and `t2` is `t1` committed.
pub proof fn law_update_commit_read<T: Component>(
    t0: ComponentTable<T>,
    t1: ComponentTable<T>,
    t2: ComponentTable<T>,
    e: u64,
    data: Seq<u8>,
)
    requires
        t0.index().contains_key(e),
        data.len() == t0.rs(),
        t0.index()[e] + data.len() <= t0.buffer().write_view().len(),
        t1.index() == t0.index(),
        update_post(&t0.buffer(), &t1.buffer(), t0.index()[e], data),
        t2.index() == t1.index(),
        commit_post(&t1.buffer(), &t2.buffer()),
    ensures
        t2.index().contains_key(e),
        t2.index()[e] + t2.rs() <= t2.buffer().read_view().len(),
        t2.buffer().read_view().subrange(t2.index()[e] as int, t2.index()[e] + t2.rs()) == data,
{
    let off = t0.index()[e] as int;
    lemma_splice_len(t0.buffer().write_view(), off, data);
    assert(t2.buffer().read_view().subrange(off, off + t2.rs()) =~= data);
}

} // verus!
