use crate::error::{EcsDbError, Result};
use std::collections::HashMap;
use vstd::prelude::*;

verus! {

broadcast use vstd::std_specs::hash::group_hash_axioms;

/// Identifier of an entity.
#[derive(Debug, Clone, Copy, PartialEq, Eq, Hash, Structural)]
pub struct EntityId(pub u64);

/// How many times an entity slot has been deleted.
#[derive(Debug, Clone, Copy)]
pub struct EntityVersion(pub u32);

/// One created entity.
#[derive(Debug, Clone)]
pub struct EntityRecord {
    pub id: EntityId,
    pub version: EntityVersion,
    pub archetype_hash: u64,
}

/// All entities ever created, in creation order, with an index of the live
/// ones and the IDs freed for reuse.
pub struct EntityRegistry {
    records: Vec<EntityRecord>,
    index: HashMap<u64, usize>,
    freelist: Vec<(EntityId, EntityVersion)>,
    next_id: u64,
}

impl EntityRegistry {
    /// Every record created, deleted ones included.
    pub closed spec fn records_view(&self) -> Seq<EntityRecord> {
        self.records@
    }

    /// Live entity ID to the position of its latest record.
    pub closed spec fn index_view(&self) -> Map<u64, usize> {
        self.index@
    }

    /// Deleted IDs with their bumped versions; the last is reused first.
    pub closed spec fn free_view(&self) -> Seq<(EntityId, EntityVersion)> {
        self.freelist@
    }

    /// The next fresh ID.
    pub closed spec fn next(&self) -> u64 {
        self.next_id
    }

    /// Every live entity points at a record of its own ID.
    pub closed spec fn wf(&self) -> bool {
        forall|e: u64|
            #[trigger] self.index@.contains_key(e) ==> self.index@[e] < self.records@.len()
                && self.records@[self.index@[e] as int].id.0 == e
    }

    /// The ID and version the next `create_entity` hands out.
    pub open spec fn next_identity(&self) -> (EntityId, EntityVersion) {
        if self.free_view().len() > 0 {
            self.free_view().last()
        } else {
            (EntityId(self.next()), EntityVersion(0))
        }
    }

    pub fn new() -> (r: Self)
        ensures
            r.wf(),
            r.records_view() == Seq::<EntityRecord>::empty(),
            r.index_view() == Map::<u64, usize>::empty(),
            r.free_view() == Seq::<(EntityId, EntityVersion)>::empty(),
            r.next() == 1,
    {
        EntityRegistry {
            records: Vec::with_capacity(10000),
            index: HashMap::with_capacity(10000),
            freelist: Vec::new(),
            next_id: 1,
        }
    }

    /// Creates an entity, reusing the most recently freed ID (with its
    /// version) when there is one, else a fresh ID.
    pub fn create_entity(&mut self, archetype_hash: u64) -> (res: Result<EntityId>)
        requires
            old(self).wf(),
            old(self).free_view().len() == 0 ==> old(self).next() < u64::MAX,
        ensures
            final(self).wf(),
            ({
                let (id, version) = old(self).next_identity();
                &&& res == Ok::<EntityId, EcsDbError>(id)
                &&& final(self).records_view() == old(self).records_view().push(
                    EntityRecord { id, version, archetype_hash },
                )
                &&& final(self).index_view() == old(self).index_view().insert(
                    id.0,
                    old(self).records_view().len() as usize,
                )
                &&& final(self).free_view() == if old(self).free_view().len() > 0 {
                    old(self).free_view().drop_last()
                } else {
                    old(self).free_view()
                }
                &&& final(self).next() == if old(self).free_view().len() > 0 {
                    old(self).next()
                } else {
                    (old(self).next() + 1) as u64
                }
            }),
    {
        let (entity_id, version) = match self.freelist.pop() {
            Some(pair) => pair,
            None => {
                let id = EntityId(self.next_id);
                self.next_id = self.next_id + 1;
                (id, EntityVersion(0))
            },
        };
        let record = EntityRecord { id: entity_id, version, archetype_hash };
        let offset = self.records.len();
        self.records.push(record);
        self.index.insert(entity_id.0, offset);
        proof {
            assert forall|e: u64| #[trigger] self.index@.contains_key(e) implies self.index@[e]
                < self.records@.len() && self.records@[self.index@[e] as int].id.0 == e by {
                if e != entity_id.0 {
                    assert(old(self).index@.contains_key(e));
                }
            }
        }
        Ok(entity_id)
    }

    /// Deletes a live entity: bumps the version of its record and frees its
    /// ID for reuse.
    pub fn delete_entity(&mut self, entity_id: EntityId) -> (res: Result<()>)
        requires
            old(self).wf(),
            old(self).index_view().contains_key(entity_id.0) ==> old(self).records_view()[old(
                self,
            ).index_view()[entity_id.0] as int].version.0 < u32::MAX,
        ensures
            final(self).wf(),
            !old(self).index_view().contains_key(entity_id.0) ==> res == Err::<(), EcsDbError>(
                EcsDbError::EntityNotFound(entity_id.0),
            ) && final(self).records_view() == old(self).records_view() && final(self).index_view()
                == old(self).index_view() && final(self).free_view() == old(self).free_view()
                && final(self).next() == old(self).next(),
            old(self).index_view().contains_key(entity_id.0) ==> {
                let off = old(self).index_view()[entity_id.0] as int;
                let rec = old(self).records_view()[off];
                let bumped = EntityRecord {
                    id: rec.id,
                    version: EntityVersion((rec.version.0 + 1) as u32),
                    archetype_hash: rec.archetype_hash,
                };
                &&& res is Ok
                &&& 0 <= off < old(self).records_view().len()
                &&& rec.id == entity_id
                &&& final(self).records_view().len() == old(self).records_view().len()
                &&& final(self).records_view() == old(self).records_view().update(off, bumped)
                &&& final(self).index_view() == old(self).index_view().remove(entity_id.0)
                &&& final(self).free_view() == old(self).free_view().push(
                    (entity_id, bumped.version),
                )
                &&& final(self).next() == old(self).next()
            },
    {
        if !self.index.contains_key(&entity_id.0) {
            return Err(EcsDbError::EntityNotFound(entity_id.0));
        }
        let offset = self.index.remove(&entity_id.0).unwrap();
        let old_rec = &self.records[offset];
        let version = EntityVersion(old_rec.version.0 + 1);
        let rec = EntityRecord { id: old_rec.id, version, archetype_hash: old_rec.archetype_hash };
        self.records.set(offset, rec);
        self.freelist.push((entity_id, version));
        proof {
            assert forall|e: u64| #[trigger] self.index@.contains_key(e) implies self.index@[e]
                < self.records@.len() && self.records@[self.index@[e] as int].id.0 == e by {
                assert(old(self).index@.contains_key(e));
            }
        }
        Ok(())
    }

    /// The latest record of a live entity.
    pub fn get_entity(&self, entity_id: EntityId) -> (res: Result<EntityRecord>)
        requires
            self.wf(),
        ensures
            !self.index_view().contains_key(entity_id.0) ==> res == Err::<EntityRecord, EcsDbError>(
                EcsDbError::EntityNotFound(entity_id.0),
            ),
            self.index_view().contains_key(entity_id.0) ==> res == Ok::<EntityRecord, EcsDbError>(
                self.records_view()[self.index_view()[entity_id.0] as int],
            ),
    {
        match self.index.get(&entity_id.0) {
            Some(off) => {
                let r = &self.records[*off];
                Ok(EntityRecord { id: r.id, version: r.version, archetype_hash: r.archetype_hash })
            },
            None => Err(EcsDbError::EntityNotFound(entity_id.0)),
        }
    }

    /// Whether the entity exists (was created and not deleted since).
    pub fn contains_entity(&self, entity_id: EntityId) -> (b: bool)
        ensures
            b == self.index_view().contains_key(entity_id.0),
    {
        self.index.contains_key(&entity_id.0)
    }

    /// Number of records created so far (deleted ones included).
    pub fn entity_count(&self) -> (n: usize)
        ensures
            n == self.records_view().len(),
    {
        self.records.len()
    }

    /// A copy of the registry.
    pub fn duplicate(&self) -> (r: Self)
        ensures
            r.records_view() == self.records_view(),
            r.index_view() == self.index_view(),
            r.free_view() == self.free_view(),
            r.next() == self.next(),
            self.wf() ==> r.wf(),
    {
        let mut records: Vec<EntityRecord> = Vec::new();
        let mut i: usize = 0;
        while i < self.records.len()
            invariant
                i <= self.records@.len(),
                records@ == self.records@.subrange(0, i as int),
            decreases self.records@.len() - i,
        {
            let x = &self.records[i];
            records.push(EntityRecord { id: x.id, version: x.version, archetype_hash: x.archetype_hash });
            i += 1;
            assert(records@ =~= self.records@.subrange(0, i as int));
        }
        assert(self.records@.subrange(0, self.records@.len() as int) =~= self.records@);
        let mut free: Vec<(EntityId, EntityVersion)> = Vec::new();
        let mut j: usize = 0;
        while j < self.freelist.len()
            invariant
                j <= self.freelist@.len(),
                free@ == self.freelist@.subrange(0, j as int),
            decreases self.freelist@.len() - j,
        {
            free.push(self.freelist[j]);
            j += 1;
            assert(free@ =~= self.freelist@.subrange(0, j as int));
        }
        assert(self.freelist@.subrange(0, self.freelist@.len() as int) =~= self.freelist@);
        let pairs = crate::storage::table::map_pairs(&self.index);
        let mut index: HashMap<u64, usize> = HashMap::new();
        let mut k: usize = 0;
        while k < pairs.len()
            invariant
                k <= pairs@.len(),
                pairs@.len() == self.index@.len(),
                forall|m: int| 0 <= m < pairs@.len() ==> #[trigger] self.index@.contains_key(pairs@[m].0) && self.index@[pairs@[m].0] == pairs@[m].1,
                forall|e: u64| self.index@.contains_key(e) ==> exists|m: int| 0 <= m < pairs@.len() && #[trigger] pairs@[m].0 == e,
                forall|e: u64| #[trigger] index@.contains_key(e) ==> self.index@.contains_key(e) && index@[e] == self.index@[e],
                forall|m: int| 0 <= m < k ==> #[trigger] index@.contains_key(pairs@[m].0),
            decreases pairs@.len() - k,
        {
            let (e, o) = pairs[k];
            index.insert(e, o);
            k += 1;
        }
        proof {
            assert forall|e: u64| self.index@.contains_key(e) implies index@.contains_key(e) by {
                let m = choose|m: int| 0 <= m < pairs@.len() && #[trigger] pairs@[m].0 == e;
                assert(index@.contains_key(pairs@[m].0));
            }
            assert(index@ =~= self.index@);
        }
        EntityRegistry { records, index, freelist: free, next_id: self.next_id }
    }

    /// All records, for snapshots.
    pub fn records(&self) -> (r: &[EntityRecord])
        ensures
            r@ == self.records_view(),
    {
        self.records.as_slice()
    }

    /// The freed IDs with their versions, for snapshots.
    pub fn free_list(&self) -> (r: &[(EntityId, EntityVersion)])
        ensures
            r@ == self.free_view(),
    {
        self.freelist.as_slice()
    }

    /// The next fresh ID, for snapshots.
    pub fn next_id(&self) -> (n: u64)
        ensures
            n == self.next(),
    {
        self.next_id
    }

    /// A registry rebuilt from what `records`, `free_list` and `next_id`
    /// give: every ID that is not free is live at its last record.
    pub fn from_parts(records: Vec<EntityRecord>, freelist: Vec<(EntityId, EntityVersion)>, next_id: u64) -> (r: Self)
        ensures
            r.wf(),
            r.records_view() == records@,
            r.free_view() == freelist@,
            r.next() == next_id,
            forall|e: u64| #[trigger] r.index_view().contains_key(e) <==> (exists|i: int| 0 <= i < records@.len() && records@[i].id.0 == e)
                && !(exists|k: int| 0 <= k < freelist@.len() && freelist@[k].0.0 == e),
            forall|e: u64| #[trigger] r.index_view().contains_key(e) ==> forall|i: int| r.index_view()[e] < i < records@.len() ==> records@[i].id.0 != e,
    {
        let mut index: HashMap<u64, usize> = HashMap::new();
        let mut i: usize = 0;
        while i < records.len()
            invariant
                i <= records@.len(),
                forall|e: u64| #[trigger] index@.contains_key(e) ==> index@[e] < i && records@[index@[e] as int].id.0 == e,
                forall|e: u64| #[trigger] index@.contains_key(e) <==> (exists|j: int| 0 <= j < i && records@[j].id.0 == e)
                    && !(exists|k: int| 0 <= k < freelist@.len() && freelist@[k].0.0 == e),
                forall|e: u64| #[trigger] index@.contains_key(e) ==> forall|j: int| index@[e] < j < i ==> records@[j].id.0 != e,
            decreases records@.len() - i,
        {
            let e = records[i].id.0;
            let mut free = false;
            let mut k: usize = 0;
            while k < freelist.len()
                invariant
                    k <= freelist@.len(),
                    free <==> exists|q: int| 0 <= q < k && freelist@[q].0.0 == e,
                decreases freelist@.len() - k,
            {
                if freelist[k].0.0 == e {
                    free = true;
                }
                k += 1;
            }
            if !free {
                index.insert(e, i);
            }
            proof {
                assert forall|x: u64| #[trigger] index@.contains_key(x) <==> (exists|j: int| 0 <= j < i + 1 && records@[j].id.0 == x)
                    && !(exists|q: int| 0 <= q < freelist@.len() && freelist@[q].0.0 == x) by {
                    if x == e {
                        assert(records@[i as int].id.0 == x);
                    } else if exists|j: int| 0 <= j < i + 1 && records@[j].id.0 == x {
                        let j = choose|j: int| 0 <= j < i + 1 && records@[j].id.0 == x;
                        assert(j < i);
                    }
                }
            }
            i += 1;
        }
        EntityRegistry { records, index, freelist, next_id }
    }
}

/// Deleting a live entity takes it out of the live set, leaves the number
/// of records as it was, and makes its ID, with the bumped version, the one
/// that the next `create_entity` hands out.
pub proof fn law_delete_then_create(r0: &EntityRegistry, r1: &EntityRegistry, entity_id: EntityId)
    requires
        r0.wf(),
        r0.index_view().contains_key(entity_id.0),
        ({
            let off = r0.index_view()[entity_id.0] as int;
            let rec = r0.records_view()[off];
            let bumped = EntityRecord {
                id: rec.id,
                version: EntityVersion((rec.version.0 + 1) as u32),
                archetype_hash: rec.archetype_hash,
            };
            &&& rec.id == entity_id
            &&& r1.records_view() == r0.records_view().update(off, bumped)
            &&& r1.index_view() == r0.index_view().remove(entity_id.0)
            &&& r1.free_view() == r0.free_view().push((entity_id, bumped.version))
            &&& r1.next() == r0.next()
        }),
    ensures
        !r1.index_view().contains_key(entity_id.0),
        r1.records_view().len() == r0.records_view().len(),
        r1.next_identity() == (
            entity_id,
            EntityVersion((r0.records_view()[r0.index_view()[entity_id.0] as int].version.0 + 1) as u32),
        ),
{
}

} // verus!
