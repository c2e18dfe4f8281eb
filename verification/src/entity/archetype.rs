//! Archetype tracking: entities grouped by the set of component types they have.

use std::collections::HashMap;
use vstd::prelude::*;

verus! {

broadcast use vstd::std_specs::hash::group_hash_axioms;

/// A set of component types as a bitmask; bit `t` stands for table ID `t` (0 to 63).
#[derive(Debug, Clone, Copy, PartialEq, Eq, Hash, Structural)]
pub struct ArchetypeMask(pub u64);

/// Whether bit `t` of `bits` is set.
pub open spec fn has_bit(bits: u64, t: u16) -> bool {
    bits & (1u64 << t) != 0
}

impl ArchetypeMask {
    /// The mask with no component type.
    pub fn empty() -> (m: Self)
        ensures
            m.0 == 0,
    {
        ArchetypeMask(0)
    }

    /// The mask with one component type.
    pub fn with_component(table_id: u16) -> (m: Self)
        requires
            table_id < 64,
        ensures
            m.0 == 1u64 << table_id,
    {
        ArchetypeMask(1u64 << table_id)
    }

    /// Adds a component type.
    pub fn add_component(&mut self, table_id: u16)
        requires
            table_id < 64,
        ensures
            final(self).0 == old(self).0 | (1u64 << table_id),
    {
        self.0 = self.0 | (1u64 << table_id);
    }

    /// Removes a component type.
    pub fn remove_component(&mut self, table_id: u16)
        requires
            table_id < 64,
        ensures
            final(self).0 == old(self).0 & !(1u64 << table_id),
    {
        self.0 = self.0 & !(1u64 << table_id);
    }

    /// Whether the mask holds a component type.
    pub fn contains(&self, table_id: u16) -> (b: bool)
        requires
            table_id < 64,
        ensures
            b == has_bit(self.0, table_id),
    {
        (self.0 & (1u64 << table_id)) != 0
    }

    /// The raw mask.
    pub fn bits(&self) -> (b: u64)
        ensures
            b == self.0,
    {
        self.0
    }
}

/// Adding a type makes the mask hold it and leaves every other type as it was.
pub proof fn law_mask_add(bits: u64, t: u16, u: u16)
    requires
        t < 64,
        u < 64,
    ensures
        has_bit(bits | (1u64 << t), t),
        u != t ==> has_bit(bits | (1u64 << t), u) == has_bit(bits, u),
{
    assert(((bits | (1u64 << t)) & (1u64 << t)) != 0) by (bit_vector)
        requires t < 64;
    assert(u != t ==> (((bits | (1u64 << t)) & (1u64 << u)) != 0) == ((bits & (1u64 << u)) != 0))
        by (bit_vector)
        requires t < 64, u < 64;
}

/// Removing a type makes the mask lack it and leaves every other type as it was.
pub proof fn law_mask_remove(bits: u64, t: u16, u: u16)
    requires
        t < 64,
        u < 64,
    ensures
        !has_bit(bits & !(1u64 << t), t),
        u != t ==> has_bit(bits & !(1u64 << t), u) == has_bit(bits, u),
{
    assert(((bits & !(1u64 << t)) & (1u64 << t)) == 0) by (bit_vector)
        requires t < 64;
    assert(u != t ==> (((bits & !(1u64 << t)) & (1u64 << u)) != 0) == ((bits & (1u64 << u)) != 0))
        by (bit_vector)
        requires t < 64, u < 64;
}

/// The empty mask holds no type.
pub proof fn law_mask_empty(t: u16)
    requires
        t < 64,
    ensures
        !has_bit(0, t),
{
    assert((0u64 & (1u64 << t)) == 0) by (bit_vector)
        requires t < 64;
}

/// The position of the first occurrence of `e` in `s`.
pub open spec fn first_pos(s: Seq<u64>, e: u64) -> int {
    choose|i: int| 0 <= i < s.len() && s[i] == e && forall|j: int| 0 <= j < i ==> s[j] != e
}

/// `s` with the first occurrence of `e` replaced by the last element and the
/// last position dropped (unchanged when `e` does not occur).
pub open spec fn swap_out(s: Seq<u64>, e: u64) -> Seq<u64> {
    if s.contains(e) {
        s.update(first_pos(s, e), s.last()).drop_last()
    } else {
        s
    }
}

/// The entity lists after taking `e` out of the list of `mask` (if there is one).
pub open spec fn lists_without(lists: Map<u64, Seq<u64>>, mask: u64, e: u64) -> Map<u64, Seq<u64>> {
    if lists.contains_key(mask) {
        lists.insert(mask, swap_out(lists[mask], e))
    } else {
        lists
    }
}

/// The entity lists after appending `e` to the list of `mask`.
pub open spec fn lists_with(lists: Map<u64, Seq<u64>>, mask: u64, e: u64) -> Map<u64, Seq<u64>> {
    if lists.contains_key(mask) {
        lists.insert(mask, lists[mask].push(e))
    } else {
        lists.insert(mask, seq![e])
    }
}

/// Tracks which entities belong to which archetype.
#[derive(Clone)]
pub struct ArchetypeRegistry {
    archetype_entities: HashMap<u64, Vec<u64>>,
    entity_archetype: HashMap<u64, ArchetypeMask>,
}

/// A copy of a list of entity IDs.
fn copy_ids(v: &Vec<u64>) -> (r: Vec<u64>)
    ensures
        r@ == v@,
{
    let mut r: Vec<u64> = Vec::new();
    let mut i: usize = 0;
    while i < v.len()
        invariant
            i <= v@.len(),
            r@ == v@.subrange(0, i as int),
        decreases v@.len() - i,
    {
        r.push(v[i]);
        i += 1;
        assert(r@ =~= v@.subrange(0, i as int));
    }
    assert(v@.subrange(0, v@.len() as int) =~= v@);
    r
}

fn copy_lists(m: &HashMap<u64, Vec<u64>>) -> (r: HashMap<u64, Vec<u64>>)
    ensures
        forall|k: u64| #[trigger] r@.contains_key(k) <==> m@.contains_key(k),
        forall|k: u64| #[trigger] r@.contains_key(k) ==> r@[k]@ == m@[k]@,
{
    let mut r: HashMap<u64, Vec<u64>> = HashMap::new();
    for kv in it: m.iter()
        invariant
            it.seq().len() == m@.len(),
            it.seq().no_duplicates(),
            forall|i: int|
                0 <= i < it.seq().len() ==> #[trigger] m@.contains_key(*it.seq()[i].0)
                    && m@[*it.seq()[i].0] == *it.seq()[i].1,
            forall|e: u64|
                #[trigger] m@.contains_key(e) ==> exists|i: int|
                    0 <= i < it.seq().len() && *it.seq()[i].0 == e,
            forall|k: u64| #[trigger] r@.contains_key(k) ==> m@.contains_key(k) && r@[k]@ == m@[k]@,
            forall|e: u64|
                #[trigger] m@.contains_key(e) ==> r@.contains_key(e) || (exists|i: int|
                    it.index() <= i < it.seq().len() && *it.seq()[i].0 == e),
    {
        let (k, v) = kv;
        let ghost idx = it.index();
        assert((k, v) == it.seq()[idx]);
        r.insert(*k, copy_ids(v));
        proof {
            assert forall|e: u64| #[trigger] m@.contains_key(e) implies r@.contains_key(e) || (exists|i: int|
                idx + 1 <= i < it.seq().len() && *it.seq()[i].0 == e) by {
                if !r@.contains_key(e) {
                    let w = choose|i: int| idx <= i < it.seq().len() && *it.seq()[i].0 == e;
                    if w == idx {
                        assert(*k == e);
                    }
                }
            }
        }
    }
    r
}

fn copy_masks(m: &HashMap<u64, ArchetypeMask>) -> (r: HashMap<u64, ArchetypeMask>)
    ensures
        r@ == m@,
{
    let mut r: HashMap<u64, ArchetypeMask> = HashMap::new();
    for kv in it: m.iter()
        invariant
            it.seq().len() == m@.len(),
            it.seq().no_duplicates(),
            forall|i: int|
                0 <= i < it.seq().len() ==> #[trigger] m@.contains_key(*it.seq()[i].0)
                    && m@[*it.seq()[i].0] == *it.seq()[i].1,
            forall|e: u64|
                #[trigger] m@.contains_key(e) ==> exists|i: int|
                    0 <= i < it.seq().len() && *it.seq()[i].0 == e,
            forall|k: u64| #[trigger] r@.contains_key(k) ==> m@.contains_key(k) && r@[k] == m@[k],
            forall|e: u64|
                #[trigger] m@.contains_key(e) ==> r@.contains_key(e) || (exists|i: int|
                    it.index() <= i < it.seq().len() && *it.seq()[i].0 == e),
    {
        let (k, v) = kv;
        let ghost idx = it.index();
        assert((k, v) == it.seq()[idx]);
        r.insert(*k, *v);
        proof {
            assert forall|e: u64| #[trigger] m@.contains_key(e) implies r@.contains_key(e) || (exists|i: int|
                idx + 1 <= i < it.seq().len() && *it.seq()[i].0 == e) by {
                if !r@.contains_key(e) {
                    let w = choose|i: int| idx <= i < it.seq().len() && *it.seq()[i].0 == e;
                    if w == idx {
                        assert(*k == e);
                    }
                }
            }
        }
    }
    assert(r@ =~= m@);
    r
}

impl ArchetypeRegistry {
    /// Mask bits to the entities listed under that archetype.
    pub closed spec fn lists(&self) -> Map<u64, Seq<u64>> {
        Map::new(
            |k: u64| self.archetype_entities@.contains_key(k),
            |k: u64| self.archetype_entities@[k]@,
        )
    }

    /// Entity to its archetype.
    pub closed spec fn masks(&self) -> Map<u64, ArchetypeMask> {
        self.entity_archetype@
    }

    /// An entity is listed under an archetype exactly when that is its
    /// archetype, and no list names an entity twice.
    pub open spec fn consistent(&self) -> bool {
        &&& forall|k: u64| #[trigger] self.lists().contains_key(k) ==> self.lists()[k].no_duplicates()
        &&& forall|k: u64, e: u64|
            #[trigger] self.lists().contains_key(k) && #[trigger] self.lists()[k].contains(e)
                ==> self.masks().contains_key(e) && self.masks()[e].0 == k
        &&& forall|e: u64|
            #[trigger] self.masks().contains_key(e) ==> self.lists().contains_key(self.masks()[e].0)
                && self.lists()[self.masks()[e].0].contains(e)
    }

    /// A copy with the same lists and masks.
    pub fn duplicate(&self) -> (r: Self)
        ensures
            r.lists() == self.lists(),
            r.masks() == self.masks(),
    {
        let r = ArchetypeRegistry {
            archetype_entities: copy_lists(&self.archetype_entities),
            entity_archetype: copy_masks(&self.entity_archetype),
        };
        assert(r.lists() =~= self.lists());
        r
    }

    pub fn new() -> (r: Self)
        ensures
            r.lists() == Map::<u64, Seq<u64>>::empty(),
            r.masks() == Map::<u64, ArchetypeMask>::empty(),
            r.consistent(),
    {
        let r = ArchetypeRegistry { archetype_entities: HashMap::new(), entity_archetype: HashMap::new() };
        assert(r.lists() =~= Map::<u64, Seq<u64>>::empty());
        r
    }

    fn push_to(&mut self, mask: u64, e: u64)
        ensures
            final(self).lists() == lists_with(old(self).lists(), mask, e),
            final(self).masks() == old(self).masks(),
    {
        match self.archetype_entities.remove(&mask) {
            Some(v) => {
                let mut v = v;
                v.push(e);
                self.archetype_entities.insert(mask, v);
            },
            None => {
                let mut v: Vec<u64> = Vec::new();
                v.push(e);
                self.archetype_entities.insert(mask, v);
            },
        }
        assert(self.lists() =~= lists_with(old(self).lists(), mask, e));
    }

    fn take_from(&mut self, mask: u64, e: u64)
        ensures
            final(self).lists() == lists_without(old(self).lists(), mask, e),
            final(self).masks() == old(self).masks(),
    {
        match self.archetype_entities.remove(&mask) {
            Some(v) => {
                let mut v = v;
                let n = v.len();
                let mut i: usize = 0;
                while i < n
                    invariant
                        n == v@.len(),
                        i <= n,
                        forall|m: int| 0 <= m < i ==> v@[m] != e,
                    ensures
                        i <= n,
                        n == v@.len(),
                        i < n ==> v@[i as int] == e,
                        forall|m: int| 0 <= m < i ==> v@[m] != e,
                    decreases n - i,
                {
                    if v[i] == e {
                        break;
                    }
                    i += 1;
                }
                if i < n {
                    proof {
                        assert(v@[i as int] == e);
                        assert(v@.contains(e));
                        assert(exists|k: int| 0 <= k < v@.len() && v@[k] == e && forall|j: int| 0 <= j < k ==> v@[j] != e);
                        let j = first_pos(v@, e);
                        if j < i {
                            assert(v@[j] != e);
                        }
                        if j > i {
                            assert(v@[i as int] != e);
                        }
                    }
                    v.swap_remove(i);
                } else {
                    assert(!v@.contains(e));
                }
                self.archetype_entities.insert(mask, v);
            },
            None => {},
        }
        assert(self.lists() =~= lists_without(old(self).lists(), mask, e));
    }

    /// Records an entity with an initial archetype.
    pub fn add_entity(&mut self, entity_id: u64, archetype: ArchetypeMask)
        ensures
            final(self).masks() == old(self).masks().insert(entity_id, archetype),
            final(self).lists() == lists_with(old(self).lists(), archetype.0, entity_id),
            old(self).consistent() && !old(self).masks().contains_key(entity_id) ==> final(self).consistent(),
    {
        let ghost r0 = *self;
        self.entity_archetype.insert(entity_id, archetype);
        self.push_to(archetype.0, entity_id);
        proof {
            if r0.consistent() && !r0.masks().contains_key(entity_id) {
                law_archetype_add_entity(&r0, &*self, entity_id, archetype);
            }
        }
    }

    /// Forgets an entity; returns its archetype if it had one.
    pub fn remove_entity(&mut self, entity_id: u64) -> (r: Option<ArchetypeMask>)
        ensures
            !old(self).masks().contains_key(entity_id) ==> r is None && final(self).masks()
                == old(self).masks() && final(self).lists() == old(self).lists(),
            old(self).masks().contains_key(entity_id) ==> {
                let m = old(self).masks()[entity_id];
                &&& r == Some(m)
                &&& final(self).masks() == old(self).masks().remove(entity_id)
                &&& final(self).lists() == lists_without(old(self).lists(), m.0, entity_id)
            },
            old(self).consistent() ==> final(self).consistent(),
    {
        let ghost r0 = *self;
        match self.entity_archetype.remove(&entity_id) {
            Some(m) => {
                self.take_from(m.0, entity_id);
                proof {
                    if r0.consistent() {
                        law_archetype_remove_entity(&r0, &*self, entity_id);
                    }
                }
                Some(m)
            },
            None => None,
        }
    }

    /// Adds a component type to an entity's archetype and moves the entity to
    /// the list of its new archetype; returns the old archetype.
    pub fn add_component(&mut self, entity_id: u64, table_id: u16) -> (r: Option<ArchetypeMask>)
        requires
            table_id < 64,
        ensures
            !old(self).masks().contains_key(entity_id) ==> r is None && final(self).masks()
                == old(self).masks() && final(self).lists() == old(self).lists(),
            old(self).masks().contains_key(entity_id) ==> {
                let m = old(self).masks()[entity_id];
                let n = ArchetypeMask(m.0 | (1u64 << table_id));
                &&& r == Some(m)
                &&& final(self).masks() == old(self).masks().insert(entity_id, n)
                &&& final(self).lists() == if n.0 != m.0 {
                    lists_with(lists_without(old(self).lists(), m.0, entity_id), n.0, entity_id)
                } else {
                    old(self).lists()
                }
            },
            old(self).consistent() ==> final(self).consistent(),
    {
        let ghost r0 = *self;
        let old_mask = match self.entity_archetype.get(&entity_id) {
            Some(m) => *m,
            None => return None,
        };
        let mut new_mask = old_mask;
        new_mask.add_component(table_id);
        self.entity_archetype.insert(entity_id, new_mask);
        if old_mask.0 != new_mask.0 {
            self.move_entity(entity_id, old_mask, new_mask);
        }
        proof {
            if old_mask.0 == new_mask.0 {
                assert(self.entity_archetype@ =~= old(self).entity_archetype@.insert(entity_id, new_mask));
            }
        }
        proof {
            if r0.consistent() {
                law_archetype_move(&r0, &*self, entity_id, new_mask);
            }
        }
        Some(old_mask)
    }

    /// Removes a component type from an entity's archetype and moves the
    /// entity to the list of its new archetype; returns the old archetype.
    pub fn remove_component(&mut self, entity_id: u64, table_id: u16) -> (r: Option<ArchetypeMask>)
        requires
            table_id < 64,
        ensures
            !old(self).masks().contains_key(entity_id) ==> r is None && final(self).masks()
                == old(self).masks() && final(self).lists() == old(self).lists(),
            old(self).masks().contains_key(entity_id) ==> {
                let m = old(self).masks()[entity_id];
                let n = ArchetypeMask(m.0 & !(1u64 << table_id));
                &&& r == Some(m)
                &&& final(self).masks() == old(self).masks().insert(entity_id, n)
                &&& final(self).lists() == if n.0 != m.0 {
                    lists_with(lists_without(old(self).lists(), m.0, entity_id), n.0, entity_id)
                } else {
                    old(self).lists()
                }
            },
            old(self).consistent() ==> final(self).consistent(),
    {
        let ghost r0 = *self;
        let old_mask = match self.entity_archetype.get(&entity_id) {
            Some(m) => *m,
            None => return None,
        };
        let mut new_mask = old_mask;
        new_mask.remove_component(table_id);
        self.entity_archetype.insert(entity_id, new_mask);
        if old_mask.0 != new_mask.0 {
            self.move_entity(entity_id, old_mask, new_mask);
        }
        proof {
            if r0.consistent() {
                law_archetype_move(&r0, &*self, entity_id, new_mask);
            }
        }
        Some(old_mask)
    }

    fn move_entity(&mut self, entity_id: u64, from: ArchetypeMask, to: ArchetypeMask)
        ensures
            final(self).masks() == old(self).masks(),
            final(self).lists() == lists_with(
                lists_without(old(self).lists(), from.0, entity_id),
                to.0,
                entity_id,
            ),
    {
        self.take_from(from.0, entity_id);
        self.push_to(to.0, entity_id);
    }

    /// The archetype of an entity, if known.
    pub fn get_archetype(&self, entity_id: u64) -> (r: Option<ArchetypeMask>)
        ensures
            r == if self.masks().contains_key(entity_id) {
                Some(self.masks()[entity_id])
            } else {
                None::<ArchetypeMask>
            },
    {
        match self.entity_archetype.get(&entity_id) {
            Some(m) => Some(*m),
            None => None,
        }
    }

    /// The entities listed under an archetype.
    pub fn entities_in_archetype(&self, archetype: ArchetypeMask) -> (r: &[u64])
        ensures
            r@ == if self.lists().contains_key(archetype.0) {
                self.lists()[archetype.0]
            } else {
                Seq::<u64>::empty()
            },
    {
        match self.archetype_entities.get(&archetype.0) {
            Some(v) => v.as_slice(),
            None => &[],
        }
    }

    /// The number of entities listed under an archetype.
    pub fn archetype_size(&self, archetype: ArchetypeMask) -> (n: usize)
        ensures
            n == if self.lists().contains_key(archetype.0) {
                self.lists()[archetype.0].len()
            } else {
                0
            },
    {
        match self.archetype_entities.get(&archetype.0) {
            Some(v) => v.len(),
            None => 0,
        }
    }
}

proof fn lemma_swap_out(s: Seq<u64>, e: u64)
    requires
        s.no_duplicates(),
    ensures
        swap_out(s, e).no_duplicates(),
        forall|x: u64| #[trigger] swap_out(s, e).contains(x) <==> (s.contains(x) && x != e),
{
    if s.contains(e) {
        assert(exists|k: int| 0 <= k < s.len() && s[k] == e && forall|j: int| 0 <= j < k ==> s[j] != e) by {
            let k = s.index_of(e);
            assert(s[k] == e);
            assert forall|j: int| 0 <= j < k implies s[j] != e by {
                if s[j] == e {
                    assert(j != k);
                }
            }
        }
        let p = first_pos(s, e);
        let last = s.len() - 1;
        let r = swap_out(s, e);
        assert(r.len() == last);
        assert forall|a: int, b: int| 0 <= a < b < r.len() implies r[a] != r[b] by {
            let oa = if a == p { last } else { a };
            let ob = if b == p { last } else { b };
            assert(r[a] == s[oa]);
            assert(r[b] == s[ob]);
        }
        assert forall|x: u64| #[trigger] r.contains(x) <==> (s.contains(x) && x != e) by {
            if r.contains(x) {
                let a = r.index_of(x);
                let oa = if a == p { last } else { a };
                assert(s[oa] == x);
                assert(oa != p);
            }
            if s.contains(x) && x != e {
                let a = s.index_of(x);
                assert(a != p);
                if a == last {
                    assert(r[p] == x);
                } else {
                    assert(r[a] == x);
                }
            }
        }
    }
}

proof fn lemma_push_contains(s: Seq<u64>, e: u64)
    ensures
        forall|x: u64| #[trigger] s.push(e).contains(x) <==> (s.contains(x) || x == e),
        !s.contains(e) && s.no_duplicates() ==> s.push(e).no_duplicates(),
{
    assert forall|x: u64| #[trigger] s.push(e).contains(x) <==> (s.contains(x) || x == e) by {
        if s.contains(x) {
            let a = s.index_of(x);
            assert(s.push(e)[a] == x);
        }
        if x == e {
            assert(s.push(e)[s.len() as int] == x);
        }
        if s.push(e).contains(x) {
            let a = s.push(e).index_of(x);
            if a < s.len() {
                assert(s[a] == x);
            }
        }
    }
    if !s.contains(e) && s.no_duplicates() {
        assert forall|a: int, b: int| 0 <= a < b < s.push(e).len() implies s.push(e)[a] != s.push(e)[b] by {
            if b == s.len() {
                assert(s[a] == s.push(e)[a]);
            }
        }
    }
}

/// Whether the entity lists and masks of `r1` are `lists` and `masks`.
pub open spec fn registry_is(r1: &ArchetypeRegistry, lists: Map<u64, Seq<u64>>, masks: Map<u64, ArchetypeMask>) -> bool {
    r1.lists() == lists && r1.masks() == masks
}

proof fn lemma_take_then_push_consistent(
    lists: Map<u64, Seq<u64>>,
    masks: Map<u64, ArchetypeMask>,
    e: u64,
    from: Option<u64>,
    to: Option<u64>,
    r1: &ArchetypeRegistry,
)
    requires
        forall|k: u64| #[trigger] lists.contains_key(k) ==> lists[k].no_duplicates(),
        forall|k: u64, x: u64|
            #[trigger] lists.contains_key(k) && #[trigger] lists[k].contains(x) ==> masks.contains_key(x)
                && masks[x].0 == k,
        forall|x: u64|
            #[trigger] masks.contains_key(x) ==> lists.contains_key(masks[x].0) && lists[masks[x].0].contains(x),
        from is Some <==> masks.contains_key(e),
        from is Some ==> from->0 == masks[e].0,
        ({
            let l1 = if from is Some { lists_without(lists, from->0, e) } else { lists };
            let l2 = if to is Some { lists_with(l1, to->0, e) } else { l1 };
            let m2 = if to is Some { masks.insert(e, ArchetypeMask(to->0)) } else { masks.remove(e) };
            registry_is(r1, l2, m2)
        }),
    ensures
        r1.consistent(),
{
    let l1 = if from is Some { lists_without(lists, from->0, e) } else { lists };
    // after taking e out: no list holds e
    assert forall|k: u64| #[trigger] l1.contains_key(k) implies l1[k].no_duplicates() && !l1[k].contains(e) by {
        if from is Some && k == from->0 {
            lemma_swap_out(lists[k], e);
        } else if lists[k].contains(e) {
            assert(masks[e].0 == k);
        }
    }
    assert forall|k: u64, x: u64| #[trigger] l1.contains_key(k) && #[trigger] l1[k].contains(x) implies x != e
        && masks.contains_key(x) && masks[x].0 == k by {
        if from is Some && k == from->0 {
            lemma_swap_out(lists[k], e);
        }
    }
    assert forall|x: u64| #[trigger] masks.contains_key(x) && x != e implies l1.contains_key(masks[x].0)
        && l1[masks[x].0].contains(x) by {
        if from is Some && masks[x].0 == from->0 {
            lemma_swap_out(lists[masks[x].0], e);
        }
    }
    if to is Some {
        let t = to->0;
        let l2 = lists_with(l1, t, e);
        if l1.contains_key(t) {
            lemma_push_contains(l1[t], e);
        } else {
            lemma_push_contains(Seq::<u64>::empty(), e);
            assert(seq![e] =~= Seq::<u64>::empty().push(e));
        }
        assert forall|k: u64| #[trigger] r1.lists().contains_key(k) implies r1.lists()[k].no_duplicates() by {}
        assert forall|k: u64, x: u64|
            #[trigger] r1.lists().contains_key(k) && #[trigger] r1.lists()[k].contains(x) implies r1.masks().contains_key(x)
                && r1.masks()[x].0 == k by {}
        assert forall|x: u64| #[trigger] r1.masks().contains_key(x) implies r1.lists().contains_key(r1.masks()[x].0)
            && r1.lists()[r1.masks()[x].0].contains(x) by {}
    } else {
        assert forall|k: u64| #[trigger] r1.lists().contains_key(k) implies r1.lists()[k].no_duplicates() by {}
        assert forall|k: u64, x: u64|
            #[trigger] r1.lists().contains_key(k) && #[trigger] r1.lists()[k].contains(x) implies r1.masks().contains_key(x)
                && r1.masks()[x].0 == k by {}
        assert forall|x: u64| #[trigger] r1.masks().contains_key(x) implies r1.lists().contains_key(r1.masks()[x].0)
            && r1.lists()[r1.masks()[x].0].contains(x) by {}
    }
}

/// Adding a new entity keeps lists and masks in agreement.
pub proof fn law_archetype_add_entity(
    r0: &ArchetypeRegistry,
    r1: &ArchetypeRegistry,
    entity_id: u64,
    archetype: ArchetypeMask,
)
    requires
        r0.consistent(),
        !r0.masks().contains_key(entity_id),
        r1.masks() == r0.masks().insert(entity_id, archetype),
        r1.lists() == lists_with(r0.lists(), archetype.0, entity_id),
    ensures
        r1.consistent(),
{
    lemma_take_then_push_consistent(r0.lists(), r0.masks(), entity_id, None, Some(archetype.0), r1);
}

/// Removing an entity keeps lists and masks in agreement, and no list names it.
pub proof fn law_archetype_remove_entity(r0: &ArchetypeRegistry, r1: &ArchetypeRegistry, entity_id: u64)
    requires
        r0.consistent(),
        r0.masks().contains_key(entity_id),
        r1.masks() == r0.masks().remove(entity_id),
        r1.lists() == lists_without(r0.lists(), r0.masks()[entity_id].0, entity_id),
    ensures
        r1.consistent(),
        forall|k: u64| #[trigger] r1.lists().contains_key(k) ==> !r1.lists()[k].contains(entity_id),
{
    lemma_take_then_push_consistent(r0.lists(), r0.masks(), entity_id, Some(r0.masks()[entity_id].0), None, r1);
}

/// Moving an entity to another archetype (as adding or removing a component
/// type does) keeps lists and masks in agreement.
pub proof fn law_archetype_move(
    r0: &ArchetypeRegistry,
    r1: &ArchetypeRegistry,
    entity_id: u64,
    to: ArchetypeMask,
)
    requires
        r0.consistent(),
        r0.masks().contains_key(entity_id),
        r1.masks() == r0.masks().insert(entity_id, to),
        r1.lists() == if to.0 != r0.masks()[entity_id].0 {
            lists_with(lists_without(r0.lists(), r0.masks()[entity_id].0, entity_id), to.0, entity_id)
        } else {
            r0.lists()
        },
    ensures
        r1.consistent(),
{
    let from = r0.masks()[entity_id];
    if to.0 != from.0 {
        lemma_take_then_push_consistent(r0.lists(), r0.masks(), entity_id, Some(from.0), Some(to.0), r1);
    } else {
        assert(r1.masks() =~= r0.masks());
    }
}

} // verus!
