use std::collections::HashMap;
use vstd::prelude::*;

verus! {

broadcast use vstd::std_specs::hash::group_hash_axioms;

/// A sparse set: the components of the entities that have one, kept densely
/// packed, with a map from entity ID to position and back.
pub struct SparseSet<T> {
    components: Vec<T>,
    entity_to_index: HashMap<u64, usize>,
    index_to_entity: Vec<u64>,
}

impl<T> SparseSet<T> {
    /// The entities in dense order.
    pub closed spec fn entities(&self) -> Seq<u64> {
        self.index_to_entity@
    }

    /// The components in dense order.
    pub closed spec fn dense(&self) -> Seq<T> {
        self.components@
    }

    /// Entity ID to its component.
    pub open spec fn view(&self) -> Map<u64, T> {
        Map::new(
            |e: u64| self.entities().contains(e),
            |e: u64| self.dense()[self.entities().index_of(e)],
        )
    }

    /// The dense arrays line up, no entity occurs twice, and the index map
    /// is the inverse of the entity array.
    pub closed spec fn wf(&self) -> bool {
        &&& self.components@.len() == self.index_to_entity@.len()
        &&& self.index_to_entity@.no_duplicates()
        &&& forall|e: u64|
            #[trigger] self.entity_to_index@.contains_key(e) ==> self.entity_to_index@[e]
                < self.index_to_entity@.len() && self.index_to_entity@[self.entity_to_index@[e] as int]
                == e
        &&& forall|i: int|
            0 <= i < self.index_to_entity@.len() ==> #[trigger] self.entity_to_index@.contains_key(
                self.index_to_entity@[i],
            ) && self.entity_to_index@[self.index_to_entity@[i]] == i
    }

    proof fn lemma_index(&self, e: u64)
        requires
            self.wf(),
        ensures
            self.entity_to_index@.contains_key(e) <==> self.entities().contains(e),
            self.entity_to_index@.contains_key(e) ==> self.entity_to_index@[e] as int
                == self.entities().index_of(e),
    {
        if self.entities().contains(e) {
            let i = self.entities().index_of(e);
            assert(self.index_to_entity@[i] == e);
        }
        if self.entity_to_index@.contains_key(e) {
            let i = self.entity_to_index@[e] as int;
            assert(self.entities()[i] == e);
            assert(self.entities().contains(e));
            let j = self.entities().index_of(e);
            assert(self.entities()[j] == e);
        }
    }

    proof fn lemma_wf_no_dup(&self)
        requires
            self.wf(),
        ensures
            self.entities().no_duplicates(),
            self.dense().len() == self.entities().len(),
    {
    }

    /// An empty set.
    pub fn new() -> (s: Self)
        ensures
            s.wf(),
            s.entities() == Seq::<u64>::empty(),
            s.dense() == Seq::<T>::empty(),
    {
        SparseSet { components: Vec::new(), entity_to_index: HashMap::new(), index_to_entity: Vec::new() }
    }

    /// An empty set with room reserved for `capacity` components.
    pub fn with_capacity(capacity: usize) -> (s: Self)
        ensures
            s.wf(),
            s.entities() == Seq::<u64>::empty(),
            s.dense() == Seq::<T>::empty(),
    {
        SparseSet {
            components: Vec::with_capacity(capacity),
            entity_to_index: HashMap::with_capacity(capacity),
            index_to_entity: Vec::with_capacity(capacity),
        }
    }

    /// What `insert(entity_id, component)` does to the dense arrays.
    pub open spec fn inserted(s0: &Self, s1: &Self, entity_id: u64, component: T) -> bool {
        &&& s0.entities().contains(entity_id) ==> {
            &&& s1.entities() == s0.entities()
            &&& s1.dense() == s0.dense().update(s0.entities().index_of(entity_id), component)
        }
        &&& !s0.entities().contains(entity_id) ==> {
            &&& s1.entities() == s0.entities().push(entity_id)
            &&& s1.dense() == s0.dense().push(component)
        }
    }

    /// What `remove(entity_id)` does to the dense arrays.
    pub open spec fn removed(s0: &Self, s1: &Self, entity_id: u64) -> bool {
        &&& !s0.entities().contains(entity_id) ==> s1.entities() == s0.entities() && s1.dense()
            == s0.dense()
        &&& s0.entities().contains(entity_id) ==> {
            let i = s0.entities().index_of(entity_id);
            &&& s1.entities() == s0.entities().update(i, s0.entities().last()).drop_last()
            &&& s1.dense() == s0.dense().update(i, s0.dense().last()).drop_last()
        }
    }

    /// Whether the entity has a component.
    pub fn contains(&self, entity_id: u64) -> (b: bool)
        requires
            self.wf(),
        ensures
            b == self.entities().contains(entity_id),
    {
        proof {
            self.lemma_index(entity_id);
        }
        self.entity_to_index.contains_key(&entity_id)
    }

    /// Sets the component of an entity: replaces it in place if the entity
    /// has one, else appends it.
    pub fn insert(&mut self, entity_id: u64, component: T)
        requires
            old(self).wf(),
        ensures
            final(self).wf(),
            old(self).entities().contains(entity_id) ==> {
                &&& final(self).entities() == old(self).entities()
                &&& final(self).dense() == old(self).dense().update(
                    old(self).entities().index_of(entity_id),
                    component,
                )
            },
            !old(self).entities().contains(entity_id) ==> {
                &&& final(self).entities() == old(self).entities().push(entity_id)
                &&& final(self).dense() == old(self).dense().push(component)
            },
            Self::inserted(old(self), final(self), entity_id, component),
    {
        proof {
            self.lemma_index(entity_id);
        }
        match self.entity_to_index.get(&entity_id) {
            Some(i) => {
                let index = *i;
                self.components.set(index, component);
            },
            None => {
                let index = self.components.len();
                self.components.push(component);
                self.index_to_entity.push(entity_id);
                self.entity_to_index.insert(entity_id, index);
                proof {
                    let ents = self.index_to_entity@;
                    assert forall|a: int, b: int| 0 <= a < b < ents.len() implies ents[a] != ents[b] by {
                        if b == ents.len() - 1 {
                            assert(old(self).index_to_entity@.contains(ents[a]) ==> ents[a] != entity_id);
                            assert(old(self).index_to_entity@[a] == ents[a]);
                        }
                    }
                    assert forall|e: u64| #[trigger] self.entity_to_index@.contains_key(e) implies self.entity_to_index@[e]
                        < ents.len() && ents[self.entity_to_index@[e] as int] == e by {
                        if e != entity_id {
                            assert(old(self).entity_to_index@.contains_key(e));
                        }
                    }
                    assert forall|i: int| 0 <= i < ents.len() implies #[trigger] self.entity_to_index@.contains_key(
                        ents[i],
                    ) && self.entity_to_index@[ents[i]] == i by {
                        if i < ents.len() - 1 {
                            assert(ents[i] == old(self).index_to_entity@[i]);
                            assert(old(self).entity_to_index@.contains_key(ents[i]));
                            assert(ents[i] != entity_id);
                        }
                    }
                }
            },
        }
    }

    /// The component of an entity, if it has one.
    pub fn get(&self, entity_id: u64) -> (r: Option<&T>)
        requires
            self.wf(),
        ensures
            self.entities().contains(entity_id) ==> r == Some(
                &self.dense()[self.entities().index_of(entity_id)],
            ),
            !self.entities().contains(entity_id) ==> r is None,
    {
        proof {
            self.lemma_index(entity_id);
        }
        match self.entity_to_index.get(&entity_id) {
            Some(i) => Some(&self.components[*i]),
            None => None,
        }
    }

    /// A mutable reference to the component of an entity, if it has one.
    pub fn get_mut(&mut self, entity_id: u64) -> (r: Option<&mut T>)
        requires
            old(self).wf(),
        ensures
            !old(self).entities().contains(entity_id) ==> r is None && *final(self) == *old(self),
            old(self).entities().contains(entity_id) ==> r is Some,
            r matches Some(x) ==> {
                let i = old(self).entities().index_of(entity_id);
                &&& *x == old(self).dense()[i]
                &&& final(self).entities() == old(self).entities()
                &&& final(self).dense() == old(self).dense().update(i, *final(x))
                &&& final(self).wf()
            },
    {
        proof {
            self.lemma_index(entity_id);
        }
        match self.entity_to_index.get(&entity_id) {
            Some(i) => {
                let index = *i;
                Some(&mut self.components[index])
            },
            None => None,
        }
    }

    /// Removes the component of an entity and returns it; the last
    /// component moves into the freed position.
    #[verifier::rlimit(30)]
    pub fn remove(&mut self, entity_id: u64) -> (r: Option<T>)
        requires
            old(self).wf(),
        ensures
            final(self).wf(),
            !old(self).entities().contains(entity_id) ==> r is None && final(self).entities()
                == old(self).entities() && final(self).dense() == old(self).dense(),
            old(self).entities().contains(entity_id) ==> {
                let i = old(self).entities().index_of(entity_id);
                &&& r == Some(old(self).dense()[i])
                &&& final(self).entities() == old(self).entities().update(
                    i,
                    old(self).entities().last(),
                ).drop_last()
                &&& final(self).dense() == old(self).dense().update(
                    i,
                    old(self).dense().last(),
                ).drop_last()
            },
            Self::removed(old(self), final(self), entity_id),
    {
        proof {
            self.lemma_index(entity_id);
        }
        if !self.entity_to_index.contains_key(&entity_id) {
            return None;
        }
        let index = self.entity_to_index.remove(&entity_id).unwrap();
        let last_index = self.components.len() - 1;
        let removed = self.components.swap_remove(index);
        self.index_to_entity.swap_remove(index);
        if index != last_index {
            let moved_entity = self.index_to_entity[index];
            self.entity_to_index.insert(moved_entity, index);
        }
        proof {
            let old_ents = old(self).index_to_entity@;
            let ents = self.index_to_entity@;
            assert forall|a: int, b: int| 0 <= a < b < ents.len() implies ents[a] != ents[b] by {
                let oa = if a == index { last_index as int } else { a };
                let ob = if b == index { last_index as int } else { b };
                assert(ents[a] == old_ents[oa]);
                assert(ents[b] == old_ents[ob]);
            }
            assert(ents.no_duplicates());
            assert forall|e: u64| #[trigger] self.entity_to_index@.contains_key(e) implies self.entity_to_index@[e]
                < ents.len() && ents[self.entity_to_index@[e] as int] == e by {
                assert(old(self).entity_to_index@.contains_key(e));
                let oi = old(self).entity_to_index@[e] as int;
                assert(old_ents[oi] == e);
                if oi == last_index && index != last_index {
                    assert(e == old_ents[last_index as int]);
                } else {
                    assert(oi != index);
                }
            }
            assert forall|i: int| 0 <= i < ents.len() implies #[trigger] self.entity_to_index@.contains_key(
                ents[i],
            ) && self.entity_to_index@[ents[i]] == i by {
                if i == index {
                    assert(ents[i] == old_ents[last_index as int]);
                } else {
                    assert(ents[i] == old_ents[i]);
                    assert(old(self).entity_to_index@.contains_key(old_ents[i]));
                    assert(old_ents[i] != entity_id);
                    if index != last_index {
                        assert(old_ents[i] != old_ents[last_index as int]);
                    }
                }
            }
            assert(self.wf());
        }
        Some(removed)
    }

    /// Number of components.
    pub fn len(&self) -> (n: usize)
        requires
            self.wf(),
        ensures
            n == self.entities().len(),
    {
        self.components.len()
    }

    /// Whether there are no components.
    pub fn is_empty(&self) -> (b: bool)
        requires
            self.wf(),
        ensures
            b == (self.entities().len() == 0),
    {
        self.components.len() == 0
    }

    /// The components in dense order, to change in place; the entities
    /// keep their positions, so `iter` pairs them up.
    pub fn iter_mut(&mut self) -> (r: &mut [T])
        requires
            old(self).wf(),
        ensures
            r@ == old(self).dense(),
            final(self).dense() == final(r)@,
            final(self).entities() == old(self).entities(),
            final(r)@.len() == r@.len() ==> final(self).wf(),
    {
        self.components.as_mut_slice()
    }

    /// Each entity with a reference to its component, in dense order.
    pub fn iter(&self) -> (r: Vec<(u64, &T)>)
        requires
            self.wf(),
        ensures
            r@.len() == self.entities().len(),
            forall|i: int|
                0 <= i < r@.len() ==> r@[i].0 == self.entities()[i] && *r@[i].1 == self.dense()[i],
    {
        let mut r: Vec<(u64, &T)> = Vec::new();
        let n = self.components.len();
        let mut i: usize = 0;
        while i < n
            invariant
                self.wf(),
                n == self.dense().len(),
                i <= n,
                r@.len() == i,
                forall|m: int|
                    0 <= m < i ==> r@[m].0 == self.entities()[m] && *r@[m].1 == self.dense()[m],
            decreases n - i,
        {
            r.push((self.index_to_entity[i], &self.components[i]));
            i += 1;
        }
        r
    }
}

/// Setting a component makes it the entity's component and leaves every
/// other entity's component as it was: the map view gains or replaces one entry.
pub proof fn law_sparse_insert<T>(s0: &SparseSet<T>, s1: &SparseSet<T>, entity_id: u64, component: T)
    requires
        s0.wf(),
        s1.wf(),
        SparseSet::inserted(s0, s1, entity_id, component),
    ensures
        s1.view() == s0.view().insert(entity_id, component),
{
    let e0 = s0.entities();
    let e1 = s1.entities();
    assert(e0.no_duplicates());
    assert(e1.no_duplicates()) by {
        s1.lemma_wf_no_dup();
    }
    s0.lemma_wf_no_dup();
    assert forall|e: u64| #[trigger] s1.view().contains_key(e) <==> s0.view().insert(entity_id, component).contains_key(e) by {
        if !e0.contains(entity_id) {
            if e != entity_id && e1.contains(e) {
                let i = e1.index_of(e);
                assert(e0[i] == e);
            }
            if e0.contains(e) {
                let i = e0.index_of(e);
                assert(e1[i] == e);
            }
            if e == entity_id {
                assert(e1[e0.len() as int] == e);
            }
        }
    }
    assert forall|e: u64| #[trigger] s1.view().contains_key(e) implies s1.view()[e] == s0.view().insert(entity_id, component)[e] by {
        let i1 = e1.index_of(e);
        if e == entity_id {
            if e0.contains(entity_id) {
                let i0 = e0.index_of(entity_id);
                lemma_index_of_unique(e1, i0, e);
            } else {
                lemma_index_of_unique(e1, e0.len() as int, e);
            }
        } else {
            let i0 = e0.index_of(e);
            lemma_index_of_unique(e1, i0, e);
        }
    }
    assert(s1.view() =~= s0.view().insert(entity_id, component));
}

/// Removing a component takes exactly that entity out of the map view.
pub proof fn law_sparse_remove<T>(s0: &SparseSet<T>, s1: &SparseSet<T>, entity_id: u64)
    requires
        s0.wf(),
        s1.wf(),
        SparseSet::removed(s0, s1, entity_id),
    ensures
        s1.view() == s0.view().remove(entity_id),
{
    let e0 = s0.entities();
    let e1 = s1.entities();
    s0.lemma_wf_no_dup();
    s1.lemma_wf_no_dup();
    if e0.contains(entity_id) {
        let i = e0.index_of(entity_id);
        let last = e0.len() - 1;
        assert forall|e: u64| #[trigger] s1.view().contains_key(e) <==> s0.view().remove(entity_id).contains_key(e) by {
            if e1.contains(e) {
                let j = e1.index_of(e);
                if j == i {
                    assert(e == e0[last]);
                    assert(e0[last] != entity_id);
                } else {
                    assert(e == e0[j]);
                    assert(j != i);
                }
            }
            if e0.contains(e) && e != entity_id {
                let j = e0.index_of(e);
                if j == last {
                    assert(e1[i] == e);
                } else {
                    assert(j != i);
                    assert(e1[j] == e);
                }
            }
        }
        assert forall|e: u64| #[trigger] s1.view().contains_key(e) implies s1.view()[e] == s0.view().remove(entity_id)[e] by {
            let j0 = e0.index_of(e);
            if j0 == last {
                lemma_index_of_unique(e1, i, e);
            } else {
                lemma_index_of_unique(e1, j0, e);
            }
        }
        assert(s1.view() =~= s0.view().remove(entity_id));
    } else {
        assert(s1.view() =~= s0.view().remove(entity_id));
    }
}

proof fn lemma_index_of_unique(s: Seq<u64>, i: int, e: u64)
    requires
        s.no_duplicates(),
        0 <= i < s.len(),
        s[i] == e,
    ensures
        s.contains(e),
        s.index_of(e) == i,
{
    assert(s.contains(e));
    let j = s.index_of(e);
    assert(s[j] == e);
}

} // verus!
