use vstd::prelude::*;
use crate::entity::Entity;

verus! {

/// The sequence without the entity `x`, the others in their order.
pub open spec fn without(s: Seq<Entity>, x: Entity) -> Seq<Entity> {
    s.filter(|e: Entity| e != x)
}

/// What a store holds: the value of each entity, and the entities in the
/// order in which they were inserted.
pub struct StoreContent<T> {
    pub values: Map<Entity, T>,
    pub order: Seq<Entity>,
}

impl<T> StoreContent<T> {
    /// The content of a store that holds nothing.
    pub open spec fn empty() -> Self {
        StoreContent { values: Map::empty(), order: Seq::empty() }
    }

    /// The content after `entity` is given `value`.
    pub open spec fn insert(self, entity: Entity, value: T) -> Self {
        StoreContent {
            values: self.values.insert(entity, value),
            order: if self.values.contains_key(entity) {
                self.order
            } else {
                self.order.push(entity)
            },
        }
    }

    /// The content after the value of `entity` is taken out.
    pub open spec fn remove(self, entity: Entity) -> Self {
        StoreContent { values: self.values.remove(entity), order: without(self.order, entity) }
    }

    /// The value that `entity` holds, if any.
    pub open spec fn get(self, entity: Entity) -> Option<T> {
        if self.values.contains_key(entity) {
            Some(self.values[entity])
        } else {
            None
        }
    }
}

/// After an insertion the entity holds the inserted value.
pub proof fn lemma_insert_then_get<T>(c: StoreContent<T>, entity: Entity, value: T)
    ensures
        c.insert(entity, value).get(entity) == Some(value),
{
}

/// After a removal the entity holds nothing.
pub proof fn lemma_remove_then_get<T>(c: StoreContent<T>, entity: Entity)
    ensures
        c.remove(entity).get(entity) == None::<T>,
{
}

/// Of two insertions for one entity, the second finds the value of the first
/// and leaves its own; the entity keeps its place in the order.
pub proof fn lemma_insert_twice<T>(c: StoreContent<T>, entity: Entity, first: T, second: T)
    ensures
        c.insert(entity, first).get(entity) == Some(first),
        c.insert(entity, first).insert(entity, second).get(entity) == Some(second),
        c.insert(entity, first).insert(entity, second).order == c.insert(entity, first).order,
{
}

/// An insertion or a removal for one entity leaves what another holds.
pub proof fn lemma_others_untouched<T>(c: StoreContent<T>, entity: Entity, value: T, other: Entity)
    requires
        other != entity,
    ensures
        c.insert(entity, value).get(other) == c.get(other),
        c.remove(entity).get(other) == c.get(other),
{
}

/// Columnar storage of the values of one component type: a dense array of
/// entities beside a dense array of their values.  An entity holds at most
/// one value.
pub struct ComponentStore<T> {
    entities: Vec<Entity>,
    values: Vec<T>,
}

impl<T> ComponentStore<T> {
    #[verifier::type_invariant]
    spec fn inv(self) -> bool {
        &&& self.entities@.len() == self.values@.len()
        &&& self.entities@.no_duplicates()
    }

    /// The entities that hold a value, in the order in which they were
    /// inserted.
    pub closed spec fn order(self) -> Seq<Entity> {
        self.entities@
    }

    /// The value that each entity holds.
    pub closed spec fn view(self) -> Map<Entity, T> {
        Map::new(
            |e: Entity| self.entities@.contains(e),
            |e: Entity| self.values@[self.entities@.index_of(e)],
        )
    }

    /// Values and order together.
    pub open spec fn content(self) -> StoreContent<T> {
        StoreContent { values: self@, order: self.order() }
    }

    /// The store's two descriptions agree: the entities that hold a value
    /// are those in `order`, which lists none twice.
    pub open spec fn coherent(self) -> bool {
        &&& self.order().no_duplicates()
        &&& forall|e: Entity| self@.contains_key(e) <==> self.order().contains(e)
    }

    proof fn lemma_value_at(self, i: int)
        requires
            self.inv(),
            0 <= i < self.entities@.len(),
        ensures
            self@.contains_key(self.entities@[i]),
            self@[self.entities@[i]] == self.values@[i],
    {
        let e = self.entities@[i];
        assert(self.entities@.contains(e));
        let j = self.entities@.index_of(e);
        assert(self.entities@[j] == e);
    }

    /// An empty store.
    pub fn new() -> (s: Self)
        ensures
            s@ == Map::<Entity, T>::empty(),
            s.order() == Seq::<Entity>::empty(),
            s.coherent(),
    {
        let s = ComponentStore { entities: Vec::new(), values: Vec::new() };
        assert(s@ =~= Map::<Entity, T>::empty());
        s
    }

    fn position(&self, entity: Entity) -> (r: Option<usize>)
        ensures
            match r {
                Some(i) => i < self.entities@.len() && self.entities@[i as int] == entity,
                None => !self.entities@.contains(entity),
            },
    {
        let mut i: usize = 0;
        while i < self.entities.len()
            invariant
                i <= self.entities@.len(),
                forall|j: int| 0 <= j < i ==> self.entities@[j] != entity,
            decreases self.entities@.len() - i,
        {
            if self.entities[i] == entity {
                return Some(i);
            }
            i += 1;
        }
        None
    }

    /// The number of entities that hold a value.
    pub fn len(&self) -> (n: usize)
        ensures
            n == self.order().len(),
            n == self@.dom().len(),
            self.coherent(),
    {
        proof {
            use_type_invariant(self);
            self.entities@.unique_seq_to_set();
            assert(self@.dom() =~= self.entities@.to_set());
        }
        self.entities.len()
    }

    /// Whether no entity holds a value.
    pub fn is_empty(&self) -> (r: bool)
        ensures
            r == (self.order().len() == 0),
    {
        self.entities.len() == 0
    }

    /// Whether `entity` holds a value.
    pub fn contains(&self, entity: Entity) -> (r: bool)
        ensures
            r == self@.contains_key(entity),
    {
        self.position(entity).is_some()
    }

    /// The value that `entity` holds, if any.
    pub fn get(&self, entity: Entity) -> (r: Option<&T>)
        ensures
            match r {
                Some(v) => self@.contains_key(entity) && *v == self@[entity],
                None => !self@.contains_key(entity),
            },
            match r {
                Some(v) => self.content().get(entity) == Some(*v),
                None => self.content().get(entity).is_none(),
            },
    {
        proof {
            use_type_invariant(self);
        }
        match self.position(entity) {
            Some(i) => {
                proof {
                    self.lemma_value_at(i as int);
                }
                Some(&self.values[i])
            },
            None => None,
        }
    }

    /// Exclusive access to the value that `entity` holds, if any.  What the
    /// caller writes through the reference becomes the entity's value;
    /// nothing else changes.
    pub fn get_mut(&mut self, entity: Entity) -> (r: Option<&mut T>)
        ensures
            match r {
                Some(v) => {
                    &&& old(self)@.contains_key(entity)
                    &&& *v == old(self)@[entity]
                    &&& final(self)@ == old(self)@.insert(entity, *final(v))
                    &&& final(self).order() == old(self).order()
                },
                None => {
                    &&& !old(self)@.contains_key(entity)
                    &&& final(self)@ == old(self)@
                    &&& final(self).order() == old(self).order()
                },
            },
            final(self).coherent(),
    {
        proof {
            use_type_invariant(&*self);
        }
        match self.position(entity) {
            Some(i) => {
                proof {
                    self.lemma_value_at(i as int);
                }
                Some(&mut self.values[i])
            },
            None => None,
        }
    }

    /// Gives `entity` the value `value`.  Returns the value that it held
    /// before, if any; a new entity goes to the end of the order.
    pub fn insert(&mut self, entity: Entity, value: T) -> (r: Option<T>)
        ensures
            final(self)@ == old(self)@.insert(entity, value),
            r == if old(self)@.contains_key(entity) {
                Some(old(self)@[entity])
            } else {
                None
            },
            final(self).order() == if old(self)@.contains_key(entity) {
                old(self).order()
            } else {
                old(self).order().push(entity)
            },
            r == old(self).content().get(entity),
            final(self).content() == old(self).content().insert(entity, value),
            final(self).coherent(),
    {
        proof {
            use_type_invariant(&*self);
        }
        let pos = self.position(entity);
        let mut taken = ComponentStore { entities: Vec::new(), values: Vec::new() };
        core::mem::swap(self, &mut taken);
        let ComponentStore { mut entities, mut values } = taken;
        let r = match pos {
            Some(i) => {
                proof {
                    old(self).lemma_value_at(i as int);
                }
                let mut v = value;
                core::mem::swap(&mut values[i], &mut v);
                Some(v)
            },
            None => {
                entities.push(entity);
                values.push(value);
                None
            },
        };
        *self = ComponentStore { entities, values };
        proof {
            let before = old(self).entities@;
            let after = self.entities@;
            assert forall|e: Entity| #![auto] self@.dom().contains(e) == old(self)@.insert(
                entity,
                value,
            ).dom().contains(e) by {
                if before.contains(e) {
                    let j = before.index_of(e);
                    assert(after[j] == e);
                }
                if after.contains(e) && e != entity {
                    let j = after.index_of(e);
                    assert(before[j] == e);
                }
                if e == entity {
                    assert(after[if pos.is_some() {
                        pos.unwrap() as int
                    } else {
                        before.len() as int
                    }] == e);
                }
            }
            assert forall|e: Entity| self@.dom().contains(e) implies #[trigger] self@[e]
                == old(self)@.insert(entity, value)[e] by {
                let j = after.index_of(e);
                assert(after[j] == e);
                self.lemma_value_at(j);
                if e != entity {
                    assert(before[j] == e);
                    old(self).lemma_value_at(j);
                }
            }
            assert(self@ =~= old(self)@.insert(entity, value));
        }
        r
    }

    /// Takes the value of `entity` out of the store.  Returns it, or nothing
    /// when the entity held none; the order of the others is kept.
    pub fn remove(&mut self, entity: Entity) -> (r: Option<T>)
        ensures
            final(self)@ == old(self)@.remove(entity),
            r == if old(self)@.contains_key(entity) {
                Some(old(self)@[entity])
            } else {
                None
            },
            final(self).order() == without(old(self).order(), entity),
            r == old(self).content().get(entity),
            final(self).content() == old(self).content().remove(entity),
            final(self).coherent(),
    {
        proof {
            use_type_invariant(&*self);
        }
        let pos = self.position(entity);
        match pos {
            Some(i) => {
                let mut taken = ComponentStore { entities: Vec::new(), values: Vec::new() };
                core::mem::swap(self, &mut taken);
                let ComponentStore { mut entities, mut values } = taken;
                entities.remove(i);
                let v = values.remove(i);
                *self = ComponentStore { entities, values };
                proof {
                    let before = old(self).entities@;
                    let after = self.entities@;
                    old(self).lemma_value_at(i as int);
                    lemma_without_one(before, i as int, entity);
                    assert forall|e: Entity| #![auto] self@.dom().contains(e) == old(self)@.remove(
                        entity,
                    ).dom().contains(e) by {
                        if before.contains(e) && e != entity {
                            let j = before.index_of(e);
                            assert(after[if j < i { j } else { j - 1 }] == e);
                        }
                        if after.contains(e) {
                            let j = after.index_of(e);
                            assert(before[if j < i { j } else { j + 1 }] == e);
                        }
                    }
                    assert forall|e: Entity| self@.dom().contains(e) implies #[trigger] self@[e]
                        == old(self)@.remove(entity)[e] by {
                        let j = after.index_of(e);
                        assert(after[j] == e);
                        self.lemma_value_at(j);
                        old(self).lemma_value_at(if j < i { j } else { j + 1 });
                    }
                    assert(self@ =~= old(self)@.remove(entity));
                }
                Some(v)
            },
            None => {
                proof {
                    lemma_without_absent(self.entities@, entity);
                    assert(self@ =~= old(self)@.remove(entity));
                }
                None
            },
        }
    }

    /// The entity at position `i` of the order and its value, or nothing
    /// when the store holds no more than `i` entities.
    pub fn entry(&self, i: usize) -> (r: Option<(Entity, &T)>)
        ensures
            match r {
                Some((e, v)) => {
                    &&& i < self.order().len()
                    &&& e == self.order()[i as int]
                    &&& self@.contains_key(e)
                    &&& *v == self@[e]
                },
                None => i >= self.order().len(),
            },
    {
        proof {
            use_type_invariant(self);
        }
        if i < self.entities.len() {
            proof {
                self.lemma_value_at(i as int);
            }
            Some((self.entities[i], &self.values[i]))
        } else {
            None
        }
    }

    /// Every entity with its value, in insertion order.
    pub fn iter(&self) -> (r: Vec<(Entity, &T)>)
        ensures
            r@.len() == self.order().len(),
            forall|i: int|
                0 <= i < r@.len() ==> (#[trigger] r@[i]).0 == self.order()[i] && self@.contains_key(
                    r@[i].0,
                ) && *r@[i].1 == self@[r@[i].0],
    {
        proof {
            use_type_invariant(self);
        }
        let mut r: Vec<(Entity, &T)> = Vec::new();
        let mut i: usize = 0;
        while i < self.entities.len()
            invariant
                self.inv(),
                i <= self.entities@.len(),
                r@.len() == i,
                forall|j: int|
                    0 <= j < i ==> (#[trigger] r@[j]).0 == self.entities@[j] && self@.contains_key(
                        r@[j].0,
                    ) && *r@[j].1 == self@[r@[j].0],
            decreases self.entities@.len() - i,
        {
            proof {
                self.lemma_value_at(i as int);
            }
            r.push((self.entities[i], &self.values[i]));
            i += 1;
        }
        r
    }
}

/// Removing the one occurrence of an element leaves the others in order.
proof fn lemma_without_one(s: Seq<Entity>, i: int, x: Entity)
    requires
        s.no_duplicates(),
        0 <= i < s.len(),
        s[i] == x,
    ensures
        without(s, x) == s.remove(i),
    decreases s.len(),
{
    reveal(Seq::filter);
    if i == s.len() - 1 {
        assert(!s.drop_last().contains(x)) by {
            if s.drop_last().contains(x) {
                let j = choose|j: int| 0 <= j < s.drop_last().len() && s.drop_last()[j] == x;
                assert(s[j] == x);
            }
        }
        lemma_without_absent(s.drop_last(), x);
        assert(s.remove(i) =~= s.drop_last());
    } else {
        lemma_without_one(s.drop_last(), i, x);
        assert(s.remove(i) =~= s.drop_last().remove(i).push(s.last()));
    }
}

/// Removing an element that does not occur changes nothing.
proof fn lemma_without_absent(s: Seq<Entity>, x: Entity)
    requires
        !s.contains(x),
    ensures
        without(s, x) == s,
    decreases s.len(),
{
    reveal(Seq::filter);
    if s.len() > 0 {
        assert(s.last() != x) by {
            assert(s[s.len() - 1] == s.last());
        }
        assert forall|e: Entity| s.drop_last().contains(e) implies s.contains(e) by {
            let j = choose|j: int| 0 <= j < s.drop_last().len() && s.drop_last()[j] == e;
            assert(s[j] == e);
        }
        lemma_without_absent(s.drop_last(), x);
        assert(s.drop_last().push(s.last()) =~= s);
    }
}

} // verus!
