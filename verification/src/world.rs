use vstd::prelude::*;
use crate::entity::{Entity, TypeId};
use crate::error::EcsError;
use crate::store::{ComponentStore, StoreContent};

verus! {

/// What to do when a resource is asked for and has no value.
#[derive(Clone, Copy, Debug, PartialEq, Eq, Structural)]
pub enum ResourcePolicy {
    /// The access fails.
    FailIfAbsent,
    /// The resource takes its type's default value and the access goes on.
    LazyDefault,
}

/// A registered resource: its policy and its value, if it has one.
pub struct ResourceSlot<R> {
    pub policy: ResourcePolicy,
    pub value: Option<R>,
}

/// The state of a world's data: the content of each registered store, each
/// registered resource, the entities whose deletion was requested, and the
/// component lists of the entities whose creation was requested.
pub struct WorldView<C, R> {
    pub stores: Map<TypeId, StoreContent<C>>,
    pub resources: Map<TypeId, ResourceSlot<R>>,
    pub doomed: Seq<Entity>,
    pub spawns: Seq<Seq<(TypeId, C)>>,
}

/// The stores after `entity` was given the listed components, one after the
/// other; a component whose type has no store is passed over.
pub open spec fn committed<C>(
    stores: Map<TypeId, StoreContent<C>>,
    entity: Entity,
    components: Seq<(TypeId, C)>,
) -> Map<TypeId, StoreContent<C>>
    decreases components.len(),
{
    if components.len() == 0 {
        stores
    } else {
        let before = committed(stores, entity, components.drop_last());
        let (t, value) = components.last();
        if before.contains_key(t) {
            before.insert(t, before[t].insert(entity, value))
        } else {
            before
        }
    }
}

/// The first listed component whose type has no store.
pub open spec fn first_unregistered<C>(
    stores: Map<TypeId, StoreContent<C>>,
    components: Seq<(TypeId, C)>,
) -> Option<TypeId>
    decreases components.len(),
{
    if components.len() == 0 {
        None
    } else if !stores.contains_key(components[0].0) {
        Some(components[0].0)
    } else {
        first_unregistered(stores, components.skip(1))
    }
}

/// The content of a store after the values of the listed entities were
/// taken out, one after the other.
pub open spec fn purged_content<C>(content: StoreContent<C>, doomed: Seq<Entity>) -> StoreContent<
    C,
>
    decreases doomed.len(),
{
    if doomed.len() == 0 {
        content
    } else {
        purged_content(content, doomed.drop_last()).remove(doomed.last())
    }
}

/// The stores after the values of the listed entities were taken out of
/// every one of them.
pub open spec fn purged<C>(stores: Map<TypeId, StoreContent<C>>, doomed: Seq<Entity>) -> Map<
    TypeId,
    StoreContent<C>,
> {
    Map::new(|t: TypeId| stores.contains_key(t), |t: TypeId| purged_content(stores[t], doomed))
}

/// The stores after each listed entity was given the components of the
/// request at its position.
pub open spec fn spawned<C>(
    stores: Map<TypeId, StoreContent<C>>,
    entities: Seq<Entity>,
    spawns: Seq<Seq<(TypeId, C)>>,
) -> Map<TypeId, StoreContent<C>>
    decreases entities.len(),
{
    if entities.len() == 0 {
        stores
    } else {
        committed(
            spawned(stores, entities.drop_last(), spawns),
            entities.last(),
            spawns[entities.len() - 1],
        )
    }
}

/// What an access to a resource settles on: the value it has, or under
/// `LazyDefault` a default value of its type.
pub open spec fn settles_on<R: Default>(slot: ResourceSlot<R>, v: R) -> bool {
    match slot.value {
        Some(x) => v == x,
        None => slot.policy == ResourcePolicy::LazyDefault && call_ensures(R::default, (), v),
    }
}

/// The stores `after` are the stores `before` and an empty store for every
/// wanted type that had none.
pub open spec fn stores_provided<C>(
    before: Map<TypeId, StoreContent<C>>,
    after: Map<TypeId, StoreContent<C>>,
    wanted: Set<TypeId>,
) -> bool {
    &&& after.dom() == before.dom().union(wanted)
    &&& forall|t: TypeId| before.contains_key(t) ==> #[trigger] after[t] == before[t]
    &&& forall|t: TypeId|
        wanted.contains(t) && !before.contains_key(t) ==> #[trigger] after[t]
            == StoreContent::<C>::empty()
}

/// The resource `t` is to get a value: it is wanted, and it is new or it
/// is without a value under `LazyDefault`.
pub open spec fn awaits_default<R>(
    before: Map<TypeId, ResourceSlot<R>>,
    wanted: Set<TypeId>,
    t: TypeId,
) -> bool {
    wanted.contains(t) && (!before.contains_key(t) || (before[t].value.is_none()
        && before[t].policy == ResourcePolicy::LazyDefault))
}

/// The resources `after` are the resources `before`, except that every
/// wanted type is registered, a new one under `LazyDefault`, and has its
/// default value where it had none and its policy is `LazyDefault`.
pub open spec fn resources_provided<R: Default>(
    before: Map<TypeId, ResourceSlot<R>>,
    after: Map<TypeId, ResourceSlot<R>>,
    wanted: Set<TypeId>,
) -> bool {
    &&& after.dom() == before.dom().union(wanted)
    &&& forall|t: TypeId|
        before.contains_key(t) && !awaits_default(before, wanted, t) ==> #[trigger] after[t]
            == before[t]
    &&& forall|t: TypeId|
        awaits_default(before, wanted, t) ==> {
            &&& (#[trigger] after[t]).policy == ResourcePolicy::LazyDefault
            &&& after[t].value.is_some()
            &&& call_ensures(R::default, (), after[t].value.unwrap())
        }
}

/// An access to the resource can be served: it has a value or may take its
/// default.
pub open spec fn can_settle<R>(slot: ResourceSlot<R>) -> bool {
    slot.value.is_some() || slot.policy == ResourcePolicy::LazyDefault
}

fn find_type(ids: &Vec<TypeId>, t: TypeId) -> (r: Option<usize>)
    ensures
        match r {
            Some(i) => i < ids@.len() && ids@[i as int] == t,
            None => !ids@.contains(t),
        },
{
    let mut i: usize = 0;
    while i < ids.len()
        invariant
            i <= ids@.len(),
            forall|j: int| 0 <= j < i ==> ids@[j] != t,
        decreases ids@.len() - i,
    {
        if ids[i] == t {
            return Some(i);
        }
        i += 1;
    }
    None
}

/// The stores and resources of a world, with the requests that wait for the
/// next maintenance.
pub struct WorldData<C, R> {
    store_ids: Vec<TypeId>,
    stores: Vec<ComponentStore<C>>,
    resource_ids: Vec<TypeId>,
    resources: Vec<ResourceSlot<R>>,
    doomed: Vec<Entity>,
    spawns: Vec<Vec<(TypeId, C)>>,
}

impl<C, R> WorldData<C, R> {
    #[verifier::type_invariant]
    spec fn inv(self) -> bool {
        &&& self.store_ids@.len() == self.stores@.len()
        &&& self.store_ids@.no_duplicates()
        &&& self.resource_ids@.len() == self.resources@.len()
        &&& self.resource_ids@.no_duplicates()
    }

    /// The state of the data.
    pub closed spec fn view(self) -> WorldView<C, R> {
        WorldView {
            stores: Map::new(
                |t: TypeId| self.store_ids@.contains(t),
                |t: TypeId| self.stores@[self.store_ids@.index_of(t)].content(),
            ),
            resources: Map::new(
                |t: TypeId| self.resource_ids@.contains(t),
                |t: TypeId| self.resources@[self.resource_ids@.index_of(t)],
            ),
            doomed: self.doomed@,
            spawns: Seq::new(self.spawns@.len(), |i: int| self.spawns@[i]@),
        }
    }

    proof fn lemma_store_at(self, i: int)
        requires
            self.inv(),
            0 <= i < self.store_ids@.len(),
        ensures
            self@.stores.contains_key(self.store_ids@[i]),
            self@.stores[self.store_ids@[i]] == self.stores@[i].content(),
    {
        let t = self.store_ids@[i];
        assert(self.store_ids@.contains(t));
        let j = self.store_ids@.index_of(t);
        assert(self.store_ids@[j] == t);
    }

    proof fn lemma_resource_at(self, i: int)
        requires
            self.inv(),
            0 <= i < self.resource_ids@.len(),
        ensures
            self@.resources.contains_key(self.resource_ids@[i]),
            self@.resources[self.resource_ids@[i]] == self.resources@[i],
    {
        let t = self.resource_ids@[i];
        assert(self.resource_ids@.contains(t));
        let j = self.resource_ids@.index_of(t);
        assert(self.resource_ids@[j] == t);
    }

    /// Data without stores, resources or requests.
    pub fn new() -> (d: Self)
        ensures
            d@ == (WorldView::<C, R> {
                stores: Map::empty(),
                resources: Map::empty(),
                doomed: Seq::empty(),
                spawns: Seq::empty(),
            }),
    {
        let d = WorldData {
            store_ids: Vec::new(),
            stores: Vec::new(),
            resource_ids: Vec::new(),
            resources: Vec::new(),
            doomed: Vec::new(),
            spawns: Vec::new(),
        };
        assert(d@.stores =~= Map::empty());
        assert(d@.resources =~= Map::empty());
        assert(d@.spawns =~= Seq::empty());
        d
    }

    /// Whether the component type `t` has a store.
    pub fn is_registered(&self, t: TypeId) -> (r: bool)
        ensures
            r == self@.stores.contains_key(t),
    {
        find_type(&self.store_ids, t).is_some()
    }

    /// Creates an empty store for the component type `t`; does nothing when
    /// the type has a store already.
    pub fn register(&mut self, t: TypeId)
        ensures
            final(self)@ == (WorldView {
                stores: if old(self)@.stores.contains_key(t) {
                    old(self)@.stores
                } else {
                    old(self)@.stores.insert(t, StoreContent::empty())
                },
                ..old(self)@
            }),
    {
        proof {
            use_type_invariant(&*self);
        }
        if find_type(&self.store_ids, t).is_none() {
            let mut taken = Self::new();
            core::mem::swap(self, &mut taken);
            let WorldData { mut store_ids, mut stores, resource_ids, resources, doomed, spawns } =
                taken;
            store_ids.push(t);
            stores.push(ComponentStore::new());
            *self = WorldData { store_ids, stores, resource_ids, resources, doomed, spawns };
            proof {
                let want = old(self)@.stores.insert(t, StoreContent::empty());
                assert forall|u: TypeId| #![auto] self@.stores.dom().contains(u)
                    == want.dom().contains(u) by {
                    if old(self).store_ids@.contains(u) {
                        let j = old(self).store_ids@.index_of(u);
                        assert(self.store_ids@[j] == u);
                    }
                    if u == t {
                        assert(self.store_ids@[old(self).store_ids@.len() as int] == t);
                    }
                    if self.store_ids@.contains(u) && u != t {
                        let j = self.store_ids@.index_of(u);
                        assert(old(self).store_ids@[j] == u);
                    }
                }
                assert forall|u: TypeId| self@.stores.dom().contains(u) implies #[trigger] self@.stores[u]
                    == want[u] by {
                    let j = self.store_ids@.index_of(u);
                    assert(self.store_ids@[j] == u);
                    self.lemma_store_at(j);
                    if u != t {
                        old(self).lemma_store_at(j);
                    }
                }
                assert(self@.stores =~= want);
                assert(self@.resources =~= old(self)@.resources);
                assert(self@.spawns =~= old(self)@.spawns);
            }
        } else {
            assert(self@ == (WorldView { stores: old(self)@.stores, ..old(self)@ }));
        }
    }

    /// The store of the component type `t`.
    pub fn storage(&self, t: TypeId) -> (r: Result<&ComponentStore<C>, EcsError>)
        ensures
            match r {
                Ok(s) => self@.stores.contains_key(t) && s.content() == self@.stores[t],
                Err(e) => !self@.stores.contains_key(t) && e == (EcsError::UnregisteredType {
                    type_id: t,
                }),
            },
    {
        proof {
            use_type_invariant(self);
        }
        match find_type(&self.store_ids, t) {
            Some(i) => {
                proof {
                    self.lemma_store_at(i as int);
                }
                Ok(&self.stores[i])
            },
            None => Err(EcsError::UnregisteredType { type_id: t }),
        }
    }

    /// Exclusive access to the store of the component type `t`.  What the
    /// caller does to the store becomes the content of that store; nothing
    /// else changes.
    pub fn storage_mut(&mut self, t: TypeId) -> (r: Result<&mut ComponentStore<C>, EcsError>)
        ensures
            match r {
                Ok(s) => {
                    &&& old(self)@.stores.contains_key(t)
                    &&& s.content() == old(self)@.stores[t]
                    &&& final(self)@ == (WorldView {
                        stores: old(self)@.stores.insert(t, final(s).content()),
                        ..old(self)@
                    })
                },
                Err(e) => {
                    &&& !old(self)@.stores.contains_key(t)
                    &&& e == (EcsError::UnregisteredType { type_id: t })
                    &&& final(self)@ == old(self)@
                },
            },
    {
        proof {
            use_type_invariant(&*self);
        }
        match find_type(&self.store_ids, t) {
            Some(i) => {
                proof {
                    self.lemma_store_at(i as int);
                }
                proof {
                    let before = *self;
                    assert forall|s: ComponentStore<C>, after: Self|
                        after.store_ids == before.store_ids && after.stores@
                            == before.stores@.update(i as int, s) && after.resource_ids
                            == before.resource_ids && after.resources == before.resources
                            && after.doomed == before.doomed && after.spawns
                            == before.spawns implies #[trigger] after@ == (WorldView {
                        stores: before@.stores.insert(t, #[trigger] s.content()),
                        ..before@
                    }) by {
                        before.lemma_store_swapped(i as int, s, after);
                    }
                }
                Ok(&mut self.stores[i])
            },
            None => Err(EcsError::UnregisteredType { type_id: t }),
        }
    }

    /// Whether the resource type `t` is registered.
    pub fn has_resource(&self, t: TypeId) -> (r: bool)
        ensures
            r == self@.resources.contains_key(t),
    {
        find_type(&self.resource_ids, t).is_some()
    }

    /// Registers the resource type `t` under `policy`, without a value; does
    /// nothing when the type is registered already.
    pub fn register_resource(&mut self, t: TypeId, policy: ResourcePolicy)
        ensures
            final(self)@ == (WorldView {
                resources: if old(self)@.resources.contains_key(t) {
                    old(self)@.resources
                } else {
                    old(self)@.resources.insert(t, ResourceSlot { policy, value: None })
                },
                ..old(self)@
            }),
    {
        proof {
            use_type_invariant(&*self);
        }
        if find_type(&self.resource_ids, t).is_none() {
            let mut taken = Self::new();
            core::mem::swap(self, &mut taken);
            let WorldData { store_ids, stores, mut resource_ids, mut resources, doomed, spawns } =
                taken;
            resource_ids.push(t);
            resources.push(ResourceSlot { policy, value: None });
            *self = WorldData { store_ids, stores, resource_ids, resources, doomed, spawns };
            proof {
                old(self).lemma_resource_added(ResourceSlot { policy, value: None }, t, *self);
            }
        } else {
            assert(self@ == (WorldView { resources: old(self)@.resources, ..old(self)@ }));
        }
    }

    /// Gives the resource type `t` the value `value`, registering the type
    /// under `FailIfAbsent` when it is new.  Returns the value that the
    /// resource had before, if any.
    pub fn add_resource(&mut self, t: TypeId, value: R) -> (r: Option<R>)
        ensures
            r == if old(self)@.resources.contains_key(t) {
                old(self)@.resources[t].value
            } else {
                None
            },
            final(self)@ == (WorldView {
                resources: old(self)@.resources.insert(
                    t,
                    ResourceSlot {
                        policy: if old(self)@.resources.contains_key(t) {
                            old(self)@.resources[t].policy
                        } else {
                            ResourcePolicy::FailIfAbsent
                        },
                        value: Some(value),
                    },
                ),
                ..old(self)@
            }),
    {
        proof {
            use_type_invariant(&*self);
        }
        let pos = find_type(&self.resource_ids, t);
        let mut taken = Self::new();
        core::mem::swap(self, &mut taken);
        let WorldData { store_ids, stores, mut resource_ids, mut resources, doomed, spawns } = taken;
        let r = match pos {
            Some(i) => {
                proof {
                    old(self).lemma_resource_at(i as int);
                }
                let mut v = Some(value);
                core::mem::swap(&mut resources[i].value, &mut v);
                v
            },
            None => {
                resource_ids.push(t);
                resources.push(ResourceSlot { policy: ResourcePolicy::FailIfAbsent, value: Some(value) });
                None
            },
        };
        *self = WorldData { store_ids, stores, resource_ids, resources, doomed, spawns };
        proof {
            match pos {
                Some(i) => {
                    old(self).lemma_resource_swapped(i as int, self.resources@[i as int], *self);
                },
                None => {
                    old(self).lemma_resource_added(
                        ResourceSlot { policy: ResourcePolicy::FailIfAbsent, value: Some(value) },
                        t,
                        *self,
                    );
                },
            }
        }
        r
    }

    /// The value of the resource type `t` as it stands: the access fails
    /// when the type is not registered or has no value.
    pub fn resource_ref(&self, t: TypeId) -> (r: Result<&R, EcsError>)
        ensures
            match r {
                Ok(v) => self@.resources.contains_key(t) && self@.resources[t].value == Some(*v),
                Err(e) => {
                    &&& e == (EcsError::UnregisteredType { type_id: t })
                    &&& !(self@.resources.contains_key(t) && self@.resources[t].value.is_some())
                },
            },
    {
        proof {
            use_type_invariant(self);
        }
        match find_type(&self.resource_ids, t) {
            Some(i) => {
                proof {
                    self.lemma_resource_at(i as int);
                }
                match &self.resources[i].value {
                    Some(v) => Ok(v),
                    None => Err(EcsError::UnregisteredType { type_id: t }),
                }
            },
            None => Err(EcsError::UnregisteredType { type_id: t }),
        }
    }

    /// Notes that `entity` is to be deleted at the next maintenance.
    pub fn request_deletion(&mut self, entity: Entity)
        ensures
            final(self)@ == (WorldView { doomed: old(self)@.doomed.push(entity), ..old(self)@ }),
    {
        proof {
            use_type_invariant(&*self);
        }
        let mut taken = Self::new();
        core::mem::swap(self, &mut taken);
        let WorldData { store_ids, stores, resource_ids, resources, mut doomed, spawns } = taken;
        doomed.push(entity);
        *self = WorldData { store_ids, stores, resource_ids, resources, doomed, spawns };
        proof {
            assert(self@.stores =~= old(self)@.stores);
            assert(self@.resources =~= old(self)@.resources);
            assert(self@.spawns =~= old(self)@.spawns);
        }
    }

    /// The first of the listed components whose type has no store.
    pub fn unregistered_among(&self, components: &Vec<(TypeId, C)>) -> (r: Option<TypeId>)
        ensures
            r == first_unregistered(self@.stores, components@),
    {
        let mut i: usize = 0;
        assert(components@.skip(0) =~= components@);
        while i < components.len()
            invariant
                i <= components@.len(),
                first_unregistered(self@.stores, components@) == first_unregistered(
                    self@.stores,
                    components@.skip(i as int),
                ),
            decreases components@.len() - i,
        {
            if !self.is_registered(components[i].0) {
                return Some(components[i].0);
            }
            assert(components@.skip(i as int).skip(1) =~= components@.skip(i + 1));
            i += 1;
        }
        None
    }

    /// Notes that an entity with the listed components is to be created at
    /// the next maintenance.  Refused, with nothing noted, when one of the
    /// component types has no store.
    pub fn request_spawn(&mut self, components: Vec<(TypeId, C)>) -> (r: Result<(), EcsError>)
        ensures
            match r {
                Ok(_) => {
                    &&& first_unregistered(old(self)@.stores, components@).is_none()
                    &&& final(self)@ == (WorldView {
                        spawns: old(self)@.spawns.push(components@),
                        ..old(self)@
                    })
                },
                Err(EcsError::UnregisteredType { type_id }) => {
                    &&& first_unregistered(old(self)@.stores, components@) == Some(type_id)
                    &&& final(self)@ == old(self)@
                },
                Err(_) => false,
            },
    {
        proof {
            use_type_invariant(&*self);
        }
        if let Some(type_id) = self.unregistered_among(&components) {
            return Err(EcsError::UnregisteredType { type_id });
        }
        let mut taken = Self::new();
        core::mem::swap(self, &mut taken);
        let WorldData { store_ids, stores, resource_ids, resources, doomed, mut spawns } = taken;
        spawns.push(components);
        *self = WorldData { store_ids, stores, resource_ids, resources, doomed, spawns };
        proof {
            assert(self@.stores =~= old(self)@.stores);
            assert(self@.resources =~= old(self)@.resources);
            assert(self@.spawns =~= old(self)@.spawns.push(components@));
        }
        Ok(())
    }

    /// Gives `entity` the listed components, one after the other, so that of
    /// two components of one type the later stays.  A component whose type
    /// has no store is dropped.
    pub fn commit(&mut self, entity: Entity, components: Vec<(TypeId, C)>)
        ensures
            final(self)@ == (WorldView {
                stores: committed(old(self)@.stores, entity, components@),
                ..old(self)@
            }),
    {
        let ghost all = components@;
        let mut rest = components;
        let mut stack: Vec<(TypeId, C)> = Vec::new();
        while rest.len() > 0
            invariant
                rest@.len() + stack@.len() == all.len(),
                forall|i: int| 0 <= i < rest@.len() ==> rest@[i] == all[i],
                forall|i: int|
                    0 <= i < stack@.len() ==> stack@[i] == all[all.len() - 1 - i],
            decreases rest@.len(),
        {
            let c = rest.pop().unwrap();
            stack.push(c);
        }
        assert(all.take(0) =~= Seq::<(TypeId, C)>::empty());
        assert(self@ == (WorldView { stores: self@.stores, ..self@ }));
        while stack.len() > 0
            invariant
                stack@.len() <= all.len(),
                forall|i: int|
                    0 <= i < stack@.len() ==> stack@[i] == all[all.len() - 1 - i],
                self@ == (WorldView {
                    stores: committed(
                        old(self)@.stores,
                        entity,
                        all.take(all.len() - stack@.len()),
                    ),
                    ..old(self)@
                }),
            decreases stack@.len(),
        {
            let ghost done = all.len() - stack@.len();
            let (t, value) = stack.pop().unwrap();
            assert(all.take(done + 1).drop_last() =~= all.take(done));
            assert(all.take(done + 1).last() == (t, value));
            match self.storage_mut(t) {
                Ok(s) => {
                    s.insert(entity, value);
                },
                Err(_) => {},
            }
        }
        assert(all.take(all.len() as int) =~= all);
    }

    /// Takes the values of the entities whose deletion was requested out of
    /// every store, and forgets the requests.
    fn purge_doomed(&mut self) -> (r: Vec<Entity>)
        ensures
            r@ == old(self)@.doomed,
            final(self)@ == (WorldView {
                stores: purged(old(self)@.stores, old(self)@.doomed),
                doomed: Seq::empty(),
                ..old(self)@
            }),
    {
        proof {
            use_type_invariant(&*self);
        }
        let mut taken = Self::new();
        core::mem::swap(self, &mut taken);
        let WorldData { store_ids, mut stores, resource_ids, resources, doomed, spawns } = taken;
        let ghost before = old(self).stores@;
        let mut k: usize = 0;
        while k < stores.len()
            invariant
                k <= stores@.len(),
                stores@.len() == before.len(),
                forall|j: int|
                    0 <= j < k ==> (#[trigger] stores@[j]).content() == purged_content(
                        before[j].content(),
                        doomed@,
                    ),
                forall|j: int| k <= j < stores@.len() ==> stores@[j] == before[j],
            decreases stores@.len() - k,
        {
            let mut i: usize = 0;
            assert(doomed@.take(0) =~= Seq::<Entity>::empty());
            while i < doomed.len()
                invariant
                    i <= doomed@.len(),
                    k < stores@.len(),
                    stores@.len() == before.len(),
                    stores@[k as int].content() == purged_content(
                        before[k as int].content(),
                        doomed@.take(i as int),
                    ),
                    forall|j: int|
                        0 <= j < k ==> (#[trigger] stores@[j]).content() == purged_content(
                            before[j].content(),
                            doomed@,
                        ),
                    forall|j: int| k < j < stores@.len() ==> stores@[j] == before[j],
                decreases doomed@.len() - i,
            {
                assert(doomed@.take(i + 1).drop_last() =~= doomed@.take(i as int));
                assert(doomed@.take(i + 1).last() == doomed@[i as int]);
                let s = &mut stores[k];
                s.remove(doomed[i]);
                i += 1;
            }
            assert(doomed@.take(doomed@.len() as int) =~= doomed@);
            k += 1;
        }
        *self = WorldData {
            store_ids,
            stores,
            resource_ids,
            resources,
            doomed: Vec::new(),
            spawns,
        };
        proof {
            let want = purged(old(self)@.stores, old(self)@.doomed);
            assert forall|u: TypeId| self@.stores.dom().contains(u) implies #[trigger] self@.stores[u]
                == want[u] by {
                let j = self.store_ids@.index_of(u);
                assert(self.store_ids@[j] == u);
            }
            assert(self@.stores =~= want);
            assert(self@.resources =~= old(self)@.resources);
            assert(self@.spawns =~= old(self)@.spawns);
        }
        doomed
    }

    fn restore_spawn(&mut self, components: Vec<(TypeId, C)>)
        ensures
            final(self)@ == (WorldView {
                spawns: old(self)@.spawns.push(components@),
                ..old(self)@
            }),
    {
        proof {
            use_type_invariant(&*self);
        }
        let mut taken = Self::new();
        core::mem::swap(self, &mut taken);
        let WorldData { store_ids, stores, resource_ids, resources, doomed, mut spawns } = taken;
        spawns.push(components);
        *self = WorldData { store_ids, stores, resource_ids, resources, doomed, spawns };
        proof {
            assert(self@.stores =~= old(self)@.stores);
            assert(self@.resources =~= old(self)@.resources);
            assert(self@.spawns =~= old(self)@.spawns.push(components@));
        }
    }

    /// Hands over the pending creation requests, oldest first, and forgets
    /// them.
    fn take_spawns(&mut self) -> (r: Vec<Vec<(TypeId, C)>>)
        ensures
            Seq::new(r@.len(), |i: int| r@[i]@) == old(self)@.spawns,
            final(self)@ == (WorldView { spawns: Seq::empty(), ..old(self)@ }),
    {
        proof {
            use_type_invariant(&*self);
        }
        let mut taken = Self::new();
        core::mem::swap(self, &mut taken);
        let WorldData { store_ids, stores, resource_ids, resources, doomed, spawns } = taken;
        *self = WorldData {
            store_ids,
            stores,
            resource_ids,
            resources,
            doomed,
            spawns: Vec::new(),
        };
        proof {
            assert(self@.stores =~= old(self)@.stores);
            assert(self@.resources =~= old(self)@.resources);
            assert(self@.spawns =~= Seq::empty());
        }
        spawns
    }

    proof fn lemma_resource_added(self, slot: ResourceSlot<R>, t: TypeId, after: Self)
        requires
            self.inv(),
            !self.resource_ids@.contains(t),
            after.store_ids == self.store_ids,
            after.stores == self.stores,
            after.resource_ids@ == self.resource_ids@.push(t),
            after.resources@ == self.resources@.push(slot),
            after.doomed == self.doomed,
            after.spawns == self.spawns,
        ensures
            after@ == (WorldView { resources: self@.resources.insert(t, slot), ..self@ }),
    {
        let want = self@.resources.insert(t, slot);
        assert forall|u: TypeId| #![auto] after@.resources.dom().contains(u) == want.dom().contains(
            u,
        ) by {
            if self.resource_ids@.contains(u) {
                let j = self.resource_ids@.index_of(u);
                assert(after.resource_ids@[j] == u);
            }
            if u == t {
                assert(after.resource_ids@[self.resource_ids@.len() as int] == t);
            }
            if after.resource_ids@.contains(u) && u != t {
                let j = after.resource_ids@.index_of(u);
                assert(self.resource_ids@[j] == u);
            }
        }
        assert forall|u: TypeId| after@.resources.dom().contains(u) implies #[trigger] after@.resources[u]
            == want[u] by {
            let j = after.resource_ids@.index_of(u);
            assert(after.resource_ids@[j] == u);
            if u != t {
                assert(self.resource_ids@[j] == u);
                self.lemma_resource_at(j);
            }
            assert forall|a: int, b: int|
                0 <= a < b < after.resource_ids@.len() implies after.resource_ids@[a]
                != after.resource_ids@[b] by {
                if b == self.resource_ids@.len() {
                    assert(self.resource_ids@[a] == after.resource_ids@[a]);
                    assert(self.resource_ids@.contains(after.resource_ids@[a]));
                }
            }
            if u == t {
                assert(j == self.resource_ids@.len());
            }
        }
        assert(after@.resources =~= want);
        assert(after@.stores =~= self@.stores);
        assert(after@.spawns =~= self@.spawns);
    }

    proof fn lemma_resource_swapped(self, i: int, slot: ResourceSlot<R>, after: Self)
        requires
            self.inv(),
            0 <= i < self.resources@.len(),
            after.store_ids == self.store_ids,
            after.stores == self.stores,
            after.resource_ids == self.resource_ids,
            after.resources@ == self.resources@.update(i, slot),
            after.doomed == self.doomed,
            after.spawns == self.spawns,
        ensures
            after@ == (WorldView {
                resources: self@.resources.insert(self.resource_ids@[i], slot),
                ..self@
            }),
    {
        let t = self.resource_ids@[i];
        let want = self@.resources.insert(t, slot);
        assert forall|u: TypeId| after@.resources.dom().contains(u) implies #[trigger] after@.resources[u]
            == want[u] by {
            let j = self.resource_ids@.index_of(u);
            assert(self.resource_ids@[j] == u);
        }
        assert(after@.resources =~= want);
        assert(after@.stores =~= self@.stores);
        assert(after@.spawns =~= self@.spawns);
    }

    proof fn lemma_store_swapped(self, i: int, s: ComponentStore<C>, after: Self)
        requires
            self.inv(),
            0 <= i < self.stores@.len(),
            after.store_ids == self.store_ids,
            after.stores@ == self.stores@.update(i, s),
            after.resource_ids == self.resource_ids,
            after.resources == self.resources,
            after.doomed == self.doomed,
            after.spawns == self.spawns,
        ensures
            after@ == (WorldView {
                stores: self@.stores.insert(self.store_ids@[i], s.content()),
                ..self@
            }),
    {
        let t = self.store_ids@[i];
        let want = self@.stores.insert(t, s.content());
        assert forall|u: TypeId| after@.stores.dom().contains(u) implies #[trigger] after@.stores[u]
            == want[u] by {
            let j = self.store_ids@.index_of(u);
            assert(self.store_ids@[j] == u);
        }
        assert(after@.stores =~= want);
        assert(after@.resources =~= self@.resources);
        assert(after@.spawns =~= self@.spawns);
    }
}

} // verus!

verus! {

impl<C, R: Default> WorldData<C, R> {
    fn settle(&mut self, t: TypeId) -> (r: Result<usize, EcsError>)
        ensures
            match r {
                Ok(i) => {
                    &&& old(self)@.resources.contains_key(t)
                    &&& can_settle(old(self)@.resources[t])
                    &&& i < final(self).resources@.len()
                    &&& final(self).resource_ids@[i as int] == t
                    &&& final(self).resources@[i as int].value.is_some()
                    &&& settles_on(
                        old(self)@.resources[t],
                        final(self).resources@[i as int].value.unwrap(),
                    )
                    &&& final(self)@ == (WorldView {
                        resources: old(self)@.resources.insert(
                            t,
                            final(self).resources@[i as int],
                        ),
                        ..old(self)@
                    })
                    &&& final(self).resources@[i as int].policy == old(self)@.resources[t].policy
                },
                Err(e) => {
                    &&& e == (EcsError::UnregisteredType { type_id: t })
                    &&& !(old(self)@.resources.contains_key(t) && can_settle(
                        old(self)@.resources[t],
                    ))
                    &&& final(self)@ == old(self)@
                },
            },
    {
        proof {
            use_type_invariant(&*self);
        }
        match find_type(&self.resource_ids, t) {
            Some(i) => {
                proof {
                    self.lemma_resource_at(i as int);
                }
                if self.resources[i].value.is_none() {
                    match self.resources[i].policy {
                        ResourcePolicy::FailIfAbsent => {
                            return Err(EcsError::UnregisteredType { type_id: t });
                        },
                        ResourcePolicy::LazyDefault => {
                            let mut taken = Self::new();
                            core::mem::swap(self, &mut taken);
                            let WorldData {
                                store_ids,
                                stores,
                                resource_ids,
                                mut resources,
                                doomed,
                                spawns,
                            } = taken;
                            let mut v = Some(R::default());
                            core::mem::swap(&mut resources[i].value, &mut v);
                            *self = WorldData {
                                store_ids,
                                stores,
                                resource_ids,
                                resources,
                                doomed,
                                spawns,
                            };
                            proof {
                                old(self).lemma_resource_swapped(
                                    i as int,
                                    self.resources@[i as int],
                                    *self,
                                );
                            }
                        },
                    }
                } else {
                    proof {
                        assert(self@.resources =~= old(self)@.resources.insert(
                            t,
                            self.resources@[i as int],
                        ));
                    }
                }
                Ok(i)
            },
            None => Err(EcsError::UnregisteredType { type_id: t }),
        }
    }

    /// Creates a store for each listed component type that has none, and
    /// sees to it that each listed resource type is registered, a new one
    /// under `LazyDefault`, and has its default value where it has none and
    /// its policy allows the default.
    pub fn provide(&mut self, components: &Vec<TypeId>, resources: &Vec<TypeId>)
        ensures
            stores_provided(old(self)@.stores, final(self)@.stores, components@.to_set()),
            resources_provided(old(self)@.resources, final(self)@.resources, resources@.to_set()),
            final(self)@.doomed == old(self)@.doomed,
            final(self)@.spawns == old(self)@.spawns,
    {
        let ghost start = old(self)@;
        let mut i: usize = 0;
        assert(components@.take(0).to_set() =~= Set::<TypeId>::empty());
        assert(start.stores.dom() =~= start.stores.dom().union(components@.take(0).to_set()));
        while i < components.len()
            invariant
                i <= components@.len(),
                stores_provided(start.stores, self@.stores, components@.take(i as int).to_set()),
                self@.resources == start.resources,
                self@.doomed == start.doomed,
                self@.spawns == start.spawns,
            decreases components@.len() - i,
        {
            let t = components[i];
            let ghost mid = self@.stores;
            let ghost done = components@.take(i as int).to_set();
            self.register(t);
            proof {
                assert(components@.take(i + 1) =~= components@.take(i as int).push(t));
                components@.take(i as int).lemma_push_to_set_commute(t);
                let now = self@.stores;
                let more = components@.take(i + 1).to_set();
                assert(more =~= done.insert(t));
                assert(now.dom() =~= start.stores.dom().union(more));
                assert forall|u: TypeId| start.stores.contains_key(u) implies #[trigger] now[u]
                    == start.stores[u] by {
                    assert(mid.dom().contains(u));
                    assert(mid[u] == start.stores[u]);
                }
                assert forall|u: TypeId|
                    more.contains(u) && !start.stores.contains_key(u) implies #[trigger] now[u]
                    == StoreContent::<C>::empty() by {
                    if done.contains(u) {
                        assert(mid.dom().contains(u));
                        assert(mid[u] == StoreContent::<C>::empty());
                    }
                }
            }
            i += 1;
        }
        assert(components@.take(components@.len() as int) =~= components@);
        let mut j: usize = 0;
        assert(resources@.take(0).to_set() =~= Set::<TypeId>::empty());
        assert(start.resources.dom() =~= start.resources.dom().union(
            resources@.take(0).to_set(),
        ));
        while j < resources.len()
            invariant
                j <= resources@.len(),
                stores_provided(start.stores, self@.stores, components@.to_set()),
                resources_provided(
                    start.resources,
                    self@.resources,
                    resources@.take(j as int).to_set(),
                ),
                self@.doomed == start.doomed,
                self@.spawns == start.spawns,
            decreases resources@.len() - j,
        {
            let t = resources[j];
            let ghost mid = self@.resources;
            let ghost done = resources@.take(j as int).to_set();
            self.register_resource(t, ResourcePolicy::LazyDefault);
            let ghost registered = self@.resources;
            let settled = self.settle(t);
            proof {
                assert(resources@.take(j + 1) =~= resources@.take(j as int).push(t));
                resources@.take(j as int).lemma_push_to_set_commute(t);
                let now = self@.resources;
                let more = resources@.take(j + 1).to_set();
                assert(more =~= done.insert(t));
                assert(registered.contains_key(t));
                assert(registered.dom() =~= mid.dom().insert(t));
                assert(now.dom() =~= start.resources.dom().union(more));
                assert forall|u: TypeId|
                    start.resources.contains_key(u) && !awaits_default(
                        start.resources,
                        more,
                        u,
                    ) implies #[trigger] now[u] == start.resources[u] by {
                    assert(!awaits_default(start.resources, done, u));
                    assert(mid.dom().contains(u));
                    assert(mid[u] == start.resources[u]);
                    if u == t {
                        assert(registered[u] == mid[u]);
                        if settled is Ok {
                            assert(mid[u].value.is_some());
                            assert(now[u].value == mid[u].value);
                        }
                    }
                }
                assert forall|u: TypeId| awaits_default(start.resources, more, u) implies {
                    &&& (#[trigger] now[u]).policy == ResourcePolicy::LazyDefault
                    &&& now[u].value.is_some()
                    &&& call_ensures(R::default, (), now[u].value.unwrap())
                } by {
                    if awaits_default(start.resources, done, u) {
                        assert(mid.dom().contains(u));
                        assert(mid[u].policy == ResourcePolicy::LazyDefault && mid[u].value.is_some()
                            && call_ensures(R::default, (), mid[u].value.unwrap()));
                        if u == t {
                            assert(registered[u] == mid[u]);
                            assert(settled is Ok);
                        }
                    } else {
                        assert(u == t);
                        if start.resources.contains_key(t) {
                            assert(mid.dom().contains(t));
                            assert(mid[t] == start.resources[t]);
                            assert(registered[t] == mid[t]);
                        } else {
                            assert(!done.contains(t));
                            assert(!mid.dom().contains(t));
                        }
                        assert(settled is Ok);
                    }
                }
            }
            j += 1;
        }
        assert(resources@.take(resources@.len() as int) =~= resources@);
    }

    /// The value of the resource type `t`.  A resource without a value takes
    /// its type's default under `LazyDefault`; under `FailIfAbsent`, and for
    /// a type that is not registered, the access fails and nothing changes.
    pub fn resource(&mut self, t: TypeId) -> (r: Result<&R, EcsError>)
        ensures
            match r {
                Ok(v) => {
                    &&& old(self)@.resources.contains_key(t)
                    &&& settles_on(old(self)@.resources[t], *v)
                    &&& final(self)@ == (WorldView {
                        resources: old(self)@.resources.insert(
                            t,
                            ResourceSlot {
                                policy: old(self)@.resources[t].policy,
                                value: Some(*v),
                            },
                        ),
                        ..old(self)@
                    })
                },
                Err(e) => {
                    &&& e == (EcsError::UnregisteredType { type_id: t })
                    &&& !(old(self)@.resources.contains_key(t) && can_settle(
                        old(self)@.resources[t],
                    ))
                    &&& final(self)@ == old(self)@
                },
            },
    {
        match self.settle(t) {
            Ok(i) => {
                match &self.resources[i].value {
                    Some(v) => Ok(v),
                    None => Err(EcsError::UnregisteredType { type_id: t }),
                }
            },
            Err(e) => Err(e),
        }
    }

    /// Exclusive access to the value of the resource type `t`, found as
    /// `resource` finds it.  What the caller writes through the reference
    /// becomes the resource's value.
    pub fn resource_mut(&mut self, t: TypeId) -> (r: Result<&mut R, EcsError>)
        ensures
            match r {
                Ok(v) => {
                    &&& old(self)@.resources.contains_key(t)
                    &&& settles_on(old(self)@.resources[t], *v)
                    &&& final(self)@ == (WorldView {
                        resources: old(self)@.resources.insert(
                            t,
                            ResourceSlot {
                                policy: old(self)@.resources[t].policy,
                                value: Some(*final(v)),
                            },
                        ),
                        ..old(self)@
                    })
                },
                Err(e) => {
                    &&& e == (EcsError::UnregisteredType { type_id: t })
                    &&& !(old(self)@.resources.contains_key(t) && can_settle(
                        old(self)@.resources[t],
                    ))
                    &&& final(self)@ == old(self)@
                },
            },
    {
        match self.settle(t) {
            Ok(i) => {
                proof {
                    use_type_invariant(&*self);
                    let before = *self;
                    let start = old(self)@;
                    assert forall|after: Self|
                        after.store_ids == before.store_ids && after.stores == before.stores
                            && after.resource_ids == before.resource_ids && after.resources@.len()
                            == before.resources@.len() && after.resources@
                            == before.resources@.update(i as int, after.resources@[i as int])
                            && after.doomed == before.doomed && after.spawns
                            == before.spawns implies #[trigger] after@ == (WorldView {
                        resources: start.resources.insert(t, after.resources@[i as int]),
                        ..start
                    }) by {
                        before.lemma_resource_swapped(i as int, after.resources@[i as int], after);
                        assert(before@.resources.insert(t, after.resources@[i as int])
                            =~= start.resources.insert(t, after.resources@[i as int]));
                    }
                }
                match &mut self.resources[i].value {
                    Some(v) => Ok(v),
                    None => Err(EcsError::UnregisteredType { type_id: t }),
                }
            },
            Err(e) => Err(e),
        }
    }
}

/// An entity under construction: its identifier and the components it is to
/// get, which `build` commits together.
pub struct EntityBuilder<C> {
    entity: Entity,
    pending: Vec<(TypeId, C)>,
}

impl<C> EntityBuilder<C> {
    /// The entity that is being built.
    pub closed spec fn entity(self) -> Entity {
        self.entity
    }

    /// The components attached so far, in the order of attachment.
    pub closed spec fn pending(self) -> Seq<(TypeId, C)> {
        self.pending@
    }

    /// The identifier of the entity that is being built.
    pub fn id(&self) -> (e: Entity)
        ensures
            e == self.entity(),
    {
        self.entity
    }

    /// Attaches a component of type `t`.
    pub fn with(self, t: TypeId, value: C) -> (b: Self)
        ensures
            b.entity() == self.entity(),
            b.pending() == self.pending().push((t, value)),
    {
        let EntityBuilder { entity, mut pending } = self;
        pending.push((t, value));
        EntityBuilder { entity, pending }
    }

    /// Gives the entity its components, all or none: when the type of one of
    /// them has no store, nothing is inserted and the first such type is
    /// reported.
    pub fn build<R>(self, world: &mut World<C, R>) -> (r: Result<Entity, EcsError>)
        ensures
            final(world).live() == old(world).live(),
            final(world).issued() == old(world).issued(),
            final(world).wf() == old(world).wf(),
            match r {
                Ok(e) => {
                    &&& first_unregistered(old(world)@.stores, self.pending()).is_none()
                    &&& e == self.entity()
                    &&& final(world)@ == (WorldView {
                        stores: committed(old(world)@.stores, self.entity(), self.pending()),
                        ..old(world)@
                    })
                },
                Err(EcsError::UnregisteredType { type_id }) => {
                    &&& first_unregistered(old(world)@.stores, self.pending()) == Some(type_id)
                    &&& final(world)@ == old(world)@
                },
                Err(_) => false,
            },
    {
        let EntityBuilder { entity, pending } = self;
        if let Some(type_id) = world.data.unregistered_among(&pending) {
            return Err(EcsError::UnregisteredType { type_id });
        }
        world.data.commit(entity, pending);
        Ok(entity)
    }
}

/// Owns the component stores and the shared resources, and the allocator
/// that tells which entities are alive.
pub struct World<C, R> {
    data: WorldData<C, R>,
    allocator: crate::allocator::EntityAllocator,
}

impl<C, R> World<C, R> {
    /// The state of the stores, the resources and the pending requests.
    pub closed spec fn view(self) -> WorldView<C, R> {
        self.data@
    }

    /// The entities that are alive.
    pub closed spec fn live(self) -> Set<Entity> {
        self.allocator.live()
    }

    /// The entities that were ever alive in this world.
    pub closed spec fn issued(self) -> Set<Entity> {
        self.allocator.issued()
    }

    /// The allocator can hand out no further entity.
    pub closed spec fn exhausted(self) -> bool {
        self.allocator.exhausted()
    }

    /// The allocator is in order and holds no deletion request of its own:
    /// requests wait in the world's data until maintenance.
    pub closed spec fn wf(self) -> bool {
        self.allocator.wf() && self.allocator.doomed() == Set::<Entity>::empty()
    }

    /// A world without stores, resources or entities.
    pub fn new() -> (w: Self)
        ensures
            w.wf(),
            w.live() == Set::<Entity>::empty(),
            w.issued() == Set::<Entity>::empty(),
            w@ == (WorldView::<C, R> {
                stores: Map::empty(),
                resources: Map::empty(),
                doomed: Seq::empty(),
                spawns: Seq::empty(),
            }),
    {
        World { data: WorldData::new(), allocator: crate::allocator::EntityAllocator::new() }
    }

    /// The world's data.
    pub fn data(&self) -> (d: &WorldData<C, R>)
        ensures
            d@ == self@,
    {
        &self.data
    }

    /// Exclusive access to the world's data; the entities stay as they are.
    pub fn data_mut(&mut self) -> (d: &mut WorldData<C, R>)
        ensures
            d@ == old(self)@,
            final(self)@ == final(d)@,
            final(self).live() == old(self).live(),
            final(self).issued() == old(self).issued(),
            final(self).wf() == old(self).wf(),
            final(self).exhausted() == old(self).exhausted(),
    {
        &mut self.data
    }

    /// Creates an empty store for the component type `t`; does nothing when
    /// the type has a store already.
    pub fn register(&mut self, t: TypeId)
        ensures
            final(self)@ == (WorldView {
                stores: if old(self)@.stores.contains_key(t) {
                    old(self)@.stores
                } else {
                    old(self)@.stores.insert(t, StoreContent::empty())
                },
                ..old(self)@
            }),
            final(self).live() == old(self).live(),
            final(self).issued() == old(self).issued(),
            final(self).wf() == old(self).wf(),
    {
        self.data.register(t);
    }

    /// The store of the component type `t`; fails with `UnregisteredType`
    /// when the type was never registered.
    pub fn storage(&self, t: TypeId) -> (r: Result<&ComponentStore<C>, EcsError>)
        ensures
            match r {
                Ok(s) => self@.stores.contains_key(t) && s.content() == self@.stores[t],
                Err(e) => !self@.stores.contains_key(t) && e == (EcsError::UnregisteredType {
                    type_id: t,
                }),
            },
    {
        self.data.storage(t)
    }

    /// Exclusive access to the store of the component type `t`; fails with
    /// `UnregisteredType` when the type was never registered.  What the
    /// caller does to the store becomes the content of that store; nothing
    /// else changes.
    pub fn storage_mut(&mut self, t: TypeId) -> (r: Result<&mut ComponentStore<C>, EcsError>)
        ensures
            final(self).live() == old(self).live(),
            final(self).issued() == old(self).issued(),
            final(self).wf() == old(self).wf(),
            match r {
                Ok(s) => {
                    &&& old(self)@.stores.contains_key(t)
                    &&& s.content() == old(self)@.stores[t]
                    &&& final(self)@ == (WorldView {
                        stores: old(self)@.stores.insert(t, final(s).content()),
                        ..old(self)@
                    })
                },
                Err(e) => {
                    &&& !old(self)@.stores.contains_key(t)
                    &&& e == (EcsError::UnregisteredType { type_id: t })
                    &&& final(self)@ == old(self)@
                },
            },
    {
        self.data.storage_mut(t)
    }

    /// Registers the resource type `t` under `policy`, without a value; does
    /// nothing when the type is registered already.
    pub fn register_resource(&mut self, t: TypeId, policy: ResourcePolicy)
        ensures
            final(self)@ == (WorldView {
                resources: if old(self)@.resources.contains_key(t) {
                    old(self)@.resources
                } else {
                    old(self)@.resources.insert(t, ResourceSlot { policy, value: None })
                },
                ..old(self)@
            }),
            final(self).live() == old(self).live(),
            final(self).issued() == old(self).issued(),
            final(self).wf() == old(self).wf(),
    {
        self.data.register_resource(t, policy);
    }

    /// Gives the resource type `t` the value `value`, registering the type
    /// under `FailIfAbsent` when it is new.  Returns the value that the
    /// resource had before, if any.
    pub fn add_resource(&mut self, t: TypeId, value: R) -> (r: Option<R>)
        ensures
            r == if old(self)@.resources.contains_key(t) {
                old(self)@.resources[t].value
            } else {
                None
            },
            final(self)@ == (WorldView {
                resources: old(self)@.resources.insert(
                    t,
                    ResourceSlot {
                        policy: if old(self)@.resources.contains_key(t) {
                            old(self)@.resources[t].policy
                        } else {
                            ResourcePolicy::FailIfAbsent
                        },
                        value: Some(value),
                    },
                ),
                ..old(self)@
            }),
            final(self).live() == old(self).live(),
            final(self).issued() == old(self).issued(),
            final(self).wf() == old(self).wf(),
    {
        self.data.add_resource(t, value)
    }

    /// Whether `entity` is alive.  An entity whose deletion was requested is
    /// alive until `maintain` runs.
    pub fn is_live(&self, entity: Entity) -> (r: bool)
        requires
            self.wf(),
        ensures
            r == self.live().contains(entity),
    {
        self.allocator.is_live(entity)
    }

    /// Takes a fresh entity from the allocator and starts building it.
    /// Fails with `EntitiesExhausted`, and changes nothing, when the
    /// allocator has none left.
    pub fn create_entity(&mut self) -> (r: Result<EntityBuilder<C>, EcsError>)
        requires
            old(self).wf(),
        ensures
            final(self).wf(),
            final(self)@ == old(self)@,
            match r {
                Ok(b) => {
                    &&& !old(self).exhausted()
                    &&& !old(self).live().contains(b.entity())
                    &&& final(self).live() == old(self).live().insert(b.entity())
                    &&& final(self).issued() == old(self).issued().insert(b.entity())
                    &&& !old(self).issued().contains(b.entity())
                    &&& b.pending() == Seq::<(TypeId, C)>::empty()
                },
                Err(e) => {
                    &&& e == EcsError::EntitiesExhausted
                    &&& old(self).exhausted()
                    &&& final(self).live() == old(self).live()
                    &&& final(self).issued() == old(self).issued()
                },
            },
    {
        match self.allocator.allocate() {
            Some(entity) => Ok(EntityBuilder { entity, pending: Vec::new() }),
            None => Err(EcsError::EntitiesExhausted),
        }
    }

    /// Requests the deletion of `entity`: it and its components go at the
    /// next `maintain`.
    pub fn delete_entity(&mut self, entity: Entity)
        ensures
            final(self)@ == (WorldView { doomed: old(self)@.doomed.push(entity), ..old(self)@ }),
            final(self).live() == old(self).live(),
            final(self).issued() == old(self).issued(),
            final(self).wf() == old(self).wf(),
    {
        self.data.request_deletion(entity);
    }

    /// Applies what was requested since the last maintenance.  The entities
    /// whose deletion was requested die and lose their components.  Then
    /// each creation request, oldest first, gets a fresh entity with the
    /// requested components; the new entities are returned in that order.
    /// When the allocator runs out, the requests not yet served stay
    /// pending.
    pub fn maintain(&mut self) -> (r: Vec<Entity>)
        requires
            old(self).wf(),
        ensures
            final(self).wf(),
            r@.len() <= old(self)@.spawns.len(),
            r@.len() < old(self)@.spawns.len() ==> final(self).exhausted(),
            final(self)@ == (WorldView {
                stores: spawned(
                    purged(old(self)@.stores, old(self)@.doomed),
                    r@,
                    old(self)@.spawns,
                ),
                resources: old(self)@.resources,
                doomed: Seq::empty(),
                spawns: old(self)@.spawns.skip(r@.len() as int),
            }),
            final(self).live() == old(self).live().difference(old(self)@.doomed.to_set()).union(
                r@.to_set(),
            ),
            final(self).issued() == old(self).issued().union(r@.to_set()),
            forall|i: int| 0 <= i < r@.len() ==> !old(self).issued().contains(#[trigger] r@[i]),
            forall|i: int|
                0 <= i < r@.len() ==> !old(self).live().difference(
                    old(self)@.doomed.to_set(),
                ).contains(#[trigger] r@[i]),
            r@.no_duplicates(),
    {
        let doomed = self.data.purge_doomed();
        let ghost after_purge = self.data@;
        let mut i: usize = 0;
        while i < doomed.len()
            invariant
                self.data@ == after_purge,
                i <= doomed@.len(),
                self.allocator.wf(),
                self.allocator.live() == old(self).allocator.live(),
                self.allocator.issued() == old(self).allocator.issued(),
                self.allocator.doomed() == doomed@.take(i as int).to_set().intersect(
                    old(self).allocator.live(),
                ),
            decreases doomed@.len() - i,
        {
            let ghost before = self.allocator.doomed();
            self.allocator.deallocate(doomed[i]);
            proof {
                let shorter = doomed@.take(i as int);
                let longer = doomed@.take(i + 1);
                let x = doomed@[i as int];
                assert(longer =~= shorter.push(x));
                assert forall|e: Entity| #![auto]
                    longer.to_set().contains(e) == (shorter.to_set().contains(e) || e == x) by {
                    if shorter.contains(e) {
                        let j = choose|j: int| 0 <= j < shorter.len() && shorter[j] == e;
                        assert(longer[j] == e);
                    }
                    if e == x {
                        assert(longer[i as int] == e);
                    }
                    if longer.contains(e) {
                        let j = choose|j: int| 0 <= j < longer.len() && longer[j] == e;
                        if j < i {
                            assert(shorter[j] == e);
                        }
                    }
                }
                assert(self.allocator.doomed() =~= longer.to_set().intersect(
                    old(self).allocator.live(),
                ));
            }
            i += 1;
        }
        self.allocator.maintain();
        let ghost base_live = self.allocator.live();
        let ghost base_issued = self.allocator.issued();
        let ghost base_stores = self.data@.stores;
        let ghost requests = old(self)@.spawns;
        proof {
            assert(doomed@.take(doomed@.len() as int) =~= doomed@);
            assert(base_live =~= old(self).live().difference(old(self)@.doomed.to_set()));
        }
        let mut queue = self.data.take_spawns();
        proof {
            let mapped = Seq::new(queue@.len(), |i: int| queue@[i]@);
            assert(mapped.len() == queue@.len());
            assert forall|j: int| 0 <= j < queue@.len() implies (#[trigger] queue@[j])@
                == requests[j] by {
                assert(mapped[j] == queue@[j]@);
            }
        }
        let mut created: Vec<Entity> = Vec::new();
        assert(created@.to_set() =~= Set::<Entity>::empty());
        assert(base_live.union(created@.to_set()) =~= base_live);
        assert(base_issued.union(created@.to_set()) =~= base_issued);
        let mut next: usize = 0;
        while next < queue.len() && !self.allocator.is_exhausted()
            invariant
                self.allocator.wf(),
                self.allocator.doomed() == Set::<Entity>::empty(),
                next <= queue@.len(),
                queue@.len() == requests.len(),
                created@.len() == next,
                forall|j: int| next <= j < queue@.len() ==> (#[trigger] queue@[j])@ == requests[j],
                self.allocator.live() == base_live.union(created@.to_set()),
                self.allocator.issued() == base_issued.union(created@.to_set()),
                base_issued == old(self).allocator.issued(),
                forall|j: int| 0 <= j < created@.len() ==> !base_live.contains(#[trigger] created@[j]),
                forall|j: int|
                    0 <= j < created@.len() ==> !base_issued.contains(#[trigger] created@[j]),
                created@.no_duplicates(),
                self.data@ == (WorldView {
                    stores: spawned(base_stores, created@, requests),
                    resources: old(self)@.resources,
                    doomed: Seq::empty(),
                    spawns: Seq::empty(),
                }),
            decreases queue@.len() - next,
        {
            let mut components: Vec<(TypeId, C)> = Vec::new();
            core::mem::swap(&mut components, &mut queue[next]);
            let ghost live_before = self.allocator.live();
            let ghost issued_before = self.allocator.issued();
            match self.allocator.allocate() {
                Some(entity) => {
                    self.data.commit(entity, components);
                    proof {
                        let longer = created@.push(entity);
                        assert(!created@.contains(entity)) by {
                            if created@.contains(entity) {
                                assert(created@.to_set().contains(entity));
                            }
                        }
                        assert(longer.drop_last() =~= created@);
                        assert forall|e: Entity| #![auto]
                            longer.to_set().contains(e) == (created@.to_set().contains(e) || e
                                == entity) by {
                            if created@.contains(e) {
                                let j = choose|j: int| 0 <= j < created@.len() && created@[j] == e;
                                assert(longer[j] == e);
                            }
                            if e == entity {
                                assert(longer[created@.len() as int] == e);
                            }
                            if longer.contains(e) {
                                let j = choose|j: int| 0 <= j < longer.len() && longer[j] == e;
                                if j < created@.len() {
                                    assert(created@[j] == e);
                                }
                            }
                        }
                        assert(live_before.insert(entity) =~= base_live.union(longer.to_set()));
                        assert(issued_before.insert(entity) =~= base_issued.union(
                            longer.to_set(),
                        ));
                    }
                    created.push(entity);
                },
                None => {
                    proof {
                        assert(false);
                    }
                },
            }
            next += 1;
        }
        let ghost served = next;
        assert(requests.subrange(served as int, next as int) =~= Seq::empty());
        while next < queue.len()
            invariant
                self.allocator.wf(),
                self.allocator.doomed() == Set::<Entity>::empty(),
                self.allocator.live() == base_live.union(created@.to_set()),
                self.allocator.issued() == base_issued.union(created@.to_set()),
                base_issued == old(self).allocator.issued(),
                forall|j: int|
                    0 <= j < created@.len() ==> !base_issued.contains(#[trigger] created@[j]),
                served < requests.len() ==> self.allocator.exhausted(),
                served <= next <= queue@.len(),
                queue@.len() == requests.len(),
                created@.len() == served,
                forall|j: int| next <= j < queue@.len() ==> (#[trigger] queue@[j])@ == requests[j],
                self.data@ == (WorldView {
                    stores: spawned(base_stores, created@, requests),
                    resources: old(self)@.resources,
                    doomed: Seq::empty(),
                    spawns: requests.subrange(served as int, next as int),
                }),
            decreases queue@.len() - next,
        {
            let mut components: Vec<(TypeId, C)> = Vec::new();
            core::mem::swap(&mut components, &mut queue[next]);
            self.data.restore_spawn(components);
            assert(requests.subrange(served as int, next + 1) =~= requests.subrange(
                served as int,
                next as int,
            ).push(requests[next as int]));
            next += 1;
        }
        assert(requests.subrange(served as int, requests.len() as int) =~= requests.skip(
            served as int,
        ));
        created
    }
}

} // verus!

verus! {

impl<C, R: Default> World<C, R> {
    /// The value of the resource type `t`.  A resource without a value takes
    /// its type's default under `LazyDefault`; under `FailIfAbsent`, and for
    /// a type that is not registered, the access fails with
    /// `UnregisteredType` and nothing changes.
    pub fn resource(&mut self, t: TypeId) -> (r: Result<&R, EcsError>)
        ensures
            final(self).live() == old(self).live(),
            final(self).issued() == old(self).issued(),
            final(self).wf() == old(self).wf(),
            match r {
                Ok(v) => {
                    &&& old(self)@.resources.contains_key(t)
                    &&& settles_on(old(self)@.resources[t], *v)
                    &&& final(self)@ == (WorldView {
                        resources: old(self)@.resources.insert(
                            t,
                            ResourceSlot {
                                policy: old(self)@.resources[t].policy,
                                value: Some(*v),
                            },
                        ),
                        ..old(self)@
                    })
                },
                Err(e) => {
                    &&& e == (EcsError::UnregisteredType { type_id: t })
                    &&& !(old(self)@.resources.contains_key(t) && can_settle(
                        old(self)@.resources[t],
                    ))
                    &&& final(self)@ == old(self)@
                },
            },
    {
        self.data.resource(t)
    }

    /// Exclusive access to the value of the resource type `t`, found as
    /// `resource` finds it.  What the caller writes through the reference
    /// becomes the resource's value.
    pub fn resource_mut(&mut self, t: TypeId) -> (r: Result<&mut R, EcsError>)
        ensures
            final(self).live() == old(self).live(),
            final(self).issued() == old(self).issued(),
            final(self).wf() == old(self).wf(),
            match r {
                Ok(v) => {
                    &&& old(self)@.resources.contains_key(t)
                    &&& settles_on(old(self)@.resources[t], *v)
                    &&& final(self)@ == (WorldView {
                        resources: old(self)@.resources.insert(
                            t,
                            ResourceSlot {
                                policy: old(self)@.resources[t].policy,
                                value: Some(*final(v)),
                            },
                        ),
                        ..old(self)@
                    })
                },
                Err(e) => {
                    &&& e == (EcsError::UnregisteredType { type_id: t })
                    &&& !(old(self)@.resources.contains_key(t) && can_settle(
                        old(self)@.resources[t],
                    ))
                    &&& final(self)@ == old(self)@
                },
            },
    {
        self.data.resource_mut(t)
    }
}

} // verus!
