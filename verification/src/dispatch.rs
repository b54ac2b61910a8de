use vstd::prelude::*;
use crate::access::AccessDescriptor;
use crate::entity::{Entity, TypeId};
use crate::error::EcsError;
use crate::graph::{has_cycle, is_depth, layering};
use crate::schedule::{
    all_known, conflict_free, edges, order_respected, DependencyGraph, ExecutionPlan, SystemEntry,
};
use crate::store::ComponentStore;
use crate::world::{can_settle, settles_on, ResourceSlot, World, WorldData, WorldView};

verus! {

/// The change from `before` to `after` stays within what `access` declares:
/// stores and resources that are not declared written are as they were, no
/// type is registered or forgotten, no policy is altered, and requests are
/// only added.
pub open spec fn confined<C, R>(
    access: AccessDescriptor,
    before: WorldView<C, R>,
    after: WorldView<C, R>,
) -> bool {
    &&& after.stores.dom() == before.stores.dom()
    &&& forall|t: TypeId|
        before.stores.contains_key(t) && !access.writes_component(t) ==> #[trigger] after.stores[t]
            == before.stores[t]
    &&& after.resources.dom() == before.resources.dom()
    &&& forall|t: TypeId|
        before.resources.contains_key(t) && !access.writes_resource(t)
            ==> #[trigger] after.resources[t] == before.resources[t]
    &&& forall|t: TypeId|
        before.resources.contains_key(t) ==> (#[trigger] after.resources[t]).policy
            == before.resources[t].policy
    &&& before.doomed.is_prefix_of(after.doomed)
    &&& before.spawns.is_prefix_of(after.spawns)
}

/// What a system sees of the world while it runs: the world's data, behind
/// the system's access descriptor.
pub struct SystemView<'a, C, R> {
    data: WorldData<C, R>,
    access: &'a AccessDescriptor,
}

impl<'a, C, R> SystemView<'a, C, R> {
    /// The state of the data behind the view.
    pub closed spec fn view(self) -> WorldView<C, R> {
        self.data@
    }

    /// The descriptor that the view enforces.
    pub closed spec fn access(self) -> AccessDescriptor {
        *self.access
    }

    /// A view of `data` that admits what `access` declares.
    fn new(data: WorldData<C, R>, access: &'a AccessDescriptor) -> (v: Self)
        ensures
            v@ == data@,
            v.access() == *access,
    {
        SystemView { data, access }
    }

    /// Gives the data back.
    fn into_data(self) -> (d: WorldData<C, R>)
        ensures
            d@ == self@,
    {
        self.data
    }

    /// The store of the component type `t`, which the descriptor must
    /// declare read or written.
    pub fn storage(&self, t: TypeId) -> (r: Result<&ComponentStore<C>, EcsError>)
        ensures
            match r {
                Ok(s) => {
                    &&& self.access().reads_component(t) || self.access().writes_component(t)
                    &&& self@.stores.contains_key(t)
                    &&& s.content() == self@.stores[t]
                },
                Err(e) => if !(self.access().reads_component(t) || self.access().writes_component(
                    t,
                )) {
                    e == (EcsError::UndeclaredAccess { type_id: t })
                } else {
                    e == (EcsError::UnregisteredType { type_id: t }) && !self@.stores.contains_key(
                        t,
                    )
                },
            },
    {
        if !self.access.may_read(t) {
            return Err(EcsError::UndeclaredAccess { type_id: t });
        }
        self.data.storage(t)
    }

    /// Exclusive access to the store of the component type `t`, which the
    /// descriptor must declare written.
    pub fn storage_mut(&mut self, t: TypeId) -> (r: Result<&mut ComponentStore<C>, EcsError>)
        ensures
            final(self).access() == old(self).access(),
            match r {
                Ok(s) => {
                    &&& old(self).access().writes_component(t)
                    &&& old(self)@.stores.contains_key(t)
                    &&& s.content() == old(self)@.stores[t]
                    &&& final(self)@ == (WorldView {
                        stores: old(self)@.stores.insert(t, final(s).content()),
                        ..old(self)@
                    })
                },
                Err(e) => {
                    &&& final(self)@ == old(self)@
                    &&& if !old(self).access().writes_component(t) {
                        e == (EcsError::UndeclaredAccess { type_id: t })
                    } else {
                        e == (EcsError::UnregisteredType { type_id: t })
                            && !old(self)@.stores.contains_key(t)
                    }
                },
            },
    {
        if !self.access.may_write(t) {
            return Err(EcsError::UndeclaredAccess { type_id: t });
        }
        self.data.storage_mut(t)
    }

    /// The value of the resource type `t`, which the descriptor must declare
    /// read or written.  Nothing is constructed here, since a reader may
    /// change nothing: a resource without a value is reported as
    /// unregistered.  `Dispatcher::setup` gives every declared resource its
    /// value ahead of the tick where its policy allows the default.
    pub fn resource(&self, t: TypeId) -> (r: Result<&R, EcsError>)
        ensures
            match r {
                Ok(v) => {
                    &&& self.access().reads_resource(t) || self.access().writes_resource(t)
                    &&& self@.resources.contains_key(t)
                    &&& self@.resources[t].value == Some(*v)
                },
                Err(e) => if !(self.access().reads_resource(t) || self.access().writes_resource(
                    t,
                )) {
                    e == (EcsError::UndeclaredAccess { type_id: t })
                } else {
                    e == (EcsError::UnregisteredType { type_id: t }) && !(
                    self@.resources.contains_key(t) && self@.resources[t].value.is_some())
                },
            },
    {
        if !self.access.may_read_resource(t) {
            return Err(EcsError::UndeclaredAccess { type_id: t });
        }
        self.data.resource_ref(t)
    }

    /// Notes that `entity` is to be deleted at the next maintenance.
    pub fn delete_entity(&mut self, entity: Entity)
        ensures
            final(self).access() == old(self).access(),
            final(self)@ == (WorldView { doomed: old(self)@.doomed.push(entity), ..old(self)@ }),
    {
        self.data.request_deletion(entity);
    }

    /// Notes that an entity with the listed components is to be created at
    /// the next maintenance.  Refused, with nothing noted, when one of the
    /// component types has no store.
    pub fn create_entity(&mut self, components: Vec<(TypeId, C)>) -> (r: Result<(), EcsError>)
        ensures
            final(self).access() == old(self).access(),
            match r {
                Ok(_) => {
                    &&& crate::world::first_unregistered(old(self)@.stores, components@).is_none()
                    &&& final(self)@ == (WorldView {
                        spawns: old(self)@.spawns.push(components@),
                        ..old(self)@
                    })
                },
                Err(EcsError::UnregisteredType { type_id }) => {
                    &&& crate::world::first_unregistered(old(self)@.stores, components@) == Some(
                        type_id,
                    )
                    &&& final(self)@ == old(self)@
                },
                Err(_) => false,
            },
    {
        self.data.request_spawn(components)
    }
}

impl<'a, C, R: Default> SystemView<'a, C, R> {
    /// Exclusive access to the value of the resource type `t`, which the
    /// descriptor must declare written.  A resource without a value takes
    /// its type's default under `LazyDefault`.
    pub fn resource_mut(&mut self, t: TypeId) -> (r: Result<&mut R, EcsError>)
        ensures
            final(self).access() == old(self).access(),
            match r {
                Ok(v) => {
                    &&& old(self).access().writes_resource(t)
                    &&& old(self)@.resources.contains_key(t)
                    &&& settles_on(old(self)@.resources[t], *v)
                    &&& final(self)@ == (WorldView {
                        resources: old(self)@.resources.insert(
                            t,
                            ResourceSlot {
                                policy: old(self)@.resources[t].policy,
                                value: Some(*final(v)),
                            },
                        ),
                        ..old(self)@
                    })
                },
                Err(e) => {
                    &&& final(self)@ == old(self)@
                    &&& if !old(self).access().writes_resource(t) {
                        e == (EcsError::UndeclaredAccess { type_id: t })
                    } else {
                        e == (EcsError::UnregisteredType { type_id: t }) && !(
                        old(self)@.resources.contains_key(t) && can_settle(
                            old(self)@.resources[t],
                        ))
                    }
                },
            },
    {
        if !self.access.may_write_resource(t) {
            return Err(EcsError::UndeclaredAccess { type_id: t });
        }
        self.data.resource_mut(t)
    }
}

/// A unit of logic that runs once per tick on the part of the world that it
/// declares.  It may keep state of its own from tick to tick.
pub trait System<C, R> {
    /// What one run may do: it may take the world's data from `before` to
    /// `after` and come back with `outcome`, which is success or the reason
    /// of a failure.  A system that says nothing here may do anything within
    /// its descriptor.
    open spec fn effect(
        &self,
        before: WorldView<C, R>,
        after: WorldView<C, R>,
        outcome: Result<(), String>,
    ) -> bool {
        true
    }

    /// What the system reads and writes.  Asked once, when the system is
    /// registered.
    fn access_descriptor(&self) -> (d: AccessDescriptor);

    /// Runs the system once.  A failure is reported with its reason.
    fn run(&mut self, view: &mut SystemView<'_, C, R>) -> (r: Result<(), String>)
        ensures
            final(view).access() == old(view).access(),
            confined(old(view).access(), old(view)@, final(view)@),
            old(self).effect(old(view)@, final(view)@, r),
    ;
}

/// How the run at position `i` of `steps` runs came back: the last one
/// failed for the reason `failure`, if there is one; every other run
/// succeeded.
pub open spec fn outcome_at(failure: Option<String>, steps: int, i: int) -> Result<(), String> {
    match failure {
        Some(reason) => if i == steps - 1 {
            Err(reason)
        } else {
            Ok(())
        },
        None => Ok(()),
    }
}

/// The first `steps` systems of `order` ran one after the other, each from
/// the state that the one before left: `trace` lists the states.  The last
/// of these runs failed for the reason `failure`, if there is one; all
/// others succeeded.
pub open spec fn ran<C, R, S: System<C, R>>(
    systems: Seq<S>,
    declared: Seq<SystemEntry>,
    order: Seq<int>,
    trace: Seq<WorldView<C, R>>,
    steps: int,
    failure: Option<String>,
) -> bool {
    &&& 0 <= steps <= order.len()
    &&& trace.len() == steps + 1
    &&& forall|i: int|
        0 <= i < steps ==> {
            &&& 0 <= #[trigger] order[i] < systems.len()
            &&& order[i] < declared.len()
            &&& systems[order[i]].effect(trace[i], trace[i + 1], outcome_at(failure, steps, i))
            &&& confined(declared[order[i]].access, trace[i], trace[i + 1])
        }
}

/// The first `steps` systems of `order` ran one after the other and took the
/// world's data from `before` to `after`; the last of them failed for the
/// reason `failure`, if there is one.
pub open spec fn ticked<C, R, S: System<C, R>>(
    systems: Seq<S>,
    declared: Seq<SystemEntry>,
    order: Seq<int>,
    steps: int,
    failure: Option<String>,
    before: WorldView<C, R>,
    after: WorldView<C, R>,
) -> bool {
    exists|trace: Seq<WorldView<C, R>>|
        {
            &&& #[trigger] ran(systems, declared, order, trace, steps, failure)
            &&& trace.first() == before
            &&& trace.last() == after
        }
}

/// Collects systems with their names and ordering constraints.
pub struct DispatcherBuilder<S> {
    systems: Vec<S>,
    graph: DependencyGraph,
}

impl<S> DispatcherBuilder<S> {
    #[verifier::type_invariant]
    spec fn inv(self) -> bool {
        self.systems@.len() == self.graph@.len()
    }

    /// The systems added so far.
    pub closed spec fn systems(self) -> Seq<S> {
        self.systems@
    }

    /// The declarations of the systems added so far.
    pub closed spec fn declared(self) -> Seq<SystemEntry> {
        self.graph@
    }

    /// A builder without systems.
    pub fn new() -> (b: Self)
        ensures
            b.systems().len() == 0,
            b.declared().len() == 0,
    {
        DispatcherBuilder { systems: Vec::new(), graph: DependencyGraph::new() }
    }

    /// Adds `system` under `name`, to run after the systems named in
    /// `after`, which may be added later.  The system's access descriptor is
    /// asked for here.  A system with an ambiguous descriptor or with a name
    /// that is taken is refused and dropped.
    pub fn add<C, R>(&mut self, system: S, name: String, after: Vec<String>) -> (r: Result<
        (),
        EcsError,
    >) where S: System<C, R>
        ensures
            match r {
                Ok(_) => {
                    &&& final(self).systems() == old(self).systems().push(system)
                    &&& final(self).declared().len() == old(self).declared().len() + 1
                    &&& final(self).declared().drop_last() == old(self).declared()
                    &&& final(self).declared().last().name == name
                    &&& final(self).declared().last().after == after
                    &&& !crate::schedule::knows(old(self).declared(), name@)
                    &&& !final(self).declared().last().access.is_ambiguous()
                    &&& call_ensures(
                        S::access_descriptor,
                        (&system,),
                        final(self).declared().last().access,
                    )
                },
                Err(EcsError::AmbiguousAccess { system: refused, type_id }) => {
                    &&& refused@ == name@
                    &&& exists|d: AccessDescriptor| #[trigger]
                        call_ensures(S::access_descriptor, (&system,), d) && d.ambiguous_type()
                            == Some(type_id)
                    &&& final(self).systems() == old(self).systems()
                    &&& final(self).declared() == old(self).declared()
                },
                Err(EcsError::DuplicateSystem { system: refused }) => {
                    &&& refused@ == name@
                    &&& crate::schedule::knows(old(self).declared(), name@)
                    &&& final(self).systems() == old(self).systems()
                    &&& final(self).declared() == old(self).declared()
                },
                Err(_) => false,
            },
    {
        proof {
            use_type_invariant(&*self);
        }
        let access = system.access_descriptor();
        let mut taken = DispatcherBuilder { systems: Vec::new(), graph: DependencyGraph::new() };
        core::mem::swap(self, &mut taken);
        let DispatcherBuilder { mut systems, mut graph } = taken;
        let r = match graph.add_system(name, access, after) {
            Ok(_) => {
                systems.push(system);
                assert(graph@.drop_last() =~= old(self).graph@);
                Ok(())
            },
            Err(e) => Err(e),
        };
        *self = DispatcherBuilder { systems, graph };
        r
    }

    /// Compiles the execution plan and hands the systems to a dispatcher.
    /// Fails as `DependencyGraph::build` does.
    pub fn build(self) -> (r: Result<Dispatcher<S>, EcsError>)
        ensures
            r.is_ok() == (all_known(self.declared()) && !has_cycle(edges(self.declared()))),
            match r {
                Ok(d) => {
                    &&& d.systems() == self.systems()
                    &&& d.declared() == self.declared()
                    &&& is_depth(edges(d.declared()), d.plan().len())
                    &&& d.plan() == layering(edges(d.declared()), d.plan().len())
                    &&& d.plan().len() <= d.declared().len()
                    &&& conflict_free(d.declared(), d.plan())
                    &&& order_respected(d.declared(), d.plan())
                },
                Err(EcsError::UnknownSystem { system, dependency }) => exists|i: int, k: int|
                    crate::schedule::is_first_unknown(self.declared(), i, k) && system@
                        == self.declared()[i].name@ && dependency@ == self.declared()[i].after@[k]@,
                Err(EcsError::CyclicDependency { systems }) => {
                    &&& all_known(self.declared())
                    &&& has_cycle(edges(self.declared()))
                    &&& crate::schedule::string_views(systems@) == crate::schedule::names_of(
                        self.declared(),
                        crate::graph::cycle_nodes(edges(self.declared())),
                    )
                },
                Err(_) => false,
            },
    {
        proof {
            use_type_invariant(&self);
        }
        let DispatcherBuilder { systems, graph } = self;
        let built = graph.build();
        match built {
            Ok(plan) => Ok(Dispatcher { systems, graph, plan }),
            Err(EcsError::UnknownSystem { system, dependency }) => Err(
                EcsError::UnknownSystem { system, dependency },
            ),
            Err(EcsError::CyclicDependency { systems: members }) => Err(
                EcsError::CyclicDependency { systems: members },
            ),
            Err(e) => Err(e),
        }
    }
}

/// Owns the systems and their compiled execution plan, and runs one tick at
/// a time.
pub struct Dispatcher<S> {
    systems: Vec<S>,
    graph: DependencyGraph,
    plan: ExecutionPlan,
}

impl<S> Dispatcher<S> {
    #[verifier::type_invariant]
    spec fn inv(self) -> bool {
        &&& self.systems@.len() == self.graph@.len()
        &&& self.plan.system_total() == self.graph@.len()
    }

    /// The systems, in declaration order.
    pub closed spec fn systems(self) -> Seq<S> {
        self.systems@
    }

    /// The declarations of the systems.
    pub closed spec fn declared(self) -> Seq<SystemEntry> {
        self.graph@
    }

    /// The batches of the execution plan.
    pub closed spec fn plan(self) -> Seq<Seq<int>> {
        self.plan@
    }

    /// System `i`, or nothing when there is no such system.
    pub fn system(&self, i: usize) -> (r: Option<&S>)
        ensures
            match r {
                Some(s) => i < self.systems().len() && *s == self.systems()[i as int],
                None => i >= self.systems().len(),
            },
    {
        if i < self.systems.len() {
            Some(&self.systems[i])
        } else {
            None
        }
    }

    /// The compiled execution plan.
    pub fn execution_plan(&self) -> (p: &ExecutionPlan)
        ensures
            p@ == self.plan(),
    {
        &self.plan
    }

    /// Prepares `world` for the systems: every component type that a system
    /// declares gets a store if it has none, and every resource type that a
    /// system declares is registered, a new one under `LazyDefault`, and
    /// given its default value where it has none and its policy allows.
    pub fn setup<C, R: Default>(&self, world: &mut World<C, R>) where S: System<C, R>
        ensures
            crate::world::stores_provided(
                old(world)@.stores,
                final(world)@.stores,
                crate::schedule::declared_components(self.declared()),
            ),
            crate::world::resources_provided(
                old(world)@.resources,
                final(world)@.resources,
                crate::schedule::declared_resources(self.declared()),
            ),
            final(world)@.doomed == old(world)@.doomed,
            final(world)@.spawns == old(world)@.spawns,
            final(world).live() == old(world).live(),
            final(world).issued() == old(world).issued(),
            final(world).wf() == old(world).wf(),
    {
        let (components, resources) = self.graph.declared_types();
        world.data_mut().provide(&components, &resources);
    }

    /// Runs one tick: the batches in order, the systems of a batch one after
    /// the other in declaration order, each behind a view that enforces its
    /// access descriptor.  A system that fails ends the tick: what ran
    /// before it stays done, and what comes after it does not run.
    ///
    /// The entities are not touched; requests made during the tick wait for
    /// `World::maintain`.
    pub fn dispatch<C, R>(&mut self, world: &mut World<C, R>) -> (r: Result<(), EcsError>) where
        S: System<C, R>,

        ensures
            final(self).declared() == old(self).declared(),
            final(self).plan() == old(self).plan(),
            final(self).systems().len() == old(self).systems().len(),
            final(world).live() == old(world).live(),
            final(world).issued() == old(world).issued(),
            final(world).wf() == old(world).wf(),
            match r {
                Ok(_) => ticked(
                    old(self).systems(),
                    old(self).declared(),
                    old(self).plan().flatten(),
                    old(self).plan().flatten().len() as int,
                    None,
                    old(world)@,
                    final(world)@,
                ),
                Err(EcsError::SystemFailure { system, batch, completed, reason }) => {
                    &&& completed < old(self).plan().flatten().len()
                    &&& batch < old(self).plan().len()
                    &&& old(self).plan().take(batch as int).flatten().len() <= completed
                        < old(self).plan().take(batch + 1).flatten().len()
                    &&& system@ == old(self).declared()[old(self).plan().flatten()[completed as int]].name@
                    &&& ticked(
                        old(self).systems(),
                        old(self).declared(),
                        old(self).plan().flatten(),
                        completed + 1,
                        Some(reason),
                        old(world)@,
                        final(world)@,
                    )
                },
                Err(_) => false,
            },
    {
        proof {
            use_type_invariant(&*self);
        }
        let mut taken = Dispatcher {
            systems: Vec::new(),
            graph: DependencyGraph::new(),
            plan: ExecutionPlan::empty(),
        };
        core::mem::swap(self, &mut taken);
        let Dispatcher { mut systems, graph, plan } = taken;
        let mut data: WorldData<C, R> = WorldData::new();
        core::mem::swap(world.data_mut(), &mut data);
        let ghost start = old(self).systems@;
        let ghost declared = graph@;
        let ghost batches = plan@;
        let ghost order = batches.flatten();
        let ghost mut trace: Seq<WorldView<C, R>> = seq![data@];
        let mut failure: Option<EcsError> = None;
        let mut completed: usize = 0;
        let n = plan.batch_count();
        let total = systems.len();
        let empty: Vec<usize> = Vec::new();
        let mut k: usize = 0;
        proof {
            assert(batches.take(0) =~= Seq::<Seq<int>>::empty());
            assert(batches.take(0).flatten() =~= Seq::<int>::empty());
        }
        while k < n && failure.is_none()
            invariant
                graph@ == declared,
                plan@ == batches,
                order == batches.flatten(),
                order.no_duplicates(),
                n == batches.len(),
                k <= n,
                systems@.len() == start.len(),
                start.len() == declared.len(),
                plan.system_total() == declared.len(),
                order.len() == declared.len(),
                order.len() == total,
                trace.len() >= 1,
                trace.len() - 1 <= order.len(),
                forall|j: int|
                    0 <= j < start.len() && !order.take(trace.len() - 1).contains(j) ==> systems@[j]
                        == start[j],
                trace.first() == old(world)@,
                trace.last() == data@,
                match failure {
                    None => {
                        &&& completed == batches.take(k as int).flatten().len()
                        &&& ran(start, declared, order, trace, completed as int, None)
                    },
                    Some(EcsError::SystemFailure { system, batch, completed: count, reason }) => {
                        &&& count < order.len()
                        &&& batch < batches.len()
                        &&& batches.take(batch as int).flatten().len() <= count < batches.take(
                            batch + 1,
                        ).flatten().len()
                        &&& system@ == declared[order[count as int]].name@
                        &&& ran(start, declared, order, trace, count + 1, Some(reason))
                    },
                    Some(_) => false,
                },
            decreases
                    n - k + if failure.is_none() {
                        1int
                    } else {
                        0int
                    },
        {
            let found = plan.batch(k);
            assert(found is Some);
            let batch = match found {
                Some(b) => b,
                None => &empty,
            };
            let ghost base = completed;
            let ghost upto = batches.take(k + 1).flatten();
            proof {
                assert(batches.take(k + 1) =~= batches.take(k as int).push(batches[k as int]));
                batches.take(k as int).lemma_flatten_push(batches[k as int]);
                lemma_flatten_prefix(batches, k + 1);
                assert(upto =~= batches.take(k as int).flatten() + batches[k as int]);
            }
            let mut i: usize = 0;
            while i < batch.len() && failure.is_none()
                invariant
                    graph@ == declared,
                    plan@ == batches,
                    plan.in_range(),
                    plan.system_total() == declared.len(),
                    order == batches.flatten(),
                    order.no_duplicates(),
                    k < batches.len(),
                    crate::graph::as_ints(batch@) == batches[k as int],
                    i <= batch@.len(),
                    systems@.len() == start.len(),
                    start.len() == declared.len(),
                    order.len() == declared.len(),
                    order.len() == total,
                    base == batches.take(k as int).flatten().len(),
                    upto == batches.take(k + 1).flatten(),
                    upto =~= batches.take(k as int).flatten() + batches[k as int],
                    upto.is_prefix_of(order),
                    trace.len() >= 1,
                    trace.len() - 1 <= order.len(),
                    forall|j: int|
                        0 <= j < start.len() && !order.take(trace.len() - 1).contains(j)
                            ==> systems@[j] == start[j],
                    trace.first() == old(world)@,
                    trace.last() == data@,
                    match failure {
                        None => {
                            &&& completed == base + i
                            &&& ran(start, declared, order, trace, completed as int, None)
                        },
                        Some(
                            EcsError::SystemFailure { system, batch, completed: count, reason },
                        ) => {
                            &&& count < order.len()
                            &&& batch < batches.len()
                            &&& batches.take(batch as int).flatten().len() <= count
                                < batches.take(batch + 1).flatten().len()
                            &&& system@ == declared[order[count as int]].name@
                            &&& ran(start, declared, order, trace, count + 1, Some(reason))
                        },
                        Some(_) => false,
                    },
                decreases
                        batch@.len() - i + if failure.is_none() {
                            1int
                        } else {
                            0int
                        },
            {
                let index = batch[i];
                proof {
                    assert(crate::graph::as_ints(batch@)[i as int] == index);
                    assert(batches[k as int][i as int] == index);
                    assert(upto[base + i] == index);
                    assert(order[base + i] == index);
                    assert(completed < order.len());
                    assert(order.len() == systems@.len());
                    assert(0 <= index < declared.len());
                    assert(trace.len() - 1 == completed);
                    assert(!order.take(completed as int).contains(index as int)) by {
                        if order.take(completed as int).contains(index as int) {
                            let p = choose|p: int|
                                0 <= p < order.take(completed as int).len() && order.take(
                                    completed as int,
                                )[p] == index as int;
                            assert(order[p] == order[completed as int]);
                        }
                    }
                }
                match graph.entry(index) {
                    Some(entry) => {
                        let ghost before = data@;
                        let ghost others = systems@;
                        let mut view = SystemView::new(data, &entry.access);
                        let outcome = systems[index].run(&mut view);
                        data = view.into_data();
                        proof {
                            lemma_ran_extend(
                                start,
                                declared,
                                order,
                                trace,
                                completed as int,
                                data@,
                                outcome,
                            );
                            let longer = order.take(completed + 1);
                            assert(longer[completed as int] == index);
                            assert forall|j: int|
                                0 <= j < start.len() && !longer.contains(j) implies systems@[j]
                                == start[j] by {
                                assert(j != index);
                                if order.take(completed as int).contains(j) {
                                    let p = choose|p: int|
                                        0 <= p < order.take(completed as int).len() && order.take(
                                            completed as int,
                                        )[p] == j;
                                    assert(longer[p] == j);
                                }
                            }
                            trace = trace.push(data@);
                        }
                        match outcome {
                            Ok(_) => {
                                completed = completed + 1;
                                i = i + 1;
                            },
                            Err(reason) => {
                                failure = Some(
                                    EcsError::SystemFailure {
                                        system: entry.name.clone(),
                                        batch: k,
                                        completed,
                                        reason,
                                    },
                                );
                            },
                        }
                    },
                    None => {
                        proof {
                            assert(false);
                        }
                    },
                }
            }
            if failure.is_none() {
                k = k + 1;
            }
        }
        proof {
            if failure.is_none() {
                assert(batches.take(n as int) =~= batches);
            }
        }
        core::mem::swap(world.data_mut(), &mut data);
        *self = Dispatcher { systems, graph, plan };
        proof {
            assert(trace.last() == world@);
            if failure is Some {
                let count = failure->Some_0->completed;
                let why = Some(failure->Some_0->reason);
                assert(ran(start, declared, order, trace, count + 1, why) && trace.first() == old(
                    world,
                )@ && trace.last() == world@);
                assert(ticked(start, declared, order, count + 1, why, old(world)@, world@));
            } else {
                assert(ran(start, declared, order, trace, order.len() as int, None)
                    && trace.first() == old(world)@ && trace.last() == world@);
                assert(ticked(start, declared, order, order.len() as int, None, old(world)@, world@));
            }
        }
        match failure {
            Some(e) => Err(e),
            None => Ok(()),
        }
    }
}

/// One more run extends a trace of successful runs.
proof fn lemma_ran_extend<C, R, S: System<C, R>>(
    systems: Seq<S>,
    declared: Seq<SystemEntry>,
    order: Seq<int>,
    trace: Seq<WorldView<C, R>>,
    steps: int,
    next: WorldView<C, R>,
    outcome: Result<(), String>,
)
    requires
        ran(systems, declared, order, trace, steps, None),
        steps < order.len(),
        0 <= order[steps] < systems.len(),
        order[steps] < declared.len(),
        systems[order[steps]].effect(trace.last(), next, outcome),
        confined(declared[order[steps]].access, trace.last(), next),
    ensures
        ran(
            systems,
            declared,
            order,
            trace.push(next),
            steps + 1,
            match outcome {
                Ok(_) => None,
                Err(reason) => Some(reason),
            },
        ),
{
    let longer = trace.push(next);
    let failure = match outcome {
        Ok(_) => None,
        Err(reason) => Some(reason),
    };
    assert forall|i: int| 0 <= i < steps + 1 implies {
        &&& 0 <= #[trigger] order[i] < systems.len()
        &&& order[i] < declared.len()
        &&& systems[order[i]].effect(longer[i], longer[i + 1], outcome_at(failure, steps + 1, i))
        &&& confined(declared[order[i]].access, longer[i], longer[i + 1])
    } by {
        if i < steps {
            assert(longer[i] == trace[i]);
            assert(longer[i + 1] == trace[i + 1]);
        } else {
            assert(longer[i] == trace.last());
            assert(longer[i + 1] == next);
            assert(outcome_at(failure, steps + 1, i) == outcome) by {
                match outcome {
                    Ok(unit) => {
                        assert(unit == ());
                    },
                    Err(_) => {},
                }
            }
        }
    }
}

/// A prefix of the batches flattens to a prefix of the run order.
proof fn lemma_flatten_prefix(batches: Seq<Seq<int>>, k: int)
    requires
        0 <= k <= batches.len(),
    ensures
        batches.take(k).flatten().is_prefix_of(batches.flatten()),
    decreases batches.len() - k,
{
    if k == batches.len() {
        assert(batches.take(k) =~= batches);
    } else {
        lemma_flatten_prefix(batches, k + 1);
        assert(batches.take(k + 1) =~= batches.take(k).push(batches[k]));
        batches.take(k).lemma_flatten_push(batches[k]);
    }
}

/// A store as one run left it reaches a later run unchanged when no run
/// between the two declares it written: what a system of a later batch
/// reads is what the system of the earlier batch wrote.
pub proof fn lemma_write_reaches_reader<C, R, S: System<C, R>>(
    systems: Seq<S>,
    declared: Seq<SystemEntry>,
    order: Seq<int>,
    trace: Seq<WorldView<C, R>>,
    steps: int,
    failure: Option<String>,
    writer: int,
    reader: int,
    t: TypeId,
)
    requires
        ran(systems, declared, order, trace, steps, failure),
        0 <= writer < reader < steps,
        trace[writer + 1].stores.contains_key(t),
        forall|k: int| writer < k < reader ==> !declared[order[k]].access.writes_component(t),
    ensures
        trace[reader].stores.contains_key(t),
        trace[reader].stores[t] == trace[writer + 1].stores[t],
    decreases reader - writer,
{
    if reader > writer + 1 {
        lemma_write_reaches_reader(
            systems,
            declared,
            order,
            trace,
            steps,
            failure,
            writer,
            reader - 1,
            t,
        );
        let k = reader - 1;
        assert(0 <= order[k] < systems.len());
        assert(confined(declared[order[k]].access, trace[k], trace[k + 1]));
        assert(trace[k + 1].stores.dom().contains(t));
    }
}

/// The systems of an earlier batch run before those of a later batch.
pub proof fn lemma_batches_run_in_order(plan: Seq<Seq<int>>, ka: int, kb: int, a: int, b: int)
    requires
        0 <= ka < kb < plan.len(),
        plan[ka].contains(a),
        plan[kb].contains(b),
    ensures
        exists|i: int, j: int|
            0 <= i < j < plan.flatten().len() && plan.flatten()[i] == a && plan.flatten()[j] == b,
{
    let upto_b = plan.take(kb).flatten();
    let with_b = plan.take(kb + 1).flatten();
    assert(plan.take(kb + 1) =~= plan.take(kb).push(plan[kb]));
    plan.take(kb).lemma_flatten_push(plan[kb]);
    lemma_flatten_prefix(plan, kb + 1);
    let head = plan.take(kb);
    let upto_a = head.take(ka).flatten();
    assert(head.take(ka + 1) =~= head.take(ka).push(plan[ka]));
    head.take(ka).lemma_flatten_push(plan[ka]);
    lemma_flatten_prefix(head, ka + 1);
    let ia = choose|i: int| 0 <= i < plan[ka].len() && plan[ka][i] == a;
    let ib = choose|i: int| 0 <= i < plan[kb].len() && plan[kb][i] == b;
    let i = upto_a.len() + ia;
    let j = upto_b.len() + ib;
    assert(head.take(ka + 1).flatten()[i] == a);
    assert(upto_b[i] == a);
    assert(with_b[i] == a);
    assert(with_b[j] == b);
    assert(plan.flatten()[i] == a);
    assert(plan.flatten()[j] == b);
}

/// The two states agree on every store and resource that `access` declares
/// read or written, and register the same types.
pub open spec fn agree_on<C, R>(access: AccessDescriptor, a: WorldView<C, R>, b: WorldView<C, R>) -> bool {
    &&& a.stores.dom() == b.stores.dom()
    &&& a.resources.dom() == b.resources.dom()
    &&& forall|t: TypeId|
        a.stores.contains_key(t) && (access.reads_component(t) || access.writes_component(t))
            ==> #[trigger] a.stores[t] == b.stores[t]
    &&& forall|t: TypeId|
        a.resources.contains_key(t) && (access.reads_resource(t) || access.writes_resource(t))
            ==> #[trigger] a.resources[t] == b.resources[t]
}

/// What the contract of `System::run` tells of a successful run of `system`
/// behind a view that enforces `access`: the run may take the world's data
/// from `before` to `after`.
pub open spec fn may_run<C, R, S: System<C, R>>(
    system: S,
    access: AccessDescriptor,
    before: WorldView<C, R>,
    after: WorldView<C, R>,
) -> bool {
    system.effect(before, after, Ok(())) && confined(access, before, after)
}

/// The two states hold the same in every store and resource that `access`
/// declares written.
pub open spec fn written_alike<C, R>(
    access: AccessDescriptor,
    a: WorldView<C, R>,
    b: WorldView<C, R>,
) -> bool {
    &&& forall|t: TypeId|
        a.stores.contains_key(t) && access.writes_component(t) ==> #[trigger] a.stores[t]
            == b.stores[t]
    &&& forall|t: TypeId|
        a.resources.contains_key(t) && access.writes_resource(t) ==> #[trigger] a.resources[t]
            == b.resources[t]
}

/// What the system writes is determined by what it declares: successful runs
/// from two states that agree on everything declared read or written leave
/// the same in everything declared written.
pub open spec fn determined<C, R, S: System<C, R>>(system: S, access: AccessDescriptor) -> bool {
    forall|w1: WorldView<C, R>, x1: WorldView<C, R>, w2: WorldView<C, R>, x2: WorldView<C, R>|
        #[trigger] may_run(system, access, w1, x1) && #[trigger] may_run(system, access, w2, x2)
            && agree_on(access, w1, w2) ==> written_alike(access, x1, x2)
}

/// A run behind the descriptor `other` leaves untouched whatever a
/// descriptor that does not conflict with it declares read or written: a
/// system finds what it declares as it would without the other system's run
/// before it, and keeps what it wrote through the other system's run after
/// it.
pub proof fn lemma_independent_run_is_unseen<C, R>(
    access: AccessDescriptor,
    other: AccessDescriptor,
    before: WorldView<C, R>,
    after: WorldView<C, R>,
)
    requires
        !access.conflicts(other),
        confined(other, before, after),
    ensures
        agree_on(access, before, after),
{
    assert forall|t: TypeId|
        before.stores.contains_key(t) && (access.reads_component(t) || access.writes_component(
            t,
        )) implies #[trigger] before.stores[t] == after.stores[t] by {
        assert(!access.component_conflict(other, t));
    }
    assert forall|t: TypeId|
        before.resources.contains_key(t) && (access.reads_resource(t) || access.writes_resource(
            t,
        )) implies #[trigger] before.resources[t] == after.resources[t] by {
        assert(!access.resource_conflict(other, t));
    }
}

/// Two systems whose descriptors do not conflict, and whose writes are
/// determined by what they declare, leave the same in every store and
/// resource whichever of them runs first.
pub proof fn lemma_either_order_same_state<C, R, A: System<C, R>, B: System<C, R>>(
    a: A,
    a_access: AccessDescriptor,
    b: B,
    b_access: AccessDescriptor,
    start: WorldView<C, R>,
    after_a: WorldView<C, R>,
    a_then_b: WorldView<C, R>,
    after_b: WorldView<C, R>,
    b_then_a: WorldView<C, R>,
)
    requires
        !a_access.conflicts(b_access),
        determined(a, a_access),
        determined(b, b_access),
        may_run(a, a_access, start, after_a),
        may_run(b, b_access, after_a, a_then_b),
        may_run(b, b_access, start, after_b),
        may_run(a, a_access, after_b, b_then_a),
    ensures
        a_then_b.stores == b_then_a.stores,
        a_then_b.resources == b_then_a.resources,
{
    crate::access::lemma_conflict_symmetric(a_access, b_access);
    lemma_independent_run_is_unseen(a_access, b_access, start, after_b);
    lemma_independent_run_is_unseen(b_access, a_access, start, after_a);
    assert(written_alike(a_access, after_a, b_then_a));
    assert(written_alike(b_access, after_b, a_then_b));
    assert forall|t: TypeId| a_then_b.stores.contains_key(t) implies #[trigger] a_then_b.stores[t]
        == b_then_a.stores[t] by {
        assert(!a_access.component_conflict(b_access, t));
        assert(start.stores.dom().contains(t));
        assert(after_a.stores.dom().contains(t));
        assert(after_b.stores.dom().contains(t));
        if a_access.writes_component(t) {
            assert(a_then_b.stores[t] == after_a.stores[t]);
            assert(after_a.stores[t] == b_then_a.stores[t]);
        } else if b_access.writes_component(t) {
            assert(b_then_a.stores[t] == after_b.stores[t]);
            assert(after_b.stores[t] == a_then_b.stores[t]);
        } else {
            assert(after_a.stores[t] == start.stores[t]);
            assert(after_b.stores[t] == start.stores[t]);
        }
    }
    assert(a_then_b.stores =~= b_then_a.stores);
    assert forall|t: TypeId|
        a_then_b.resources.contains_key(t) implies #[trigger] a_then_b.resources[t]
        == b_then_a.resources[t] by {
        assert(!a_access.resource_conflict(b_access, t));
        assert(start.resources.dom().contains(t));
        assert(after_a.resources.dom().contains(t));
        assert(after_b.resources.dom().contains(t));
        if a_access.writes_resource(t) {
            assert(a_then_b.resources[t] == after_a.resources[t]);
            assert(after_a.resources[t] == b_then_a.resources[t]);
        } else if b_access.writes_resource(t) {
            assert(b_then_a.resources[t] == after_b.resources[t]);
            assert(after_b.resources[t] == a_then_b.resources[t]);
        } else {
            assert(after_a.resources[t] == start.resources[t]);
            assert(after_b.resources[t] == start.resources[t]);
        }
    }
    assert(a_then_b.resources =~= b_then_a.resources);
}

} // verus!
