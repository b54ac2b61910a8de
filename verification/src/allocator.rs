use vstd::prelude::*;
use crate::entity::Entity;
use specs::Builder;
use specs::Join;
use specs::World as EntityTable;

verus! {

/// `specs::World`, taken as a whole: of what it holds, only the entity table
/// is used.
#[verifier::external_type_specification]
#[verifier::external_body]
pub struct ExEntityTable(EntityTable);

/// The entities that are alive in the entity table of `w`, each as its slot
/// and its generation.
pub uninterp spec fn live_entities(w: EntityTable) -> Set<(u32, i32)>;

/// The slots whose entity is marked for deletion at the next maintenance.
pub uninterp spec fn doomed_slots(w: EntityTable) -> Set<u32>;

/// The number of slots that the entity table of `w` has handed out so far.
pub uninterp spec fn slot_count(w: EntityTable) -> nat;

/// For each slot that was handed out, the generation of the entity that it
/// holds or held last.  A slot's entities have the generations 1, 2, 3 and
/// so on, so this also tells which entities the slot has ever held.
pub uninterp spec fn last_generations(w: EntityTable) -> Map<u32, i32>;

/// The allocator hands out no more slots than this.
pub const MAX_SLOTS: u32 = 0x10_0000;

/// `specs::World::new`: a fresh world has handed out no slot, holds no
/// entity and has none marked for deletion.
#[verifier::external_body]
fn raw_new() -> (w: EntityTable)
    ensures
        live_entities(w) == Set::<(u32, i32)>::empty(),
        doomed_slots(w) == Set::<u32>::empty(),
        slot_count(w) == 0,
        last_generations(w) == (Map::<u32, i32>::empty()),
{
    EntityTable::new()
}

/// `specs::World::create_entity` followed by `build`, with no component
/// attached.  The entity comes alive at once.  It takes a recycled slot
/// while there is one, and else the next slot never used; its generation is
/// the one after the slot's last, or 1 in a slot never used, so it differs
/// from every entity handed out before.  The call is kept away from the two
/// limits at which the table gives up: the slot range of its bit sets and
/// the range of a generation.
#[verifier::external_body]
fn raw_allocate(w: &mut EntityTable) -> (e: (u32, i32))
    requires
        live_entities(*old(w)).finite(),
        slot_count(*old(w)) <= MAX_SLOTS,
        slot_count(*old(w)) < MAX_SLOTS || live_entities(*old(w)).len() < slot_count(*old(w)),
        forall|id: u32|
            last_generations(*old(w)).contains_key(id) ==> #[trigger] last_generations(
                *old(w),
            )[id] < i32::MAX,
    ensures
        0 < e.1,
        e.1 == if last_generations(*old(w)).contains_key(e.0) {
            last_generations(*old(w))[e.0] + 1
        } else {
            1
        },
        last_generations(*final(w)) == last_generations(*old(w)).insert(e.0, e.1),
        e.0 <= slot_count(*old(w)),
        live_entities(*old(w)).len() < slot_count(*old(w)) ==> e.0 < slot_count(*old(w)),
        forall|g: i32| !live_entities(*old(w)).contains((e.0, g)),
        live_entities(*final(w)) == live_entities(*old(w)).insert(e),
        doomed_slots(*final(w)) == doomed_slots(*old(w)),
        slot_count(*final(w)) == if e.0 < slot_count(*old(w)) {
            slot_count(*old(w))
        } else {
            slot_count(*old(w)) + 1
        },
{
    let e = w.create_entity().build();
    (e.id(), e.gen().id())
}

/// The join over `specs::world::EntitiesRes`, counted: the number of live
/// entities.
#[verifier::external_body]
fn raw_live_count(w: &EntityTable) -> (n: usize)
    requires
        live_entities(*w).finite(),
    ensures
        n == live_entities(*w).len(),
{
    (&*w.entities()).join().count()
}

/// `specs::world::EntitiesRes::entity`, of which the generation is kept: the
/// generation that slot `id` stands at.  It is asked only of a slot that was
/// handed out, within the slot range of the table's bit sets.  It is
/// positive exactly when the slot holds a live entity, and it is then that
/// entity's generation.
#[verifier::external_body]
fn raw_generation(w: &EntityTable, id: u32) -> (g: i32)
    requires
        id < slot_count(*w) <= MAX_SLOTS,
    ensures
        g > 0 ==> live_entities(*w).contains((id, g)),
        forall|h: i32| live_entities(*w).contains((id, h)) ==> h == g,
{
    w.entities().entity(id).gen().id()
}

/// `specs::world::EntitiesRes::delete` on the entity that slot `id` holds:
/// the slot is marked, and the entity stays alive until the next
/// maintenance.  The result tells that the table took the request.
#[verifier::external_body]
fn raw_delete(w: &mut EntityTable, id: u32) -> (ok: bool)
    requires
        id < slot_count(*old(w)) <= MAX_SLOTS,
        exists|g: i32| live_entities(*old(w)).contains((id, g)),
    ensures
        ok,
        live_entities(*final(w)) == live_entities(*old(w)),
        doomed_slots(*final(w)) == doomed_slots(*old(w)).insert(id),
        slot_count(*final(w)) == slot_count(*old(w)),
        last_generations(*final(w)) == last_generations(*old(w)),
{
    let e = w.entities().entity(id);
    w.entities().delete(e).is_ok()
}

/// `specs::World::maintain`: the entities in marked slots die, their slots
/// become free for reuse, and no slot stays marked.
#[verifier::external_body]
fn raw_maintain(w: &mut EntityTable)
    requires
        forall|id: u32|
            doomed_slots(*old(w)).contains(id) ==> exists|g: i32|
                live_entities(*old(w)).contains((id, g)),
    ensures
        live_entities(*final(w)) == live_entities(*old(w)).filter(
            |e: (u32, i32)| !doomed_slots(*old(w)).contains(e.0),
        ),
        doomed_slots(*final(w)) == Set::<u32>::empty(),
        slot_count(*final(w)) == slot_count(*old(w)),
        last_generations(*final(w)) == last_generations(*old(w)),
{
    w.maintain()
}

/// Hands out entity identifiers and takes them back.  A deletion is a
/// request: the entity stays alive until `maintain` runs, after which its
/// slot may be given out again under a new generation.
pub struct EntityAllocator {
    world: EntityTable,
    slots: u32,
    top: i32,
}

impl EntityAllocator {
    /// The counters agree with the entity table.
    pub closed spec fn wf(self) -> bool {
        &&& self.slots == slot_count(self.world)
        &&& self.slots <= MAX_SLOTS
        &&& self.top >= 0
        &&& forall|id: u32|
            last_generations(self.world).contains_key(id) ==> 0 < #[trigger] last_generations(
                self.world,
            )[id] <= self.top
        &&& live_entities(self.world).finite()
        &&& forall|id: u32, g: i32|
            live_entities(self.world).contains((id, g)) ==> id < self.slots && 0 < g
                && last_generations(self.world).contains_key(id) && last_generations(
                self.world,
            )[id] == g
        &&& forall|id: u32|
            doomed_slots(self.world).contains(id) ==> exists|g: i32|
                live_entities(self.world).contains((id, g))
    }

    /// The entities that are alive.
    pub closed spec fn live(self) -> Set<Entity> {
        Set::new(|e: Entity| live_entities(self.world).contains((e.id, e.generation)))
    }

    /// The live entities whose deletion was requested since the last
    /// maintenance.
    pub closed spec fn doomed(self) -> Set<Entity> {
        Set::new(
            |e: Entity|
                live_entities(self.world).contains((e.id, e.generation)) && doomed_slots(
                    self.world,
                ).contains(e.id),
        )
    }

    /// The entities that were ever handed out, alive or not.
    pub closed spec fn issued(self) -> Set<Entity> {
        Set::new(
            |e: Entity|
                last_generations(self.world).contains_key(e.id) && 0 < e.generation
                    <= last_generations(self.world)[e.id],
        )
    }

    /// What is alive was handed out.
    pub proof fn lemma_live_was_issued(self)
        requires
            self.wf(),
        ensures
            self.live().subset_of(self.issued()),
    {
    }

    /// No identifier can be handed out any more: every slot holds a live
    /// entity, or a slot has run through all its generations.
    pub closed spec fn exhausted(self) -> bool {
        self.top >= i32::MAX || (self.slots >= MAX_SLOTS && live_entities(self.world).len()
            >= self.slots)
    }

    /// An allocator that has handed out nothing.
    pub fn new() -> (a: Self)
        ensures
            a.wf(),
            a.live() == Set::<Entity>::empty(),
            a.doomed() == Set::<Entity>::empty(),
            a.issued() == Set::<Entity>::empty(),
            !a.exhausted(),
    {
        let a = EntityAllocator { world: raw_new(), slots: 0, top: 0 };
        assert(a.live() =~= Set::<Entity>::empty());
        assert(a.issued() =~= Set::<Entity>::empty());
        assert(a.doomed() =~= Set::<Entity>::empty());
        a
    }

    /// Whether `allocate` would give up.
    pub fn is_exhausted(&self) -> (r: bool)
        requires
            self.wf(),
        ensures
            r == self.exhausted(),
    {
        self.top >= i32::MAX || (self.slots >= MAX_SLOTS && raw_live_count(&self.world)
            >= self.slots as usize)
    }

    /// Hands out an entity that is not alive and never was, and makes it
    /// alive.  Returns nothing, and changes nothing, when the allocator is
    /// exhausted.
    pub fn allocate(&mut self) -> (r: Option<Entity>)
        requires
            old(self).wf(),
        ensures
            final(self).wf(),
            final(self).doomed() == old(self).doomed(),
            match r {
                Some(e) => {
                    &&& !old(self).exhausted()
                    &&& !old(self).issued().contains(e)
                    &&& !old(self).live().contains(e)
                    &&& final(self).live() == old(self).live().insert(e)
                    &&& final(self).issued() == old(self).issued().insert(e)
                },
                None => {
                    &&& old(self).exhausted()
                    &&& final(self).live() == old(self).live()
                    &&& final(self).issued() == old(self).issued()
                },
            },
    {
        if self.is_exhausted() {
            return None;
        }
        let (id, generation) = raw_allocate(&mut self.world);
        if id >= self.slots {
            self.slots = self.slots + 1;
        }
        if generation > self.top {
            self.top = generation;
        }
        let e = Entity { id, generation };
        proof {
            assert(self.live() =~= old(self).live().insert(e));
            assert(self.issued() =~= old(self).issued().insert(e));
            assert(self.doomed() =~= old(self).doomed()) by {
                assert(!doomed_slots(old(self).world).contains(id));
            }
            assert forall|id2: u32| doomed_slots(self.world).contains(id2) implies exists|g: i32|
                live_entities(self.world).contains((id2, g)) by {
                let g = choose|g: i32| live_entities(old(self).world).contains((id2, g));
                assert(live_entities(self.world).contains((id2, g)));
            }
        }
        Some(e)
    }

    /// Whether `entity` is alive.  An entity whose deletion was requested is
    /// alive until `maintain` runs.
    pub fn is_live(&self, entity: Entity) -> (r: bool)
        requires
            self.wf(),
        ensures
            r == self.live().contains(entity),
    {
        entity.id < self.slots && entity.generation > 0 && raw_generation(&self.world, entity.id)
            == entity.generation
    }

    /// Requests the deletion of `entity`.  Returns whether the entity was
    /// alive; a request for any other entity changes nothing.
    pub fn deallocate(&mut self, entity: Entity) -> (r: bool)
        requires
            old(self).wf(),
        ensures
            final(self).wf(),
            r == old(self).live().contains(entity),
            final(self).live() == old(self).live(),
            final(self).issued() == old(self).issued(),
            final(self).doomed() == if r {
                old(self).doomed().insert(entity)
            } else {
                old(self).doomed()
            },
    {
        if !(entity.id < self.slots && entity.generation > 0) {
            return false;
        }
        let g = raw_generation(&self.world, entity.id);
        if g != entity.generation {
            return false;
        }
        let ok = raw_delete(&mut self.world, entity.id);
        proof {
            assert(self.live() =~= old(self).live());
            assert(self.doomed() =~= old(self).doomed().insert(entity));
        }
        true
    }

    /// Carries out the requested deletions: the doomed entities are alive
    /// no longer.
    pub fn maintain(&mut self)
        requires
            old(self).wf(),
        ensures
            final(self).wf(),
            final(self).live() == old(self).live().difference(old(self).doomed()),
            final(self).issued() == old(self).issued(),
            final(self).doomed() == Set::<Entity>::empty(),
    {
        raw_maintain(&mut self.world);
        proof {
            vstd::set_lib::lemma_set_subset_finite(
                live_entities(old(self).world),
                live_entities(self.world),
            );
            assert(self.live() =~= old(self).live().difference(old(self).doomed()));
            assert(self.doomed() =~= Set::<Entity>::empty());
        }
    }
}

} // verus!
