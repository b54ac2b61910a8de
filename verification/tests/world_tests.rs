use ecs_core::entity::Entity;
use ecs_core::error::EcsError;
use ecs_core::world::{ResourcePolicy, World};

const POSITION: u64 = 1;
const VELOCITY: u64 = 2;
const CLOCK: u64 = 10;
const SCORE: u64 = 11;

#[test]
fn a_store_must_be_registered() {
    let mut w: World<i64, u32> = World::new();
    assert_eq!(w.storage(POSITION).err(), Some(EcsError::UnregisteredType { type_id: POSITION }));
    assert_eq!(w.storage_mut(POSITION).err(), Some(EcsError::UnregisteredType { type_id: POSITION }));
    w.register(POSITION);
    assert!(w.storage(POSITION).unwrap().is_empty());
}

#[test]
fn registering_twice_keeps_the_store() {
    let mut w: World<i64, u32> = World::new();
    w.register(POSITION);
    w.storage_mut(POSITION).unwrap().insert(Entity { id: 0, generation: 1 }, 5);
    w.register(POSITION);
    assert_eq!(w.storage(POSITION).unwrap().get(Entity { id: 0, generation: 1 }), Some(&5));
}

#[test]
fn a_builder_commits_its_components_together() {
    let mut w: World<i64, u32> = World::new();
    w.register(POSITION);
    w.register(VELOCITY);
    let e = w.create_entity().unwrap().with(POSITION, 4).with(VELOCITY, 7).with(POSITION, 5).build(&mut w).unwrap();
    assert!(w.is_live(e));
    assert_eq!(w.storage(POSITION).unwrap().get(e), Some(&5));
    assert_eq!(w.storage(VELOCITY).unwrap().get(e), Some(&7));
}

#[test]
fn a_builder_with_an_unregistered_type_inserts_nothing() {
    let mut w: World<i64, u32> = World::new();
    w.register(POSITION);
    let b = w.create_entity().unwrap().with(POSITION, 4).with(VELOCITY, 7).with(99, 1);
    let e = b.id();
    assert_eq!(b.build(&mut w), Err(EcsError::UnregisteredType { type_id: VELOCITY }));
    assert_eq!(w.storage(POSITION).unwrap().get(e), None);
    assert!(w.is_live(e));
}

#[test]
fn a_resource_is_replaceable() {
    let mut w: World<i64, u32> = World::new();
    assert_eq!(w.add_resource(CLOCK, 5), None);
    assert_eq!(w.add_resource(CLOCK, 6), Some(5));
    assert_eq!(w.resource(CLOCK), Ok(&6));
    *w.resource_mut(CLOCK).unwrap() += 1;
    assert_eq!(w.resource(CLOCK), Ok(&7));
}

#[test]
fn an_absent_resource_fails_or_takes_its_default() {
    let mut w: World<i64, u32> = World::new();
    assert_eq!(w.resource(CLOCK), Err(EcsError::UnregisteredType { type_id: CLOCK }));
    w.register_resource(CLOCK, ResourcePolicy::FailIfAbsent);
    w.register_resource(SCORE, ResourcePolicy::LazyDefault);
    assert_eq!(w.resource(CLOCK), Err(EcsError::UnregisteredType { type_id: CLOCK }));
    assert_eq!(w.resource_mut(CLOCK).err(), Some(EcsError::UnregisteredType { type_id: CLOCK }));
    assert_eq!(w.data().resource_ref(SCORE).err(), Some(EcsError::UnregisteredType { type_id: SCORE }));
    assert_eq!(w.resource(SCORE), Ok(&0));
    assert_eq!(w.data().resource_ref(SCORE), Ok(&0));
    w.register_resource(SCORE, ResourcePolicy::FailIfAbsent);
    *w.resource_mut(SCORE).unwrap() = 9;
    assert_eq!(w.resource(SCORE), Ok(&9));
}

#[test]
fn maintenance_deletes_entities_with_their_components() {
    let mut w: World<i64, u32> = World::new();
    w.register(POSITION);
    w.register(VELOCITY);
    let e1 = w.create_entity().unwrap().with(POSITION, 1).with(VELOCITY, 2).build(&mut w).unwrap();
    let e2 = w.create_entity().unwrap().with(POSITION, 3).build(&mut w).unwrap();
    w.delete_entity(e1);
    assert!(w.is_live(e1));
    assert_eq!(w.storage(POSITION).unwrap().get(e1), Some(&1));
    assert_eq!(w.maintain(), vec![]);
    assert!(!w.is_live(e1));
    assert!(w.is_live(e2));
    assert_eq!(w.storage(POSITION).unwrap().get(e1), None);
    assert_eq!(w.storage(VELOCITY).unwrap().get(e1), None);
    assert_eq!(w.storage(POSITION).unwrap().get(e2), Some(&3));
}

#[test]
fn maintenance_creates_the_requested_entities_in_order() {
    let mut w: World<i64, u32> = World::new();
    w.register(POSITION);
    w.register(VELOCITY);
    assert_eq!(w.data_mut().request_spawn(vec![(POSITION, 1), (VELOCITY, 2)]), Ok(()));
    assert_eq!(w.data_mut().request_spawn(vec![(POSITION, 3), (POSITION, 4)]), Ok(()));
    assert_eq!(
        w.data_mut().request_spawn(vec![(POSITION, 3), (77, 4)]),
        Err(EcsError::UnregisteredType { type_id: 77 })
    );
    assert!(w.storage(POSITION).unwrap().is_empty());
    let made = w.maintain();
    assert_eq!(made.len(), 2);
    assert_ne!(made[0], made[1]);
    assert!(w.is_live(made[0]) && w.is_live(made[1]));
    assert_eq!(w.storage(POSITION).unwrap().get(made[0]), Some(&1));
    assert_eq!(w.storage(VELOCITY).unwrap().get(made[0]), Some(&2));
    assert_eq!(w.storage(POSITION).unwrap().get(made[1]), Some(&4));
    assert_eq!(w.storage(VELOCITY).unwrap().get(made[1]), None);
    assert_eq!(w.maintain(), vec![]);
    assert_eq!(w.storage(POSITION).unwrap().len(), 2);
}

#[test]
fn a_world_without_entities_left_refuses_to_create_one() {
    let mut w: World<i64, u32> = World::new();
    w.register(POSITION);
    for _ in 0..ecs_core::allocator::MAX_SLOTS {
        assert!(w.create_entity().is_ok());
    }
    assert_eq!(w.create_entity().err(), Some(EcsError::EntitiesExhausted));
    w.data_mut().request_spawn(vec![(POSITION, 1)]).unwrap();
    assert_eq!(w.maintain(), vec![]);
    assert!(w.storage(POSITION).unwrap().is_empty());
}
