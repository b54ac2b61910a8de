use ecs_core::allocator::EntityAllocator;
use ecs_core::entity::Entity;

#[test]
fn allocated_entities_differ() {
    let mut a = EntityAllocator::new();
    let e1 = a.allocate().unwrap();
    let e2 = a.allocate().unwrap();
    assert_ne!(e1, e2);
    assert!(a.is_live(e1));
    assert!(a.is_live(e2));
    assert!(!a.is_exhausted());
}

#[test]
fn nothing_is_alive_in_a_new_allocator() {
    let a = EntityAllocator::new();
    assert!(!a.is_live(Entity { id: 0, generation: 1 }));
    assert!(!a.is_live(Entity { id: 7, generation: 1 }));
}

#[test]
fn a_deletion_waits_for_maintenance() {
    let mut a = EntityAllocator::new();
    let e1 = a.allocate().unwrap();
    let e2 = a.allocate().unwrap();
    assert!(a.deallocate(e1));
    assert!(a.is_live(e1));
    a.maintain();
    assert!(!a.is_live(e1));
    assert!(a.is_live(e2));
    assert!(!a.deallocate(e1));
}

#[test]
fn a_reused_slot_gets_a_new_generation() {
    let mut a = EntityAllocator::new();
    let e1 = a.allocate().unwrap();
    a.deallocate(e1);
    a.maintain();
    let e2 = a.allocate().unwrap();
    assert_eq!(e2.id, e1.id);
    assert_ne!(e2.generation, e1.generation);
    assert!(!a.is_live(e1));
    assert!(a.is_live(e2));
}

#[test]
fn a_made_up_entity_cannot_be_deleted() {
    let mut a = EntityAllocator::new();
    let e1 = a.allocate().unwrap();
    assert!(!a.deallocate(Entity { id: e1.id, generation: e1.generation + 1 }));
    assert!(!a.deallocate(Entity { id: e1.id + 1, generation: 1 }));
    a.maintain();
    assert!(a.is_live(e1));
}

#[test]
fn the_allocator_gives_up_when_its_slots_are_used_up() {
    let mut a = EntityAllocator::new();
    let mut last = None;
    for _ in 0..ecs_core::allocator::MAX_SLOTS {
        last = a.allocate();
        assert!(last.is_some());
    }
    assert_eq!(last.map(|e| e.id), Some(ecs_core::allocator::MAX_SLOTS - 1));
    assert!(a.is_exhausted());
    assert_eq!(a.allocate(), None);
    assert!(a.is_live(last.unwrap()));
    assert!(a.deallocate(last.unwrap()));
    assert!(a.is_exhausted());
    a.maintain();
    assert!(!a.is_exhausted());
    let again = a.allocate().unwrap();
    assert_eq!(again.id, last.unwrap().id);
    assert_eq!(again.generation, last.unwrap().generation + 1);
    assert_eq!(a.allocate(), None);
}
