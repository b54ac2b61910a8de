use ecs_core::entity::Entity;
use ecs_core::store::ComponentStore;

fn e(id: u32) -> Entity {
    Entity { id, generation: 1 }
}

#[test]
fn insert_then_get_returns_the_value() {
    let mut s: ComponentStore<i64> = ComponentStore::new();
    assert_eq!(s.insert(e(3), 42), None);
    assert_eq!(s.get(e(3)), Some(&42));
    assert!(s.contains(e(3)));
    assert_eq!(s.len(), 1);
}

#[test]
fn remove_then_get_returns_nothing() {
    let mut s: ComponentStore<i64> = ComponentStore::new();
    s.insert(e(3), 42);
    assert_eq!(s.remove(e(3)), Some(42));
    assert_eq!(s.get(e(3)), None);
    assert_eq!(s.remove(e(3)), None);
    assert!(s.is_empty());
}

#[test]
fn second_insert_returns_the_first_value() {
    let mut s: ComponentStore<i64> = ComponentStore::new();
    assert_eq!(s.insert(e(1), 10), None);
    assert_eq!(s.insert(e(1), 20), Some(10));
    assert_eq!(s.get(e(1)), Some(&20));
    assert_eq!(s.len(), 1);
}

#[test]
fn a_stale_generation_is_another_entity() {
    let mut s: ComponentStore<i64> = ComponentStore::new();
    s.insert(Entity { id: 5, generation: 1 }, 7);
    assert_eq!(s.get(Entity { id: 5, generation: 2 }), None);
    assert_eq!(s.get(Entity { id: 5, generation: 1 }), Some(&7));
}

#[test]
fn iteration_follows_insertion_order_and_removal_keeps_it() {
    let mut s: ComponentStore<&'static str> = ComponentStore::new();
    s.insert(e(9), "nine");
    s.insert(e(2), "two");
    s.insert(e(5), "five");
    s.insert(e(2), "deux");
    let seen: Vec<(Entity, &str)> = s.iter().into_iter().map(|(k, v)| (k, *v)).collect();
    assert_eq!(seen, vec![(e(9), "nine"), (e(2), "deux"), (e(5), "five")]);
    s.remove(e(9));
    let seen: Vec<(Entity, &str)> = s.iter().into_iter().map(|(k, v)| (k, *v)).collect();
    assert_eq!(seen, vec![(e(2), "deux"), (e(5), "five")]);
    assert_eq!(s.entry(1), Some((e(5), &"five")));
    assert_eq!(s.entry(2), None);
    assert_eq!(s.iter().len(), 2);
}

#[test]
fn get_mut_writes_through() {
    let mut s: ComponentStore<i64> = ComponentStore::new();
    s.insert(e(1), 10);
    s.insert(e(2), 20);
    match s.get_mut(e(2)) {
        Some(v) => *v += 5,
        None => panic!("entity 2 holds a value"),
    }
    assert_eq!(s.get(e(2)), Some(&25));
    assert_eq!(s.get(e(1)), Some(&10));
    assert!(s.get_mut(e(3)).is_none());
}
