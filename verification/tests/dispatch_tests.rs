use ecs_core::access::AccessDescriptor;
use ecs_core::dispatch::{Dispatcher, DispatcherBuilder, System, SystemView};
use ecs_core::entity::Entity;
use ecs_core::error::EcsError;
use ecs_core::world::World;

const POSITION: u64 = 1;
const VELOCITY: u64 = 2;
const NAME: u64 = 3;
const DELTA: u64 = 10;

#[derive(Clone, Debug, PartialEq)]
enum Component {
    Position(f32, f32),
    Velocity(f32, f32),
    Name(String),
}

#[derive(Default, Debug, PartialEq)]
struct DeltaTime(f32);

enum Demo {
    Print(Vec<(Entity, f32, f32, Option<String>)>),
    Update,
    Fail,
    Sneak,
    Copy { from: u64, to: u64 },
    Bump(u64),
}

fn text(e: EcsError) -> String {
    format!("{:?}", e)
}

impl System<Component, DeltaTime> for Demo {
    fn access_descriptor(&self) -> AccessDescriptor {
        match self {
            Demo::Print(_) => AccessDescriptor::new(vec![NAME, POSITION], vec![], vec![], vec![]),
            Demo::Update => AccessDescriptor::new(vec![VELOCITY], vec![POSITION], vec![DELTA], vec![]),
            Demo::Fail => AccessDescriptor::new(vec![], vec![], vec![], vec![]),
            Demo::Sneak => AccessDescriptor::new(vec![POSITION], vec![], vec![], vec![]),
            Demo::Copy { from, to } => AccessDescriptor::new(vec![*from], vec![*to], vec![], vec![]),
            Demo::Bump(t) => AccessDescriptor::new(vec![], vec![*t], vec![], vec![]),
        }
    }

    fn run(&mut self, view: &mut SystemView<'_, Component, DeltaTime>) -> Result<(), String> {
        match self {
            Demo::Print(seen) => {
                let names = view.storage(NAME).map_err(text)?;
                for (entity, position) in view.storage(POSITION).map_err(text)?.iter() {
                    let name = match names.get(entity) {
                        Some(Component::Name(n)) => Some(n.clone()),
                        _ => None,
                    };
                    if let Component::Position(x, y) = position {
                        seen.push((entity, *x, *y, name));
                    }
                }
                Ok(())
            }
            Demo::Update => {
                let delta = view.resource(DELTA).map_err(text)?.0;
                let moves: Vec<(Entity, f32, f32)> = view
                    .storage(VELOCITY)
                    .map_err(text)?
                    .iter()
                    .into_iter()
                    .filter_map(|(e, v)| match v {
                        Component::Velocity(x, y) => Some((e, *x, *y)),
                        _ => None,
                    })
                    .collect();
                let positions = view.storage_mut(POSITION).map_err(text)?;
                for (entity, vx, vy) in moves {
                    if let Some(Component::Position(x, y)) = positions.get_mut(entity) {
                        *x += vx * delta;
                        *y += vy * delta;
                    }
                }
                Ok(())
            }
            Demo::Fail => Err("out of luck".to_string()),
            Demo::Sneak => match view.storage_mut(POSITION) {
                Ok(_) => Ok(()),
                Err(e) => Err(text(e)),
            },
            Demo::Copy { from, to } => {
                let found: Vec<(Entity, Component)> = view
                    .storage(*from)
                    .map_err(text)?
                    .iter()
                    .into_iter()
                    .map(|(e, c)| (e, c.clone()))
                    .collect();
                let target = view.storage_mut(*to).map_err(text)?;
                for (e, c) in found {
                    target.insert(e, c);
                }
                Ok(())
            }
            Demo::Bump(t) => {
                let store = view.storage_mut(*t).map_err(text)?;
                let keys: Vec<Entity> = store.iter().into_iter().map(|(e, _)| e).collect();
                for e in keys {
                    if let Some(Component::Position(x, _)) = store.get_mut(e) {
                        *x += 1.0;
                    }
                }
                Ok(())
            }
        }
    }
}

fn close(a: f32, b: f32) -> bool {
    (a - b).abs() < 1e-5
}

fn demo_world() -> (World<Component, DeltaTime>, Entity, Entity) {
    let mut world: World<Component, DeltaTime> = World::new();
    world.register(POSITION);
    world.register(VELOCITY);
    world.register(NAME);
    world.add_resource(DELTA, DeltaTime(0.5));
    let e1 = world
        .create_entity()
        .unwrap()
        .with(POSITION, Component::Position(4.0, 7.0))
        .build(&mut world)
        .unwrap();
    let e2 = world
        .create_entity()
        .unwrap()
        .with(NAME, Component::Name("entity 2".to_string()))
        .with(POSITION, Component::Position(2.0, 5.0))
        .with(VELOCITY, Component::Velocity(0.1, 0.2))
        .build(&mut world)
        .unwrap();
    (world, e1, e2)
}

fn demo_dispatcher() -> Dispatcher<Demo> {
    let mut builder = DispatcherBuilder::new();
    builder.add(Demo::Print(vec![]), "hello_world".to_string(), vec![]).unwrap();
    builder.add(Demo::Update, "update_pos".to_string(), vec!["hello_world".to_string()]).unwrap();
    builder.add(Demo::Print(vec![]), "hello_updated".to_string(), vec!["update_pos".to_string()]).unwrap();
    builder.build().unwrap()
}

fn position(world: &World<Component, DeltaTime>, e: Entity) -> (f32, f32) {
    match world.storage(POSITION).unwrap().get(e) {
        Some(Component::Position(x, y)) => (*x, *y),
        other => panic!("no position: {:?}", other),
    }
}

#[test]
fn one_tick_of_the_demo() {
    let (mut world, e1, e2) = demo_world();
    let mut dispatcher = demo_dispatcher();
    assert_eq!(dispatcher.execution_plan().batch_count(), 3);
    assert_eq!(dispatcher.dispatch(&mut world), Ok(()));
    assert_eq!(world.maintain(), vec![]);
    let (x, y) = position(&world, e2);
    assert!(close(x, 2.05) && close(y, 5.1));
    assert_eq!(position(&world, e1), (4.0, 7.0));
    match dispatcher.system(0) {
        Some(Demo::Print(seen)) => {
            assert_eq!(seen.len(), 2);
            assert_eq!(seen[0], (e1, 4.0, 7.0, None));
            assert_eq!(seen[1], (e2, 2.0, 5.0, Some("entity 2".to_string())));
        }
        _ => panic!("system 0 prints"),
    }
    match dispatcher.system(2) {
        Some(Demo::Print(seen)) => {
            assert_eq!(seen.len(), 2);
            assert_eq!(seen[0], (e1, 4.0, 7.0, None));
            assert!(close(seen[1].1, 2.05) && close(seen[1].2, 5.1));
        }
        _ => panic!("system 2 prints"),
    }
    assert!(dispatcher.system(3).is_none());
}

#[test]
fn a_later_batch_reads_what_an_earlier_batch_wrote() {
    let (mut world, e1, _) = demo_world();
    let mut builder = DispatcherBuilder::new();
    builder.add(Demo::Copy { from: POSITION, to: NAME }, "reader".to_string(), vec!["writer".to_string()]).unwrap();
    builder.add(Demo::Bump(POSITION), "writer".to_string(), vec![]).unwrap();
    let mut dispatcher = builder.build().unwrap();
    assert_eq!(dispatcher.execution_plan().batch(0), Some(&vec![1]));
    assert_eq!(dispatcher.execution_plan().batch(1), Some(&vec![0]));
    assert_eq!(dispatcher.dispatch(&mut world), Ok(()));
    assert_eq!(world.storage(NAME).unwrap().get(e1), Some(&Component::Position(5.0, 7.0)));
}

#[test]
fn a_failure_ends_the_tick_and_keeps_what_was_done() {
    let (mut world, e1, _) = demo_world();
    let mut builder = DispatcherBuilder::new();
    builder.add(Demo::Bump(POSITION), "first".to_string(), vec![]).unwrap();
    builder.add(Demo::Fail, "second".to_string(), vec!["first".to_string()]).unwrap();
    builder.add(Demo::Bump(POSITION), "third".to_string(), vec!["second".to_string()]).unwrap();
    let mut dispatcher = builder.build().unwrap();
    assert_eq!(
        dispatcher.dispatch(&mut world),
        Err(EcsError::SystemFailure {
            system: "second".to_string(),
            batch: 1,
            completed: 1,
            reason: "out of luck".to_string(),
        })
    );
    assert_eq!(position(&world, e1), (5.0, 7.0));
}

#[test]
fn a_view_refuses_what_was_not_declared() {
    let (mut world, e1, _) = demo_world();
    let mut builder = DispatcherBuilder::new();
    builder.add(Demo::Sneak, "sneak".to_string(), vec![]).unwrap();
    let mut dispatcher = builder.build().unwrap();
    match dispatcher.dispatch(&mut world) {
        Err(EcsError::SystemFailure { system, batch, completed, reason }) => {
            assert_eq!((system.as_str(), batch, completed), ("sneak", 0, 0));
            assert_eq!(reason, text(EcsError::UndeclaredAccess { type_id: POSITION }));
        }
        other => panic!("expected a failure, got {:?}", other),
    }
    assert_eq!(position(&world, e1), (4.0, 7.0));
}

#[test]
fn independent_systems_give_the_same_world_in_either_order() {
    let run = |first: (u64, &str), second: (u64, &str)| {
        let (mut world, e1, e2) = demo_world();
        world.storage_mut(VELOCITY).unwrap().insert(e1, Component::Position(0.0, 0.0));
        let mut builder = DispatcherBuilder::new();
        builder.add(Demo::Bump(first.0), first.1.to_string(), vec![]).unwrap();
        builder.add(Demo::Bump(second.0), second.1.to_string(), vec![]).unwrap();
        let mut dispatcher = builder.build().unwrap();
        assert_eq!(dispatcher.execution_plan().batch_count(), 1);
        assert_eq!(dispatcher.dispatch(&mut world), Ok(()));
        (position(&world, e1), position(&world, e2), world.storage(VELOCITY).unwrap().get(e1).cloned())
    };
    let one = run((POSITION, "p"), (VELOCITY, "v"));
    let other = run((VELOCITY, "v"), (POSITION, "p"));
    assert_eq!(one, other);
    assert_eq!(one.0, (5.0, 7.0));
    assert_eq!(one.2, Some(Component::Position(1.0, 0.0)));
}

#[test]
fn requests_made_in_a_tick_wait_for_maintenance() {
    struct Reaper(Entity);
    impl System<Component, DeltaTime> for Reaper {
        fn access_descriptor(&self) -> AccessDescriptor {
            AccessDescriptor::new(vec![], vec![], vec![], vec![])
        }
        fn run(&mut self, view: &mut SystemView<'_, Component, DeltaTime>) -> Result<(), String> {
            view.delete_entity(self.0);
            view.create_entity(vec![(POSITION, Component::Position(9.0, 9.0))]).map_err(text)
        }
    }
    let (mut world, e1, e2) = demo_world();
    let mut builder = DispatcherBuilder::new();
    builder.add(Reaper(e1), "reaper".to_string(), vec![]).unwrap();
    let mut dispatcher = builder.build().unwrap();
    assert_eq!(dispatcher.dispatch(&mut world), Ok(()));
    assert!(world.is_live(e1));
    assert_eq!(world.storage(POSITION).unwrap().len(), 2);
    let made = world.maintain();
    assert_eq!(made.len(), 1);
    assert!(!world.is_live(e1));
    assert!(world.is_live(e2));
    assert_eq!(position(&world, made[0]), (9.0, 9.0));
    assert_eq!(world.storage(POSITION).unwrap().get(e1), None);
}

#[test]
fn the_builder_reports_what_the_graph_reports() {
    let mut builder = DispatcherBuilder::new();
    builder.add(Demo::Update, "a".to_string(), vec!["b".to_string()]).unwrap();
    assert_eq!(
        builder.add(Demo::Fail, "a".to_string(), vec![]),
        Err(EcsError::DuplicateSystem { system: "a".to_string() })
    );
    assert_eq!(
        builder.add(Demo::Copy { from: 1, to: 1 }, "c".to_string(), vec![]),
        Err(EcsError::AmbiguousAccess { system: "c".to_string(), type_id: 1 })
    );
    assert_eq!(
        builder.build().map(|_| ()),
        Err(EcsError::UnknownSystem { system: "a".to_string(), dependency: "b".to_string() })
    );
}

#[test]
fn setup_registers_what_the_systems_declare() {
    let mut world: World<Component, DeltaTime> = World::new();
    world.register(POSITION);
    world.storage_mut(POSITION).unwrap().insert(Entity { id: 0, generation: 1 }, Component::Position(1.0, 2.0));
    let dispatcher = demo_dispatcher();
    assert!(world.storage(VELOCITY).is_err());
    dispatcher.setup(&mut world);
    assert_eq!(world.storage(POSITION).unwrap().len(), 1);
    assert!(world.storage(VELOCITY).unwrap().is_empty());
    assert!(world.storage(NAME).unwrap().is_empty());
    assert!(world.storage(77).is_err());
    assert_eq!(world.data().resource_ref(DELTA), Ok(&DeltaTime(0.0)));
    world.add_resource(DELTA, DeltaTime(0.25));
    dispatcher.setup(&mut world);
    assert_eq!(world.data().resource_ref(DELTA), Ok(&DeltaTime(0.25)));
}

#[test]
fn the_update_is_the_same_beside_an_independent_system() {
    const OTHER: u64 = 4;
    let run = |systems: Vec<(Demo, &str)>| {
        let (mut world, e1, e2) = demo_world();
        world.register(OTHER);
        world.storage_mut(OTHER).unwrap().insert(e1, Component::Position(10.0, 0.0));
        let mut builder = DispatcherBuilder::new();
        for (system, name) in systems {
            builder.add(system, name.to_string(), vec![]).unwrap();
        }
        let mut dispatcher = builder.build().unwrap();
        assert_eq!(dispatcher.execution_plan().batch_count(), 1);
        assert_eq!(dispatcher.dispatch(&mut world), Ok(()));
        (
            position(&world, e1),
            position(&world, e2),
            world.storage(OTHER).unwrap().get(e1).cloned(),
            world.storage(VELOCITY).unwrap().get(e2).cloned(),
        )
    };
    let alone = run(vec![(Demo::Update, "update_pos")]);
    let first = run(vec![(Demo::Update, "update_pos"), (Demo::Bump(OTHER), "other")]);
    let second = run(vec![(Demo::Bump(OTHER), "other"), (Demo::Update, "update_pos")]);
    assert_eq!(first, second);
    assert_eq!((first.0, first.1), (alone.0, alone.1));
    assert_eq!(first.0, (4.0, 7.0));
    assert!(close((first.1).0, 2.0 + 0.1 * 0.5) && close((first.1).1, 5.0 + 0.2 * 0.5));
    assert_eq!(first.2, Some(Component::Position(11.0, 0.0)));
    assert_eq!(alone.2, Some(Component::Position(10.0, 0.0)));
    assert_eq!(first.3, Some(Component::Velocity(0.1, 0.2)));
}
