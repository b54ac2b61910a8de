use ecs_core::access::AccessDescriptor;
use ecs_core::error::EcsError;
use ecs_core::schedule::DependencyGraph;

fn writes(t: u64) -> AccessDescriptor {
    AccessDescriptor::new(vec![], vec![t], vec![], vec![])
}

fn reads(t: u64) -> AccessDescriptor {
    AccessDescriptor::new(vec![t], vec![], vec![], vec![])
}

fn nothing() -> AccessDescriptor {
    AccessDescriptor::new(vec![], vec![], vec![], vec![])
}

fn names(list: &[&str]) -> Vec<String> {
    list.iter().map(|s| s.to_string()).collect()
}

fn batches(g: &DependencyGraph) -> Vec<Vec<usize>> {
    let plan = g.build().expect("the plan compiles");
    (0..plan.batch_count()).map(|k| plan.batch(k).unwrap().clone()).collect()
}

#[test]
fn overlapping_writers_go_to_different_batches_in_declaration_order() {
    let mut g = DependencyGraph::new();
    assert_eq!(g.add_system("a".to_string(), writes(1), vec![]), Ok(0));
    assert_eq!(g.add_system("b".to_string(), writes(1), vec![]), Ok(1));
    assert_eq!(batches(&g), vec![vec![0], vec![1]]);
}

#[test]
fn an_explicit_order_overrides_declaration_order() {
    let mut g = DependencyGraph::new();
    g.add_system("a".to_string(), writes(1), names(&["b"])).unwrap();
    g.add_system("b".to_string(), writes(1), vec![]).unwrap();
    assert_eq!(batches(&g), vec![vec![1], vec![0]]);
}

#[test]
fn independent_systems_share_a_batch() {
    let mut g = DependencyGraph::new();
    g.add_system("a".to_string(), writes(1), vec![]).unwrap();
    g.add_system("b".to_string(), writes(2), vec![]).unwrap();
    g.add_system("c".to_string(), reads(3), vec![]).unwrap();
    g.add_system("d".to_string(), reads(1), vec![]).unwrap();
    assert_eq!(batches(&g), vec![vec![0, 1, 2], vec![3]]);
}

#[test]
fn a_chain_has_as_many_batches_as_systems() {
    let mut g = DependencyGraph::new();
    g.add_system("hello_world".to_string(), reads(1), vec![]).unwrap();
    g.add_system("update_pos".to_string(), writes(1), names(&["hello_world"])).unwrap();
    g.add_system("hello_updated".to_string(), reads(1), names(&["update_pos"])).unwrap();
    let plan = g.build().unwrap();
    assert_eq!(plan.batch_count(), 3);
    assert_eq!(plan.system_count(), 3);
    assert_eq!(plan.batch(0), Some(&vec![0]));
    assert_eq!(plan.batch(1), Some(&vec![1]));
    assert_eq!(plan.batch(2), Some(&vec![2]));
    assert_eq!(plan.batch(3), None);
}

#[test]
fn an_empty_graph_compiles_to_an_empty_plan() {
    let g = DependencyGraph::new();
    assert_eq!(g.len(), 0);
    assert_eq!(g.build().unwrap().batch_count(), 0);
}

#[test]
fn a_cycle_fails_and_names_both_systems() {
    let mut g = DependencyGraph::new();
    g.add_system("a".to_string(), nothing(), names(&["b"])).unwrap();
    g.add_system("b".to_string(), nothing(), names(&["a"])).unwrap();
    g.add_system("c".to_string(), nothing(), names(&["a"])).unwrap();
    match g.build() {
        Err(EcsError::CyclicDependency { systems }) => assert_eq!(systems, names(&["a", "b"])),
        other => panic!("expected a cyclic dependency, got {:?}", other.map(|_| ())),
    }
}

#[test]
fn a_system_after_itself_is_a_cycle() {
    let mut g = DependencyGraph::new();
    g.add_system("a".to_string(), nothing(), names(&["a"])).unwrap();
    match g.build() {
        Err(EcsError::CyclicDependency { systems }) => assert_eq!(systems, names(&["a"])),
        other => panic!("expected a cyclic dependency, got {:?}", other.map(|_| ())),
    }
}

#[test]
fn declaration_order_against_an_explicit_order_can_close_a_cycle() {
    let mut g = DependencyGraph::new();
    g.add_system("a".to_string(), writes(1), names(&["c"])).unwrap();
    g.add_system("b".to_string(), writes(1), vec![]).unwrap();
    g.add_system("c".to_string(), writes(1), names(&["b"])).unwrap();
    match g.build() {
        Err(EcsError::CyclicDependency { systems }) => assert_eq!(systems, names(&["a", "b", "c"])),
        other => panic!("expected a cyclic dependency, got {:?}", other.map(|_| ())),
    }
}

#[test]
fn explicit_and_implicit_order_combine() {
    let mut h = DependencyGraph::new();
    h.add_system("a".to_string(), writes(1), names(&["c"])).unwrap();
    h.add_system("b".to_string(), writes(1), vec![]).unwrap();
    h.add_system("c".to_string(), writes(2), vec![]).unwrap();
    h.add_system("d".to_string(), AccessDescriptor::new(vec![1], vec![2], vec![], vec![]), names(&["a"])).unwrap();
    assert_eq!(batches(&h), vec![vec![2], vec![0], vec![1], vec![3]]);
}

#[test]
fn systems_behind_a_cycle_are_not_named() {
    let mut g = DependencyGraph::new();
    g.add_system("a".to_string(), nothing(), names(&["b"])).unwrap();
    g.add_system("b".to_string(), nothing(), names(&["a"])).unwrap();
    g.add_system("c".to_string(), nothing(), names(&["b"])).unwrap();
    g.add_system("d".to_string(), nothing(), names(&["c", "e"])).unwrap();
    g.add_system("e".to_string(), nothing(), names(&["d"])).unwrap();
    match g.build() {
        Err(EcsError::CyclicDependency { systems }) => assert_eq!(systems, names(&["a", "b", "d", "e"])),
        other => panic!("expected a cyclic dependency, got {:?}", other.map(|_| ())),
    }
}

#[test]
fn an_unknown_predecessor_is_reported() {
    let mut g = DependencyGraph::new();
    g.add_system("a".to_string(), nothing(), vec![]).unwrap();
    g.add_system("b".to_string(), nothing(), names(&["a", "zed", "yak"])).unwrap();
    assert_eq!(
        g.build().map(|_| ()),
        Err(EcsError::UnknownSystem { system: "b".to_string(), dependency: "zed".to_string() })
    );
}

#[test]
fn an_ambiguous_descriptor_is_refused_at_registration() {
    let mut g = DependencyGraph::new();
    let both = AccessDescriptor::new(vec![4], vec![4], vec![], vec![]);
    assert_eq!(
        g.add_system("a".to_string(), both, vec![]),
        Err(EcsError::AmbiguousAccess { system: "a".to_string(), type_id: 4 })
    );
    assert_eq!(g.len(), 0);
}

#[test]
fn a_taken_name_is_refused() {
    let mut g = DependencyGraph::new();
    g.add_system("a".to_string(), nothing(), vec![]).unwrap();
    assert_eq!(
        g.add_system("a".to_string(), nothing(), vec![]),
        Err(EcsError::DuplicateSystem { system: "a".to_string() })
    );
    assert_eq!(g.len(), 1);
    assert_eq!(g.find(&"a".to_string()), Some(0));
    assert_eq!(g.find(&"b".to_string()), None);
    assert_eq!(g.entry(0).map(|e| e.name.clone()), Some("a".to_string()));
    assert!(g.entry(1).is_none());
}

#[test]
fn the_plan_is_the_same_every_time() {
    let mut g = DependencyGraph::new();
    for (i, n) in ["s0", "s1", "s2", "s3", "s4", "s5"].iter().enumerate() {
        let access = if i % 2 == 0 { writes((i % 3) as u64) } else { reads((i % 3) as u64) };
        g.add_system(n.to_string(), access, vec![]).unwrap();
    }
    let first = batches(&g);
    for _ in 0..5 {
        assert_eq!(batches(&g), first);
    }
    assert_eq!(first, vec![vec![0, 1, 2], vec![3, 4, 5]]);
}

#[test]
fn the_declared_types_are_collected() {
    let mut g = DependencyGraph::new();
    g.add_system("a".to_string(), AccessDescriptor::new(vec![1], vec![2], vec![7], vec![]), vec![]).unwrap();
    g.add_system("b".to_string(), AccessDescriptor::new(vec![2], vec![3], vec![], vec![8]), vec![]).unwrap();
    let (components, resources) = g.declared_types();
    assert_eq!(components, vec![1, 2, 2, 3]);
    assert_eq!(resources, vec![7, 8]);
    assert_eq!(DependencyGraph::new().declared_types(), (vec![], vec![]));
}
