use ecs_core::graph::Digraph;

#[test]
fn chain_is_layered_one_by_one() {
    let mut g = Digraph::new(3);
    assert!(g.link(0, 1));
    assert!(g.link(1, 2));
    assert_eq!(g.layers(), Some(vec![vec![0], vec![1], vec![2]]));
    assert_eq!(g.cycle_members(), Vec::<usize>::new());
}

#[test]
fn two_cycle_has_no_layers() {
    let mut g = Digraph::new(3);
    assert!(g.link(0, 1));
    assert!(g.link(1, 0));
    assert!(g.link(1, 2));
    assert_eq!(g.layers(), None);
    assert_eq!(g.cycle_members(), vec![0, 1]);
    assert_eq!(g.reachable_from(0), vec![true, true, true]);
    assert_eq!(g.reachable_from(2), vec![false, false, false]);
}

#[test]
fn edges_are_kept_and_nodes_out_of_range_refused() {
    let mut g = Digraph::new(2);
    assert_eq!(g.len(), 2);
    assert!(!g.has_link(0, 1));
    assert!(g.link(0, 1));
    assert!(g.has_link(0, 1));
    assert!(!g.has_link(1, 0));
    assert!(!g.link(0, 2));
    assert!(!g.has_link(0, 2));
    assert_eq!(g.layers(), Some(vec![vec![0], vec![1]]));
}

#[test]
fn a_diamond_has_three_layers() {
    let mut g = Digraph::new(4);
    g.link(3, 1);
    g.link(3, 2);
    g.link(1, 0);
    g.link(2, 0);
    assert_eq!(g.layers(), Some(vec![vec![3], vec![1, 2], vec![0]]));
    assert_eq!(g.reachable_from(3), vec![true, true, true, false]);
    assert_eq!(g.reachable_from(7), vec![false, false, false, false]);
}

#[test]
fn a_graph_without_nodes_has_no_layers_to_list() {
    let g = Digraph::new(0);
    assert_eq!(g.layers(), Some(vec![]));
    assert_eq!(g.cycle_members(), Vec::<usize>::new());
}
