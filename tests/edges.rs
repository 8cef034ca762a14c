use graph_cycles::Graph;
use std::collections::HashSet;

#[test]
fn new_graph_has_isolated_nodes() {
    let g = Graph::new(5);
    assert_eq!(g.size(), 5);
    assert_eq!(g.count_edges(), 0);
    assert!(g.edges().is_empty());
    for i in 0..5 {
        assert!(g.get_neighbours(i).is_empty());
    }
}

#[test]
fn empty_graph_has_no_nodes() {
    let g = Graph::new(0);
    assert_eq!(g.size(), 0);
    assert_eq!(g.count_edges(), 0);
    assert!(g.is_acyclic());
}

#[test]
fn edges_are_canonical_and_unique() {
    let mut g = Graph::new(4);
    g.add_edge(2, 0);
    g.add_edge(0, 2);
    g.add_edge(3, 1);
    g.add_edge(2, 2);
    assert_eq!(g.edges(), vec![(0, 2), (1, 3), (2, 2)]);
    assert_eq!(g.count_edges(), 3);
}

#[test]
fn adding_an_edge_twice_changes_nothing() {
    let mut g = Graph::new(3);
    g.add_edge(0, 1);
    let once = g.edges();
    g.add_edge(0, 1);
    assert_eq!(g.edges(), once);
    g.add_edge(1, 0);
    assert_eq!(g.edges(), once);
}

#[test]
fn removing_a_missing_edge_changes_nothing() {
    let mut g = Graph::new(3);
    g.add_edge(0, 1);
    g.remove_edge(1, 2);
    g.remove_edge(2, 2);
    assert_eq!(g.edges(), vec![(0, 1)]);
    g.remove_edge(1, 0);
    assert!(g.edges().is_empty());
}

#[test]
fn adjacency_is_symmetric() {
    let mut g = Graph::new(4);
    g.add_edge(0, 3);
    g.add_edge(1, 1);
    g.remove_edge(3, 0);
    g.add_edge(2, 3);
    for s in 0..4 {
        for t in 0..4 {
            assert_eq!(g.adjecent(s, t), g.adjecent(t, s));
        }
    }
    assert!(g.adjecent(3, 2));
    assert!(g.adjecent(1, 1));
    assert!(!g.adjecent(0, 3));
}

#[test]
fn neighbours_are_copied() {
    let mut g = Graph::new(4);
    g.add_edge(1, 0);
    g.add_edge(1, 3);
    let n = g.get_neighbours(1);
    let expected: HashSet<usize> = [0, 3].into_iter().collect();
    assert_eq!(n, expected);
    g.remove_edge(1, 0);
    assert_eq!(n, expected);
    assert_eq!(g.get_neighbours(1).len(), 1);
}

#[test]
fn remove_edges_isolates_node() {
    let mut g = Graph::new(5);
    g.add_edge(2, 0);
    g.add_edge(2, 1);
    g.add_edge(2, 2);
    g.add_edge(2, 4);
    g.add_edge(3, 4);
    g.remove_edges(2);
    assert!(g.get_neighbours(2).is_empty());
    for u in 0..5 {
        assert!(!g.get_neighbours(u).contains(&2));
    }
    assert_eq!(g.edges(), vec![(3, 4)]);
}
