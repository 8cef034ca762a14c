use graph_cycles::Graph;

#[test]
fn loop_is_cyclic() {
    let mut g = Graph::new(1);
    assert!(!g.is_cyclic());
    g.add_edge(0, 0);
    assert!(g.is_cyclic());
}

#[test]
fn three_cycle_is_cyclic() {
    let mut g = Graph::new(3);
    g.add_edge(0, 1);
    g.add_edge(1, 2);
    assert!(!g.is_cyclic());
    g.add_edge(2, 0);
    assert!(g.is_cyclic());
}

#[test]
fn four_cycle_is_cyclic() {
    let mut g = Graph::new(4);
    g.add_edge(0, 1);
    g.add_edge(1, 2);
    g.add_edge(2, 3);
    assert!(!g.is_cyclic());
    g.add_edge(3, 0);
    assert!(g.is_cyclic());
}

#[test]
fn tree_not_cycle() {
    let mut g = Graph::new(4);
    g.add_edge(0, 1);
    g.add_edge(0, 2);
    g.add_edge(0, 3);
    assert!(!g.is_cyclic());
}

#[test]
fn double_cycle_is_cyclic() {
    let mut g = Graph::new(4);
    g.add_edge(0, 1);
    g.add_edge(1, 2);
    g.add_edge(2, 3);
    g.add_edge(3, 0);
    g.add_edge(1, 3);
}

#[test]
fn no_edges_is_acyclic() {
    for n in 0..1000 {
        let g = Graph::new(n);
        assert!(g.is_acyclic());
    }
}

#[test]
fn cycle_is_cyclic() {
    for n in 3..100 {
        let mut g = Graph::new(n);
        for m in 0..(n - 1) {
            g.add_edge(m, m + 1);
        }
        assert!(g.is_acyclic());
        g.add_edge(n - 1, 0);
        assert!(g.is_cyclic());
    }
}

#[test]
fn forest_is_acyclic() {
    let mut g = Graph::new(10 * 5);
    for n in 0..10 {
        let m = n * 5;
        g.add_edge(m, m + 1);
        g.add_edge(m + 1, m + 2);
        g.add_edge(m + 2, m + 3);
        g.add_edge(m + 3, m + 4);
    }
    assert!(g.is_acyclic());
}

#[test]
fn double_cycle_reports_cycle() {
    let mut g = Graph::new(4);
    g.add_edge(0, 1);
    g.add_edge(1, 2);
    g.add_edge(2, 3);
    g.add_edge(3, 0);
    g.add_edge(1, 3);
    assert!(g.is_cyclic());
    assert!(!g.is_acyclic());
}

#[test]
fn self_loop_on_larger_graph_is_cyclic() {
    let mut g = Graph::new(6);
    g.add_edge(0, 1);
    g.add_edge(4, 5);
    assert!(g.is_acyclic());
    g.add_edge(3, 3);
    assert!(g.is_cyclic());
}

#[test]
fn cycle_check_leaves_graph_unchanged() {
    let mut g = Graph::new(3);
    g.add_edge(0, 1);
    g.add_edge(1, 2);
    g.add_edge(2, 0);
    let before = g.edges();
    assert!(g.is_cyclic());
    assert_eq!(g.edges(), before);
    assert_eq!(g.count_edges(), 3);
}

#[test]
fn cycle_in_second_component_is_found() {
    let mut g = Graph::new(7);
    g.add_edge(0, 1);
    g.add_edge(1, 2);
    g.add_edge(3, 4);
    g.add_edge(4, 5);
    g.add_edge(5, 6);
    assert!(g.is_acyclic());
    g.add_edge(6, 4);
    assert!(g.is_cyclic());
}
