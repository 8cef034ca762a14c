use graph_cycles::{make_spanning_tree, spanning_forest_in_order, Graph};

fn is_subset(small: &Graph, big: &Graph) -> bool {
    let all = big.edges();
    small.edges().iter().all(|e| all.contains(e))
}

#[test]
fn spanning_tree_of_complete_graph() {
    let mut g = Graph::new(6);
    for s in 0..6 {
        for t in (s + 1)..6 {
            g.add_edge(s, t);
        }
    }
    let t = make_spanning_tree(g.clone());
    assert_eq!(t.size(), 6);
    assert_eq!(t.count_edges(), 5);
    assert!(t.is_acyclic());
    assert!(is_subset(&t, &g));
}

#[test]
fn spanning_forest_of_disconnected_graph() {
    let mut g = Graph::new(7);
    g.add_edge(0, 1);
    g.add_edge(1, 2);
    g.add_edge(2, 0);
    g.add_edge(3, 4);
    g.add_edge(4, 5);
    g.add_edge(5, 3);
    g.add_edge(5, 5);
    let t = make_spanning_tree(g.clone());
    assert_eq!(t.size(), 7);
    assert_eq!(t.count_edges(), 7 - 3);
    assert!(t.is_acyclic());
    assert!(is_subset(&t, &g));
}

#[test]
fn spanning_tree_of_tiny_graphs() {
    let t = make_spanning_tree(Graph::new(0));
    assert_eq!(t.size(), 0);
    let mut g = Graph::new(1);
    g.add_edge(0, 0);
    let t = make_spanning_tree(g);
    assert_eq!(t.size(), 1);
    assert_eq!(t.count_edges(), 0);
}

#[test]
fn forest_in_given_order_rejects_closing_edges() {
    let order = vec![(0, 1), (1, 2), (0, 2), (2, 3), (3, 3), (1, 3)];
    let t = spanning_forest_in_order(4, &order);
    assert_eq!(t.edges(), vec![(0, 1), (1, 2), (2, 3)]);
    assert!(t.is_acyclic());
}

#[test]
fn forest_in_given_order_keeps_repeated_pair_once() {
    let order = vec![(1, 0), (0, 1), (1, 0)];
    let t = spanning_forest_in_order(2, &order);
    assert_eq!(t.edges(), vec![(0, 1)]);
}

#[test]
fn spanning_tree_depends_on_edge_order() {
    let mut g = Graph::new(5);
    for s in 0..5 {
        for t in (s + 1)..5 {
            g.add_edge(s, t);
        }
    }
    let first = make_spanning_tree(g.clone()).edges();
    let mut differs = false;
    for _ in 0..200 {
        let t = make_spanning_tree(g.clone());
        assert_eq!(t.count_edges(), 4);
        if t.edges() != first {
            differs = true;
        }
    }
    assert!(differs);
}

#[test]
fn spanning_forest_of_path_is_the_path() {
    let mut g = Graph::new(5);
    for m in 0..4 {
        g.add_edge(m, m + 1);
    }
    let t = make_spanning_tree(g.clone());
    assert_eq!(t.edges(), g.edges());
}
