//! Facts about the graph operations that relate more than one call.

use vstd::prelude::*;
use crate::model::{
    adj, adjacency_wf, edge_set, has_cycle, has_self_loop, is_simple_cycle, next_index, with_edge,
    without_edge,
};
use crate::search::{lemma_tree_has_no_cycle, tree_edge};

verus! {

/// Adjacency is symmetric in every well-formed graph, and every operation that
/// changes a graph keeps it well-formed: `adjecent(s, t) == adjecent(t, s)`.
pub proof fn lemma_adjacency_symmetric(a: Seq<Set<usize>>, s: usize, t: usize)
    requires
        adjacency_wf(a),
        s < a.len(),
        t < a.len(),
    ensures
        adj(a, s, t) == adj(a, t, s),
{
}

/// Adding an edge a second time changes nothing, so neither do the edges.
pub proof fn lemma_add_edge_twice(a: Seq<Set<usize>>, s: usize, t: usize)
    requires
        s < a.len(),
        t < a.len(),
    ensures
        with_edge(with_edge(a, s, t), s, t) == with_edge(a, s, t),
        edge_set(with_edge(with_edge(a, s, t), s, t)) == edge_set(with_edge(a, s, t)),
{
    let b = with_edge(a, s, t);
    let c = with_edge(b, s, t);
    assert forall|u: int| 0 <= u < a.len() implies #[trigger] c[u] =~= b[u] by {}
    assert(c =~= b);
}

/// Removing an edge that is not there changes nothing.
pub proof fn lemma_remove_missing_edge(a: Seq<Set<usize>>, s: usize, t: usize)
    requires
        adjacency_wf(a),
        s < a.len(),
        t < a.len(),
        !adj(a, s, t),
    ensures
        without_edge(a, s, t) == a,
{
    let b = without_edge(a, s, t);
    assert forall|u: int| 0 <= u < a.len() implies #[trigger] b[u] =~= a[u] by {
        assert(!a[t as int].contains(s));
    }
    assert(b =~= a);
}

/// A self-loop, once added, makes the graph cyclic.
pub proof fn lemma_self_loop_is_cycle(a: Seq<Set<usize>>, i: usize)
    requires
        i < a.len(),
    ensures
        has_self_loop(with_edge(a, i, i)),
        has_cycle(with_edge(a, i, i)),
{
    assert(adj(with_edge(a, i, i), i, i));
}

/// A graph whose every edge joins some node `i` to `i + 1` has no cycle: a
/// path, or any number of separate paths over consecutive nodes.
pub proof fn lemma_consecutive_edges_acyclic(a: Seq<Set<usize>>)
    requires
        adjacency_wf(a),
        forall|s: usize, t: usize| #[trigger] adj(a, s, t) ==> t == s + 1 || s == t + 1,
    ensures
        !has_cycle(a),
{
    let rank = Seq::new(a.len(), |i: int| i as nat);
    let parent = Seq::new(a.len(), |i: int| (i - 1) as usize);
    assert forall|u: usize, w: usize| #[trigger] adj(a, u, w) implies tree_edge(rank, parent, u, w) by {
        assert(w < a.len());
    }
    if has_self_loop(a) {
        let u = choose|u: usize| #[trigger] adj(a, u, u);
    }
    if exists|c: Seq<usize>| is_simple_cycle(a, c) {
        let c = choose|c: Seq<usize>| is_simple_cycle(a, c);
        lemma_tree_has_no_cycle(a, rank, parent, c);
    }
}

/// The path `0, 1, ..., n - 1` on `n >= 3` nodes has no cycle, and adding the
/// edge from its last node back to `0` closes one.
pub proof fn lemma_path_closes_to_cycle(a: Seq<Set<usize>>)
    requires
        adjacency_wf(a),
        3 <= a.len() <= usize::MAX,
        forall|s: usize, t: usize| #[trigger] adj(a, s, t) <==> (s < a.len() && t < a.len() && (t == s + 1 || s == t + 1)),
    ensures
        !has_cycle(a),
        has_cycle(with_edge(a, (a.len() - 1) as usize, 0)),
{
    lemma_consecutive_edges_acyclic(a);
    let n = a.len();
    let b = with_edge(a, (n - 1) as usize, 0);
    let c = Seq::new(n, |i: int| i as usize);
    assert forall|i: int| 0 <= i < c.len() implies #[trigger] adj(b, c[i], c[next_index(c, i)]) by {
        if i + 1 < n {
            assert(adj(a, i as usize, (i + 1) as usize));
        } else {
            assert(c[i] == (n - 1) as usize);
            assert(c[next_index(c, i)] == 0);
        }
    }
    assert forall|i: int, j: int| 0 <= i < j < c.len() implies c[i] != c[j] by {}
    assert(is_simple_cycle(b, c));
}

} // verus!
