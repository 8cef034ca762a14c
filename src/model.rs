//! The mathematical model of a graph: the neighbour set of each node, and
//! what it means for such a graph to have edges and cycles.

use vstd::prelude::*;

verus! {

/// Every neighbour is a node, and adjacency is symmetric.
pub open spec fn adjacency_wf(a: Seq<Set<usize>>) -> bool {
    forall|s: usize, t: usize|
        s < a.len() && #[trigger] a[s as int].contains(t) ==> t < a.len() && a[t as int].contains(s)
}

/// `t` is a neighbour of `s`.
pub open spec fn adj(a: Seq<Set<usize>>, s: usize, t: usize) -> bool {
    s < a.len() && a[s as int].contains(t)
}

/// The neighbour sets after the undirected edge `{s, t}` is added.
pub open spec fn with_edge(a: Seq<Set<usize>>, s: usize, t: usize) -> Seq<Set<usize>> {
    let a1 = a.update(s as int, a[s as int].insert(t));
    a1.update(t as int, a1[t as int].insert(s))
}

/// The neighbour sets after the undirected edge `{s, t}` is removed.
pub open spec fn without_edge(a: Seq<Set<usize>>, s: usize, t: usize) -> Seq<Set<usize>> {
    let a1 = a.update(s as int, a[s as int].remove(t));
    a1.update(t as int, a1[t as int].remove(s))
}

/// The neighbour sets after every edge at node `n` is removed.
pub open spec fn isolated(a: Seq<Set<usize>>, n: usize) -> Seq<Set<usize>> {
    Seq::new(a.len(), |u: int| if u == n { Set::empty() } else { a[u].remove(n) })
}

/// The edges in canonical form `(min, max)`.
pub open spec fn edge_set(a: Seq<Set<usize>>) -> Set<(usize, usize)> {
    Set::new(|e: (usize, usize)| e.0 <= e.1 && adj(a, e.0, e.1))
}

/// No node has a neighbour.
pub open spec fn no_edges(a: Seq<Set<usize>>) -> bool {
    forall|s: int| 0 <= s < a.len() ==> #[trigger] a[s] == Set::<usize>::empty()
}

/// Some node is its own neighbour.
pub open spec fn has_self_loop(a: Seq<Set<usize>>) -> bool {
    exists|s: usize| #[trigger] adj(a, s, s)
}

/// Removing an edge that was just added, where it was not there before,
/// gives back the graph as it was.
pub proof fn lemma_remove_after_add(a: Seq<Set<usize>>, s: usize, t: usize)
    requires
        adjacency_wf(a),
        s < a.len(),
        t < a.len(),
        !adj(a, s, t),
    ensures
        without_edge(with_edge(a, s, t), s, t) == a,
{
    let b = without_edge(with_edge(a, s, t), s, t);
    assert forall|u: int| 0 <= u < a.len() implies #[trigger] b[u] =~= a[u] by {
        if u == t as int {
            assert(!a[t as int].contains(s));
        }
    }
    assert(b =~= a);
}

/// The position after `i` in `c`, going round to the front after the last one.
pub open spec fn next_index(c: Seq<usize>, i: int) -> int {
    if i + 1 == c.len() {
        0
    } else {
        i + 1
    }
}

/// `c` is a simple cycle: at least three distinct nodes, each adjacent to the
/// next and the last to the first.
pub open spec fn is_simple_cycle(a: Seq<Set<usize>>, c: Seq<usize>) -> bool {
    &&& c.len() >= 3
    &&& c.no_duplicates()
    &&& forall|i: int| 0 <= i < c.len() ==> #[trigger] adj(a, c[i], c[next_index(c, i)])
}

/// The graph holds a self-loop or a simple cycle.
pub open spec fn has_cycle(a: Seq<Set<usize>>) -> bool {
    has_self_loop(a) || exists|c: Seq<usize>| is_simple_cycle(a, c)
}

/// A graph without edges has no cycle.
pub proof fn lemma_no_edges_no_cycle(a: Seq<Set<usize>>)
    requires
        no_edges(a),
    ensures
        !has_cycle(a),
{
    if has_self_loop(a) {
        let u = choose|u: usize| #[trigger] adj(a, u, u);
        assert(a[u as int] == Set::<usize>::empty());
    }
    if exists|c: Seq<usize>| is_simple_cycle(a, c) {
        let c = choose|c: Seq<usize>| is_simple_cycle(a, c);
        assert(adj(a, c[0], c[next_index(c, 0)]));
        assert(a[c[0] as int] == Set::<usize>::empty());
    }
}

/// `p` is a walk from `s` to `t` along edges of `a`.
pub open spec fn is_walk(a: Seq<Set<usize>>, p: Seq<usize>, s: usize, t: usize) -> bool {
    &&& p.len() >= 1
    &&& p[0] == s
    &&& p.last() == t
    &&& forall|i: int| 0 <= i < p.len() - 1 ==> #[trigger] adj(a, p[i], p[i + 1])
}

/// Some walk along edges of `a` leads from `s` to `t`.
pub open spec fn connected(a: Seq<Set<usize>>, s: usize, t: usize) -> bool {
    exists|p: Seq<usize>| is_walk(a, p, s, t)
}

/// Every edge of `a` is an edge of `b`, on the same nodes.
pub open spec fn subgraph(a: Seq<Set<usize>>, b: Seq<Set<usize>>) -> bool {
    &&& a.len() == b.len()
    &&& forall|s: usize, t: usize| #[trigger] adj(a, s, t) ==> adj(b, s, t)
}

/// A cycle of a graph is a cycle of every graph that holds all its edges.
pub proof fn lemma_cycle_in_supergraph(a: Seq<Set<usize>>, b: Seq<Set<usize>>)
    requires
        subgraph(a, b),
        has_cycle(a),
    ensures
        has_cycle(b),
{
    if has_self_loop(a) {
        let u = choose|u: usize| #[trigger] adj(a, u, u);
        assert(adj(b, u, u));
    } else {
        let c = choose|c: Seq<usize>| is_simple_cycle(a, c);
        assert forall|i: int| 0 <= i < c.len() implies #[trigger] adj(b, c[i], c[next_index(c, i)]) by {
            assert(adj(a, c[i], c[next_index(c, i)]));
        }
        assert(is_simple_cycle(b, c));
    }
}

/// Adding one edge to a graph and to a graph that holds it keeps the second
/// holding the first.
pub proof fn lemma_add_edge_keeps_subgraph(a: Seq<Set<usize>>, b: Seq<Set<usize>>, s: usize, t: usize)
    requires
        subgraph(a, b),
        s < a.len(),
        t < a.len(),
    ensures
        subgraph(with_edge(a, s, t), with_edge(b, s, t)),
        subgraph(a, with_edge(a, s, t)),
{
    assert forall|u: usize, w: usize| #[trigger] adj(with_edge(a, s, t), u, w) implies adj(
        with_edge(b, s, t),
        u,
        w,
    ) by {
        if !((u == s && w == t) || (u == t && w == s)) {
            assert(adj(a, u, w));
        }
    }
    assert forall|u: usize, w: usize| #[trigger] adj(a, u, w) implies adj(with_edge(a, s, t), u, w) by {
    }
}

/// A walk read backwards is a walk.
pub proof fn lemma_walk_reversed(a: Seq<Set<usize>>, p: Seq<usize>, s: usize, t: usize)
    requires
        adjacency_wf(a),
        is_walk(a, p, s, t),
    ensures
        connected(a, t, s),
{
    let n = p.len() as int;
    let q = Seq::new(p.len(), |m: int| p[n - 1 - m]);
    assert forall|m: int| 0 <= m < q.len() - 1 implies #[trigger] adj(a, q[m], q[m + 1]) by {
        let j = n - 2 - m;
        assert(adj(a, p[j], p[j + 1]));
    }
    assert(is_walk(a, q, t, s));
}

/// In a graph without a cycle, an edge whose addition closes a cycle joins two
/// nodes that some walk already joins.
pub proof fn lemma_closing_edge_joins_connected(a: Seq<Set<usize>>, s: usize, t: usize)
    requires
        adjacency_wf(a),
        s < a.len(),
        t < a.len(),
        !has_cycle(a),
        has_cycle(with_edge(a, s, t)),
    ensures
        connected(a, s, t),
{
    let b = with_edge(a, s, t);
    if s == t {
        assert(is_walk(a, seq![s], s, t));
        return;
    }
    if has_self_loop(b) {
        let u = choose|u: usize| #[trigger] adj(b, u, u);
        assert(adj(a, u, u));
        assert(false);
    }
    let c = choose|c: Seq<usize>| is_simple_cycle(b, c);
    let k = c.len() as int;
    if forall|j: int| 0 <= j < k ==> #[trigger] adj(a, c[j], c[next_index(c, j)]) {
        assert(is_simple_cycle(a, c));
        assert(false);
    }
    let i = choose|i: int| 0 <= i < k && !#[trigger] adj(a, c[i], c[next_index(c, i)]);
    assert(adj(b, c[i], c[next_index(c, i)]));
    let idx = |m: int| if i + 1 + m < k { i + 1 + m } else { i + 1 + m - k };
    let w = Seq::new(k as nat, |m: int| c[idx(m)]);
    assert forall|m: int| 0 <= m < w.len() - 1 implies #[trigger] adj(a, w[m], w[m + 1]) by {
        let j = idx(m);
        assert(next_index(c, j) == idx(m + 1));
        assert(j != i);
        assert(adj(b, c[j], c[next_index(c, j)]));
        if !adj(a, c[j], c[next_index(c, j)]) {
            if c[j] == c[i] {
            } else if c[j] == c[next_index(c, i)] {
                assert(j == next_index(c, i));
                assert(c[next_index(c, j)] == c[i]);
                assert(next_index(c, j) == i);
            }
        }
    }
    assert(w[0] == c[next_index(c, i)]);
    assert(w[k - 1] == c[i]);
    if c[i] == t {
        assert(is_walk(a, w, s, t));
    } else {
        assert(is_walk(a, w, t, s));
        lemma_walk_reversed(a, w, t, s);
    }
}

} // verus!
