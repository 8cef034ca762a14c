use rand::seq::SliceRandom;
use vstd::prelude::*;
use crate::graph::Graph;
use crate::model::{
    adj, connected, edge_set, has_cycle, is_walk, lemma_add_edge_keeps_subgraph,
    lemma_closing_edge_joins_connected, lemma_cycle_in_supergraph, lemma_no_edges_no_cycle,
    lemma_remove_after_add, subgraph, with_edge,
};

verus! {

/// Relies on rand's `SliceRandom::shuffle` with the thread-local generator: it
/// only swaps elements of the slice, so the same elements come back in some order.
#[verifier::external_body]
fn shuffle_edges(v: &mut Vec<(usize, usize)>)
    ensures
        final(v)@.to_multiset() == old(v)@.to_multiset(),
{
    v.shuffle(&mut rand::thread_rng());
}

/// Every edge of `a` is one of the pairs of `order`, in either direction.
pub open spec fn edges_within(a: Seq<Set<usize>>, order: Seq<(usize, usize)>) -> bool {
    forall|s: usize, t: usize|
        #[trigger] adj(a, s, t) ==> order.contains((s, t)) || order.contains((t, s))
}

/// Each pair of `order` is an edge of `a`, or would close a cycle in `a`.
pub open spec fn maximal_for(a: Seq<Set<usize>>, order: Seq<(usize, usize)>) -> bool {
    forall|j: int|
        0 <= j < order.len() ==> adj(a, (#[trigger] order[j]).0, order[j].1) || has_cycle(
            with_edge(a, order[j].0, order[j].1),
        )
}

/// The graph on `n` nodes that taking the pairs of `order` one by one gives:
/// a pair is added when it is not an edge yet and closes no cycle.
pub open spec fn greedy_forest(n: nat, order: Seq<(usize, usize)>) -> Seq<Set<usize>>
    decreases order.len(),
{
    if order.len() == 0 {
        Seq::new(n, |i: int| Set::<usize>::empty())
    } else {
        let h = greedy_forest(n, order.drop_last());
        let e = order.last();
        if adj(h, e.0, e.1) || has_cycle(with_edge(h, e.0, e.1)) {
            h
        } else {
            with_edge(h, e.0, e.1)
        }
    }
}

/// Builds a forest on `n` nodes from the pairs of `order`, taken in that order:
/// each pair is added, and taken out again if the graph then holds a cycle.
/// The result holds no cycle, and no pair of `order` can be added to it
/// without closing one.
pub fn spanning_forest_in_order(n: usize, order: &Vec<(usize, usize)>) -> (r: Graph)
    requires
        forall|i: int| 0 <= i < order@.len() ==> (#[trigger] order@[i]).0 < n && order@[i].1 < n,
    ensures
        r.wf(),
        r@.len() == n,
        r@ == greedy_forest(n as nat, order@),
        edges_within(r@, order@),
        !has_cycle(r@),
        maximal_for(r@, order@),
        forall|j: int|
            0 <= j < order@.len() ==> connected(r@, (#[trigger] order@[j]).0, order@[j].1),
{
    let mut h = Graph::new(n);
    proof {
        lemma_no_edges_no_cycle(h@);
        assert(h@ =~= greedy_forest(n as nat, order@.take(0)));
    }
    let mut i: usize = 0;
    while i < order.len()
        invariant
            forall|j: int| 0 <= j < order@.len() ==> (#[trigger] order@[j]).0 < n && order@[j].1 < n,
            i <= order@.len(),
            h.wf(),
            h@.len() == n,
            edges_within(h@, order@.take(i as int)),
            !has_cycle(h@),
            maximal_for(h@, order@.take(i as int)),
            h@ == greedy_forest(n as nat, order@.take(i as int)),
        decreases order@.len() - i,
    {
        let (s, t) = order[i];
        let ghost before = h@;
        if !h.adjecent(s, t) {
            h.add_edge(s, t);
            let ghost added = h@;
            if h.is_cyclic() {
                assert(has_cycle(with_edge(before, s, t)));
                h.remove_edge(s, t);
                proof {
                    lemma_remove_after_add(before, s, t);
                }
            }
        }
        assert(order@.take(i + 1) == order@.take(i as int).push((s, t)));
        proof {
            assert(order@.take(i + 1).drop_last() == order@.take(i as int));
            assert(h@ == greedy_forest(n as nat, order@.take(i + 1)));
            assert(subgraph(before, h@)) by {
                if h@ != before {
                    lemma_add_edge_keeps_subgraph(before, before, s, t);
                }
            }
            assert forall|j: int| 0 <= j < order@.take(i + 1).len() implies adj(
                h@,
                (#[trigger] order@.take(i + 1)[j]).0,
                order@.take(i + 1)[j].1,
            ) || has_cycle(with_edge(h@, order@.take(i + 1)[j].0, order@.take(i + 1)[j].1)) by {
                let e = order@.take(i + 1)[j];
                if j < i {
                    assert(order@.take(i as int)[j] == e);
                    if !adj(before, e.0, e.1) {
                        assert(has_cycle(with_edge(before, e.0, e.1)));
                        lemma_add_edge_keeps_subgraph(before, h@, e.0, e.1);
                        lemma_cycle_in_supergraph(with_edge(before, e.0, e.1), with_edge(h@, e.0, e.1));
                    }
                }
            }
        }
        assert forall|u: usize, w: usize| #[trigger] adj(h@, u, w) implies order@.take(i + 1).contains(
            (u, w),
        ) || order@.take(i + 1).contains((w, u)) by {
            vstd::seq_lib::lemma_seq_contains_after_push(order@.take(i as int), (s, t), (u, w));
            vstd::seq_lib::lemma_seq_contains_after_push(order@.take(i as int), (s, t), (w, u));
            if !((u == s && w == t) || (u == t && w == s)) {
                assert(adj(before, u, w));
            }
        }
        i = i + 1;
    }
    assert(order@.take(order@.len() as int) == order@);
    assert forall|j: int| 0 <= j < order@.len() implies connected(h@, (#[trigger] order@[j]).0, order@[j].1) by {
        let e = order@[j];
        if adj(h@, e.0, e.1) {
            assert(is_walk(h@, seq![e.0, e.1], e.0, e.1));
        } else {
            lemma_closing_edge_joins_connected(h@, e.0, e.1);
        }
    }
    h
}

/// A spanning forest of `g`: a graph on the same nodes, made of edges of `g`,
/// without a cycle, and such that each edge of `g` that it lacks would close
/// one, so that the two ends of every edge of `g` stay connected. It is built
/// from the edges of `g` in a random order.
pub fn make_spanning_tree(g: Graph) -> (r: Graph)
    requires
        g.wf(),
    ensures
        r.wf(),
        r@.len() == g@.len(),
        edge_set(r@).subset_of(edge_set(g@)),
        !has_cycle(r@),
        forall|e: (usize, usize)|
            #[trigger] edge_set(g@).contains(e) ==> adj(r@, e.0, e.1) || has_cycle(
                with_edge(r@, e.0, e.1),
            ),
        forall|e: (usize, usize)| #[trigger] edge_set(g@).contains(e) ==> connected(r@, e.0, e.1),
{
    let mut edges = g.edges();
    let ghost e0 = edges@;
    shuffle_edges(&mut edges);
    proof {
        assert forall|i: int| 0 <= i < edges@.len() implies (#[trigger] edges@[i]).0 < g@.len()
            && edges@[i].1 < g@.len() by {
            let x = edges@[i];
            assert(edges@.contains(x));
            e0.to_multiset_ensures();
            edges@.to_multiset_ensures();
            assert(edges@.to_multiset().count(x) > 0);
            assert(e0.contains(x));
            assert(e0.to_set().contains(x));
            assert(edge_set(g@).contains(x));
            assert(adj(g@, x.0, x.1));
        }
    }
    let r = spanning_forest_in_order(g.size(), &edges);
    proof {
        e0.to_multiset_ensures();
        edges@.to_multiset_ensures();
        assert forall|e: (usize, usize)| edge_set(r@).contains(e) implies edge_set(g@).contains(e) by {
            if edges@.contains(e) {
                assert(edges@.to_multiset().count(e) > 0);
                assert(e0.contains(e));
                assert(e0.to_set().contains(e));
            } else {
                assert(edges@.contains((e.1, e.0)));
                assert(edges@.to_multiset().count((e.1, e.0)) > 0);
                assert(e0.contains((e.1, e.0)));
                assert(e0.to_set().contains((e.1, e.0)));
                assert(adj(g@, e.1, e.0));
            }
        }
        assert forall|e: (usize, usize)| #[trigger] edge_set(g@).contains(e) implies (adj(r@, e.0, e.1)
            || has_cycle(with_edge(r@, e.0, e.1))) && connected(r@, e.0, e.1) by {
            assert(e0.to_set().contains(e));
            assert(e0.contains(e));
            assert(e0.to_multiset().count(e) > 0);
            assert(edges@.contains(e));
            let j = choose|j: int| 0 <= j < edges@.len() && edges@[j] == e;
            assert(edges@[j] == e);
            assert(connected(r@, e.0, e.1));
        }
    }
    r
}

} // verus!
