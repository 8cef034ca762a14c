use std::collections::HashSet;
use vstd::prelude::*;
use vstd::set_lib::FiniteRange;
use crate::model::{
    adj, adjacency_wf, edge_set, has_cycle, has_self_loop, is_simple_cycle, isolated, no_edges,
    with_edge, without_edge,
};
use crate::search::{
    is_tree_path, lemma_paths_extend, lemma_paths_more_done, lemma_tree_has_no_cycle,
    lemma_two_paths_cycle, path_ok_at, paths_ok, tree_edge,
};

verus! {

broadcast use vstd::std_specs::hash::group_hash_axioms;

/// An undirected graph on the nodes `0..size()`, kept as one neighbour set per node.
#[derive(Clone)]
pub struct Graph {
    nodes: Vec<HashSet<usize>>,
}

impl View for Graph {
    type V = Seq<Set<usize>>;

    /// The neighbour set of each node, in node order.
    closed spec fn view(&self) -> Seq<Set<usize>> {
        self.nodes@.map_values(|s: HashSet<usize>| s@)
    }
}


impl Graph {
    /// The neighbour sets are those of a graph on `self@.len()` nodes.
    pub open spec fn wf(&self) -> bool {
        adjacency_wf(self@)
    }

    /// A graph with `n` nodes and no edges.
    pub fn new(n: usize) -> (r: Graph)
        ensures
            r.wf(),
            r@.len() == n,
            no_edges(r@),
    {
        let mut nodes: Vec<HashSet<usize>> = Vec::with_capacity(n);
        let mut i: usize = 0;
        while i < n
            invariant
                i <= n,
                nodes@.len() == i,
                forall|j: int| 0 <= j < i ==> (#[trigger] nodes@[j])@ == Set::<usize>::empty(),
            decreases n - i,
        {
            nodes.push(HashSet::new());
            i = i + 1;
        }
        let r = Graph { nodes };
        assert(forall|s: int| 0 <= s < r@.len() ==> #[trigger] r@[s] == r.nodes@[s]@);
        r
    }

    /// The number of nodes.
    pub fn size(&self) -> (r: usize)
        ensures
            r == self@.len(),
    {
        self.nodes.len()
    }

    /// A copy of the neighbour set of `node`.
    pub fn get_neighbours(&self, node: usize) -> (r: HashSet<usize>)
        requires
            self.wf(),
            node < self@.len(),
        ensures
            r@ == self@[node as int],
    {
        let n = self.nodes.len();
        let ghost a = self@;
        assert(self.nodes@[node as int]@ == a[node as int]);
        let mut r: HashSet<usize> = HashSet::new();
        let mut v: usize = 0;
        while v < n
            invariant
                n == a.len(),
                a == self@,
                adjacency_wf(a),
                node < n,
                v <= n,
                self.nodes@[node as int]@ == a[node as int],
                forall|w: usize| r@.contains(w) <==> (w < v && a[node as int].contains(w)),
            decreases n - v,
        {
            if self.nodes[node].contains(&v) {
                r.insert(v);
            }
            v = v + 1;
        }
        assert(r@ =~= a[node as int]);
        r
    }

    /// Whether `t` is a neighbour of `s`.
    pub fn adjecent(&self, s: usize, t: usize) -> (r: bool)
        requires
            s < self@.len(),
        ensures
            r == adj(self@, s, t),
    {
        assert(self.nodes@[s as int]@ == self@[s as int]);
        self.nodes[s].contains(&t)
    }

    /// Adds the undirected edge `{s, t}`; a self-loop when `s == t`.
    pub fn add_edge(&mut self, s: usize, t: usize)
        requires
            old(self).wf(),
            s < old(self)@.len(),
            t < old(self)@.len(),
        ensures
            final(self).wf(),
            final(self)@ == with_edge(old(self)@, s, t),
    {
        let ghost a = self@;
        self.nodes[s].insert(t);
        assert(self.nodes@ == old(self).nodes@.update(s as int, self.nodes@[s as int]));
        assert(self@ =~= a.update(s as int, a[s as int].insert(t)));
        let ghost b = self@;
        self.nodes[t].insert(s);
        assert(self@ =~= b.update(t as int, b[t as int].insert(s)));
        assert(self@ =~= with_edge(a, s, t));
    }

    /// Removes the undirected edge `{s, t}`, if it is there.
    pub fn remove_edge(&mut self, s: usize, t: usize)
        requires
            old(self).wf(),
            s < old(self)@.len(),
            t < old(self)@.len(),
        ensures
            final(self).wf(),
            final(self)@ == without_edge(old(self)@, s, t),
    {
        let ghost a = self@;
        self.nodes[s].remove(&t);
        assert(self@ =~= a.update(s as int, a[s as int].remove(t)));
        let ghost b = self@;
        self.nodes[t].remove(&s);
        assert(self@ =~= b.update(t as int, b[t as int].remove(s)));
        assert(self@ =~= without_edge(a, s, t));
        assert forall|u: usize, w: usize| u < self@.len() && #[trigger] self@[u as int].contains(w) implies w
            < self@.len() && self@[w as int].contains(u) by {
            assert(a[u as int].contains(w));
            assert(a[w as int].contains(u));
        }
    }

    /// Removes every edge at node `n`, leaving it isolated.
    pub fn remove_edges(&mut self, n: usize)
        requires
            old(self).wf(),
            n < old(self)@.len(),
        ensures
            final(self).wf(),
            final(self)@ == isolated(old(self)@, n),
            final(self)@[n as int] == Set::<usize>::empty(),
            forall|u: usize| u < final(self)@.len() ==> !adj(final(self)@, u, n),
    {
        let ghost a = self@;
        let neighbours = self.get_neighbours(n);
        let size = self.nodes.len();
        let mut v: usize = 0;
        while v < size
            invariant
                size == a.len(),
                adjacency_wf(a),
                n < size,
                v <= size,
                self.wf(),
                self@.len() == size,
                neighbours@ == a[n as int],
                forall|u: usize, w: usize|
                    u < size ==> (#[trigger] self@[u as int].contains(w) <==> (if u == n {
                        a[n as int].contains(w) && w >= v
                    } else {
                        a[u as int].contains(w) && !(w == n && u < v)
                    })),
            decreases size - v,
        {
            if neighbours.contains(&v) {
                self.remove_edge(n, v);
            } else {
                assert(!a[v as int].contains(n));
            }
            v = v + 1;
        }
        assert(self@ =~= isolated(a, n)) by {
            assert forall|u: int| 0 <= u < size implies #[trigger] self@[u] =~= isolated(a, n)[u] by {
                assert(self@[(u as usize) as int] == self@[u]);
            }
        }
    }

    /// A graph with the same neighbour sets, sharing nothing with `self`.
    fn working_copy(&self) -> (r: Graph)
        requires
            self.wf(),
        ensures
            r.wf(),
            r@ == self@,
    {
        let n = self.nodes.len();
        let mut nodes: Vec<HashSet<usize>> = Vec::with_capacity(n);
        let mut i: usize = 0;
        while i < n
            invariant
                n == self@.len(),
                self.wf(),
                i <= n,
                nodes@.len() == i,
                forall|j: int| 0 <= j < i ==> (#[trigger] nodes@[j])@ == self@[j],
            decreases n - i,
        {
            nodes.push(self.get_neighbours(i));
            i = i + 1;
        }
        let r = Graph { nodes };
        assert(r@ =~= self@);
        r
    }

    /// The edges, each once, as `(min, max)` pairs in increasing order.
    pub fn edges(&self) -> (r: Vec<(usize, usize)>)
        requires
            self.wf(),
        ensures
            r@.no_duplicates(),
            r@.to_set() == edge_set(self@),
            forall|i: int, j: int|
                0 <= i < j < r@.len() ==> (#[trigger] r@[i]).0 < (#[trigger] r@[j]).0 || (r@[i].0
                    == r@[j].0 && r@[i].1 < r@[j].1),
    {
        let ghost a = self@;
        let n = self.nodes.len();
        let mut r: Vec<(usize, usize)> = Vec::new();
        let mut s: usize = 0;
        while s < n
            invariant
                n == a.len(),
                a == self@,
                adjacency_wf(a),
                s <= n,
                r@.no_duplicates(),
                forall|e: (usize, usize)|
                    r@.contains(e) <==> (e.0 <= e.1 && adj(a, e.0, e.1) && e.0 < s),
                forall|i: int| 0 <= i < r@.len() ==> (#[trigger] r@[i]).0 < s,
                forall|i: int, j: int|
                    0 <= i < j < r@.len() ==> (#[trigger] r@[i]).0 < (#[trigger] r@[j]).0 || (
                    r@[i].0 == r@[j].0 && r@[i].1 < r@[j].1),
            decreases n - s,
        {
            assert(self.nodes@[s as int]@ == a[s as int]);
            let mut t: usize = s;
            while t < n
                invariant
                    n == a.len(),
                    a == self@,
                    s < n,
                    s <= t <= n,
                    self.nodes@[s as int]@ == a[s as int],
                    r@.no_duplicates(),
                    forall|e: (usize, usize)|
                        r@.contains(e) <==> (e.0 <= e.1 && adj(a, e.0, e.1) && (e.0 < s || (e.0
                            == s && e.1 < t))),
                    forall|i: int|
                        0 <= i < r@.len() ==> (#[trigger] r@[i]).0 < s || (r@[i].0 == s && r@[i].1
                            < t),
                    forall|i: int, j: int|
                        0 <= i < j < r@.len() ==> (#[trigger] r@[i]).0 < (#[trigger] r@[j]).0 || (
                        r@[i].0 == r@[j].0 && r@[i].1 < r@[j].1),
                decreases n - t,
            {
                if self.nodes[s].contains(&t) {
                    let ghost r0 = r@;
                    r.push((s, t));
                    assert(r@ == r0.push((s, t)));
                    assert forall|e: (usize, usize)| r@.contains(e) <==> (e.0 <= e.1 && adj(a, e.0, e.1) && (e.0 < s || (e.0
                            == s && e.1 < t + 1))) by {
                        if r@.contains(e) && e != (s, t) {
                            let k = choose|k: int| 0 <= k < r@.len() && r@[k] == e;
                            assert(r0[k] == e);
                        }
                        if r0.contains(e) {
                            let k = choose|k: int| 0 <= k < r0.len() && r0[k] == e;
                            assert(r@[k] == e);
                        }
                        assert(r@[r0.len() as int] == (s, t));
                    }
                }
                t = t + 1;
            }
            assert forall|e: (usize, usize)| r@.contains(e) <==> (e.0 <= e.1 && adj(a, e.0, e.1) && e.0
                < s + 1) by {
                if e.0 == s && adj(a, e.0, e.1) {
                    assert(e.1 < n);
                }
            }
            s = s + 1;
        }
        assert(r@.to_set() =~= edge_set(a));
        r
    }

    /// The number of edges, a self-loop counting as one.
    pub fn count_edges(&self) -> (r: usize)
        requires
            self.wf(),
        ensures
            r == edge_set(self@).len(),
    {
        let e = self.edges();
        proof {
            e@.unique_seq_to_set();
        }
        e.len()
    }

    /// Whether the graph holds a cycle. The search runs on a working copy whose
    /// edges are consumed: each node, when taken from the stack, loses all its
    /// edges before its neighbours are looked at, so meeting a visited node again
    /// means a second route to it.
    pub fn is_cyclic(&self) -> (r: bool)
        requires
            self.wf(),
        ensures
            r == has_cycle(self@),
    {
        let ghost a = self@;
        let n = self.nodes.len();
        let mut open: Vec<usize> = Vec::with_capacity(n);
        let mut g = self.working_copy();
        let mut visited: HashSet<usize> = HashSet::new();
        // `done`: the nodes taken from the stack; `rank`: the order of discovery;
        // `parent`: the node from which each node was discovered; `paths`: the
        // route from the root of its search to each node.
        let ghost mut done: Set<usize> = Set::empty();
        let ghost mut rank: Seq<nat> = Seq::new(n as nat, |i: int| 0nat);
        let ghost mut parent: Seq<usize> = Seq::new(n as nat, |i: int| 0usize);
        let ghost mut count: nat = 0;
        let ghost mut paths: Seq<Seq<usize>> = Seq::new(n as nat, |i: int| Seq::<usize>::empty());
        proof {
            usize::range_properties(0, n);
        }
        let mut node: usize = 0;
        while node < n
            invariant
                n == a.len(),
                a == self@,
                adjacency_wf(a),
                Set::<usize>::range(0, n).finite(),
                Set::<usize>::range(0, n).len() == n,
                g.wf(),
                g@.len() == n,
                rank.len() == n,
                parent.len() == n,
                node <= n,
                open@.len() == 0,
                done.finite(),
                forall|u: usize| #[trigger] visited@.contains(u) <==> done.contains(u),
                forall|u: usize| #[trigger] done.contains(u) ==> u < n,
                forall|u: usize| u < node ==> #[trigger] done.contains(u),
                forall|u: usize, w: usize|
                    u < n ==> (#[trigger] g@[u as int].contains(w) <==> (a[u as int].contains(w)
                        && !done.contains(u) && !done.contains(w))),
                forall|u: usize| #[trigger] visited@.contains(u) ==> rank[u as int] < count,
                forall|u: usize, w: usize|
                    #[trigger] done.contains(u) && #[trigger] a[u as int].contains(w) ==> visited@.contains(w)
                        && tree_edge(rank, parent, u, w),
                paths.len() == n,
                paths_ok(a, paths, visited@, done),
            decreases n - node,
        {
            let ghost visited0 = visited@;
            if visited.insert(node) {
                open.push(node);
                proof {
                    assert(seq![node].last() == node);
                    assert(is_tree_path(a, seq![node]));
                    lemma_paths_extend(a, paths, visited0, done, node, seq![node]);
                    paths = paths.update(node as int, seq![node]);
                    rank = rank.update(node as int, count);
                    parent = parent.update(node as int, node);
                    count = count + 1;
                }
                assert(open@ =~= seq![node]);
                assert forall|u: usize| #[trigger]
                    visited@.contains(u) <==> (done.contains(u) || open@.contains(u)) by {
                    if u == node {
                        assert(open@[0] == u);
                    }
                }
                while open.len() > 0
                    invariant
                        n == a.len(),
                        a == self@,
                        adjacency_wf(a),
                        Set::<usize>::range(0, n).finite(),
                        Set::<usize>::range(0, n).len() == n,
                        g.wf(),
                        g@.len() == n,
                        rank.len() == n,
                        parent.len() == n,
                        node < n,
                        done.finite(),
                        open@.no_duplicates(),
                        forall|i: int|
                            0 <= i < open@.len() ==> #[trigger] open@[i] < n && !done.contains(
                                open@[i],
                            ),
                        forall|u: usize| #[trigger]
                            visited@.contains(u) <==> (done.contains(u) || open@.contains(u)),
                        visited@.contains(node),
                        forall|u: usize| #[trigger] done.contains(u) ==> u < n,
                        forall|u: usize| u < node ==> #[trigger] done.contains(u),
                        forall|u: usize, w: usize|
                            u < n ==> (#[trigger] g@[u as int].contains(w) <==> (a[u as int].contains(
                                w,
                            ) && !done.contains(u) && !done.contains(w))),
                        forall|u: usize| #[trigger] visited@.contains(u) ==> rank[u as int] < count,
                        forall|u: usize, w: usize|
                            #[trigger] done.contains(u) && #[trigger] a[u as int].contains(w)
                                ==> visited@.contains(w) && tree_edge(rank, parent, u, w),
                        paths.len() == n,
                        paths_ok(a, paths, visited@, done),
                        forall|i: int| 0 <= i < open@.len() ==> paths[#[trigger] open@[i] as int][0] == node,
                    decreases n - done.len(),
                {
                    let ghost open0 = open@;
                    let current = open.pop().unwrap();
                    assert(open0 == open@.push(current));
                    assert(open0[open0.len() - 1] == current);
                    let ghost d0 = done;
                    let neighbours = g.get_neighbours(current);
                    let ghost g0 = g@;
                    g.remove_edges(current);
                    let ghost vis_s = visited@;
                    proof {
                        assert(open0.contains(current));
                        assert(visited@.contains(current));
                        assert(paths[current as int][0] == node);
                        assert forall|x: usize| #[trigger] vis_s.contains(x) implies x < n by {
                            if open0.contains(x) {
                                let k = choose|k: int| 0 <= k < open0.len() && open0[k] == x;
                                assert(open0[k] < n);
                            }
                        }
                        assert(path_ok_at(a, paths, d0, current));
                        assert forall|x: usize| vis_s.contains(x) && !d0.contains(x) && x != current
                            implies paths[x as int][0] == node && (forall|i: int|
                            0 <= i < paths[x as int].len() - 1 ==> d0.contains(
                                #[trigger] paths[x as int][i],
                            )) by {
                            assert(open0.contains(x));
                            let k = choose|k: int| 0 <= k < open0.len() && open0[k] == x;
                            assert(paths[open0[k] as int][0] == node);
                            assert(path_ok_at(a, paths, d0, x));
                        }
                        lemma_paths_more_done(a, paths, visited@, d0, d0.insert(current));
                        done = done.insert(current);
                        vstd::set_lib::lemma_len_subset(done, Set::<usize>::range(0, n));
                        assert forall|u: usize| #[trigger]
                            visited@.contains(u) <==> (done.contains(u) || open@.contains(u)) by {
                            if open0.contains(u) && u != current {
                                let k = choose|k: int| 0 <= k < open0.len() && open0[k] == u;
                                assert(open@[k] == u);
                            }
                            if open@.contains(u) {
                                let k = choose|k: int| 0 <= k < open@.len() && open@[k] == u;
                                assert(open0[k] == u);
                            }
                        }
                        assert forall|i: int| 0 <= i < open@.len() implies #[trigger] open@[i] < n
                            && !done.contains(open@[i]) by {
                            assert(open0[i] == open@[i]);
                        }
                        assert forall|u: usize, w: usize| u < n implies (#[trigger] g@[u as int].contains(
                            w,
                        ) <==> (a[u as int].contains(w) && !done.contains(u) && !done.contains(
                            w,
                        ))) by {
                            if u != current {
                                assert(g@[u as int] == g0[u as int].remove(current));
                            }
                        }
                    }
                    let ghost paths_s = paths;
                    let mut v: usize = 0;
                    while v < n
                        invariant
                            n == a.len(),
                            a == self@,
                            adjacency_wf(a),
                            Set::<usize>::range(0, n).finite(),
                            Set::<usize>::range(0, n).len() == n,
                            g.wf(),
                            g@.len() == n,
                            rank.len() == n,
                            parent.len() == n,
                            node < n,
                            visited@.contains(node),
                            forall|u: usize| #[trigger] done.contains(u) ==> u < n,
                            forall|u: usize| u < node ==> #[trigger] done.contains(u),
                            forall|u: usize, w: usize|
                                u < n ==> (#[trigger] g@[u as int].contains(w) <==> (
                                a[u as int].contains(w) && !done.contains(u) && !done.contains(w))),
                            done.len() <= n,
                            done.finite(),
                            done == d0.insert(current),
                            current < n,
                            v <= n,
                            forall|w: usize| #[trigger]
                                neighbours@.contains(w) <==> (a[current as int].contains(w)
                                    && !d0.contains(w)),
                            !d0.contains(current),
                            current < v ==> !neighbours@.contains(current),
                            open@.no_duplicates(),
                            forall|i: int|
                                0 <= i < open@.len() ==> #[trigger] open@[i] < n && !done.contains(
                                    open@[i],
                                ),
                            forall|u: usize| #[trigger]
                                visited@.contains(u) <==> (done.contains(u) || open@.contains(u)),
                            forall|u: usize| #[trigger] visited@.contains(u) ==> rank[u as int] < count,
                            forall|u: usize, w: usize|
                                #[trigger] d0.contains(u) && #[trigger] a[u as int].contains(w)
                                    ==> visited@.contains(w) && tree_edge(rank, parent, u, w),
                            forall|w: usize|
                                w < v && #[trigger] neighbours@.contains(w) ==> visited@.contains(w)
                                    && parent[w as int] == current && rank[current as int]
                                    < rank[w as int],
                            paths.len() == n,
                            paths_ok(a, paths, visited@, done),
                            forall|i: int| 0 <= i < open@.len() ==> paths[#[trigger] open@[i] as int][0] == node,
                            paths[current as int][0] == node,
                            path_ok_at(a, paths, d0, current),
                            forall|u: usize| #[trigger] visited@.contains(u) && !vis_s.contains(u) ==> u < v,
                            vis_s.contains(current),
                            forall|x: usize| vis_s.contains(x) && !d0.contains(x) && x != current
                                ==> paths[x as int][0] == node && (forall|i: int|
                                0 <= i < paths[x as int].len() - 1 ==> d0.contains(
                                    #[trigger] paths[x as int][i],
                                )),
                            forall|x: usize| #[trigger] vis_s.contains(x) ==> paths[x as int] == paths_s[x as int],
                            forall|x: usize| #[trigger] vis_s.contains(x) ==> x < n,
                            vis_s.subset_of(visited@),
                        decreases n - v,
                    {
                        if neighbours.contains(&v) {
                            if visited.contains(&v) {
                                proof {
                                    assert(a[current as int].contains(v));
                                    if v == current {
                                        assert(adj(a, v, v));
                                    } else {
                                        assert(vis_s.contains(v));
                                        let pc = paths[current as int];
                                        let pv = paths[v as int];
                                        assert(path_ok_at(a, paths, done, v));
                                        if pc.contains(v) {
                                            let k = choose|k: int| 0 <= k < pc.len() && pc[k] == v;
                                            assert(k < pc.len() - 1);
                                            assert(d0.contains(pc[k]));
                                        }
                                        if pv.contains(current) {
                                            let k = choose|k: int| 0 <= k < pv.len() && pv[k] == current;
                                            assert(k < pv.len() - 1);
                                            assert(d0.contains(pv[k]));
                                        }
                                        lemma_two_paths_cycle(a, paths, current, v);
                                    }
                                }
                                return true;
                            }
                            let ghost open1 = open@;
                            let ghost visited0 = visited@;
                            let ghost rank0 = rank;
                            let ghost parent0 = parent;
                            visited.insert(v);
                            open.push(v);
                            proof {
                                let pc = paths[current as int];
                                let np = pc.push(v);
                                assert(path_ok_at(a, paths, done, current));
                                assert(!pc.contains(v)) by {
                                    if pc.contains(v) {
                                        let k = choose|k: int| 0 <= k < pc.len() && pc[k] == v;
                                        if k < pc.len() - 1 {
                                            assert(done.contains(pc[k]));
                                        }
                                    }
                                }
                                assert(is_tree_path(a, np)) by {
                                    assert forall|i: int| 0 <= i < np.len() - 1 implies #[trigger] adj(
                                        a,
                                        np[i],
                                        np[i + 1],
                                    ) by {
                                        if i < pc.len() - 1 {
                                            assert(adj(a, pc[i], pc[i + 1]));
                                        } else {
                                            assert(np[i] == current);
                                        }
                                    }
                                }
                                assert forall|i: int| 0 <= i < np.len() - 1 implies done.contains(
                                    #[trigger] np[i],
                                ) by {
                                    assert(np[i] == pc[i]);
                                }
                                assert forall|i: int| 0 <= i < np.len() - 1 implies #[trigger] paths[np[i] as int]
                                    == np.take(i + 1) by {
                                    assert(np[i] == pc[i]);
                                    assert(paths[pc[i] as int] == pc.take(i + 1));
                                    assert(np.take(i + 1) =~= pc.take(i + 1));
                                }
                                lemma_paths_extend(a, paths, visited0, done, v, np);
                                paths = paths.update(v as int, np);
                                rank = rank.update(v as int, count);
                                parent = parent.update(v as int, current);
                                count = count + 1;
                                assert forall|u: usize, w: usize|
                                    #[trigger] d0.contains(u) && #[trigger] a[u as int].contains(w)
                                        implies visited@.contains(w) && tree_edge(rank, parent, u, w) by {
                                    assert(visited0.contains(u));
                                    assert(visited0.contains(w));
                                    assert(tree_edge(rank0, parent0, u, w));
                                    assert(rank[u as int] == rank0[u as int]);
                                    assert(rank[w as int] == rank0[w as int]);
                                    assert(parent[u as int] == parent0[u as int]);
                                    assert(parent[w as int] == parent0[w as int]);
                                }
                                assert(visited0.contains(current));
                                assert forall|w: usize|
                                    w < v + 1 && #[trigger] neighbours@.contains(w) implies visited@.contains(w)
                                        && parent[w as int] == current && rank[current as int]
                                        < rank[w as int] by {
                                    if w < v {
                                        assert(visited0.contains(w));
                                    }
                                }
                                assert(open@ == open1.push(v));
                                assert forall|i: int, j: int|
                                    0 <= i < j < open@.len() implies open@[i] != open@[j] by {
                                    if j == open1.len() {
                                        assert(open1.contains(open1[i]));
                                    }
                                }
                                assert forall|u: usize| #[trigger]
                                    visited@.contains(u) <==> (done.contains(u) || open@.contains(
                                        u,
                                    )) by {
                                    vstd::seq_lib::lemma_seq_contains_after_push(open1, v, u);
                                }
                            }
                        }
                        v = v + 1;
                    }
                    assert(!a[current as int].contains(current));
                    assert forall|u: usize, w: usize|
                        #[trigger] done.contains(u) && #[trigger] a[u as int].contains(w)
                            implies visited@.contains(w) && tree_edge(rank, parent, u, w) by {
                        if u == current {
                            assert(w < n);
                            if d0.contains(w) {
                                assert(a[w as int].contains(u));
                                assert(tree_edge(rank, parent, w, u));
                            } else {
                                assert(neighbours@.contains(w));
                            }
                        } else {
                            assert(d0.contains(u));
                        }
                    }
                }
            }
            node = node + 1;
        }
        assert(!has_cycle(a)) by {
            if has_self_loop(a) {
                let u = choose|u: usize| #[trigger] adj(a, u, u);
                assert(done.contains(u));
                assert(tree_edge(rank, parent, u, u));
            }
            assert forall|u: usize, w: usize| #[trigger] adj(a, u, w) implies tree_edge(
                rank,
                parent,
                u,
                w,
            ) by {
                assert(done.contains(u));
            }
            if exists|c: Seq<usize>| is_simple_cycle(a, c) {
                let c = choose|c: Seq<usize>| is_simple_cycle(a, c);
                lemma_tree_has_no_cycle(a, rank, parent, c);
            }
        }
        false
    }

    /// Whether the graph holds no cycle.
    pub fn is_acyclic(&self) -> (r: bool)
        requires
            self.wf(),
        ensures
            r == !has_cycle(self@),
    {
        !self.is_cyclic()
    }
}

} // verus!
