//! What the cycle search keeps in ghost state, and why its answer is right:
//! the discovery order and parent of each node, and the path from the root of
//! the search to each node.

use vstd::prelude::*;
use crate::model::{adj, adjacency_wf, is_simple_cycle, next_index};

verus! {

/// `p` is a walk along edges of `a` that visits no node twice.
pub(crate) open spec fn is_tree_path(a: Seq<Set<usize>>, p: Seq<usize>) -> bool {
    &&& p.len() >= 1
    &&& p.no_duplicates()
    &&& forall|i: int| 0 <= i < p.len() - 1 ==> #[trigger] adj(a, p[i], p[i + 1])
}

/// Each node on `p` has as its own path the part of `p` that ends with it.
pub(crate) open spec fn paths_closed(paths: Seq<Seq<usize>>, p: Seq<usize>) -> bool {
    forall|i: int| 0 <= i < p.len() ==> #[trigger] paths[p[i] as int] == p.take(i + 1)
}

/// The length of the common start of `p` and `q`, from a common start of length `l`.
pub(crate) proof fn lemma_common_prefix(p: Seq<usize>, q: Seq<usize>, l: int) -> (r: int)
    requires
        0 <= l <= p.len(),
        l <= q.len(),
        forall|i: int| 0 <= i < l ==> p[i] == q[i],
    ensures
        l <= r <= p.len(),
        r <= q.len(),
        forall|i: int| 0 <= i < r ==> p[i] == q[i],
        r == p.len() || r == q.len() || p[r] != q[r],
    decreases p.len() - l,
{
    if l == p.len() || l == q.len() || p[l] != q[l] {
        l
    } else {
        lemma_common_prefix(p, q, l + 1)
    }
}

/// Two tree paths from one root, to nodes `x` and `y` that are adjacent and
/// lie on neither path but their own, close a simple cycle with the edge `{x, y}`.
pub(crate) proof fn lemma_two_paths_cycle(
    a: Seq<Set<usize>>,
    paths: Seq<Seq<usize>>,
    x: usize,
    y: usize,
)
    requires
        adjacency_wf(a),
        x != y,
        adj(a, x, y),
        is_tree_path(a, paths[x as int]),
        is_tree_path(a, paths[y as int]),
        paths_closed(paths, paths[x as int]),
        paths_closed(paths, paths[y as int]),
        paths[x as int].last() == x,
        paths[y as int].last() == y,
        paths[x as int][0] == paths[y as int][0],
        !paths[x as int].contains(y),
        !paths[y as int].contains(x),
    ensures
        exists|c: Seq<usize>| is_simple_cycle(a, c),
{
    let p = paths[x as int];
    let q = paths[y as int];
    let pl = p.len() as int;
    let ql = q.len() as int;
    let l = lemma_common_prefix(p, q, 1);
    if l == pl {
        assert(q[pl - 1] == x);
        assert(q.contains(x));
    }
    if l == ql {
        assert(p[ql - 1] == y);
        assert(p.contains(y));
    }
    assert(l < pl && l < ql && p[l] != q[l]);
    assert forall|i: int, j: int| l <= i < pl && l <= j < ql implies p[i] != q[j] by {
        if p[i] == q[j] {
            assert(paths[p[i] as int] == p.take(i + 1));
            assert(paths[q[j] as int] == q.take(j + 1));
            assert(p.take(i + 1)[l] == q.take(j + 1)[l]);
        }
    }
    let k = (pl - l + 1) + (ql - l);
    let c = Seq::new(
        k as nat,
        |i: int|
            if i < pl - l + 1 {
                p[l - 1 + i]
            } else {
                q[ql - 1 - (i - (pl - l + 1))]
            },
    );
    assert forall|i: int| 0 <= i < c.len() implies #[trigger] adj(a, c[i], c[next_index(c, i)]) by {
        if i < pl - l {
            assert(adj(a, p[l - 1 + i], p[l - 1 + i + 1]));
        } else if i == pl - l {
            assert(c[i] == x);
            assert(c[i + 1] == y);
        } else if i < k - 1 {
            let j = ql - 2 - (i - (pl - l + 1));
            assert(c[i] == q[j + 1]);
            assert(c[i + 1] == q[j]);
            assert(adj(a, q[j], q[j + 1]));
        } else {
            assert(c[i] == q[l]);
            assert(c[0] == q[l - 1]);
            let j = l - 1;
            assert(adj(a, q[j], q[j + 1]));
            assert(j + 1 == l);
            assert(adj(a, q[l], q[l - 1]));
        }
    }
    assert forall|i: int, j: int| 0 <= i < j < c.len() implies c[i] != c[j] by {
        if j < pl - l + 1 {
        } else if i >= pl - l + 1 {
        } else if i == 0 {
            assert(c[i] == q[l - 1]);
        } else {
        }
    }
    assert(is_simple_cycle(a, c));
}

/// The path kept for `x` is a tree path ending at `x`, closed under taking a
/// start, and every node on it but `x` is done.
pub(crate) open spec fn path_ok_at(a: Seq<Set<usize>>, paths: Seq<Seq<usize>>, done: Set<usize>, x: usize) -> bool {
    let p = paths[x as int];
    &&& is_tree_path(a, p)
    &&& p.last() == x
    &&& paths_closed(paths, p)
    &&& forall|i: int| 0 <= i < p.len() - 1 ==> done.contains(#[trigger] p[i])
}

/// Every node of `vis` has a path as `path_ok_at` describes.
pub(crate) open spec fn paths_ok(a: Seq<Set<usize>>, paths: Seq<Seq<usize>>, vis: Set<usize>, done: Set<usize>) -> bool {
    forall|x: usize| #[trigger] vis.contains(x) ==> path_ok_at(a, paths, done, x)
}

/// A newly visited node `v` may be given the path `p` when all of `p` but `v`
/// is done and has its own start of `p` as its path.
pub(crate) proof fn lemma_paths_extend(
    a: Seq<Set<usize>>,
    paths: Seq<Seq<usize>>,
    vis: Set<usize>,
    done: Set<usize>,
    v: usize,
    p: Seq<usize>,
)
    requires
        paths_ok(a, paths, vis, done),
        done.subset_of(vis),
        forall|x: usize| #[trigger] vis.contains(x) ==> x < paths.len(),
        v < paths.len(),
        !vis.contains(v),
        is_tree_path(a, p),
        p.last() == v,
        forall|i: int| 0 <= i < p.len() - 1 ==> done.contains(#[trigger] p[i]),
        forall|i: int| 0 <= i < p.len() - 1 ==> #[trigger] paths[p[i] as int] == p.take(i + 1),
    ensures
        paths_ok(a, paths.update(v as int, p), vis.insert(v), done),
{
    let np = paths.update(v as int, p);
    assert forall|x: usize| #[trigger] vis.insert(v).contains(x) implies path_ok_at(a, np, done, x) by {
        if x == v {
            assert forall|i: int| 0 <= i < p.len() implies #[trigger] np[p[i] as int] == p.take(i + 1) by {
                if i < p.len() - 1 {
                    assert(done.contains(p[i]));
                } else {
                    assert(p.take(i + 1) =~= p);
                }
            }
        } else {
            let q = paths[x as int];
            assert(path_ok_at(a, paths, done, x));
            assert forall|i: int| 0 <= i < q.len() implies #[trigger] np[q[i] as int] == q.take(i + 1) by {
                if i < q.len() - 1 {
                    assert(done.contains(q[i]));
                }
                assert(paths[q[i] as int] == q.take(i + 1));
            }
        }
    }
}

/// More nodes being done keeps the paths as they were described.
pub(crate) proof fn lemma_paths_more_done(
    a: Seq<Set<usize>>,
    paths: Seq<Seq<usize>>,
    vis: Set<usize>,
    done: Set<usize>,
    more: Set<usize>,
)
    requires
        paths_ok(a, paths, vis, done),
        done.subset_of(more),
    ensures
        paths_ok(a, paths, vis, more),
{
    assert forall|x: usize| #[trigger] vis.contains(x) implies path_ok_at(a, paths, more, x) by {
        assert(path_ok_at(a, paths, done, x));
    }
}

/// `{u, w}` joins a node to the node it was discovered from, which was
/// discovered earlier.
pub(crate) open spec fn tree_edge(rank: Seq<nat>, parent: Seq<usize>, u: usize, w: usize) -> bool {
    ||| parent[w as int] == u && rank[u as int] < rank[w as int]
    ||| parent[u as int] == w && rank[w as int] < rank[u as int]
}

/// The position, among the first `k` of `c`, of a node of greatest rank.
pub(crate) proof fn lemma_max_rank_index(c: Seq<usize>, rank: Seq<nat>, k: int) -> (m: int)
    requires
        1 <= k <= c.len(),
    ensures
        0 <= m < k,
        forall|i: int| 0 <= i < k ==> rank[c[i] as int] <= rank[c[m] as int],
    decreases k,
{
    if k == 1 {
        0
    } else {
        let m0 = lemma_max_rank_index(c, rank, k - 1);
        if rank[c[k - 1] as int] > rank[c[m0] as int] {
            k - 1
        } else {
            m0
        }
    }
}

/// A graph whose every edge joins a node to its parent of smaller rank has no
/// simple cycle: the node of greatest rank on it would have two parents.
pub(crate) proof fn lemma_tree_has_no_cycle(a: Seq<Set<usize>>, rank: Seq<nat>, parent: Seq<usize>, c: Seq<usize>)
    requires
        forall|u: usize, w: usize| #[trigger] adj(a, u, w) ==> tree_edge(rank, parent, u, w),
    ensures
        !is_simple_cycle(a, c),
{
    if !is_simple_cycle(a, c) {
        return;
    }
    let k = c.len() as int;
    let m = lemma_max_rank_index(c, rank, k);
    let nx = next_index(c, m);
    let p = if m == 0 {
        k - 1
    } else {
        m - 1
    };
    assert(adj(a, c[m], c[nx]));
    assert(adj(a, c[p], c[next_index(c, p)]));
    assert(next_index(c, p) == m);
    assert(rank[c[nx] as int] <= rank[c[m] as int]);
    assert(rank[c[p] as int] <= rank[c[m] as int]);
    assert(c[p] == c[nx]);
    assert(p != nx);
}

} // verus!
