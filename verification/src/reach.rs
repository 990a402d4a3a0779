//! Paths in a graph with successor lists, and what can be reached along them.

use vstd::prelude::*;

verus! {

/// Whether `v` stands in the successor list of `u`.
pub open spec fn edge(adj: Seq<Seq<usize>>, u: usize, v: usize) -> bool {
    (u as int) < adj.len() && adj[u as int].contains(v)
}

/// Whether each node of `p` but the last has the next one as a successor.
pub open spec fn is_path(adj: Seq<Seq<usize>>, p: Seq<usize>) -> bool {
    p.len() >= 1 && forall|i: int| 0 <= i < p.len() - 1 ==> edge(adj, #[trigger] p[i], p[i + 1])
}

/// Whether `p` is a path from `u` to `v`.
pub open spec fn joins(adj: Seq<Seq<usize>>, p: Seq<usize>, u: usize, v: usize) -> bool {
    is_path(adj, p) && p[0] == u && p.last() == v
}

/// Whether a path leads from `u` to `v`; every node reaches itself.
pub open spec fn reach(adj: Seq<Seq<usize>>, u: usize, v: usize) -> bool {
    exists|p: Seq<usize>| joins(adj, p, u, v)
}

/// Whether `u` and `v` reach one another.
pub open spec fn mutual(adj: Seq<Seq<usize>>, u: usize, v: usize) -> bool {
    reach(adj, u, v) && reach(adj, v, u)
}

/// Every node reaches itself.
pub proof fn lemma_reach_self(adj: Seq<Seq<usize>>, u: usize)
    ensures
        reach(adj, u, u),
{
    assert(joins(adj, seq![u], u, u));
}

/// A node reaches its successors.
pub proof fn lemma_reach_edge(adj: Seq<Seq<usize>>, u: usize, v: usize)
    requires
        edge(adj, u, v),
    ensures
        reach(adj, u, v),
{
    let p = seq![u, v];
    assert(p[0] == u && p[1] == v);
    assert(joins(adj, p, u, v));
}

/// Two paths, one after the other, are a path.
pub proof fn lemma_join_paths(adj: Seq<Seq<usize>>, p: Seq<usize>, q: Seq<usize>)
    requires
        is_path(adj, p),
        is_path(adj, q),
        p.last() == q[0],
    ensures
        joins(adj, p + q.skip(1), p[0], q.last()),
{
    let r = p + q.skip(1);
    assert forall|i: int| 0 <= i < r.len() - 1 implies edge(adj, #[trigger] r[i], r[i + 1]) by {
        if i < p.len() - 1 {
            assert(r[i] == p[i] && r[i + 1] == p[i + 1]);
        } else if i == p.len() - 1 {
            assert(r[i] == q[0]);
            assert(r[i + 1] == q[1]);
        } else {
            let k = i - p.len() + 1;
            assert(r[i] == q[k] && r[i + 1] == q[k + 1]);
        }
    }
    if q.len() == 1 {
        assert(r =~= p);
    } else {
        assert(r.last() == q.last());
    }
}

/// What reaches a node reaches what the node reaches.
pub proof fn lemma_reach_trans(adj: Seq<Seq<usize>>, u: usize, v: usize, w: usize)
    requires
        reach(adj, u, v),
        reach(adj, v, w),
    ensures
        reach(adj, u, w),
{
    let p = choose|p: Seq<usize>| joins(adj, p, u, v);
    let q = choose|q: Seq<usize>| joins(adj, q, v, w);
    lemma_join_paths(adj, p, q);
    assert(joins(adj, p + q.skip(1), u, w));
}

/// The beginning of a path is a path.
pub proof fn lemma_path_take(adj: Seq<Seq<usize>>, p: Seq<usize>, k: int)
    requires
        is_path(adj, p),
        1 <= k <= p.len(),
    ensures
        is_path(adj, p.take(k)),
        p.take(k)[0] == p[0],
        p.take(k).last() == p[k - 1],
{
    let q = p.take(k);
    assert forall|i: int| 0 <= i < q.len() - 1 implies edge(adj, #[trigger] q[i], q[i + 1]) by {
        assert(q[i] == p[i] && q[i + 1] == p[i + 1]);
    }
}

/// The end of a path is a path.
pub proof fn lemma_path_from(adj: Seq<Seq<usize>>, p: Seq<usize>, k: int)
    requires
        is_path(adj, p),
        0 <= k < p.len(),
    ensures
        is_path(adj, p.skip(k)),
        p.skip(k)[0] == p[k],
        p.skip(k).last() == p.last(),
{
    let q = p.skip(k);
    assert forall|i: int| 0 <= i < q.len() - 1 implies edge(adj, #[trigger] q[i], q[i + 1]) by {
        assert(q[i] == p[i + k] && q[i + 1] == p[i + k + 1]);
        assert(edge(adj, p[i + k], p[i + k + 1]));
    }
}

/// Every node of a path reaches the end of the path, and the beginning
/// reaches it.
pub proof fn lemma_path_reach(adj: Seq<Seq<usize>>, p: Seq<usize>, k: int)
    requires
        is_path(adj, p),
        0 <= k < p.len(),
    ensures
        reach(adj, p[0], p[k]),
        reach(adj, p[k], p.last()),
{
    lemma_path_take(adj, p, k + 1);
    assert(joins(adj, p.take(k + 1), p[0], p[k]));
    lemma_path_from(adj, p, k);
    assert(joins(adj, p.skip(k), p[k], p.last()));
}

/// In a graph whose successors are nodes, what a node reaches is a node.
pub proof fn lemma_reach_within(adj: Seq<Seq<usize>>, u: usize, v: usize)
    requires
        crate::graph::closed_lists(adj),
        reach(adj, u, v),
        u < adj.len(),
    ensures
        v < adj.len(),
{
    let p = choose|p: Seq<usize>| joins(adj, p, u, v);
    lemma_path_within(adj, p, p.len() - 1);
}

/// In a graph whose successors are nodes, a path from a node stays among the
/// nodes.
pub proof fn lemma_path_within(adj: Seq<Seq<usize>>, p: Seq<usize>, k: int)
    requires
        crate::graph::closed_lists(adj),
        is_path(adj, p),
        p[0] < adj.len(),
        0 <= k < p.len(),
    ensures
        p[k] < adj.len(),
    decreases k,
{
    if k > 0 {
        lemma_path_within(adj, p, k - 1);
        assert(edge(adj, p[k - 1], p[k - 1 + 1]));
        let list = adj[p[k - 1] as int];
        let j = choose|j: int| 0 <= j < list.len() && list[j] == p[k];
        assert(adj[p[k - 1] as int][j] < adj.len());
    }
}

} // verus!
