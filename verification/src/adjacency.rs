//! Successor lists of a graph, each in the order that a traversal asks for.
//!
//! The graph is given as a list of edges between the nodes `0..n`. The
//! successors of a node are listed once each, in the relative order in which
//! they appear in a given arrangement of the nodes: this is the tie-break of
//! the depth-first search.

use vstd::prelude::*;
use crate::graph::{closed_lists, is_arrangement, lists};

verus! {

/// The nodes that an edge leads to from `u`.
pub open spec fn leads(edges: Seq<(usize, usize)>, u: usize) -> spec_fn(usize) -> bool {
    |v: usize| edges.contains((u, v))
}

/// The successors of `u`, in the order in which `order` lists them.
pub open spec fn successors(edges: Seq<(usize, usize)>, order: Seq<usize>, u: usize) -> Seq<
    usize,
> {
    order.filter(leads(edges, u))
}

/// The successor lists of the nodes `0..n`.
pub open spec fn adjacency(n: nat, edges: Seq<(usize, usize)>, order: Seq<usize>) -> Seq<
    Seq<usize>,
> {
    Seq::new(n, |u: int| successors(edges, order, u as usize))
}

/// Every edge joins two of the nodes `0..n`.
pub open spec fn edges_within(edges: Seq<(usize, usize)>, n: nat) -> bool {
    forall|i: int| 0 <= i < edges.len() ==> (#[trigger] edges[i]).0 < n && edges[i].1 < n
}

/// Whether one of the first `i` edges leads from `u` to `v`.
pub open spec fn seen(edges: Seq<(usize, usize)>, i: int, u: usize, v: usize) -> bool {
    exists|k: int| 0 <= k < i && #[trigger] edges[k] == (u, v)
}

/// Whether one of the first `i` entries of `row` is `u`.
pub open spec fn among(row: Seq<usize>, i: int, u: usize) -> bool {
    exists|k: int| 0 <= k < i && #[trigger] row[k] == u
}

/// `n` empty lists.
fn empty_rows(n: usize) -> (rows: Vec<Vec<usize>>)
    ensures
        rows.len() == n,
        forall|u: int| 0 <= u < n ==> (#[trigger] rows[u])@ == Seq::<usize>::empty(),
{
    let mut rows: Vec<Vec<usize>> = Vec::new();
    let mut i: usize = 0;
    while i < n
        invariant
            i <= n,
            rows.len() == i,
            forall|u: int| 0 <= u < i ==> (#[trigger] rows[u])@ == Seq::<usize>::empty(),
        decreases n - i,
    {
        rows.push(Vec::new());
        i = i + 1;
    }
    rows
}

/// For each node, the nodes from which an edge leads to it.
fn incoming(n: usize, edges: &Vec<(usize, usize)>) -> (inc: Vec<Vec<usize>>)
    requires
        edges_within(edges@, n as nat),
    ensures
        inc.len() == n,
        forall|v: int, k: int|
            0 <= v < n && 0 <= k < inc[v].len() ==> edges@.contains((#[trigger] inc[v][k], v as usize)),
        forall|u: usize, v: usize|
            v < n && edges@.contains((u, v)) ==> #[trigger] inc[v as int]@.contains(u),
{
    let mut inc = empty_rows(n);
    let mut i: usize = 0;
    while i < edges.len()
        invariant
            i <= edges.len(),
            edges_within(edges@, n as nat),
            inc.len() == n,
            forall|v: int, k: int|
                0 <= v < n && 0 <= k < inc[v].len() ==> seen(
                    edges@,
                    i as int,
                    #[trigger] inc[v][k],
                    v as usize,
                ),
            forall|u: usize, v: usize|
                v < n && seen(edges@, i as int, u, v) ==> #[trigger] inc[v as int]@.contains(u),
        decreases edges.len() - i,
    {
        let u = edges[i].0;
        let v = edges[i].1;
        let ghost before = inc@;
        inc[v].push(u);
        proof {
            assert(inc[v as int]@ == before[v as int]@.push(u));
            assert forall|w: int, k: int| 0 <= w < n && 0 <= k < inc[w].len() implies seen(
                edges@,
                i + 1,
                #[trigger] inc[w][k],
                w as usize,
            ) by {
                if w == v && k == before[v as int].len() {
                    assert(edges@[i as int] == (u, v));
                } else {
                    assert(inc[w][k] == before[w][k]);
                    assert(seen(edges@, i as int, before[w][k], w as usize));
                    let j = choose|j: int|
                        0 <= j < i && #[trigger] edges@[j] == (before[w][k], w as usize);
                    assert(edges@[j] == (inc[w][k], w as usize));
                }
            }
            assert forall|a: usize, b: usize| b < n && seen(edges@, i + 1, a, b) implies #[trigger] inc[b as int]@.contains(
                a,
            ) by {
                let j = choose|j: int| 0 <= j < i + 1 && #[trigger] edges@[j] == (a, b);
                if j == i {
                    assert(inc[v as int]@[before[v as int].len() as int] == u);
                } else {
                    assert(seen(edges@, i as int, a, b));
                    assert(before[b as int]@.contains(a));
                    let k = choose|k: int| 0 <= k < before[b as int]@.len() && before[b as int]@[k] == a;
                    assert(inc[b as int]@[k] == a);
                }
            }
        }
        i = i + 1;
    }
    proof {
        assert forall|v: int, k: int| 0 <= v < n && 0 <= k < inc[v].len() implies edges@.contains(
            (#[trigger] inc[v][k], v as usize),
        ) by {
            assert(seen(edges@, i as int, inc[v][k], v as usize));
        }
        assert forall|u: usize, v: usize| v < n && edges@.contains((u, v)) implies #[trigger] inc[v as int]@.contains(
            u,
        ) by {
            let j = choose|j: int| 0 <= j < edges@.len() && edges@[j] == (u, v);
            assert(seen(edges@, i as int, u, v));
        }
    }
    inc
}

/// The elements of a filtered sequence come from the sequence.
proof fn lemma_filtered_from(order: Seq<usize>, j: int, keep: spec_fn(usize) -> bool, k: int)
    requires
        0 <= j <= order.len(),
        0 <= k < order.take(j).filter(keep).len(),
    ensures
        exists|i: int| 0 <= i < j && order[i] == #[trigger] order.take(j).filter(keep)[k],
{
    let part = order.take(j);
    let x = part.filter(keep)[k];
    assert(part.filter(keep).contains(x));
    part.lemma_filter_contains_rev(keep, x);
    let i = choose|i: int| 0 <= i < part.len() && part[i] == x;
    assert(order[i] == x);
}

/// The successor lists of the graph with the edges `edges` on the nodes
/// `0..n`, each list in the order of `order`.
pub fn arrange(n: usize, edges: &Vec<(usize, usize)>, order: &Vec<usize>) -> (adj: Vec<Vec<usize>>)
    requires
        edges_within(edges@, n as nat),
        is_arrangement(order@, n as nat),
    ensures
        adj.len() == n,
        lists(adj@) == adjacency(n as nat, edges@, order@),
        closed_lists(lists(adj@)),
{
    let inc = incoming(n, edges);
    let mut adj = empty_rows(n);
    let mut j: usize = 0;
    proof {
        assert forall|u: int| 0 <= u < n implies (#[trigger] adj[u])@ == order@.take(0).filter(
            leads(edges@, u as usize),
        ) by {
            reveal(Seq::filter);
            assert(order@.take(0) =~= Seq::<usize>::empty());
        }
    }
    while j < n
        invariant
            j <= n,
            edges_within(edges@, n as nat),
            is_arrangement(order@, n as nat),
            inc.len() == n,
            adj.len() == n,
            forall|v: int, k: int|
                0 <= v < n && 0 <= k < inc[v].len() ==> edges@.contains(
                    (#[trigger] inc[v][k], v as usize),
                ),
            forall|u: usize, v: usize|
                v < n && edges@.contains((u, v)) ==> #[trigger] inc[v as int]@.contains(u),
            forall|u: int|
                0 <= u < n ==> (#[trigger] adj[u])@ == order@.take(j as int).filter(
                    leads(edges@, u as usize),
                ),
        decreases n - j,
    {
        let v = order[j];
        let row_len = inc[v].len();
        let mut t: usize = 0;
        while t < row_len
            invariant
                j < n,
                v == order[j as int],
                v < n,
                t <= row_len,
                row_len == inc[v as int].len(),
                edges_within(edges@, n as nat),
                is_arrangement(order@, n as nat),
                inc.len() == n,
                adj.len() == n,
                forall|w: int, k: int|
                    0 <= w < n && 0 <= k < inc[w].len() ==> edges@.contains(
                        (#[trigger] inc[w][k], w as usize),
                    ),
                forall|u: int|
                    0 <= u < n ==> (#[trigger] adj[u])@ == (if among(
                        inc[v as int]@,
                        t as int,
                        u as usize,
                    ) {
                        order@.take(j as int).filter(leads(edges@, u as usize)).push(v)
                    } else {
                        order@.take(j as int).filter(leads(edges@, u as usize))
                    }),
            decreases row_len - t,
        {
            let u = inc[v][t];
            assert(edges@.contains((inc[v as int][t as int], v)));
            assert(u < n) by {
                let e = choose|e: int| 0 <= e < edges@.len() && edges@[e] == (u, v);
                assert(edges@[e].0 < n);
            }
            let len = adj[u].len();
            let ghost before = adj@;
            let ghost kept = order@.take(j as int).filter(leads(edges@, u));
            let fresh = len == 0 || adj[u][len - 1] != v;
            proof {
                if among(inc[v as int]@, t as int, u) {
                    assert(adj[u as int]@ == kept.push(v));
                    assert(!fresh);
                } else {
                    assert(adj[u as int]@ == kept);
                    if len > 0 {
                        lemma_filtered_from(order@, j as int, leads(edges@, u), len - 1);
                        let i = choose|i: int| 0 <= i < j && order@[i] == kept[len - 1];
                        assert(order@[i] != order@[j as int]);
                    }
                    assert(fresh);
                }
            }
            if fresh {
                adj[u].push(v);
            }
            proof {
                assert forall|w: int| 0 <= w < n implies (#[trigger] adj[w])@ == (if among(
                    inc[v as int]@,
                    t + 1,
                    w as usize,
                ) {
                    order@.take(j as int).filter(leads(edges@, w as usize)).push(v)
                } else {
                    order@.take(j as int).filter(leads(edges@, w as usize))
                }) by {
                    if w == u {
                        assert(inc[v as int]@[t as int] == u);
                        assert(among(inc[v as int]@, t + 1, u));
                    } else {
                        assert(adj[w] == before[w]);
                        if among(inc[v as int]@, t + 1, w as usize) {
                            let k = choose|k: int|
                                0 <= k < t + 1 && #[trigger] inc[v as int]@[k] == w as usize;
                            assert(k < t);
                            assert(among(inc[v as int]@, t as int, w as usize));
                        }
                        if among(inc[v as int]@, t as int, w as usize) {
                            let k = choose|k: int|
                                0 <= k < t && #[trigger] inc[v as int]@[k] == w as usize;
                            assert(among(inc[v as int]@, t + 1, w as usize));
                        }
                    }
                }
            }
            t = t + 1;
        }
        proof {
            assert forall|u: int| 0 <= u < n implies (#[trigger] adj[u])@ == order@.take(
                j + 1,
            ).filter(leads(edges@, u as usize)) by {
                let keep = leads(edges@, u as usize);
                let part = order@.take(j as int);
                order@.lemma_take_succ_push(j as int);
                part.lemma_filter_push(v, keep);
                if among(inc[v as int]@, t as int, u as usize) {
                    let k = choose|k: int| 0 <= k < t && #[trigger] inc[v as int]@[k] == u as usize;
                    assert(edges@.contains((inc[v as int][k], v)));
                    assert(keep(v));
                } else {
                    if keep(v) {
                        assert(edges@.contains((u as usize, v)));
                        assert(inc[v as int]@.contains(u as usize));
                        let k = choose|k: int|
                            0 <= k < inc[v as int]@.len() && inc[v as int]@[k] == u as usize;
                        assert(among(inc[v as int]@, t as int, u as usize));
                    }
                }
            }
        }
        j = j + 1;
    }
    proof {
        assert(order@.take(n as int) =~= order@);
        assert(lists(adj@) =~= adjacency(n as nat, edges@, order@));
        assert forall|u: int, k: int|
            0 <= u < lists(adj@).len() && 0 <= k < lists(adj@)[u].len() implies (
        #[trigger] lists(adj@)[u][k] as int) < lists(adj@).len() by {
            lemma_filtered_from(order@, n as int, leads(edges@, u as usize), k);
        }
    }
    adj
}

} // verus!
