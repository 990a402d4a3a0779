//! Why the two searches of Kosaraju find the classes of the nodes that reach
//! one another.
//!
//! The first search finishes, of each class, one node after everything that
//! the class reaches. The second search runs against the edges and tries the
//! nodes in the reverse of that order: the root of each of its trees is the
//! node of its class that was finished last, and the tree is the class.

use vstd::prelude::*;
use crate::graph::{closed_lists, depth_first, is_arrangement, lemma_covers, Trace};
use crate::labels::{lemma_place_holds, lemma_place_of, place};
use crate::reach::{edge, is_path, joins, lemma_reach_trans, mutual, reach};
use crate::scc::{groups, lemma_groups_scattered, lemma_groups_within, lemma_reverse_arrangement};
use crate::visit::{crowned, lemma_depth_first, planted, short_lists, topped};

verus! {

/// Whether `h` has the edges of `g`, each turned round.
pub open spec fn opposite(g: Seq<Seq<usize>>, h: Seq<Seq<usize>>) -> bool {
    &&& g.len() == h.len()
    &&& forall|u: usize, v: usize| #[trigger] edge(h, u, v) ==> edge(g, v, u)
    &&& forall|u: usize, v: usize| #[trigger] edge(g, u, v) ==> edge(h, v, u)
}

/// Two nodes stand in the same part exactly if they reach one another in
/// the graph `adj`.
pub open spec fn classes(adj: Seq<Seq<usize>>, parts: Seq<Seq<usize>>) -> bool {
    forall|g: int, k: int, h: int, l: int|
        0 <= g < parts.len() && 0 <= k < parts[g].len() && 0 <= h < parts.len() && 0 <= l
            < parts[h].len() ==> ((g == h) <==> mutual(
            adj,
            #[trigger] parts[g][k],
            #[trigger] parts[h][l],
        ))
}

/// A path, read backwards, is a path of the opposite graph.
pub proof fn lemma_turn_path(g: Seq<Seq<usize>>, h: Seq<Seq<usize>>, p: Seq<usize>)
    requires
        opposite(g, h),
        is_path(g, p),
    ensures
        joins(h, p.reverse(), p.last(), p[0]),
{
    let r = p.reverse();
    assert forall|i: int| 0 <= i < r.len() - 1 implies edge(h, #[trigger] r[i], r[i + 1]) by {
        let j = p.len() - 2 - i;
        assert(r[i] == p[j + 1] && r[i + 1] == p[j]);
        assert(edge(g, p[j], p[j + 1]));
    }
}

/// What a node reaches in a graph reaches the node in the opposite graph.
pub proof fn lemma_turn_reach(g: Seq<Seq<usize>>, h: Seq<Seq<usize>>, u: usize, v: usize)
    requires
        opposite(g, h),
    ensures
        reach(g, u, v) <==> reach(h, v, u),
{
    if reach(g, u, v) {
        let p = choose|p: Seq<usize>| joins(g, p, u, v);
        lemma_turn_path(g, h, p);
    }
    if reach(h, v, u) {
        let p = choose|p: Seq<usize>| joins(h, p, v, u);
        lemma_turn_path(h, g, p);
    }
}

/// Along a path the trees of the search do not get later.
pub proof fn lemma_tree_order(adj: Seq<Seq<usize>>, order: Seq<usize>, t: Trace, p: Seq<usize>, k: int)
    requires
        planted(adj, order, t),
        is_path(adj, p),
        0 <= k < p.len(),
    ensures
        place(order, t.tree[p[k] as int]) <= place(order, t.tree[p[0] as int]),
    decreases k,
{
    if k > 0 {
        lemma_tree_order(adj, order, t, p, k - 1);
        assert(edge(adj, p[k - 1], p[k - 1 + 1]));
    }
}

/// The place of a node in the reverse of an arrangement.
pub proof fn lemma_place_reverse(s: Seq<usize>, n: nat, x: usize)
    requires
        is_arrangement(s, n),
        x < n,
    ensures
        place(s.reverse(), x) == n - 1 - place(s, x),
        0 <= place(s, x) < n,
{
    lemma_covers(s, n);
    lemma_place_holds(s, x);
    lemma_reverse_arrangement(s, n);
    let j = place(s, x);
    assert(s.reverse()[n - 1 - j] == x);
    lemma_place_of(s.reverse(), n - 1 - j);
}

/// Two nodes that reach one another stand in the same tree of a search.
proof fn lemma_class_in_tree(adj: Seq<Seq<usize>>, order: Seq<usize>, t: Trace, u: usize, v: usize)
    requires
        is_arrangement(order, adj.len()),
        planted(adj, order, t),
        mutual(adj, u, v),
        u < adj.len(),
        v < adj.len(),
    ensures
        t.tree[u as int] == t.tree[v as int],
{
    let n = adj.len();
    let p = choose|p: Seq<usize>| joins(adj, p, u, v);
    lemma_tree_order(adj, order, t, p, p.len() - 1);
    let q = choose|q: Seq<usize>| joins(adj, q, v, u);
    lemma_tree_order(adj, order, t, q, q.len() - 1);
    lemma_covers(order, n);
    let a = t.tree[u as int];
    let b = t.tree[v as int];
    assert(a < n && b < n);
    lemma_place_holds(order, a);
    lemma_place_holds(order, b);
}

/// In the second search, every node and the root of its tree reach one
/// another.
proof fn lemma_root_in_class(
    g: Seq<Seq<usize>>,
    h: Seq<Seq<usize>>,
    done: Seq<usize>,
    t: Trace,
    v: usize,
)
    requires
        closed_lists(g),
        closed_lists(h),
        opposite(g, h),
        is_arrangement(done, g.len()),
        crowned(g, done),
        planted(h, done.reverse(), t),
        v < g.len(),
    ensures
        mutual(g, v, t.tree[v as int]),
{
    let n = g.len();
    let order = done.reverse();
    let r = t.tree[v as int];
    lemma_reverse_arrangement(done, n);
    lemma_turn_reach(g, h, v, r);
    assert(reach(g, v, r));
    assert(topped(g, done, v, r));
    let c = choose|c: usize| #[trigger]
        mutual(g, v, c) && c < g.len() && place(done, c) >= place(done, r);
    lemma_turn_reach(g, h, v, c);
    lemma_turn_reach(g, h, c, v);
    lemma_class_in_tree(h, order, t, v, c);
    assert(t.tree[c as int] == r);
    lemma_place_reverse(done, n, c);
    lemma_place_reverse(done, n, r);
    assert(place(order, r) <= place(order, c));
    lemma_covers(done, n);
    lemma_place_holds(done, c);
    lemma_place_holds(done, r);
    assert(c == r);
}

/// In the second search, two nodes stand in the same tree exactly if they
/// reach one another.
pub proof fn lemma_trees_are_classes(
    g: Seq<Seq<usize>>,
    h: Seq<Seq<usize>>,
    done: Seq<usize>,
    t: Trace,
    u: usize,
    v: usize,
)
    requires
        closed_lists(g),
        closed_lists(h),
        opposite(g, h),
        is_arrangement(done, g.len()),
        crowned(g, done),
        planted(h, done.reverse(), t),
        u < g.len(),
        v < g.len(),
    ensures
        t.tree[u as int] == t.tree[v as int] <==> mutual(g, u, v),
{
    let n = g.len();
    lemma_reverse_arrangement(done, n);
    if mutual(g, u, v) {
        lemma_turn_reach(g, h, u, v);
        lemma_turn_reach(g, h, v, u);
        lemma_class_in_tree(h, done.reverse(), t, u, v);
    }
    if t.tree[u as int] == t.tree[v as int] {
        let r = t.tree[u as int];
        lemma_root_in_class(g, h, done, t, u);
        lemma_root_in_class(g, h, done, t, v);
        lemma_reach_trans(g, u, r, v);
        lemma_reach_trans(g, v, r, u);
    }
}

/// The groups of the second search are the classes of the nodes that reach
/// one another.
pub proof fn lemma_groups_are_classes(
    g: Seq<Seq<usize>>,
    h: Seq<Seq<usize>>,
    done: Seq<usize>,
    t: Trace,
)
    requires
        closed_lists(g),
        closed_lists(h),
        opposite(g, h),
        is_arrangement(done, g.len()),
        crowned(g, done),
        planted(h, done.reverse(), t),
        is_arrangement(t.prefix, g.len()),
    ensures
        classes(g, groups(t.prefix, t.pred)),
{
    let n = g.len();
    let parts = groups(t.prefix, t.pred);
    lemma_groups_scattered(t.prefix, t.pred);
    lemma_groups_within(t.prefix, t.pred, n);
    assert forall|a: int, k: int, b: int, l: int|
        0 <= a < parts.len() && 0 <= k < parts[a].len() && 0 <= b < parts.len() && 0 <= l
            < parts[b].len() implies ((a == b) <==> mutual(
        g,
        #[trigger] parts[a][k],
        #[trigger] parts[b][l],
    )) by {
        let x = parts[a][k];
        let y = parts[b][l];
        assert(x < n && y < n);
        lemma_trees_are_classes(g, h, done, t, x, y);
        assert(t.tree[x as int] == parts[a][0]);
        assert(t.tree[y as int] == parts[b][0]);
        if a != b {
            assert(parts[a][0] != parts[b][0]);
        }
    }
}

/// A search has one root exactly if the first node of its order reaches
/// every node.
pub proof fn lemma_one_root(adj: Seq<Seq<usize>>, order: Seq<usize>)
    requires
        closed_lists(adj),
        short_lists(adj),
        is_arrangement(order, adj.len()),
    ensures
        depth_first(adj, order).roots.len() == 1 <==> adj.len() > 0 && forall|v: usize|
            v < adj.len() ==> reach(adj, order[0], v),
{
    let n = adj.len();
    let t = depth_first(adj, order);
    lemma_depth_first(adj, order);
    if n == 0 {
        if t.roots.len() > 0 {
            assert(t.roots[0] < n);
        }
    } else {
        let first = order[0];
        assert(t.roots.contains(t.tree[0]));
        assert(t.roots[0] == first);
        assert(t.tree[t.roots[0] as int] == t.roots[0]);
        if t.roots.len() == 1 {
            assert forall|v: usize| v < n implies reach(adj, first, v) by {
                assert(t.roots.contains(t.tree[v as int]));
                let i = choose|i: int| 0 <= i < t.roots.len() && t.roots[i] == t.tree[v as int];
                assert(reach(adj, t.tree[v as int], v));
            }
        }
        if forall|v: usize| v < n ==> reach(adj, first, v) {
            lemma_place_of(order, 0);
            lemma_covers(order, n);
            assert forall|i: int| 0 <= i < t.roots.len() implies t.roots[i] == first by {
                let r = t.roots[i];
                assert(r < n);
                assert(t.tree[r as int] == r);
                assert(reach(adj, first, r));
                let p = choose|p: Seq<usize>| joins(adj, p, first, r);
                lemma_tree_order(adj, order, t, p, p.len() - 1);
                lemma_place_holds(order, r);
            }
            if t.roots.len() > 1 {
                assert(t.roots[0] == first);
                assert(t.roots[1] == first);
            }
        }
    }
}

} // verus!
