//! What holds of a depth-first search between two of its steps, beyond the
//! bookkeeping: which nodes a finished node can lead to, and which nodes
//! reach one another.
//!
//! A node is white before it is discovered, open while it stands on the
//! stack, and finished afterwards.

use vstd::prelude::*;
use crate::graph::{
    closed_lists,
    coherent,
    depth_first,
    explore,
    forest,
    is_arrangement,
    lemma_covers,
    lemma_explore_extends,
    lemma_full,
    lemma_pop_coherent,
    lemma_push_coherent,
    lemma_room,
    lemma_skip_coherent,
    lemma_start_coherent,
    lemma_take_root_coherent,
    missing,
    on_stack,
    preds_within,
    Trace,
};
use crate::labels::{lemma_place, lemma_place_holds, lemma_place_of, place};
use crate::scc::{groups, lemma_groups_scattered};
use crate::reach::{
    edge,
    is_path,
    lemma_path_reach,
    lemma_path_take,
    lemma_path_within,
    lemma_reach_within,
    lemma_reach_self,
    lemma_reach_edge,
    lemma_reach_trans,
    mutual,
    reach,
};

verus! {

/// Whether the exploration of `v` has ended.
pub open spec fn finished(t: Trace, v: usize) -> bool {
    t.suffix.contains(v)
}

/// Whether `v` was discovered and its exploration has not ended.
pub open spec fn open_node(t: Trace, v: usize) -> bool {
    (v as int) < t.white.len() && !t.is_white(v) && !finished(t, v)
}

/// A finished node has no white successor; of an open node, the successors
/// that were handled are not white; and each open node reaches the open nodes
/// above it on the stack.
pub open spec fn guarded(adj: Seq<Seq<usize>>, stack: Seq<(usize, usize)>, t: Trace) -> bool {
    &&& forall|v: usize, w: usize| finished(t, v) && #[trigger] edge(adj, v, w) ==> !t.is_white(w)
    &&& forall|i: int, j: int|
        0 <= i < stack.len() && 0 <= j < stack[i].1 ==> !t.is_white(
            #[trigger] adj[stack[i].0 as int][j],
        )
    &&& forall|i: int, j: int|
        0 <= i <= j < stack.len() ==> reach(adj, (#[trigger] stack[i]).0, (#[trigger] stack[j]).0)
}

/// A path of finished nodes that ends in an open node.
pub open spec fn through(adj: Seq<Seq<usize>>, t: Trace, p: Seq<usize>) -> bool {
    &&& is_path(adj, p)
    &&& open_node(t, p.last())
    &&& forall|i: int| 0 <= i < p.len() - 1 ==> finished(t, #[trigger] p[i])
}

/// Whether some node that `a` reaches and that reaches `a` is unfinished, or
/// was finished no earlier than `b`.
pub open spec fn led(adj: Seq<Seq<usize>>, t: Trace, a: usize, b: usize) -> bool {
    exists|c: usize| #[trigger]
        mutual(adj, a, c) && (!finished(t, c) || place(t.suffix, c) >= place(t.suffix, b))
}

/// An open node at the end of a path of finished nodes reaches the beginning
/// of the path; and whenever a finished node reaches another, a node of its
/// own class is unfinished or was finished no earlier than the other.
pub open spec fn escorted(adj: Seq<Seq<usize>>, t: Trace) -> bool {
    &&& forall|p: Seq<usize>| #[trigger] through(adj, t, p) ==> reach(adj, p.last(), p[0])
    &&& forall|a: usize, b: usize|
        finished(t, a) && finished(t, b) && reach(adj, a, b) ==> #[trigger] led(adj, t, a, b)
}

/// What a list holds after a push.
proof fn lemma_push_holds(s: Seq<usize>, x: usize, y: usize)
    ensures
        s.push(x).contains(y) <==> (s.contains(y) || x == y),
{
    if s.contains(y) {
        let i = choose|i: int| 0 <= i < s.len() && s[i] == y;
        assert(s.push(x)[i] == y);
    }
    if x == y {
        assert(s.push(x)[s.len() as int] == y);
    }
    if s.push(x).contains(y) {
        let i = choose|i: int| 0 <= i < s.push(x).len() && s.push(x)[i] == y;
        if i < s.len() {
            assert(s[i] == y);
        }
    }
}

/// A push moves nothing, and puts a new value behind all others.
proof fn lemma_push_place(s: Seq<usize>, x: usize, y: usize)
    requires
        !s.contains(x),
    ensures
        s.contains(y) ==> place(s.push(x), y) == place(s, y) && place(s, y) < s.len(),
        place(s.push(x), x) == s.len(),
{
    if s.contains(y) {
        lemma_place_holds(s, y);
        let at = place(s, y);
        assert(0 <= at < s.len() && s[at] == y && forall|k: int| 0 <= k < at ==> s[k] != y);
        lemma_place(s.push(x), y, at);
    }
    lemma_place(s.push(x), x, s.len() as int);
}

/// Before the search begins nothing is finished.
proof fn lemma_start_guarded(adj: Seq<Seq<usize>>)
    ensures
        guarded(adj, Seq::empty(), Trace::start(adj.len())),
        escorted(adj, Trace::start(adj.len())),
{
}

/// Taking a root keeps the search guarded and escorted.
proof fn lemma_take_root_guarded(adj: Seq<Seq<usize>>, t: Trace, r: usize)
    requires
        closed_lists(adj),
        coherent(adj, Seq::empty(), t),
        guarded(adj, Seq::empty(), t),
        escorted(adj, t),
        t.is_white(r),
    ensures
        guarded(adj, seq![(r, 0usize)], t.take_root(r)),
        escorted(adj, t.take_root(r)),
{
    let s = t.take_root(r);
    let stack = seq![(r, 0usize)];
    lemma_reach_self(adj, r);
    assert forall|v: usize, w: usize| finished(s, v) && #[trigger] edge(adj, v, w) implies !s.is_white(
        w,
    ) by {
        assert(!t.is_white(w));
    }
    assert forall|p: Seq<usize>| #[trigger] through(adj, s, p) implies reach(adj, p.last(), p[0]) by {
        let last = p.last();
        if last == r {
            lemma_alone(adj, t, p);
        } else {
            assert(!t.is_white(last));
            assert(t.suffix.contains(last) || on_stack(Seq::<(usize, usize)>::empty(), last));
        }
    }
    assert forall|a: usize, b: usize|
        finished(s, a) && finished(s, b) && reach(adj, a, b) implies #[trigger] led(adj, s, a, b) by {
        assert(led(adj, t, a, b));
        let c = choose|c: usize| #[trigger]
            mutual(adj, a, c) && (!finished(t, c) || place(t.suffix, c) >= place(t.suffix, b));
        assert(mutual(adj, a, c) && (!finished(s, c) || place(s.suffix, c) >= place(s.suffix, b)));
    }
}

/// A path of finished nodes that ends in a white node holds this node only.
proof fn lemma_alone(adj: Seq<Seq<usize>>, t: Trace, p: Seq<usize>)
    requires
        is_path(adj, p),
        t.is_white(p.last()),
        forall|i: int| 0 <= i < p.len() - 1 ==> finished(t, #[trigger] p[i]),
        forall|v: usize, w: usize| finished(t, v) && #[trigger] edge(adj, v, w) ==> !t.is_white(w),
    ensures
        p.len() == 1,
        reach(adj, p.last(), p[0]),
{
    if p.len() > 1 {
        let k = p.len() - 2;
        assert(finished(t, p[k]));
        assert(edge(adj, p[k], p[k + 1]));
    }
    lemma_reach_self(adj, p[0]);
}

/// Finishing a node keeps the search guarded and escorted.
proof fn lemma_pop_guarded(adj: Seq<Seq<usize>>, stack: Seq<(usize, usize)>, t: Trace)
    requires
        closed_lists(adj),
        coherent(adj, stack, t),
        guarded(adj, stack, t),
        escorted(adj, t),
        stack.len() > 0,
        stack.last().1 >= adj[stack.last().0 as int].len(),
    ensures
        guarded(adj, stack.drop_last(), t.finish(stack.last().0)),
        escorted(adj, t.finish(stack.last().0)),
{
    let n = adj.len();
    let top = stack.len() - 1;
    let u = stack.last().0;
    let s = t.finish(u);
    let rest = stack.drop_last();
    assert(stack[top].0 == u);
    assert(!t.suffix.contains(u));
    assert forall|x: usize| #[trigger] finished(s, x) <==> (finished(t, x) || x == u) by {
        lemma_push_holds(t.suffix, u, x);
    }
    assert forall|v: usize, w: usize| finished(s, v) && #[trigger] edge(adj, v, w) implies !s.is_white(
        w,
    ) by {
        if v == u {
            let list = adj[u as int];
            let j = choose|j: int| 0 <= j < list.len() && list[j] == w;
            assert(!t.is_white(adj[stack[top].0 as int][j]));
        }
    }
    assert forall|i: int, j: int| 0 <= i < rest.len() && 0 <= j < rest[i].1 implies !s.is_white(
        #[trigger] adj[rest[i].0 as int][j],
    ) by {
        assert(rest[i] == stack[i]);
        assert(!t.is_white(adj[stack[i].0 as int][j]));
    }
    assert forall|i: int, j: int| 0 <= i <= j < rest.len() implies reach(
        adj,
        (#[trigger] rest[i]).0,
        (#[trigger] rest[j]).0,
    ) by {
        assert(rest[i] == stack[i] && rest[j] == stack[j]);
    }
    lemma_pop_through(adj, stack, t);
    lemma_pop_led(adj, stack, t);
}

/// Finishing a node keeps the first half of [`escorted`].
proof fn lemma_pop_through(adj: Seq<Seq<usize>>, stack: Seq<(usize, usize)>, t: Trace)
    requires
        closed_lists(adj),
        coherent(adj, stack, t),
        guarded(adj, stack, t),
        escorted(adj, t),
        stack.len() > 0,
    ensures
        forall|p: Seq<usize>| #[trigger]
            through(adj, t.finish(stack.last().0), p) ==> reach(adj, p.last(), p[0]),
{
    let n = adj.len();
    let top = stack.len() - 1;
    let u = stack.last().0;
    let s = t.finish(u);
    assert(stack[top].0 == u);
    assert(!t.suffix.contains(u));
    assert forall|x: usize| #[trigger] finished(s, x) <==> (finished(t, x) || x == u) by {
        lemma_push_holds(t.suffix, u, x);
    }
    assert forall|p: Seq<usize>| #[trigger] through(adj, s, p) implies reach(adj, p.last(), p[0]) by {
        let g = p.last();
        assert(open_node(t, g) && g != u);
        assert(t.suffix.contains(g) || on_stack(stack, g));
        let i = choose|i: int| 0 <= i < stack.len() && (#[trigger] stack[i]).0 == g;
        assert(reach(adj, stack[i].0, stack[top].0));
        if p.contains(u) {
            lemma_place_holds(p, u);
            let m = place(p, u);
            assert(0 <= m < p.len() && p[m] == u && forall|k: int| 0 <= k < m ==> p[k] != u);
            let q = p.take(m + 1);
            lemma_path_take(adj, p, m + 1);
            assert forall|k: int| 0 <= k < q.len() - 1 implies finished(t, #[trigger] q[k]) by {
                assert(q[k] == p[k]);
                assert(finished(s, p[k]));
            }
            assert(through(adj, t, q));
            lemma_reach_trans(adj, g, u, p[0]);
        } else {
            assert forall|k: int| 0 <= k < p.len() - 1 implies finished(t, #[trigger] p[k]) by {
                assert(finished(s, p[k]));
                assert(p.contains(p[k]));
            }
            assert(through(adj, t, p));
        }
    }
}

/// Finishing a node keeps the second half of [`escorted`].
proof fn lemma_pop_led(adj: Seq<Seq<usize>>, stack: Seq<(usize, usize)>, t: Trace)
    requires
        closed_lists(adj),
        coherent(adj, stack, t),
        guarded(adj, stack, t),
        escorted(adj, t),
        stack.len() > 0,
    ensures
        forall|a: usize, b: usize|
            finished(t.finish(stack.last().0), a) && finished(t.finish(stack.last().0), b) && reach(
                adj,
                a,
                b,
            ) ==> #[trigger] led(adj, t.finish(stack.last().0), a, b),
{
    let n = adj.len();
    let top = stack.len() - 1;
    let u = stack.last().0;
    let s = t.finish(u);
    assert(stack[top].0 == u);
    assert(!t.suffix.contains(u));
    assert forall|x: usize| #[trigger] finished(s, x) <==> (finished(t, x) || x == u) by {
        lemma_push_holds(t.suffix, u, x);
    }
    assert forall|a: usize, b: usize|
        finished(s, a) && finished(s, b) && reach(adj, a, b) implies #[trigger] led(adj, s, a, b) by {
        lemma_push_place(t.suffix, u, b);
        lemma_push_holds(t.suffix, u, b);
        lemma_place_holds(s.suffix, b);
        if a == u {
            lemma_reach_self(adj, u);
            assert(mutual(adj, a, u) && (!finished(s, u) || place(s.suffix, u) >= place(
                s.suffix,
                b,
            )));
        } else if b == u {
            let p = choose|p: Seq<usize>| crate::reach::joins(adj, p, a, u);
            lemma_first_open(adj, t, p, p.len() - 1);
            let m = choose|m: int|
                0 < m < p.len() && open_node(t, p[m]) && forall|k: int|
                    0 <= k < m ==> finished(t, #[trigger] p[k]);
            let q = p.take(m + 1);
            let z = p[m];
            lemma_path_take(adj, p, m + 1);
            assert forall|k: int| 0 <= k < q.len() - 1 implies finished(t, #[trigger] q[k]) by {
                assert(q[k] == p[k]);
            }
            assert(through(adj, t, q));
            lemma_path_reach(adj, p, m);
            assert(mutual(adj, a, z) && (!finished(s, z) || place(s.suffix, z) >= place(
                s.suffix,
                b,
            )));
        } else {
            assert(led(adj, t, a, b));
            let c = choose|c: usize| #[trigger]
                mutual(adj, a, c) && (!finished(t, c) || place(t.suffix, c) >= place(t.suffix, b));
            lemma_push_place(t.suffix, u, c);
            assert(mutual(adj, a, c) && (!finished(s, c) || place(s.suffix, c) >= place(
                s.suffix,
                b,
            )));
        }
    }
}

/// On a path from a finished node, the first node that is not finished is
/// open.
proof fn lemma_first_open(adj: Seq<Seq<usize>>, t: Trace, p: Seq<usize>, upto: int)
    requires
        closed_lists(adj),
        t.white.len() == adj.len(),
        is_path(adj, p),
        finished(t, p[0]),
        p[0] < adj.len(),
        0 <= upto < p.len(),
        !finished(t, p[upto]),
        forall|v: usize, w: usize| finished(t, v) && #[trigger] edge(adj, v, w) ==> !t.is_white(w),
    ensures
        exists|m: int|
            0 < m < p.len() && open_node(t, p[m]) && forall|k: int|
                0 <= k < m ==> finished(t, #[trigger] p[k]),
    decreases upto,
{
    if forall|k: int| 0 <= k < upto ==> finished(t, #[trigger] p[k]) {
        assert(finished(t, p[upto - 1]));
        assert(edge(adj, p[upto - 1], p[upto - 1 + 1]));
        lemma_path_within(adj, p, upto);
        assert(open_node(t, p[upto]));
    } else {
        let k = choose|k: int| 0 <= k < upto && !finished(t, #[trigger] p[k]);
        lemma_first_open(adj, t, p, k);
    }
}

/// Passing over a discovered successor keeps the search guarded.
proof fn lemma_skip_guarded(adj: Seq<Seq<usize>>, stack: Seq<(usize, usize)>, t: Trace)
    requires
        coherent(adj, stack, t),
        guarded(adj, stack, t),
        stack.len() > 0,
        stack.last().1 < adj[stack.last().0 as int].len(),
        stack.last().1 < usize::MAX,
        !t.is_white(adj[stack.last().0 as int][stack.last().1 as int]),
    ensures
        guarded(
            adj,
            stack.update(stack.len() - 1, (stack.last().0, (stack.last().1 + 1) as usize)),
            t,
        ),
{
    let top = stack.len() - 1;
    let next = stack.update(top, (stack.last().0, (stack.last().1 + 1) as usize));
    assert forall|i: int, j: int| 0 <= i < next.len() && 0 <= j < next[i].1 implies !t.is_white(
        #[trigger] adj[next[i].0 as int][j],
    ) by {
        assert(next[i].0 == stack[i].0);
        if i < top || j < stack[top].1 {
            assert(!t.is_white(adj[stack[i].0 as int][j]));
        }
    }
    assert forall|i: int, j: int| 0 <= i <= j < next.len() implies reach(
        adj,
        (#[trigger] next[i]).0,
        (#[trigger] next[j]).0,
    ) by {
        assert(next[i].0 == stack[i].0 && next[j].0 == stack[j].0);
    }
}

/// Discovering a node keeps the search guarded and escorted.
proof fn lemma_push_guarded(adj: Seq<Seq<usize>>, stack: Seq<(usize, usize)>, t: Trace)
    requires
        closed_lists(adj),
        coherent(adj, stack, t),
        guarded(adj, stack, t),
        escorted(adj, t),
        stack.len() > 0,
        stack.last().1 < adj[stack.last().0 as int].len(),
        stack.last().1 < usize::MAX,
        t.is_white(adj[stack.last().0 as int][stack.last().1 as int]),
    ensures
        guarded(
            adj,
            stack.update(stack.len() - 1, (stack.last().0, (stack.last().1 + 1) as usize)).push(
                (adj[stack.last().0 as int][stack.last().1 as int], 0),
            ),
            t.discover(adj[stack.last().0 as int][stack.last().1 as int], stack.last().0),
        ),
        escorted(
            adj,
            t.discover(adj[stack.last().0 as int][stack.last().1 as int], stack.last().0),
        ),
{
    let top = stack.len() - 1;
    let u = stack.last().0;
    let k = stack.last().1;
    let v = adj[u as int][k as int];
    let moved = stack.update(top, (u, (k + 1) as usize));
    let grown = moved.push((v, 0usize));
    let s = t.discover(v, u);
    assert(stack[top].0 == u);
    assert(adj[u as int].contains(v));
    assert(edge(adj, u, v));
    lemma_reach_edge(adj, u, v);
    lemma_reach_self(adj, v);
    assert forall|x: usize, w: usize| finished(s, x) && #[trigger] edge(adj, x, w) implies !s.is_white(
        w,
    ) by {
        assert(!t.is_white(w));
    }
    assert forall|i: int, j: int| 0 <= i < grown.len() && 0 <= j < grown[i].1 implies !s.is_white(
        #[trigger] adj[grown[i].0 as int][j],
    ) by {
        if i <= top {
            assert(grown[i].0 == stack[i].0);
            if i < top || j < k {
                assert(!t.is_white(adj[stack[i].0 as int][j]));
            }
        }
    }
    assert forall|i: int, j: int| 0 <= i <= j < grown.len() implies reach(
        adj,
        (#[trigger] grown[i]).0,
        (#[trigger] grown[j]).0,
    ) by {
        if j <= top {
            assert(grown[i].0 == stack[i].0 && grown[j].0 == stack[j].0);
        } else if i <= top {
            assert(grown[i].0 == stack[i].0);
            assert(reach(adj, stack[i].0, stack[top].0));
            lemma_reach_trans(adj, stack[i].0, u, v);
        }
    }
    assert forall|p: Seq<usize>| #[trigger] through(adj, s, p) implies reach(adj, p.last(), p[0]) by {
        if p.last() == v {
            lemma_alone(adj, t, p);
        } else {
            assert(through(adj, t, p));
        }
    }
    assert forall|a: usize, b: usize|
        finished(s, a) && finished(s, b) && reach(adj, a, b) implies #[trigger] led(adj, s, a, b) by {
        assert(led(adj, t, a, b));
        let c = choose|c: usize| #[trigger]
            mutual(adj, a, c) && (!finished(t, c) || place(t.suffix, c) >= place(t.suffix, b));
        assert(mutual(adj, a, c) && (!finished(s, c) || place(s.suffix, c) >= place(s.suffix, b)));
    }
}

/// What holds of the trees of the search when the first `bound` nodes of
/// `order` were tried as roots: a discovered node stands in the tree of a
/// root that reaches it, that `order` lists no later than the node itself,
/// and that is one of the roots tried; the open nodes stand in the tree of
/// the last root; and an edge from a finished node leads into the same tree
/// or into an earlier one.
pub open spec fn rooted(
    adj: Seq<Seq<usize>>,
    order: Seq<usize>,
    bound: int,
    stack: Seq<(usize, usize)>,
    t: Trace,
) -> bool {
    &&& t.tree.len() == adj.len()
    &&& 0 <= bound <= order.len()
    &&& forall|j: int| 0 <= j < bound ==> !t.is_white(#[trigger] order[j])
    &&& forall|v: usize|
        v < adj.len() && !t.is_white(v) ==> {
            &&& (#[trigger] t.tree[v as int]) < adj.len()
            &&& !t.is_white(t.tree[v as int])
            &&& reach(adj, t.tree[v as int], v)
            &&& place(order, t.tree[v as int]) <= place(order, v)
            &&& place(order, t.tree[v as int]) < bound
        }
    &&& stack.len() > 0 ==> bound >= 1
    &&& forall|k: int|
        0 <= k < stack.len() ==> t.tree[(#[trigger] stack[k]).0 as int] == order[bound - 1]
    &&& forall|v: usize, w: usize|
        finished(t, v) && #[trigger] edge(adj, v, w) ==> place(order, t.tree[w as int]) <= place(
            order,
            t.tree[v as int],
        )
}

/// In a graph whose successors are nodes, an edge from a node leads to a
/// node.
proof fn lemma_edge_within(adj: Seq<Seq<usize>>, v: usize, w: usize)
    requires
        closed_lists(adj),
        edge(adj, v, w),
    ensures
        v < adj.len(),
        w < adj.len(),
{
    let list = adj[v as int];
    let j = choose|j: int| 0 <= j < list.len() && list[j] == w;
    assert(adj[v as int][j] < adj.len());
}

/// Before the search begins there are no trees.
proof fn lemma_start_rooted(adj: Seq<Seq<usize>>, order: Seq<usize>)
    ensures
        rooted(adj, order, 0, Seq::empty(), Trace::start(adj.len())),
{
}

/// A node that is not white when its turn comes is passed over.
proof fn lemma_pass_rooted(adj: Seq<Seq<usize>>, order: Seq<usize>, bound: int, t: Trace)
    requires
        rooted(adj, order, bound, Seq::empty(), t),
        bound < order.len(),
        !t.is_white(order[bound]),
    ensures
        rooted(adj, order, bound + 1, Seq::empty(), t),
{
}

/// Taking a root keeps the trees rooted.
proof fn lemma_take_root_rooted(adj: Seq<Seq<usize>>, order: Seq<usize>, bound: int, t: Trace)
    requires
        closed_lists(adj),
        is_arrangement(order, adj.len()),
        coherent(adj, Seq::empty(), t),
        guarded(adj, Seq::empty(), t),
        rooted(adj, order, bound, Seq::empty(), t),
        bound < order.len(),
        t.is_white(order[bound]),
    ensures
        rooted(adj, order, bound + 1, seq![(order[bound], 0usize)], t.take_root(order[bound])),
{
    let n = adj.len();
    let r = order[bound];
    let s = t.take_root(r);
    let stack = seq![(r, 0usize)];
    lemma_reach_self(adj, r);
    lemma_place_of(order, bound);
    assert forall|v: usize| v < n && !s.is_white(v) implies {
        &&& (#[trigger] s.tree[v as int]) < n
        &&& !s.is_white(s.tree[v as int])
        &&& reach(adj, s.tree[v as int], v)
        &&& place(order, s.tree[v as int]) <= place(order, v)
        &&& place(order, s.tree[v as int]) < bound + 1
    } by {
        if v != r {
            assert(!t.is_white(v));
            assert(s.tree[v as int] == t.tree[v as int]);
        }
    }
    assert forall|v: usize, w: usize| finished(s, v) && #[trigger] edge(adj, v, w) implies place(
        order,
        s.tree[w as int],
    ) <= place(order, s.tree[v as int]) by {
        lemma_edge_within(adj, v, w);
        assert(!t.is_white(w));
        assert(!t.is_white(v));
    }
}

/// Finishing a node keeps the trees rooted.
proof fn lemma_pop_rooted(
    adj: Seq<Seq<usize>>,
    order: Seq<usize>,
    bound: int,
    stack: Seq<(usize, usize)>,
    t: Trace,
)
    requires
        closed_lists(adj),
        is_arrangement(order, adj.len()),
        coherent(adj, stack, t),
        guarded(adj, stack, t),
        rooted(adj, order, bound, stack, t),
        stack.len() > 0,
        stack.last().1 >= adj[stack.last().0 as int].len(),
    ensures
        rooted(adj, order, bound, stack.drop_last(), t.finish(stack.last().0)),
{
    let n = adj.len();
    let top = stack.len() - 1;
    let u = stack.last().0;
    let s = t.finish(u);
    let rest = stack.drop_last();
    assert(stack[top].0 == u);
    assert forall|x: usize| #[trigger] finished(s, x) <==> (finished(t, x) || x == u) by {
        lemma_push_holds(t.suffix, u, x);
    }
    lemma_place_of(order, bound - 1);
    assert forall|k: int| 0 <= k < rest.len() implies s.tree[(#[trigger] rest[k]).0 as int]
        == order[bound - 1] by {
        assert(rest[k] == stack[k]);
    }
    assert forall|v: usize, w: usize| finished(s, v) && #[trigger] edge(adj, v, w) implies place(
        order,
        s.tree[w as int],
    ) <= place(order, s.tree[v as int]) by {
        if v == u && !finished(t, v) {
            lemma_edge_within(adj, v, w);
            let list = adj[u as int];
            let j = choose|j: int| 0 <= j < list.len() && list[j] == w;
            assert(!t.is_white(adj[stack[top].0 as int][j]));
            assert(place(order, t.tree[w as int]) < bound);
        }
    }
}

/// Passing over a discovered successor keeps the trees rooted.
proof fn lemma_skip_rooted(
    adj: Seq<Seq<usize>>,
    order: Seq<usize>,
    bound: int,
    stack: Seq<(usize, usize)>,
    t: Trace,
)
    requires
        rooted(adj, order, bound, stack, t),
        stack.len() > 0,
        stack.last().1 < usize::MAX,
    ensures
        rooted(
            adj,
            order,
            bound,
            stack.update(stack.len() - 1, (stack.last().0, (stack.last().1 + 1) as usize)),
            t,
        ),
{
    let next = stack.update(stack.len() - 1, (stack.last().0, (stack.last().1 + 1) as usize));
    assert forall|k: int| 0 <= k < next.len() implies t.tree[(#[trigger] next[k]).0 as int]
        == order[bound - 1] by {
        assert(next[k].0 == stack[k].0);
    }
}

/// Discovering a node keeps the trees rooted.
proof fn lemma_push_rooted(
    adj: Seq<Seq<usize>>,
    order: Seq<usize>,
    bound: int,
    stack: Seq<(usize, usize)>,
    t: Trace,
)
    requires
        closed_lists(adj),
        is_arrangement(order, adj.len()),
        coherent(adj, stack, t),
        guarded(adj, stack, t),
        rooted(adj, order, bound, stack, t),
        stack.len() > 0,
        stack.last().1 < adj[stack.last().0 as int].len(),
        stack.last().1 < usize::MAX,
        t.is_white(adj[stack.last().0 as int][stack.last().1 as int]),
    ensures
        rooted(
            adj,
            order,
            bound,
            stack.update(stack.len() - 1, (stack.last().0, (stack.last().1 + 1) as usize)).push(
                (adj[stack.last().0 as int][stack.last().1 as int], 0),
            ),
            t.discover(adj[stack.last().0 as int][stack.last().1 as int], stack.last().0),
        ),
{
    let n = adj.len();
    let top = stack.len() - 1;
    let u = stack.last().0;
    let k = stack.last().1;
    let v = adj[u as int][k as int];
    let moved = stack.update(top, (u, (k + 1) as usize));
    let grown = moved.push((v, 0usize));
    let s = t.discover(v, u);
    let c = order[bound - 1];
    assert(stack[top].0 == u);
    assert(t.tree[u as int] == c);
    assert(adj[u as int].contains(v));
    assert(edge(adj, u, v));
    lemma_reach_edge(adj, u, v);
    lemma_reach_trans(adj, c, u, v);
    lemma_place_of(order, bound - 1);
    lemma_covers(order, n);
    lemma_place_holds(order, v);
    assert(place(order, v) >= bound) by {
        if place(order, v) < bound {
            assert(!t.is_white(order[place(order, v)]));
        }
    }
    assert forall|x: usize| x < n && !s.is_white(x) implies {
        &&& (#[trigger] s.tree[x as int]) < n
        &&& !s.is_white(s.tree[x as int])
        &&& reach(adj, s.tree[x as int], x)
        &&& place(order, s.tree[x as int]) <= place(order, x)
        &&& place(order, s.tree[x as int]) < bound
    } by {
        if x != v {
            assert(!t.is_white(x));
            assert(s.tree[x as int] == t.tree[x as int]);
        }
    }
    assert forall|i: int| 0 <= i < grown.len() implies s.tree[(#[trigger] grown[i]).0 as int]
        == order[bound - 1] by {
        if i <= top {
            assert(grown[i].0 == stack[i].0);
            assert(!t.is_white(stack[i].0));
        }
    }
    assert forall|x: usize, w: usize| finished(s, x) && #[trigger] edge(adj, x, w) implies place(
        order,
        s.tree[w as int],
    ) <= place(order, s.tree[x as int]) by {
        lemma_edge_within(adj, x, w);
        assert(!t.is_white(w));
        assert(!t.is_white(x));
    }
}

/// The groups of the order of discovery are the trees of the search: every
/// node of a group stands in the tree of the first node of the group, and
/// while a tree grows the last group is the one of its root.
pub open spec fn grouped(order: Seq<usize>, bound: int, stack: Seq<(usize, usize)>, t: Trace) -> bool {
    let gs = groups(t.prefix, t.pred);
    &&& forall|g: int, k: int|
        0 <= g < gs.len() && 0 <= k < gs[g].len() ==> t.tree[(#[trigger] gs[g][k]) as int]
            == gs[g][0]
    &&& stack.len() > 0 ==> gs.len() > 0 && gs.last().len() > 0 && gs.last()[0] == order[bound - 1]
}

/// The groups depend on the predecessors of the listed nodes only.
proof fn lemma_groups_same(prefix: Seq<usize>, first: Seq<Option<usize>>, second: Seq<Option<usize>>)
    requires
        forall|i: int|
            0 <= i < prefix.len() ==> first[(#[trigger] prefix[i]) as int] == second[prefix[i] as int],
    ensures
        groups(prefix, first) == groups(prefix, second),
    decreases prefix.len(),
{
    if prefix.len() > 0 {
        let front = prefix.drop_last();
        assert forall|i: int| 0 <= i < front.len() implies first[(#[trigger] front[i]) as int]
            == second[front[i] as int] by {
            assert(front[i] == prefix[i]);
        }
        lemma_groups_same(front, first, second);
        assert(prefix[prefix.len() - 1] == prefix.last());
    }
}

/// Before the search begins there are no groups.
proof fn lemma_start_grouped(adj: Seq<Seq<usize>>, order: Seq<usize>)
    ensures
        grouped(order, 0, Seq::empty(), Trace::start(adj.len())),
{
}

/// Taking a root opens the group of its tree.
proof fn lemma_take_root_grouped(adj: Seq<Seq<usize>>, order: Seq<usize>, bound: int, t: Trace)
    requires
        coherent(adj, Seq::empty(), t),
        grouped(order, bound, Seq::empty(), t),
        t.tree.len() == adj.len(),
        0 <= bound < order.len(),
        t.is_white(order[bound]),
    ensures
        grouped(order, bound + 1, seq![(order[bound], 0usize)], t.take_root(order[bound])),
{
    let r = order[bound];
    let s = t.take_root(r);
    let before = groups(t.prefix, t.pred);
    let now = groups(s.prefix, s.pred);
    assert(s.pred =~= t.pred);
    assert(s.prefix.drop_last() =~= t.prefix);
    assert(now == before.push(seq![r]));
    lemma_groups_scattered(t.prefix, t.pred);
    assert forall|g: int, k: int| 0 <= g < now.len() && 0 <= k < now[g].len() implies s.tree[(
    #[trigger] now[g][k]) as int] == now[g][0] by {
        if g < before.len() {
            assert(now[g] == before[g]);
            lemma_listed(t, before[g][k]);
            lemma_listed(t, before[g][0]);
        }
    }
}

/// A node of the order of discovery is a node, and not white.
proof fn lemma_listed(t: Trace, v: usize)
    requires
        t.prefix.contains(v),
        forall|i: int|
            0 <= i < t.prefix.len() ==> !t.is_white(#[trigger] t.prefix[i]) && t.prefix[i]
                < t.white.len(),
    ensures
        !t.is_white(v),
        v < t.white.len(),
{
    let i = choose|i: int| 0 <= i < t.prefix.len() && t.prefix[i] == v;
    assert(!t.is_white(t.prefix[i]));
}

/// A discovered node joins the group of its tree.
proof fn lemma_push_grouped(
    adj: Seq<Seq<usize>>,
    order: Seq<usize>,
    bound: int,
    stack: Seq<(usize, usize)>,
    t: Trace,
    v: usize,
)
    requires
        coherent(adj, stack, t),
        grouped(order, bound, stack, t),
        t.tree.len() == adj.len(),
        stack.len() > 0,
        t.tree[stack.last().0 as int] == order[bound - 1],
        t.is_white(v),
    ensures
        grouped(order, bound, stack.push((v, 0usize)), t.discover(v, stack.last().0)),
{
    let u = stack.last().0;
    let s = t.discover(v, u);
    let before = groups(t.prefix, t.pred);
    let now = groups(s.prefix, s.pred);
    assert(s.prefix.drop_last() =~= t.prefix);
    assert forall|i: int| 0 <= i < t.prefix.len() implies t.pred[(#[trigger] t.prefix[i]) as int]
        == s.pred[t.prefix[i] as int] by {
        assert(!t.is_white(t.prefix[i]));
    }
    lemma_groups_same(t.prefix, t.pred, s.pred);
    assert(now == before.update(before.len() - 1, before.last().push(v)));
    lemma_groups_scattered(t.prefix, t.pred);
    assert forall|g: int, k: int| 0 <= g < now.len() && 0 <= k < now[g].len() implies s.tree[(
    #[trigger] now[g][k]) as int] == now[g][0] by {
        lemma_listed(t, before[g][0]);
        if g < before.len() - 1 || k < before[g].len() {
            assert(now[g][k] == before[g][k]);
            lemma_listed(t, before[g][k]);
        }
    }
}

/// The groups do not change when a node is finished or a successor is
/// passed over.
proof fn lemma_keep_grouped(
    order: Seq<usize>,
    bound: int,
    stack: Seq<(usize, usize)>,
    next: Seq<(usize, usize)>,
    t: Trace,
    s: Trace,
)
    requires
        grouped(order, bound, stack, t),
        s.prefix == t.prefix,
        s.pred == t.pred,
        s.tree == t.tree,
        next.len() <= stack.len(),
    ensures
        grouped(order, bound, next, s),
{
}

/// What holds of the roots of the search: every discovered node stands in
/// the tree of a root, a root stands in its own tree, the first root is the
/// first node of `order`, and an edge leads to each node from the node it was
/// discovered from.
pub open spec fn sprung(adj: Seq<Seq<usize>>, order: Seq<usize>, t: Trace) -> bool {
    &&& forall|v: usize|
        v < adj.len() && !t.is_white(v) ==> t.roots.contains(#[trigger] t.tree[v as int])
    &&& forall|i: int|
        0 <= i < t.roots.len() ==> t.tree[(#[trigger] t.roots[i]) as int] == t.roots[i]
    &&& t.roots.len() > 0 ==> order.len() > 0 && t.roots[0] == order[0]
    &&& forall|v: usize|
        v < adj.len() ==> ((#[trigger] t.pred[v as int]) matches Some(u) ==> edge(adj, u, v))
}

/// Before the search begins there are no roots.
proof fn lemma_start_sprung(adj: Seq<Seq<usize>>, order: Seq<usize>)
    ensures
        sprung(adj, order, Trace::start(adj.len())),
{
}

/// Taking a root keeps what holds of the roots.
proof fn lemma_take_root_sprung(adj: Seq<Seq<usize>>, order: Seq<usize>, bound: int, t: Trace)
    requires
        coherent(adj, Seq::empty(), t),
        rooted(adj, order, bound, Seq::empty(), t),
        sprung(adj, order, t),
        bound < order.len(),
        is_arrangement(order, adj.len()),
        t.is_white(order[bound]),
    ensures
        sprung(adj, order, t.take_root(order[bound])),
{
    let n = adj.len();
    let r = order[bound];
    let s = t.take_root(r);
    assert forall|v: usize| v < n && !s.is_white(v) implies s.roots.contains(
        #[trigger] s.tree[v as int],
    ) by {
        lemma_push_holds(t.roots, r, s.tree[v as int]);
        if v != r {
            assert(!t.is_white(v));
            assert(t.roots.contains(t.tree[v as int]));
        }
    }
    assert forall|i: int| 0 <= i < s.roots.len() implies s.tree[(#[trigger] s.roots[i]) as int]
        == s.roots[i] by {
        if i < t.roots.len() {
            assert(s.roots[i] == t.roots[i]);
            assert(!t.is_white(t.roots[i]));
        }
    }
    if bound > 0 {
        assert(!t.is_white(order[0]));
        assert(order[0] < n);
        assert(t.roots.contains(t.tree[order[0] as int]));
    }
    assert(s.pred =~= t.pred);
}

/// Discovering a node keeps what holds of the roots.
proof fn lemma_push_sprung(
    adj: Seq<Seq<usize>>,
    order: Seq<usize>,
    stack: Seq<(usize, usize)>,
    t: Trace,
    v: usize,
    u: usize,
)
    requires
        coherent(adj, stack, t),
        sprung(adj, order, t),
        t.tree.len() == adj.len(),
        t.is_white(v),
        !t.is_white(u),
        u < adj.len(),
        edge(adj, u, v),
    ensures
        sprung(adj, order, t.discover(v, u)),
{
    let n = adj.len();
    let s = t.discover(v, u);
    assert(t.roots.contains(t.tree[u as int]));
    assert forall|x: usize| x < n && !s.is_white(x) implies s.roots.contains(
        #[trigger] s.tree[x as int],
    ) by {
        if x != v {
            assert(!t.is_white(x));
            assert(t.roots.contains(t.tree[x as int]));
        }
    }
    assert forall|i: int| 0 <= i < s.roots.len() implies s.tree[(#[trigger] s.roots[i]) as int]
        == s.roots[i] by {
        assert(!t.is_white(t.roots[i]));
    }
    assert forall|x: usize| x < n implies ((#[trigger] s.pred[x as int]) matches Some(y) ==> edge(
        adj,
        y,
        x,
    )) by {
        if x != v {
            assert(s.pred[x as int] == t.pred[x as int]);
        }
    }
}

/// Whether some node that `a` reaches and that reaches `a` was finished no
/// earlier than `b`.
pub open spec fn topped(adj: Seq<Seq<usize>>, suffix: Seq<usize>, a: usize, b: usize) -> bool {
    exists|c: usize| #[trigger]
        mutual(adj, a, c) && c < adj.len() && place(suffix, c) >= place(suffix, b)
}

/// Among the nodes that reach one another, the one that was finished last
/// was finished after every node that they reach.
pub open spec fn crowned(adj: Seq<Seq<usize>>, suffix: Seq<usize>) -> bool {
    forall|a: usize, b: usize| a < adj.len() && reach(adj, a, b) ==> #[trigger] topped(adj, suffix, a, b)
}

/// What holds of the trees of a search that has ended: the root of its tree
/// reaches each node and stands no later in `order` than the node; no edge
/// leads into a later tree; the groups of the order of discovery are the
/// trees; and the roots are as [`sprung`] says.
pub open spec fn planted(adj: Seq<Seq<usize>>, order: Seq<usize>, t: Trace) -> bool {
    let gs = groups(t.prefix, t.pred);
    &&& t.tree.len() == adj.len()
    &&& forall|v: usize|
        v < adj.len() ==> {
            &&& (#[trigger] t.tree[v as int]) < adj.len()
            &&& reach(adj, t.tree[v as int], v)
            &&& place(order, t.tree[v as int]) <= place(order, v)
        }
    &&& forall|v: usize, w: usize| #[trigger]
        edge(adj, v, w) ==> place(order, t.tree[w as int]) <= place(order, t.tree[v as int])
    &&& forall|g: int, k: int|
        0 <= g < gs.len() && 0 <= k < gs[g].len() ==> t.tree[(#[trigger] gs[g][k]) as int]
            == gs[g][0]
    &&& sprung(adj, order, t)
    &&& forall|v: usize| v < adj.len() ==> t.roots.contains(#[trigger] t.tree[v as int])
    &&& forall|i: int| 0 <= i < t.roots.len() ==> (#[trigger] t.roots[i]) < adj.len()
}

/// What the search has established when every node is finished.
proof fn lemma_settled(adj: Seq<Seq<usize>>, order: Seq<usize>, t: Trace)
    requires
        closed_lists(adj),
        is_arrangement(order, adj.len()),
        coherent(adj, Seq::empty(), t),
        guarded(adj, Seq::empty(), t),
        escorted(adj, t),
        rooted(adj, order, adj.len() as int, Seq::empty(), t),
        grouped(order, adj.len() as int, Seq::empty(), t),
        sprung(adj, order, t),
        forall|v: usize| v < adj.len() ==> finished(t, v),
    ensures
        crowned(adj, t.suffix),
        planted(adj, order, t),
{
    let n = adj.len();
    assert forall|a: usize, b: usize| a < n && reach(adj, a, b) implies #[trigger] topped(
        adj,
        t.suffix,
        a,
        b,
    ) by {
        lemma_reach_within(adj, a, b);
        assert(led(adj, t, a, b));
        let c = choose|c: usize| #[trigger]
            mutual(adj, a, c) && (!finished(t, c) || place(t.suffix, c) >= place(t.suffix, b));
        lemma_reach_within(adj, a, c);
        assert(finished(t, c));
    }
    assert forall|v: usize| v < n implies !t.is_white(v) by {
        assert(finished(t, v));
        let i = choose|i: int| 0 <= i < t.suffix.len() && t.suffix[i] == v;
        assert(!t.is_white(t.suffix[i]));
    }
    assert forall|v: usize, w: usize| #[trigger] edge(adj, v, w) implies place(
        order,
        t.tree[w as int],
    ) <= place(order, t.tree[v as int]) by {
        lemma_edge_within(adj, v, w);
        assert(finished(t, v));
    }
}

/// No successor list is longer than a machine can index.
pub open spec fn short_lists(adj: Seq<Seq<usize>>) -> bool {
    forall|u: int| 0 <= u < adj.len() ==> (#[trigger] adj[u]).len() <= usize::MAX
}

/// Everything that holds of a search between two of its steps.
pub open spec fn sound(
    adj: Seq<Seq<usize>>,
    order: Seq<usize>,
    bound: int,
    stack: Seq<(usize, usize)>,
    t: Trace,
) -> bool {
    &&& coherent(adj, stack, t)
    &&& guarded(adj, stack, t)
    &&& escorted(adj, t)
    &&& rooted(adj, order, bound, stack, t)
    &&& grouped(order, bound, stack, t)
    &&& sprung(adj, order, t)
}

/// Handling the successors of the node on top of the stack, and finishing
/// it, keeps the search sound.
proof fn lemma_explore(
    adj: Seq<Seq<usize>>,
    order: Seq<usize>,
    bound: int,
    stack: Seq<(usize, usize)>,
    u: usize,
    k: usize,
    t: Trace,
)
    requires
        closed_lists(adj),
        short_lists(adj),
        is_arrangement(order, adj.len()),
        sound(adj, order, bound, stack.push((u, k)), t),
    ensures
        sound(adj, order, bound, stack, explore(adj, u, k as nat, t)),
    decreases t.room(), adj[u as int].len() - k,
{
    let full = stack.push((u, k));
    let top = stack.len() as int;
    assert(full.drop_last() =~= stack);
    assert(full[top] == (u, k));
    assert(full.last() == (u, k));
    assert(u < adj.len());
    if k >= adj[u as int].len() {
        lemma_pop_coherent(adj, full, t);
        lemma_pop_guarded(adj, full, t);
        lemma_pop_rooted(adj, order, bound, full, t);
        lemma_keep_grouped(order, bound, full, stack, t, t.finish(u));
        assert(sprung(adj, order, t.finish(u)));
    } else {
        let v = adj[u as int][k as int];
        let moved = full.update(top, (u, (k + 1) as usize));
        assert(moved =~= stack.push((u, (k + 1) as usize)));
        if t.is_white(v) {
            lemma_room(adj, order, full, t, v);
            lemma_skip_coherent(adj, full, t);
            lemma_push_guarded(adj, full, t);
            lemma_push_rooted(adj, order, bound, full, t);
            lemma_keep_grouped(order, bound, full, moved, t, t);
            lemma_push_coherent(adj, order, moved, t, v, u);
            assert(t.tree[full[top].0 as int] == order[bound - 1]);
            lemma_push_grouped(adj, order, bound, moved, t, v);
            assert(adj[u as int].contains(v));
            lemma_push_sprung(adj, order, moved, t, v, u);
            let found = t.discover(v, u);
            lemma_explore(adj, order, bound, moved, v, 0, found);
            let below = explore(adj, v, 0, found);
            lemma_explore_extends(adj, v, 0, found);
            lemma_explore(adj, order, bound, stack, u, (k + 1) as usize, below);
        } else {
            lemma_skip_coherent(adj, full, t);
            lemma_skip_guarded(adj, full, t);
            lemma_skip_rooted(adj, order, bound, full, t);
            lemma_keep_grouped(order, bound, full, moved, t, t);
            lemma_explore(adj, order, bound, stack, u, (k + 1) as usize, t);
        }
    }
}

/// Trying the nodes of `order` as roots, from the `i`-th on, keeps the
/// search sound.
proof fn lemma_forest(adj: Seq<Seq<usize>>, order: Seq<usize>, i: nat, t: Trace)
    requires
        closed_lists(adj),
        short_lists(adj),
        is_arrangement(order, adj.len()),
        i <= adj.len(),
        sound(adj, order, i as int, Seq::empty(), t),
    ensures
        sound(adj, order, adj.len() as int, Seq::empty(), forest(adj, order, i, t)),
    decreases order.len() - i,
{
    if i < order.len() {
        let r = order[i as int];
        let none = Seq::<(usize, usize)>::empty();
        if t.is_white(r) {
            lemma_take_root_coherent(adj, order, t, r);
            lemma_take_root_guarded(adj, t, r);
            lemma_take_root_rooted(adj, order, i as int, t);
            lemma_take_root_grouped(adj, order, i as int, t);
            lemma_take_root_sprung(adj, order, i as int, t);
            assert(none.push((r, 0usize)) =~= seq![(r, 0usize)]);
            lemma_explore(adj, order, (i + 1) as int, none, r, 0, t.take_root(r));
            lemma_forest(adj, order, i + 1, explore(adj, r, 0, t.take_root(r)));
        } else {
            lemma_pass_rooted(adj, order, i as int, t);
            lemma_forest(adj, order, i + 1, t);
        }
    }
}

/// What a depth-first search finds. Discovery and completion both list
/// every node once; the nodes without a predecessor are the roots; of the
/// nodes that reach one another, the one that is finished last is finished
/// after all that they reach; and the trees are as [`planted`] says.
pub proof fn lemma_depth_first(adj: Seq<Seq<usize>>, order: Seq<usize>)
    requires
        closed_lists(adj),
        short_lists(adj),
        is_arrangement(order, adj.len()),
    ensures
        is_arrangement(depth_first(adj, order).prefix, adj.len()),
        is_arrangement(depth_first(adj, order).suffix, adj.len()),
        depth_first(adj, order).pred.len() == adj.len(),
        preds_within(depth_first(adj, order).pred, adj.len()),
        depth_first(adj, order).roots.no_duplicates(),
        forall|v: usize|
            v < adj.len() ==> (depth_first(adj, order).pred[v as int] is None <==> depth_first(
                adj,
                order,
            ).roots.contains(v)),
        missing(depth_first(adj, order).pred) == depth_first(adj, order).roots.len(),
        crowned(adj, depth_first(adj, order).suffix),
        planted(adj, order, depth_first(adj, order)),
{
    let n = adj.len();
    let none = Seq::<(usize, usize)>::empty();
    lemma_start_coherent(adj);
    lemma_start_guarded(adj);
    lemma_start_rooted(adj, order);
    lemma_start_grouped(adj, order);
    lemma_start_sprung(adj, order);
    lemma_forest(adj, order, 0, Trace::start(n));
    let t = depth_first(adj, order);
    lemma_covers(order, n);
    assert forall|v: usize| v < n implies !t.is_white(v) by {
        assert(order.contains(v));
        let j = choose|j: int| 0 <= j < order.len() && order[j] == v;
        assert(!t.is_white(order[j]));
    }
    assert forall|v: usize| v < n implies #[trigger] t.suffix.contains(v) by {
        assert(t.suffix.contains(v) || on_stack(none, v));
    }
    assert forall|v: usize| v < n implies finished(t, v) by {
        assert(t.suffix.contains(v));
    }
    lemma_full(t.prefix, order, n);
    lemma_full(t.suffix, order, n);
    lemma_settled(adj, order, t);
}

} // verus!
