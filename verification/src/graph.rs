//! Depth-first search on a graph whose nodes are the numbers `0..n`.
//!
//! The graph is given by successor lists. The traversal is defined as a
//! recursive specification, [`depth_first`], and computed by [`traverse`] with
//! an explicit stack, so that the depth of the search is not bounded by the
//! call stack.

use vstd::prelude::*;
use vstd::seq_lib::*;
use vstd::set_lib::*;
use crate::visit::{crowned, lemma_depth_first, planted};

verus! {

/// The state of a traversal: which nodes are still undiscovered, the order of
/// discovery, the order of completion, the node each node was discovered from,
/// the nodes the search was started from, and for each discovered node the
/// root of the tree it stands in.
pub struct Trace {
    pub white: Seq<bool>,
    pub prefix: Seq<usize>,
    pub suffix: Seq<usize>,
    pub pred: Seq<Option<usize>>,
    pub roots: Seq<usize>,
    pub tree: Seq<usize>,
}

impl Trace {
    /// The state before anything was visited in a graph of `n` nodes.
    pub open spec fn start(n: nat) -> Trace {
        Trace {
            white: Seq::new(n, |i: int| true),
            prefix: Seq::empty(),
            suffix: Seq::empty(),
            pred: Seq::new(n, |i: int| None),
            roots: Seq::empty(),
            tree: Seq::new(n, |i: int| i as usize),
        }
    }

    /// Whether `v` is a node that was not discovered yet.
    pub open spec fn is_white(self, v: usize) -> bool {
        (v as int) < self.white.len() && self.white[v as int]
    }

    /// The state after `v` was discovered through an edge from `u`.
    pub open spec fn discover(self, v: usize, u: usize) -> Trace {
        Trace {
            white: self.white.update(v as int, false),
            prefix: self.prefix.push(v),
            suffix: self.suffix,
            pred: self.pred.update(v as int, Some(u)),
            roots: self.roots,
            tree: self.tree.update(v as int, self.tree[u as int]),
        }
    }

    /// The state after the search was started anew from `r`.
    pub open spec fn take_root(self, r: usize) -> Trace {
        Trace {
            white: self.white.update(r as int, false),
            prefix: self.prefix.push(r),
            suffix: self.suffix,
            pred: self.pred.update(r as int, None),
            roots: self.roots.push(r),
            tree: self.tree.update(r as int, r),
        }
    }

    /// The number of nodes that can still be discovered.
    pub open spec fn room(self) -> nat {
        if self.prefix.len() <= self.white.len() {
            (self.white.len() - self.prefix.len()) as nat
        } else {
            0
        }
    }

    /// The state after all successors of `u` were handled.
    pub open spec fn finish(self, u: usize) -> Trace {
        Trace {
            white: self.white,
            prefix: self.prefix,
            suffix: self.suffix.push(u),
            pred: self.pred,
            roots: self.roots,
            tree: self.tree,
        }
    }
}

/// The successor lists as sequences.
pub open spec fn lists(adj: Seq<Vec<usize>>) -> Seq<Seq<usize>> {
    Seq::new(adj.len(), |i: int| adj[i]@)
}

/// Every successor is a node of the graph.
pub open spec fn closed_lists(adj: Seq<Seq<usize>>) -> bool {
    forall|u: int, k: int|
        0 <= u < adj.len() && 0 <= k < adj[u].len() ==> (#[trigger] adj[u][k] as int) < adj.len()
}

/// `order` holds each of the numbers `0..n` once.
pub open spec fn is_arrangement(order: Seq<usize>, n: nat) -> bool {
    &&& order.len() == n
    &&& order.no_duplicates()
    &&& forall|i: int| 0 <= i < order.len() ==> (#[trigger] order[i] as int) < n
}

/// Handles the successors of `u` from the `k`-th on, each undiscovered one
/// together with everything that is found through it, and then finishes `u`.
///
/// The two comparisons of lengths hold in every traversal; they are what makes
/// the definition terminate.
pub open spec fn explore(adj: Seq<Seq<usize>>, u: usize, k: nat, t: Trace) -> Trace
    decreases t.room(), adj[u as int].len() - k,
{
    if u >= adj.len() || k >= adj[u as int].len() {
        t.finish(u)
    } else {
        let v = adj[u as int][k as int];
        if t.is_white(v) && t.prefix.len() < t.white.len() {
            let below = explore(adj, v, 0, t.discover(v, u));
            if below.white.len() == t.white.len() && below.prefix.len() >= t.prefix.len() {
                explore(adj, u, k + 1, below)
            } else {
                below
            }
        } else {
            explore(adj, u, k + 1, t)
        }
    }
}

/// Starts a search from each node of `order`, from the `i`-th on, that is
/// still undiscovered when its turn comes.
pub open spec fn forest(adj: Seq<Seq<usize>>, order: Seq<usize>, i: nat, t: Trace) -> Trace
    decreases order.len() - i,
{
    if i >= order.len() {
        t
    } else {
        let r = order[i as int];
        if t.is_white(r) {
            forest(adj, order, i + 1, explore(adj, r, 0, t.take_root(r)))
        } else {
            forest(adj, order, i + 1, t)
        }
    }
}

/// The depth-first search of the whole graph: roots are tried in the order
/// `order`, successors in the order of their list.
pub open spec fn depth_first(adj: Seq<Seq<usize>>, order: Seq<usize>) -> Trace {
    forest(adj, order, 0, Trace::start(adj.len()))
}

/// What is left to do for the frames of a stack, from the top down.
pub open spec fn resume(adj: Seq<Seq<usize>>, stack: Seq<(usize, usize)>, t: Trace) -> Trace
    decreases stack.len(),
{
    if stack.len() == 0 {
        t
    } else {
        resume(adj, stack.drop_last(), explore(adj, stack.last().0, stack.last().1 as nat, t))
    }
}

/// The number of steps the frames of a stack still take by themselves.
pub open spec fn weight(adj: Seq<Seq<usize>>, stack: Seq<(usize, usize)>) -> nat
    decreases stack.len(),
{
    if stack.len() == 0 {
        0
    } else {
        let left = adj[stack.last().0 as int].len() - stack.last().1;
        weight(adj, stack.drop_last()) + 1 + (if left >= 0 {
            left as nat
        } else {
            0
        })
    }
}

/// The number of nodes without a predecessor.
pub open spec fn missing(pred: Seq<Option<usize>>) -> nat
    decreases pred.len(),
{
    if pred.len() == 0 {
        0
    } else {
        missing(pred.drop_last()) + (if pred.last() is None {
            1nat
        } else {
            0nat
        })
    }
}

/// Where no node has a predecessor, all predecessors are missing.
pub proof fn lemma_missing_none(n: nat)
    ensures
        missing(Seq::new(n, |i: int| None::<usize>)) == n,
    decreases n,
{
    if n > 0 {
        lemma_missing_none((n - 1) as nat);
        assert(Seq::new(n, |i: int| None::<usize>).drop_last() =~= Seq::new(
            (n - 1) as nat,
            |i: int| None::<usize>,
        ));
    }
}

/// What one changed entry does to the number of missing predecessors.
pub proof fn lemma_missing_update(pred: Seq<Option<usize>>, i: int, p: Option<usize>)
    requires
        0 <= i < pred.len(),
    ensures
        missing(pred.update(i, p)) + (if pred[i] is None {
            1nat
        } else {
            0nat
        }) == missing(pred) + (if p is None {
            1nat
        } else {
            0nat
        }),
    decreases pred.len(),
{
    let q = pred.update(i, p);
    if i == pred.len() - 1 {
        assert(q.drop_last() =~= pred.drop_last());
    } else {
        lemma_missing_update(pred.drop_last(), i, p);
        assert(q.drop_last() =~= pred.drop_last().update(i, p));
    }
}

/// A sequence without repetition whose elements all occur in another one is
/// not longer than it.
pub proof fn lemma_distinct_within(a: Seq<usize>, b: Seq<usize>)
    requires
        a.no_duplicates(),
        forall|i: int| 0 <= i < a.len() ==> b.contains(#[trigger] a[i]),
    ensures
        a.len() <= b.len(),
{
    a.unique_seq_to_set();
    b.lemma_cardinality_of_set();
    seq_to_set_is_finite(b);
    assert(a.to_set().subset_of(b.to_set())) by {
        assert forall|x: usize| a.to_set().contains(x) implies b.to_set().contains(x) by {
            let i = choose|i: int| 0 <= i < a.len() && a[i] == x;
            assert(b.contains(a[i]));
        }
    }
    lemma_len_subset(a.to_set(), b.to_set());
}

/// `explore` keeps the number of nodes and never forgets a discovery.
pub proof fn lemma_explore_extends(adj: Seq<Seq<usize>>, u: usize, k: nat, t: Trace)
    ensures
        explore(adj, u, k, t).white.len() == t.white.len(),
        explore(adj, u, k, t).prefix.len() >= t.prefix.len(),
    decreases t.room(), adj[u as int].len() - k,
{
    if u >= adj.len() || k >= adj[u as int].len() {
    } else {
        let v = adj[u as int][k as int];
        if t.is_white(v) && t.prefix.len() < t.white.len() {
            lemma_explore_extends(adj, v, 0, t.discover(v, u));
            let below = explore(adj, v, 0, t.discover(v, u));
            lemma_explore_extends(adj, u, k + 1, below);
        } else {
            lemma_explore_extends(adj, u, k + 1, t);
        }
    }
}

/// Finishing the node on top of the stack leaves the same work.
proof fn lemma_resume_pop(adj: Seq<Seq<usize>>, stack: Seq<(usize, usize)>, t: Trace)
    requires
        stack.len() > 0,
        stack.last().0 < adj.len(),
        stack.last().1 >= adj[stack.last().0 as int].len(),
    ensures
        resume(adj, stack, t) == resume(adj, stack.drop_last(), t.finish(stack.last().0)),
{
}

/// Passing over a discovered successor leaves the same work.
proof fn lemma_resume_skip(adj: Seq<Seq<usize>>, stack: Seq<(usize, usize)>, t: Trace)
    requires
        stack.len() > 0,
        stack.last().0 < adj.len(),
        stack.last().1 < adj[stack.last().0 as int].len(),
        stack.last().1 < usize::MAX,
        !t.is_white(adj[stack.last().0 as int][stack.last().1 as int]),
    ensures
        resume(adj, stack, t) == resume(
            adj,
            stack.update(stack.len() - 1, (stack.last().0, (stack.last().1 + 1) as usize)),
            t,
        ),
{
    let u = stack.last().0;
    let k = stack.last().1;
    let next = stack.update(stack.len() - 1, (u, (k + 1) as usize));
    assert(next.drop_last() =~= stack.drop_last());
    assert(explore(adj, u, k as nat, t) == explore(adj, u, (k + 1) as nat, t));
}

/// Descending into an undiscovered successor leaves the same work.
proof fn lemma_resume_push(adj: Seq<Seq<usize>>, stack: Seq<(usize, usize)>, t: Trace)
    requires
        stack.len() > 0,
        stack.last().0 < adj.len(),
        stack.last().1 < adj[stack.last().0 as int].len(),
        stack.last().1 < usize::MAX,
        t.is_white(adj[stack.last().0 as int][stack.last().1 as int]),
        t.prefix.len() < t.white.len(),
    ensures
        resume(adj, stack, t) == resume(
            adj,
            stack.update(stack.len() - 1, (stack.last().0, (stack.last().1 + 1) as usize)).push(
                (adj[stack.last().0 as int][stack.last().1 as int], 0),
            ),
            t.discover(adj[stack.last().0 as int][stack.last().1 as int], stack.last().0),
        ),
{
    let u = stack.last().0;
    let k = stack.last().1;
    let v = adj[u as int][k as int];
    let moved = stack.update(stack.len() - 1, (u, (k + 1) as usize));
    let grown = moved.push((v, 0usize));
    let found = t.discover(v, u);
    let below = explore(adj, v, 0, found);
    lemma_explore_extends(adj, v, 0, found);
    assert(explore(adj, u, k as nat, t) == explore(adj, u, (k + 1) as nat, below));
    assert(grown.drop_last() =~= moved);
    assert(moved.drop_last() =~= stack.drop_last());
    assert(resume(adj, grown, found) == resume(adj, moved, below));
    assert(resume(adj, moved, below) == resume(
        adj,
        stack.drop_last(),
        explore(adj, u, (k + 1) as nat, below),
    ));
}

/// A stack weighs less without its top.
proof fn lemma_weight_pop(adj: Seq<Seq<usize>>, stack: Seq<(usize, usize)>)
    requires
        stack.len() > 0,
    ensures
        weight(adj, stack.drop_last()) < weight(adj, stack),
{
}

/// A stack weighs less when its top has gone on to the next successor.
proof fn lemma_weight_step(adj: Seq<Seq<usize>>, stack: Seq<(usize, usize)>)
    requires
        stack.len() > 0,
        stack.last().0 < adj.len(),
        stack.last().1 < adj[stack.last().0 as int].len(),
        stack.last().1 < usize::MAX,
    ensures
        weight(
            adj,
            stack.update(stack.len() - 1, (stack.last().0, (stack.last().1 + 1) as usize)),
        ) < weight(adj, stack),
{
    let next = stack.update(stack.len() - 1, (stack.last().0, (stack.last().1 + 1) as usize));
    assert(next.drop_last() =~= stack.drop_last());
}

/// Every predecessor is one of the nodes `0..n`.
pub open spec fn preds_within(pred: Seq<Option<usize>>, n: nat) -> bool {
    forall|i: int| 0 <= i < pred.len() ==> ((#[trigger] pred[i]) matches Some(p) ==> p < n)
}

/// What holds of a traversal between two steps.
pub open spec fn coherent(adj: Seq<Seq<usize>>, stack: Seq<(usize, usize)>, t: Trace) -> bool {
    let n = adj.len();
    &&& t.white.len() == n
    &&& t.pred.len() == n
    &&& t.prefix.no_duplicates()
    &&& t.suffix.no_duplicates()
    &&& t.roots.no_duplicates()
    &&& forall|i: int| 0 <= i < t.prefix.len() ==> !t.is_white(#[trigger] t.prefix[i]) && t.prefix[i] < n
    &&& forall|v: usize| v < n && !t.is_white(v) ==> #[trigger] t.prefix.contains(v)
    &&& forall|v: usize| #[trigger] t.is_white(v) ==> t.pred[v as int] is None
    &&& forall|i: int| 0 <= i < t.suffix.len() ==> !t.is_white(#[trigger] t.suffix[i]) && t.suffix[i] < n
    &&& forall|i: int|
        0 <= i < stack.len() ==> {
            &&& (#[trigger] stack[i]).0 < n
            &&& stack[i].1 <= adj[stack[i].0 as int].len()
            &&& !t.is_white(stack[i].0)
            &&& !t.suffix.contains(stack[i].0)
        }
    &&& forall|i: int, j: int|
        0 <= i < j < stack.len() ==> (#[trigger] stack[i]).0 != (#[trigger] stack[j]).0
    &&& forall|v: usize|
        v < n && !t.is_white(v) ==> #[trigger] t.suffix.contains(v) || on_stack(stack, v)
    &&& forall|i: int| 0 <= i < t.roots.len() ==> !t.is_white(#[trigger] t.roots[i]) && t.roots[i] < n
    &&& forall|v: usize|
        v < n && !t.is_white(v) ==> (t.pred[v as int] is None <==> #[trigger] t.roots.contains(v))
    &&& missing(t.pred) + t.prefix.len() == t.roots.len() + n
    &&& preds_within(t.pred, n)
}

/// Whether a frame of the stack belongs to `v`.
pub open spec fn on_stack(stack: Seq<(usize, usize)>, v: usize) -> bool {
    exists|i: int| 0 <= i < stack.len() && (#[trigger] stack[i]).0 == v
}

/// The result of a traversal.
pub struct Traversal {
    /// The nodes in the order of their discovery.
    pub prefix: Vec<usize>,
    /// The nodes in the order in which their exploration ended.
    pub suffix: Vec<usize>,
    /// For each node, the node it was discovered from; nothing for a root.
    pub pred: Vec<Option<usize>>,
}

impl Traversal {
    /// Whether the three vectors are those of the trace `t`.
    pub open spec fn records(&self, t: Trace) -> bool {
        &&& self.prefix@ == t.prefix
        &&& self.suffix@ == t.suffix
        &&& self.pred@ == t.pred
    }
}

/// The bookkeeping is coherent before the search begins.
pub proof fn lemma_start_coherent(adj: Seq<Seq<usize>>)
    ensures
        coherent(adj, Seq::empty(), Trace::start(adj.len())),
{
    lemma_missing_none(adj.len());
}

/// The bookkeeping stays coherent when a root is taken.
pub proof fn lemma_take_root_coherent(adj: Seq<Seq<usize>>, order: Seq<usize>, t: Trace, r: usize)
    requires
        coherent(adj, Seq::empty(), t),
        is_arrangement(order, adj.len()),
        t.is_white(r),
    ensures
        coherent(adj, seq![(r, 0usize)], t.take_root(r)),
        t.prefix.len() < adj.len(),
{
    let n = adj.len();
    let s = t.take_root(r);
    let stack = seq![(r, 0usize)];
    lemma_room(adj, order, Seq::empty(), t, r);
    lemma_missing_update(t.pred, r as int, None);
    assert(!t.prefix.contains(r));
    assert(!t.suffix.contains(r));
    assert(!t.roots.contains(r));
    assert forall|v: usize| #[trigger] s.is_white(v) implies s.pred[v as int] is None by {
        assert(t.is_white(v));
    }
    assert forall|v: usize| v < n && !s.is_white(v) implies #[trigger] s.prefix.contains(v) by {
        if v == r {
            assert(s.prefix[t.prefix.len() as int] == r);
        } else {
            assert(t.prefix.contains(v));
            let i = choose|i: int| 0 <= i < t.prefix.len() && t.prefix[i] == v;
            assert(s.prefix[i] == v);
        }
    }
    assert forall|v: usize| v < n && !s.is_white(v) implies #[trigger] s.suffix.contains(v)
        || on_stack(stack, v) by {
        if v == r {
            assert(stack[0].0 == r);
        } else {
            assert(!t.is_white(v));
            assert(t.suffix.contains(v) || on_stack(Seq::<(usize, usize)>::empty(), v));
        }
    }
    assert forall|v: usize| v < n && !s.is_white(v) implies (s.pred[v as int] is None
        <==> #[trigger] s.roots.contains(v)) by {
        if v == r {
            assert(s.roots[t.roots.len() as int] == r);
        } else {
            assert(!t.is_white(v));
            if t.roots.contains(v) {
                let i = choose|i: int| 0 <= i < t.roots.len() && t.roots[i] == v;
                assert(s.roots[i] == v);
            }
            if s.roots.contains(v) {
                let i = choose|i: int| 0 <= i < s.roots.len() && s.roots[i] == v;
                assert(t.roots[i] == v);
            }
        }
    }
}

/// While a node is undiscovered, fewer than all nodes were discovered.
pub proof fn lemma_room(
    adj: Seq<Seq<usize>>,
    order: Seq<usize>,
    stack: Seq<(usize, usize)>,
    t: Trace,
    v: usize,
)
    requires
        coherent(adj, stack, t),
        is_arrangement(order, adj.len()),
        t.is_white(v),
    ensures
        t.prefix.len() < adj.len(),
{
    let n = adj.len();
    lemma_covers(order, n);
    let more = t.prefix.push(v);
    assert(more.no_duplicates()) by {
        assert forall|i: int, j: int| 0 <= i < more.len() && 0 <= j < more.len() && i != j implies more[i]
            != more[j] by {
            if i < t.prefix.len() {
                assert(!t.is_white(t.prefix[i]));
            }
            if j < t.prefix.len() {
                assert(!t.is_white(t.prefix[j]));
            }
        }
    }
    assert forall|i: int| 0 <= i < more.len() implies order.contains(#[trigger] more[i]) by {
        if i < t.prefix.len() {
            assert(t.prefix[i] < n);
        }
    }
    lemma_distinct_within(more, order);
}

/// An arrangement of `0..n` holds every one of these numbers.
pub proof fn lemma_covers(order: Seq<usize>, n: nat)
    requires
        is_arrangement(order, n),
    ensures
        forall|v: usize| v < n ==> #[trigger] order.contains(v),
{
    let all = Seq::new(n, |i: int| i as usize);
    assert forall|v: usize| v < n implies #[trigger] order.contains(v) by {
        if !order.contains(v) {
            let more = order.push(v);
            assert(more.no_duplicates());
            assert forall|i: int| 0 <= i < more.len() implies all.contains(#[trigger] more[i]) by {
                assert(all[more[i] as int] == more[i]);
            }
            lemma_distinct_within(more, all);
        }
    }
}

/// The bookkeeping stays coherent when a node is finished.
pub proof fn lemma_pop_coherent(adj: Seq<Seq<usize>>, stack: Seq<(usize, usize)>, t: Trace)
    requires
        coherent(adj, stack, t),
        stack.len() > 0,
    ensures
        coherent(adj, stack.drop_last(), t.finish(stack.last().0)),
{
    let n = adj.len();
    let u = stack.last().0;
    let s = t.finish(u);
    let rest = stack.drop_last();
    assert(stack[stack.len() - 1].0 == u);
    assert(!t.suffix.contains(u));
    assert forall|v: usize| #[trigger] s.is_white(v) implies s.pred[v as int] is None by {
        assert(t.is_white(v));
    }
    assert forall|i: int| 0 <= i < rest.len() implies !s.suffix.contains((#[trigger] rest[i]).0) by {
        assert(rest[i] == stack[i]);
        assert(!t.suffix.contains(stack[i].0));
        assert(stack[i].0 != stack[stack.len() - 1].0);
        if s.suffix.contains(rest[i].0) {
            let j = choose|j: int| 0 <= j < s.suffix.len() && s.suffix[j] == rest[i].0;
            if j < t.suffix.len() {
                assert(t.suffix[j] == rest[i].0);
            }
        }
    }
    assert forall|v: usize| v < n && !s.is_white(v) implies #[trigger] s.suffix.contains(v)
        || on_stack(rest, v) by {
        if v == u {
            assert(s.suffix[t.suffix.len() as int] == u);
        } else if t.suffix.contains(v) {
            let j = choose|j: int| 0 <= j < t.suffix.len() && t.suffix[j] == v;
            assert(s.suffix[j] == v);
        } else {
            assert(on_stack(stack, v));
            let i = choose|i: int| 0 <= i < stack.len() && (#[trigger] stack[i]).0 == v;
            assert(rest[i].0 == v);
        }
    }
    assert forall|i: int| 0 <= i < rest.len() implies {
        &&& (#[trigger] rest[i]).0 < n
        &&& rest[i].1 <= adj[rest[i].0 as int].len()
        &&& !s.is_white(rest[i].0)
    } by {
        assert(rest[i] == stack[i]);
    }
    assert forall|i: int, j: int| 0 <= i < j < rest.len() implies (#[trigger] rest[i]).0 != (
    #[trigger] rest[j]).0 by {
        assert(rest[i] == stack[i]);
        assert(rest[j] == stack[j]);
    }
}

/// The bookkeeping stays coherent when a successor is passed over.
pub proof fn lemma_skip_coherent(adj: Seq<Seq<usize>>, stack: Seq<(usize, usize)>, t: Trace)
    requires
        coherent(adj, stack, t),
        stack.len() > 0,
        stack.last().1 < adj[stack.last().0 as int].len(),
        stack.last().1 < usize::MAX,
    ensures
        coherent(
            adj,
            stack.update(stack.len() - 1, (stack.last().0, (stack.last().1 + 1) as usize)),
            t,
        ),
{
    let n = adj.len();
    let next = stack.update(stack.len() - 1, (stack.last().0, (stack.last().1 + 1) as usize));
    assert forall|i: int| 0 <= i < next.len() implies (#[trigger] next[i]).0 == stack[i].0 by {}
    assert forall|i: int| 0 <= i < next.len() implies {
        &&& (#[trigger] next[i]).0 < n
        &&& next[i].1 <= adj[next[i].0 as int].len()
        &&& !t.is_white(next[i].0)
        &&& !t.suffix.contains(next[i].0)
    } by {
        assert(next[i].0 == stack[i].0);
    }
    assert forall|i: int, j: int| 0 <= i < j < next.len() implies (#[trigger] next[i]).0 != (
    #[trigger] next[j]).0 by {
        assert(next[i].0 == stack[i].0);
        assert(next[j].0 == stack[j].0);
    }
    assert forall|v: usize| v < n && !t.is_white(v) implies #[trigger] t.suffix.contains(v)
        || on_stack(next, v) by {
        if !t.suffix.contains(v) {
            assert(on_stack(stack, v));
            let i = choose|i: int| 0 <= i < stack.len() && (#[trigger] stack[i]).0 == v;
            assert(next[i].0 == v);
        }
    }
}

/// The bookkeeping stays coherent when a node is discovered.
pub proof fn lemma_push_coherent(
    adj: Seq<Seq<usize>>,
    order: Seq<usize>,
    stack: Seq<(usize, usize)>,
    t: Trace,
    v: usize,
    u: usize,
)
    requires
        coherent(adj, stack, t),
        is_arrangement(order, adj.len()),
        t.is_white(v),
        u < adj.len(),
        !t.is_white(u),
    ensures
        coherent(adj, stack.push((v, 0usize)), t.discover(v, u)),
        t.prefix.len() < adj.len(),
{
    let n = adj.len();
    let s = t.discover(v, u);
    let grown = stack.push((v, 0usize));
    lemma_room(adj, order, stack, t, v);
    lemma_missing_update(t.pred, v as int, Some(u));
    assert(!t.prefix.contains(v));
    assert(!t.suffix.contains(v));
    assert(!t.roots.contains(v));
    assert(!on_stack(stack, v));
    assert forall|v2: usize| #[trigger] s.is_white(v2) implies s.pred[v2 as int] is None by {
        assert(t.is_white(v2));
    }
    assert forall|v2: usize| v2 < n && !s.is_white(v2) implies #[trigger] s.prefix.contains(v2) by {
        if v2 == v {
            assert(s.prefix[t.prefix.len() as int] == v);
        } else {
            assert(t.prefix.contains(v2));
            let i = choose|i: int| 0 <= i < t.prefix.len() && t.prefix[i] == v2;
            assert(s.prefix[i] == v2);
        }
    }
    assert forall|i: int| 0 <= i < grown.len() implies {
        &&& (#[trigger] grown[i]).0 < n
        &&& grown[i].1 <= adj[grown[i].0 as int].len()
        &&& !s.is_white(grown[i].0)
        &&& !s.suffix.contains(grown[i].0)
    } by {
        if i < stack.len() {
            assert(grown[i] == stack[i]);
        }
    }
    assert forall|i: int, j: int| 0 <= i < j < grown.len() implies (#[trigger] grown[i]).0 != (
    #[trigger] grown[j]).0 by {
        assert(grown[i] == stack[i]);
        if j < stack.len() {
            assert(grown[j] == stack[j]);
        } else {
            assert(!t.is_white(stack[i].0));
        }
    }
    assert forall|v2: usize| v2 < n && !s.is_white(v2) implies #[trigger] s.suffix.contains(v2)
        || on_stack(grown, v2) by {
        if v2 == v {
            assert(grown[stack.len() as int].0 == v);
        } else if !t.suffix.contains(v2) {
            assert(on_stack(stack, v2));
            let i = choose|i: int| 0 <= i < stack.len() && (#[trigger] stack[i]).0 == v2;
            assert(grown[i].0 == v2);
        }
    }
    assert forall|v2: usize| v2 < n && !s.is_white(v2) implies (s.pred[v2 as int] is None
        <==> #[trigger] s.roots.contains(v2)) by {
        if v2 != v {
            assert(!t.is_white(v2));
        }
    }
}

/// Depth-first search of the graph with successor lists `adj`, roots tried in
/// the order `order`.
///
/// The result is the traversal that [`depth_first`] defines. Discovery and
/// completion both list every node once, and the nodes without a predecessor
/// are exactly the roots of the search.
pub fn traverse(adj: &Vec<Vec<usize>>, order: &Vec<usize>) -> (found: Traversal)
    requires
        closed_lists(lists(adj@)),
        is_arrangement(order@, adj.len() as nat),
    ensures
        found.records(depth_first(lists(adj@), order@)),
        is_arrangement(found.prefix@, adj.len() as nat),
        is_arrangement(found.suffix@, adj.len() as nat),
        found.pred.len() == adj.len(),
        preds_within(found.pred@, adj.len() as nat),
        depth_first(lists(adj@), order@).roots.no_duplicates(),
        forall|v: usize|
            v < adj.len() ==> (found.pred[v as int] is None <==> depth_first(
                lists(adj@),
                order@,
            ).roots.contains(v)),
        missing(found.pred@) == depth_first(lists(adj@), order@).roots.len(),
        crowned(lists(adj@), found.suffix@),
        planted(lists(adj@), order@, depth_first(lists(adj@), order@)),
{
    let n = adj.len();
    let ghost graph = lists(adj@);
    let mut white: Vec<bool> = Vec::new();
    let mut pred: Vec<Option<usize>> = Vec::new();
    let mut filled: usize = 0;
    while filled < n
        invariant
            filled <= n,
            white@ == Seq::new(filled as nat, |i: int| true),
            pred@ == Seq::new(filled as nat, |i: int| None::<usize>),
        decreases n - filled,
    {
        white.push(true);
        pred.push(None);
        filled = filled + 1;
        assert(white@ =~= Seq::new(filled as nat, |i: int| true));
        assert(pred@ =~= Seq::new(filled as nat, |i: int| None::<usize>));
    }
    let mut prefix: Vec<usize> = Vec::new();
    let mut suffix: Vec<usize> = Vec::new();
    let mut stack: Vec<(usize, usize)> = Vec::new();
    let ghost mut t = Trace::start(n as nat);
    proof {
        lemma_start_coherent(graph);
        assert(prefix@ =~= t.prefix);
        assert(suffix@ =~= t.suffix);
    }
    let mut i: usize = 0;
    while i < n
        invariant
            n == adj.len(),
            graph == lists(adj@),
            closed_lists(graph),
            is_arrangement(order@, n as nat),
            i <= n,
            stack@.len() == 0,
            white@ == t.white,
            prefix@ == t.prefix,
            suffix@ == t.suffix,
            pred@ == t.pred,
            coherent(graph, stack@, t),
            forest(graph, order@, i as nat, t) == depth_first(graph, order@),
        decreases n - i,
    {
        let r = order[i];
        if white[r] {
            let ghost before = t;
            proof {
                lemma_take_root_coherent(graph, order@, t, r);
                t = t.take_root(r);
            }
            white.set(r, false);
            prefix.push(r);
            stack.push((r, 0));
            proof {
                assert(pred@ =~= t.pred);
                assert(stack@ =~= seq![(r, 0usize)]);
                assert(stack@.drop_last() =~= Seq::<(usize, usize)>::empty());
                reveal_with_fuel(resume, 2);
                assert(resume(graph, stack@, t) == explore(graph, r, 0, t));
            }
            let ghost goal = explore(graph, r, 0, t);
            while stack.len() > 0
                invariant
                    n == adj.len(),
                    graph == lists(adj@),
                    closed_lists(graph),
                    is_arrangement(order@, n as nat),
                    white@ == t.white,
                    prefix@ == t.prefix,
                    suffix@ == t.suffix,
                    pred@ == t.pred,
                    coherent(graph, stack@, t),
                    resume(graph, stack@, t) == goal,
                decreases t.room(), weight(graph, stack@),
            {
                let top = stack.len() - 1;
                let u = stack[top].0;
                let k = stack[top].1;
                assert(stack@.last() == stack@[top as int]);
                assert(graph[u as int] == adj[u as int]@);
                if k >= adj[u].len() {
                    proof {
                        lemma_resume_pop(graph, stack@, t);
                        lemma_pop_coherent(graph, stack@, t);
                        lemma_weight_pop(graph, stack@);
                        t = t.finish(u);
                    }
                    stack.pop();
                    suffix.push(u);
                } else {
                    let v = adj[u][k];
                    assert(graph[u as int][k as int] == v);
                    assert(v < n);
                    if white[v] {
                        proof {
                            lemma_room(graph, order@, stack@, t, v);
                            lemma_resume_push(graph, stack@, t);
                            lemma_skip_coherent(graph, stack@, t);
                        }
                        stack.set(top, (u, k + 1));
                        proof {
                            lemma_push_coherent(graph, order@, stack@, t, v, u);
                            t = t.discover(v, u);
                        }
                        white.set(v, false);
                        prefix.push(v);
                        pred.set(v, Some(u));
                        stack.push((v, 0));
                    } else {
                        proof {
                            lemma_resume_skip(graph, stack@, t);
                            lemma_skip_coherent(graph, stack@, t);
                            lemma_weight_step(graph, stack@);
                        }
                        stack.set(top, (u, k + 1));
                    }
                }
            }
            proof {
                assert(t == goal);
                assert(forest(graph, order@, i as nat, before) == forest(
                    graph,
                    order@,
                    (i + 1) as nat,
                    goal,
                ));
            }
        } else {
            proof {
                assert(forest(graph, order@, i as nat, t) == forest(
                    graph,
                    order@,
                    (i + 1) as nat,
                    t,
                ));
            }
        }
        i = i + 1;
    }
    proof {
        assert forall|u: int| 0 <= u < graph.len() implies (#[trigger] graph[u]).len()
            <= usize::MAX by {
            assert(graph[u] == adj[u]@);
            assert(adj[u]@.len() == adj[u].len());
        }
        lemma_depth_first(graph, order@);
    }
    Traversal { prefix, suffix, pred }
}

/// A sequence without repetition that holds all of `0..n` and nothing else
/// is an arrangement of `0..n`.
pub proof fn lemma_full(s: Seq<usize>, order: Seq<usize>, n: nat)
    requires
        is_arrangement(order, n),
        s.no_duplicates(),
        forall|i: int| 0 <= i < s.len() ==> (#[trigger] s[i] as int) < n,
        forall|v: usize| v < n ==> #[trigger] s.contains(v),
    ensures
        is_arrangement(s, n),
{
    lemma_covers(order, n);
    assert forall|i: int| 0 <= i < s.len() implies order.contains(#[trigger] s[i]) by {}
    lemma_distinct_within(s, order);
    assert forall|i: int| 0 <= i < order.len() implies s.contains(#[trigger] order[i]) by {}
    lemma_distinct_within(order, s);
}

} // verus!
