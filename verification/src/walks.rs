//! Walks along the transitions of an automaton, and how they correspond to
//! the paths of the graph on the places of its states.

use vstd::prelude::*;
use crate::adjacency::{adjacency, edges_within, leads};
use crate::dfs::{arcs, named, ranks};
use crate::graph::{closed_lists, is_arrangement, lemma_covers};
use crate::labels::{lemma_place_holds, lemma_place_of, place};
use crate::reach::{edge, is_path, joins, mutual, reach};
use crate::relation::{arrow, flip, lemma_flip, turned};
use crate::visit::short_lists;

verus! {

/// Whether a transition, on whatever symbol, leads from `s` to `t`, both
/// states of `states`.
pub open spec fn linked(states: Seq<usize>, follows: Seq<(usize, char, usize)>, s: usize, t: usize) -> bool {
    exists|c: char| #[trigger] arrow(states, follows, s, c, t)
}

/// Whether `p` begins with a state and goes on from state to state along
/// transitions.
pub open spec fn is_walk(states: Seq<usize>, follows: Seq<(usize, char, usize)>, p: Seq<usize>) -> bool {
    &&& p.len() >= 1
    &&& states.contains(p[0])
    &&& forall|i: int| 0 <= i < p.len() - 1 ==> linked(states, follows, #[trigger] p[i], p[i + 1])
}

/// Whether a walk leads from `s` to `t`; every state is connected to itself.
pub open spec fn connected(
    states: Seq<usize>,
    follows: Seq<(usize, char, usize)>,
    s: usize,
    t: usize,
) -> bool {
    exists|p: Seq<usize>| #[trigger] is_walk(states, follows, p) && p[0] == s && p.last() == t
}

/// Whether walks lead from `s` to `t` and from `t` to `s`.
pub open spec fn together(
    states: Seq<usize>,
    follows: Seq<(usize, char, usize)>,
    s: usize,
    t: usize,
) -> bool {
    connected(states, follows, s, t) && connected(states, follows, t, s)
}

/// Whether the transition between the states at the places `u` and `v` that
/// an edge from `u` to `v` stands for exists: from `u` to `v`, or from `v` to
/// `u` if the edges are turned round.
pub open spec fn stands_for(
    states: Seq<usize>,
    follows: Seq<(usize, char, usize)>,
    backward: bool,
    u: usize,
    v: usize,
) -> bool {
    u < states.len() && v < states.len() && if backward {
        linked(states, follows, states[v as int], states[u as int])
    } else {
        linked(states, follows, states[u as int], states[v as int])
    }
}

/// Whether a search can step from the state `from` to the state `to`: along
/// a transition from `from` to `to`, or against one from `to` to `from` if it
/// goes `backward`.
pub open spec fn steps(
    states: Seq<usize>,
    follows: Seq<(usize, char, usize)>,
    backward: bool,
    from: usize,
    to: usize,
) -> bool {
    if backward {
        linked(states, follows, to, from)
    } else {
        linked(states, follows, from, to)
    }
}

/// Whether the edges of `adj` are the transitions between the states, each
/// as an edge between the places of its two states.
pub open spec fn pictures(
    states: Seq<usize>,
    follows: Seq<(usize, char, usize)>,
    backward: bool,
    adj: Seq<Seq<usize>>,
) -> bool {
    &&& adj.len() == states.len()
    &&& closed_lists(adj)
    &&& short_lists(adj)
    &&& forall|u: usize, v: usize| #[trigger]
        edge(adj, u, v) <==> stands_for(states, follows, backward, u, v)
}

/// The transitions among all but the last are transitions among all.
proof fn lemma_linked_longer(states: Seq<usize>, follows: Seq<(usize, char, usize)>, s: usize, t: usize)
    requires
        follows.len() > 0,
        linked(states, follows.drop_last(), s, t),
    ensures
        linked(states, follows, s, t),
{
    let c = choose|c: char| #[trigger] arrow(states, follows.drop_last(), s, c, t);
    let front = follows.drop_last();
    let i = choose|i: int| 0 <= i < front.len() && front[i] == (s, c, t);
    assert(follows[i] == (s, c, t));
    assert(arrow(states, follows, s, c, t));
}

/// The edges of the graph of an automaton are its transitions between
/// states.
pub proof fn lemma_arcs(states: Seq<usize>, follows: Seq<(usize, char, usize)>, backward: bool)
    requires
        states.no_duplicates(),
        states.len() <= usize::MAX,
    ensures
        edges_within(arcs(states, follows, backward), states.len()),
        forall|u: usize, v: usize|
            arcs(states, follows, backward).contains((u, v)) <==> #[trigger] stands_for(
                states,
                follows,
                backward,
                u,
                v,
            ),
    decreases follows.len(),
{
    let now = arcs(states, follows, backward);
    if follows.len() == 0 {
        assert forall|u: usize, v: usize| #[trigger]
            stands_for(states, follows, backward, u, v) implies now.contains((u, v)) by {
            let (s, t) = if backward {
                (states[v as int], states[u as int])
            } else {
                (states[u as int], states[v as int])
            };
            let c = choose|c: char| #[trigger] arrow(states, follows, s, c, t);
            assert(follows.contains((s, c, t)));
        }
    } else {
        let front = follows.drop_last();
        let rest = arcs(states, front, backward);
        let last = follows.last();
        lemma_arcs(states, front, backward);
        let kept = states.contains(last.0) && states.contains(last.2);
        let from = place(states, last.0) as usize;
        let to = place(states, last.2) as usize;
        let e = if backward {
            (to, from)
        } else {
            (from, to)
        };
        if kept {
            lemma_place_holds(states, last.0);
            lemma_place_holds(states, last.2);
            assert(now == rest.push(e));
            assert(follows[follows.len() - 1] == last);
            assert(arrow(states, follows, last.0, last.1, last.2));
            assert(stands_for(states, follows, backward, e.0, e.1));
        } else {
            assert(now == rest);
        }
        assert forall|i: int| 0 <= i < now.len() implies (#[trigger] now[i]).0 < states.len()
            && now[i].1 < states.len() by {
            if i < rest.len() {
                assert(now[i] == rest[i]);
            }
        }
        assert forall|u: usize, v: usize| now.contains((u, v)) implies #[trigger] stands_for(
            states,
            follows,
            backward,
            u,
            v,
        ) by {
            let i = choose|i: int| 0 <= i < now.len() && now[i] == (u, v);
            if i < rest.len() {
                assert(rest[i] == (u, v));
                assert(rest.contains((u, v)));
                assert(stands_for(states, front, backward, u, v));
                if backward {
                    lemma_linked_longer(states, follows, states[v as int], states[u as int]);
                } else {
                    lemma_linked_longer(states, follows, states[u as int], states[v as int]);
                }
            }
        }
        assert forall|u: usize, v: usize| #[trigger]
            stands_for(states, follows, backward, u, v) implies now.contains((u, v)) by {
            let (s, t) = if backward {
                (states[v as int], states[u as int])
            } else {
                (states[u as int], states[v as int])
            };
            let c = choose|c: char| #[trigger] arrow(states, follows, s, c, t);
            let i = choose|i: int| 0 <= i < follows.len() && follows[i] == (s, c, t);
            if i < front.len() {
                assert(front[i] == (s, c, t));
                assert(arrow(states, front, s, c, t));
                assert(stands_for(states, front, backward, u, v));
                assert(rest.contains((u, v)));
                let j = choose|j: int| 0 <= j < rest.len() && rest[j] == (u, v);
                assert(now[j] == (u, v));
            } else {
                assert(last == (s, c, t));
                lemma_place_of(states, u as int);
                lemma_place_of(states, v as int);
                assert(e == (u, v));
                assert(now[rest.len() as int] == e);
            }
        }
    }
}

/// The successor lists hold the edges, whatever the order of the lists.
pub proof fn lemma_adjacency(n: nat, edges: Seq<(usize, usize)>, order: Seq<usize>)
    requires
        is_arrangement(order, n),
        edges_within(edges, n),
    ensures
        adjacency(n, edges, order).len() == n,
        closed_lists(adjacency(n, edges, order)),
        forall|u: int| 0 <= u < n ==> (#[trigger] adjacency(n, edges, order)[u]).len() <= n,
        forall|u: usize, v: usize| #[trigger]
            edge(adjacency(n, edges, order), u, v) <==> (u < n && edges.contains((u, v))),
{
    let adj = adjacency(n, edges, order);
    lemma_covers(order, n);
    assert forall|u: int| 0 <= u < n implies (#[trigger] adj[u]).len() <= n by {
        order.lemma_filter_len(leads(edges, u as usize));
    }
    assert forall|u: usize, v: usize| #[trigger] edge(adj, u, v) <==> (u < n && edges.contains((u, v))) by {
        if u < n {
            let keep = leads(edges, u);
            assert(adj[u as int] == order.filter(keep));
            if adj[u as int].contains(v) {
                let k = choose|k: int| 0 <= k < adj[u as int].len() && adj[u as int][k] == v;
                order.lemma_filter_pred(keep, k);
                assert(keep(v));
            }
            if edges.contains((u, v)) {
                let i = choose|i: int| 0 <= i < edges.len() && edges[i] == (u, v);
                assert(edges[i].1 < n);
                assert(order.contains(v));
                let j = choose|j: int| 0 <= j < order.len() && order[j] == v;
                assert(keep(order[j]));
                order.lemma_filter_contains(keep, j);
            }
        }
    }
    assert forall|u: int, k: int| 0 <= u < adj.len() && 0 <= k < adj[u].len() implies (
    #[trigger] adj[u][k] as int) < adj.len() by {
        let v = adj[u][k];
        assert(adj[u].contains(v));
        assert(edge(adj, u as usize, v));
        let i = choose|i: int| 0 <= i < edges.len() && edges[i] == (u as usize, v);
        assert(edges[i].1 < n);
    }
}

/// The graph of an automaton shows its transitions between states.
pub proof fn lemma_pictures(
    states: Seq<usize>,
    follows: Seq<(usize, char, usize)>,
    backward: bool,
    order: Seq<usize>,
)
    requires
        states.no_duplicates(),
        states.len() <= usize::MAX,
        is_arrangement(order, states.len()),
    ensures
        pictures(
            states,
            follows,
            backward,
            adjacency(states.len(), arcs(states, follows, backward), order),
        ),
{
    let edges = arcs(states, follows, backward);
    let adj = adjacency(states.len(), edges, order);
    lemma_arcs(states, follows, backward);
    lemma_adjacency(states.len(), edges, order);
    assert forall|u: usize, v: usize| #[trigger]
        edge(adj, u, v) <==> stands_for(states, follows, backward, u, v) by {
        assert(edges.contains((u, v)) <==> stands_for(states, follows, backward, u, v));
    }
}

/// The states along a path of the graph are a walk.
proof fn lemma_path_walk(
    states: Seq<usize>,
    follows: Seq<(usize, char, usize)>,
    adj: Seq<Seq<usize>>,
    p: Seq<usize>,
)
    requires
        pictures(states, follows, false, adj),
        is_path(adj, p),
        p[0] < states.len(),
    ensures
        is_walk(states, follows, named(states, p)),
{
    let q = named(states, p);
    assert(q[0] == states[p[0] as int]);
    assert forall|i: int| 0 <= i < q.len() - 1 implies linked(
        states,
        follows,
        #[trigger] q[i],
        q[i + 1],
    ) by {
        assert(edge(adj, p[i], p[i + 1]));
        assert(stands_for(states, follows, false, p[i], p[i + 1]));
    }
}

/// Every state of a walk is a state.
proof fn lemma_walk_within(
    states: Seq<usize>,
    follows: Seq<(usize, char, usize)>,
    q: Seq<usize>,
    i: int,
)
    requires
        is_walk(states, follows, q),
        0 <= i < q.len(),
    ensures
        states.contains(q[i]),
{
    if i > 0 {
        assert(linked(states, follows, q[i - 1], q[i - 1 + 1]));
        let c = choose|c: char| #[trigger] arrow(states, follows, q[i - 1], c, q[i]);
    }
}

/// The places of the states of a walk are a path of the graph.
proof fn lemma_walk_path(
    states: Seq<usize>,
    follows: Seq<(usize, char, usize)>,
    adj: Seq<Seq<usize>>,
    q: Seq<usize>,
)
    requires
        states.len() <= usize::MAX,
        pictures(states, follows, false, adj),
        is_walk(states, follows, q),
    ensures
        is_path(adj, ranks(states, q)),
{
    let p = ranks(states, q);
    assert forall|i: int| 0 <= i < p.len() - 1 implies edge(adj, #[trigger] p[i], p[i + 1]) by {
        lemma_walk_within(states, follows, q, i);
        lemma_walk_within(states, follows, q, i + 1);
        lemma_place_holds(states, q[i]);
        lemma_place_holds(states, q[i + 1]);
        assert(linked(states, follows, q[i], q[i + 1]));
        assert(stands_for(states, follows, false, p[i], p[i + 1]));
    }
}

/// Two places reach one another in the graph exactly if walks lead from
/// each of the two states to the other.
pub proof fn lemma_mutual_together(
    states: Seq<usize>,
    follows: Seq<(usize, char, usize)>,
    adj: Seq<Seq<usize>>,
    u: usize,
    v: usize,
)
    requires
        states.no_duplicates(),
        states.len() <= usize::MAX,
        pictures(states, follows, false, adj),
        u < states.len(),
        v < states.len(),
    ensures
        mutual(adj, u, v) <==> together(states, follows, states[u as int], states[v as int]),
{
    lemma_reach_connected(states, follows, adj, u, v);
    lemma_reach_connected(states, follows, adj, v, u);
}

/// A place reaches another in the graph exactly if a walk leads from the one
/// state to the other.
pub proof fn lemma_reach_connected(
    states: Seq<usize>,
    follows: Seq<(usize, char, usize)>,
    adj: Seq<Seq<usize>>,
    u: usize,
    v: usize,
)
    requires
        states.no_duplicates(),
        states.len() <= usize::MAX,
        pictures(states, follows, false, adj),
        u < states.len(),
        v < states.len(),
    ensures
        reach(adj, u, v) <==> connected(states, follows, states[u as int], states[v as int]),
{
    if reach(adj, u, v) {
        let p = choose|p: Seq<usize>| joins(adj, p, u, v);
        lemma_path_walk(states, follows, adj, p);
        let q = named(states, p);
        assert(q[0] == states[u as int] && q.last() == states[v as int]);
    }
    if connected(states, follows, states[u as int], states[v as int]) {
        let q = choose|q: Seq<usize>| #[trigger]
            is_walk(states, follows, q) && q[0] == states[u as int] && q.last() == states[v as int];
        lemma_walk_path(states, follows, adj, q);
        let p = ranks(states, q);
        lemma_place_of(states, u as int);
        lemma_place_of(states, v as int);
        assert(p[0] == u && p.last() == v);
        assert(joins(adj, p, u, v));
    }
}

/// A walk, read backwards, is a walk along the transitions turned round.
proof fn lemma_turn_walk(states: Seq<usize>, follows: Seq<(usize, char, usize)>, p: Seq<usize>)
    requires
        is_walk(states, follows, p),
    ensures
        is_walk(states, flip(follows), p.reverse()),
{
    let r = p.reverse();
    lemma_flip(follows);
    lemma_walk_within(states, follows, p, p.len() - 1);
    assert forall|i: int| 0 <= i < r.len() - 1 implies linked(
        states,
        flip(follows),
        #[trigger] r[i],
        r[i + 1],
    ) by {
        let j = p.len() - 2 - i;
        assert(r[i] == p[j + 1] && r[i + 1] == p[j]);
        assert(linked(states, follows, p[j], p[j + 1]));
        let c = choose|c: char| #[trigger] arrow(states, follows, p[j], c, p[j + 1]);
        assert(turned((p[j + 1], c, p[j])) == (p[j], c, p[j + 1]));
        assert(arrow(states, flip(follows), p[j + 1], c, p[j]));
    }
}

/// A walk leads from `s` to `t` along the transitions turned round exactly
/// if one leads from `t` to `s` along the transitions.
pub proof fn lemma_turn_connected(
    states: Seq<usize>,
    follows: Seq<(usize, char, usize)>,
    s: usize,
    t: usize,
)
    ensures
        connected(states, flip(follows), s, t) <==> connected(states, follows, t, s),
{
    if connected(states, follows, t, s) {
        let p = choose|p: Seq<usize>| #[trigger]
            is_walk(states, follows, p) && p[0] == t && p.last() == s;
        lemma_turn_walk(states, follows, p);
        assert(p.reverse()[0] == s && p.reverse().last() == t);
    }
    if connected(states, flip(follows), s, t) {
        let p = choose|p: Seq<usize>| #[trigger]
            is_walk(states, flip(follows), p) && p[0] == s && p.last() == t;
        lemma_turn_walk(states, flip(follows), p);
        crate::relation::lemma_flip_flip(follows);
        assert(p.reverse()[0] == t && p.reverse().last() == s);
    }
}

} // verus!
