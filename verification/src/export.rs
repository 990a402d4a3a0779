//! An automaton as a graph of the crate `petgraph`: a node for every state,
//! with the label of the state as its weight, and an edge for every
//! transition, with its symbol as its weight.

use vstd::prelude::*;
use petgraph::graph::{Graph, NodeIndex};
use petgraph::Directed;
use crate::automata::Automata;
use crate::labels::{place, position};
use crate::relation::inside;

verus! {

/// The directed graph of `petgraph`, whose inside is not read here.
#[verifier::external_type_specification]
#[verifier::external_body]
#[verifier::reject_recursive_types(N)]
#[verifier::reject_recursive_types(E)]
#[verifier::reject_recursive_types(Ty)]
#[verifier::reject_recursive_types(Ix)]
pub struct ExGraph<N, E, Ty, Ix>(Graph<N, E, Ty, Ix>);

/// The marker of `petgraph` for directed graphs.
#[verifier::external_type_specification]
#[verifier::external_body]
pub struct ExDirected(Directed);

/// The weights of the nodes of a graph, in the order of their indices.
pub uninterp spec fn graph_nodes(g: Graph<usize, char, Directed, u32>) -> Seq<usize>;

/// The edges of a graph, in the order of their indices: the index of the
/// source, the index of the target, and the weight.
pub uninterp spec fn graph_edges(g: Graph<usize, char, Directed, u32>) -> Seq<(int, int, char)>;

/// `Graph::new` of `petgraph`: a graph without nodes and edges.
#[verifier::external_body]
fn graph_new() -> (g: Graph<usize, char, Directed, u32>)
    ensures
        graph_nodes(g) == Seq::<usize>::empty(),
        graph_edges(g) == Seq::<(int, int, char)>::empty(),
{
    Graph::new()
}

/// `Graph::add_node` of `petgraph`: the new node gets the next index and the
/// given weight; the edges stay. The method panics when the index would be
/// the largest `u32`, which the precondition leaves out.
#[verifier::external_body]
fn graph_add_node(g: &mut Graph<usize, char, Directed, u32>, weight: usize)
    requires
        graph_nodes(*old(g)).len() < u32::MAX,
    ensures
        graph_nodes(*final(g)) == graph_nodes(*old(g)).push(weight),
        graph_edges(*final(g)) == graph_edges(*old(g)),
{
    g.add_node(weight);
}

/// `Graph::add_edge` of `petgraph`: the new edge gets the next index and
/// joins the nodes with the indices `from` and `to`; the nodes stay. The
/// method panics when a node index is out of bounds or when the edge index
/// would be the largest `u32`, which the preconditions leave out.
#[verifier::external_body]
fn graph_add_edge(g: &mut Graph<usize, char, Directed, u32>, from: usize, to: usize, weight: char)
    requires
        from < graph_nodes(*old(g)).len(),
        to < graph_nodes(*old(g)).len(),
        graph_nodes(*old(g)).len() < u32::MAX,
        graph_edges(*old(g)).len() < u32::MAX,
    ensures
        graph_nodes(*final(g)) == graph_nodes(*old(g)),
        graph_edges(*final(g)) == graph_edges(*old(g)).push((from as int, to as int, weight)),
{
    g.add_edge(NodeIndex::new(from), NodeIndex::new(to), weight);
}

/// The transitions as edges between the places of their states.
pub open spec fn placed(states: Seq<usize>, follows: Seq<(usize, char, usize)>) -> Seq<
    (int, int, char),
> {
    follows.map_values(|t: (usize, char, usize)| (place(states, t.0), place(states, t.2), t.1))
}

impl Automata {
    /// The automaton as a graph: the node with the index `i` is the `i`-th
    /// state, and every transition is an edge.
    pub fn get_graph(&self) -> (g: Graph<usize, char, Directed, u32>)
        requires
            self.wf(),
            self@.inner.states.len() < u32::MAX,
            self@.follows.len() < u32::MAX,
        ensures
            graph_nodes(g) == self@.inner.states,
            graph_edges(g) == placed(self@.inner.states, self@.follows),
    {
        let states = self.inner().states();
        let follows = self.transitions();
        let mut g = graph_new();
        let mut i: usize = 0;
        assert(states@.take(0) =~= Seq::<usize>::empty());
        while i < states.len()
            invariant
                i <= states.len(),
                states.len() < u32::MAX,
                graph_nodes(g) == states@.take(i as int),
                graph_edges(g) == Seq::<(int, int, char)>::empty(),
            decreases states.len() - i,
        {
            graph_add_node(&mut g, states[i]);
            assert(states@.take(i + 1) =~= states@.take(i as int).push(states@[i as int]));
            i = i + 1;
        }
        assert(states@.take(i as int) =~= states@);
        let mut k: usize = 0;
        assert(placed(states@, follows@.take(0)) =~= Seq::<(int, int, char)>::empty());
        while k < follows.len()
            invariant
                k <= follows.len(),
                states.len() < u32::MAX,
                follows.len() < u32::MAX,
                states@ == self@.inner.states,
                follows@ == self@.follows,
                self.wf(),
                graph_nodes(g) == states@,
                graph_edges(g) == placed(states@, follows@.take(k as int)),
            decreases follows.len() - k,
        {
            let t = follows[k];
            assert(inside(states@, follows@[k as int]));
            match position(&states, t.0) {
                Some(from) => {
                    match position(&states, t.2) {
                        Some(to) => {
                            graph_add_edge(&mut g, from, to, t.1);
                        },
                        None => {},
                    }
                },
                None => {},
            }
            assert(placed(states@, follows@.take(k + 1)) =~= placed(
                states@,
                follows@.take(k as int),
            ).push((place(states@, t.0), place(states@, t.2), t.1)));
            k = k + 1;
        }
        assert(follows@.take(k as int) =~= follows@);
        g
    }
}

} // verus!
