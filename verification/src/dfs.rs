//! Depth-first search of an automaton.
//!
//! The states of a description are numbered by their place in its list of
//! states; the transitions between two of them, whatever their symbol, are the
//! edges of a graph on these numbers. The search visits the states in a given
//! order and, below a state, its unvisited successors in the relative order in
//! which the given order lists them.

use vstd::prelude::*;
use crate::adjacency::{adjacency, arrange, edges_within};
use crate::error::AutomataError;
use crate::graph::{
    depth_first,
    is_arrangement,
    lemma_covers,
    lists,
    missing,
    preds_within,
    traverse,
    Trace,
    Traversal,
};
use crate::inner::InnerAutomata;
use crate::reach::edge;
use crate::visit::{crowned, planted};
use crate::walks::{lemma_pictures, stands_for, steps};
use crate::labels::{lemma_place_holds, place, position, repeats};

verus! {

/// What a depth-first search found, in labels of states.
#[derive(Debug)]
pub struct DFSInfo {
    /// `prefix[i]` is the state that was discovered at time `i`.
    pub prefix: Vec<usize>,
    /// `suffix[i]` is the state whose exploration ended at time `i`.
    pub suffix: Vec<usize>,
    /// For the `i`-th state of the automaton, the state from which it was
    /// discovered; nothing if it is a root of the search.
    pub predecessor: Vec<Option<usize>>,
}

/// The edges between the places of the states of `states`: one for each
/// transition of `follows` that joins two of them, turned round if `backward`.
pub open spec fn arcs(states: Seq<usize>, follows: Seq<(usize, char, usize)>, backward: bool) -> Seq<
    (usize, usize),
>
    decreases follows.len(),
{
    if follows.len() == 0 {
        Seq::empty()
    } else {
        let rest = arcs(states, follows.drop_last(), backward);
        let t = follows.last();
        if states.contains(t.0) && states.contains(t.2) {
            let from = place(states, t.0) as usize;
            let to = place(states, t.2) as usize;
            rest.push(
                if backward {
                    (to, from)
                } else {
                    (from, to)
                },
            )
        } else {
            rest
        }
    }
}

/// The places of the labels of `order` among `states`.
pub open spec fn ranks(states: Seq<usize>, order: Seq<usize>) -> Seq<usize> {
    order.map_values(|label: usize| place(states, label) as usize)
}

/// The labels of the states at the places `nodes`.
pub open spec fn named(states: Seq<usize>, nodes: Seq<usize>) -> Seq<usize> {
    nodes.map_values(|i: usize| states[i as int])
}

/// The labels of the predecessors `pred`.
pub open spec fn named_pred(states: Seq<usize>, pred: Seq<Option<usize>>) -> Seq<Option<usize>> {
    pred.map_values(
        |p: Option<usize>|
            match p {
                Some(i) => Some(states[i as int]),
                None => None,
            },
    )
}

/// Each of the two lists names every element of the other, once.
pub open spec fn is_permutation(a: Seq<usize>, b: Seq<usize>) -> bool {
    &&& a.len() == b.len()
    &&& a.no_duplicates()
    &&& b.no_duplicates()
    &&& forall|i: int| 0 <= i < a.len() ==> b.contains(#[trigger] a[i])
    &&& forall|i: int| 0 <= i < b.len() ==> a.contains(#[trigger] b[i])
}

/// The graph on the places of the states: its edges are the transitions
/// between states, turned round if `backward`, and each successor list is in
/// the order of `order`.
pub open spec fn graph_of(
    states: Seq<usize>,
    follows: Seq<(usize, char, usize)>,
    order: Seq<usize>,
    backward: bool,
) -> Seq<Seq<usize>> {
    adjacency(states.len(), arcs(states, follows, backward), order)
}

/// The search of the states `states` with the transitions `follows`, roots
/// tried in the order `order` (places of states), along the transitions or
/// against them.
pub open spec fn search(
    states: Seq<usize>,
    follows: Seq<(usize, char, usize)>,
    order: Seq<usize>,
    backward: bool,
) -> Trace {
    depth_first(graph_of(states, follows, order, backward), order)
}

impl DFSInfo {
    /// Whether this is the trace `t` of a search of `states`, in labels.
    pub open spec fn tells(&self, states: Seq<usize>, t: Trace) -> bool {
        &&& self.prefix@ == named(states, t.prefix)
        &&& self.suffix@ == named(states, t.suffix)
        &&& self.predecessor@ == named_pred(states, t.pred)
    }
}

/// The edges of the graph of a description.
pub fn index_edges(states: &Vec<usize>, follows: &Vec<(usize, char, usize)>, backward: bool) -> (edges:
    Vec<(usize, usize)>)
    ensures
        edges@ == arcs(states@, follows@, backward),
        edges_within(edges@, states.len() as nat),
{
    let mut edges: Vec<(usize, usize)> = Vec::new();
    let mut i: usize = 0;
    while i < follows.len()
        invariant
            i <= follows.len(),
            edges@ == arcs(states@, follows@.take(i as int), backward),
            edges_within(edges@, states.len() as nat),
        decreases follows.len() - i,
    {
        let t = follows[i];
        proof {
            assert(follows@.take(i + 1).drop_last() =~= follows@.take(i as int));
            assert(follows@.take(i + 1).last() == t);
        }
        match position(states, t.0) {
            Some(from) => {
                match position(states, t.2) {
                    Some(to) => {
                        if backward {
                            edges.push((to, from));
                        } else {
                            edges.push((from, to));
                        }
                    },
                    None => {},
                }
            },
            None => {},
        }
        i = i + 1;
    }
    assert(follows@.take(i as int) =~= follows@);
    edges
}

/// The numbers `0..n` in their natural order.
pub open spec fn natural(n: nat) -> Seq<usize> {
    Seq::new(n, |i: int| i as usize)
}

/// The numbers `0..n`, ascending.
pub fn count_up(n: usize) -> (order: Vec<usize>)
    ensures
        order@ == natural(n as nat),
        is_arrangement(order@, n as nat),
{
    let mut order: Vec<usize> = Vec::new();
    let mut i: usize = 0;
    while i < n
        invariant
            i <= n,
            order@ == natural(i as nat),
        decreases n - i,
    {
        order.push(i);
        i = i + 1;
        assert(order@ =~= natural(i as nat));
    }
    order
}

/// The labels of the states at the places `nodes`.
pub fn name_all(states: &Vec<usize>, nodes: &Vec<usize>) -> (labels: Vec<usize>)
    requires
        forall|i: int| 0 <= i < nodes.len() ==> nodes[i] < states.len(),
    ensures
        labels@ == named(states@, nodes@),
{
    let mut labels: Vec<usize> = Vec::new();
    let mut i: usize = 0;
    while i < nodes.len()
        invariant
            i <= nodes.len(),
            forall|k: int| 0 <= k < nodes.len() ==> nodes[k] < states.len(),
            labels@ == named(states@, nodes@.take(i as int)),
        decreases nodes.len() - i,
    {
        labels.push(states[nodes[i]]);
        assert(named(states@, nodes@.take(i + 1)) =~= named(states@, nodes@.take(i as int)).push(
            states@[nodes@[i as int] as int],
        ));
        i = i + 1;
    }
    assert(nodes@.take(i as int) =~= nodes@);
    labels
}

/// The labels of the predecessors `pred`.
pub fn name_pred(states: &Vec<usize>, pred: &Vec<Option<usize>>) -> (labels: Vec<Option<usize>>)
    requires
        preds_within(pred@, states.len() as nat),
    ensures
        labels@ == named_pred(states@, pred@),
{
    let mut labels: Vec<Option<usize>> = Vec::new();
    let mut i: usize = 0;
    while i < pred.len()
        invariant
            i <= pred.len(),
            preds_within(pred@, states.len() as nat),
            labels@ == named_pred(states@, pred@.take(i as int)),
        decreases pred.len() - i,
    {
        let entry = match pred[i] {
            Some(p) => Some(states[p]),
            None => None,
        };
        labels.push(entry);
        assert(named_pred(states@, pred@.take(i + 1)) =~= named_pred(
            states@,
            pred@.take(i as int),
        ).push(entry));
        i = i + 1;
    }
    assert(pred@.take(i as int) =~= pred@);
    labels
}

/// The places of the labels of `order`, if `order` names every state once.
pub fn rank_all(states: &Vec<usize>, order: &Vec<usize>) -> (places: Option<Vec<usize>>)
    requires
        states@.no_duplicates(),
    ensures
        match places {
            Some(p) => is_permutation(order@, states@) && p@ == ranks(states@, order@)
                && is_arrangement(p@, states.len() as nat),
            None => !is_permutation(order@, states@),
        },
{
    if order.len() != states.len() {
        return None;
    }
    if repeats(order) {
        return None;
    }
    let mut places: Vec<usize> = Vec::new();
    let mut i: usize = 0;
    while i < order.len()
        invariant
            i <= order.len(),
            order.len() == states.len(),
            order@.no_duplicates(),
            states@.no_duplicates(),
            places@ == ranks(states@, order@.take(i as int)),
            forall|k: int| 0 <= k < i ==> states@.contains(#[trigger] order[k]),
            forall|k: int|
                0 <= k < i ==> (#[trigger] places[k]) < states.len() && states[places[k] as int]
                    == order[k],
        decreases order.len() - i,
    {
        match position(states, order[i]) {
            Some(at) => {
                places.push(at);
                assert(ranks(states@, order@.take(i + 1)) =~= ranks(
                    states@,
                    order@.take(i as int),
                ).push(place(states@, order@[i as int]) as usize));
            },
            None => {
                return None;
            },
        }
        i = i + 1;
    }
    proof {
        assert(order@.take(i as int) =~= order@);
        assert forall|a: int, b: int| 0 <= a < places.len() && 0 <= b < places.len() && a
            != b implies places[a] != places[b] by {
            assert(states[places[a] as int] == order[a]);
            assert(states[places[b] as int] == order[b]);
        }
        assert(is_arrangement(places@, states.len() as nat));
        lemma_covers(places@, states.len() as nat);
        assert forall|k: int| 0 <= k < states.len() implies order@.contains(
            #[trigger] states[k],
        ) by {
            assert(places@.contains(k as usize));
            let j = choose|j: int| 0 <= j < places@.len() && places@[j] == k as usize;
            assert(order@[j] == states[k]);
        }
    }
    Some(places)
}

/// The search of the graph of a description, on places of states.
pub fn search_places(
    states: &Vec<usize>,
    follows: &Vec<(usize, char, usize)>,
    order: &Vec<usize>,
    backward: bool,
) -> (found: Traversal)
    requires
        is_arrangement(order@, states.len() as nat),
    ensures
        found.records(search(states@, follows@, order@, backward)),
        is_arrangement(found.prefix@, states.len() as nat),
        is_arrangement(found.suffix@, states.len() as nat),
        found.pred.len() == states.len(),
        preds_within(found.pred@, states.len() as nat),
        missing(found.pred@) == search(states@, follows@, order@, backward).roots.len(),
        search(states@, follows@, order@, backward).roots.no_duplicates(),
        forall|v: usize|
            v < states.len() ==> (found.pred[v as int] is None <==> search(
                states@,
                follows@,
                order@,
                backward,
            ).roots.contains(v)),
        crowned(graph_of(states@, follows@, order@, backward), found.suffix@),
        planted(
            graph_of(states@, follows@, order@, backward),
            order@,
            search(states@, follows@, order@, backward),
        ),
{
    let edges = index_edges(states, follows, backward);
    let adj = arrange(states.len(), &edges, order);
    traverse(&adj, order)
}

/// The places of the labels of a permutation of the states are an
/// arrangement, and at each of these places stands its label.
pub proof fn lemma_ranks(states: Seq<usize>, order: Seq<usize>)
    requires
        states.no_duplicates(),
        states.len() <= usize::MAX,
        is_permutation(order, states),
    ensures
        is_arrangement(ranks(states, order), states.len()),
        forall|i: int|
            0 <= i < order.len() ==> states[(#[trigger] ranks(states, order)[i]) as int] == order[i],
{
    let places = ranks(states, order);
    assert forall|i: int| 0 <= i < order.len() implies (#[trigger] places[i]) < states.len()
        && states[places[i] as int] == order[i] by {
        assert(states.contains(order[i]));
        lemma_place_holds(states, order[i]);
    }
    assert forall|a: int, b: int| 0 <= a < places.len() && 0 <= b < places.len() && a
        != b implies places[a] != places[b] by {
        assert(states[places[a] as int] == order[a]);
        assert(states[places[b] as int] == order[b]);
    }
}

/// The labels of a list of places are a permutation of the states when the
/// places are an arrangement.
pub proof fn lemma_named_permutation(states: Seq<usize>, nodes: Seq<usize>)
    requires
        states.no_duplicates(),
        states.len() <= usize::MAX,
        is_arrangement(nodes, states.len()),
    ensures
        is_permutation(named(states, nodes), states),
{
    let labels = named(states, nodes);
    lemma_covers(nodes, states.len());
    assert forall|i: int| 0 <= i < states.len() implies labels.contains(#[trigger] states[i]) by {
        assert(nodes.contains(i as usize));
        let j = choose|j: int| 0 <= j < nodes.len() && nodes[j] == i as usize;
        assert(labels[j] == states[i]);
    }
    assert forall|i: int| 0 <= i < labels.len() implies states.contains(#[trigger] labels[i]) by {
        assert(states[nodes[i] as int] == labels[i]);
    }
}

/// Being a permutation of one another passes on.
pub proof fn lemma_permutation_chain(a: Seq<usize>, b: Seq<usize>, c: Seq<usize>)
    requires
        is_permutation(a, b),
        is_permutation(c, b),
    ensures
        is_permutation(a, c),
{
    assert forall|i: int| 0 <= i < a.len() implies c.contains(#[trigger] a[i]) by {
        assert(b.contains(a[i]));
        let j = choose|j: int| 0 <= j < b.len() && b[j] == a[i];
        assert(c.contains(b[j]));
    }
    assert forall|i: int| 0 <= i < c.len() implies a.contains(#[trigger] c[i]) by {
        assert(b.contains(c[i]));
        let j = choose|j: int| 0 <= j < b.len() && b[j] == c[i];
        assert(a.contains(b[j]));
    }
}

impl InnerAutomata {
    /// Depth-first search of the states of this description with the
    /// transitions `follows`, along them or, if `backward`, against them.
    ///
    /// `order` must name every state once, or the search fails with
    /// `NotEnoughState`. States are tried as roots in the order of `order`;
    /// below a state, its unvisited successors are visited in the relative
    /// order in which `order` lists them. Discovery and completion are both
    /// permutations of `order`, the states without a predecessor are as many
    /// as the roots of the search, and the search can step from the
    /// predecessor of a state to the state.
    pub fn dfs(&self, follows: &Vec<(usize, char, usize)>, order: Vec<usize>, backward: bool) -> (found:
        Result<DFSInfo, AutomataError>)
        requires
            self.wf(),
        ensures
            match found {
                Ok(info) => {
                    &&& is_permutation(order@, self@.states)
                    &&& info.tells(
                        self@.states,
                        search(self@.states, follows@, ranks(self@.states, order@), backward),
                    )
                    &&& is_permutation(info.prefix@, order@)
                    &&& is_permutation(info.suffix@, order@)
                    &&& info.predecessor.len() == order.len()
                    &&& missing(info.predecessor@) == search(
                        self@.states,
                        follows@,
                        ranks(self@.states, order@),
                        backward,
                    ).roots.len()
                    &&& forall|i: int|
                        0 <= i < info.predecessor.len() ==> ((
                        #[trigger] info.predecessor[i]) matches Some(p) ==> steps(
                            self@.states,
                            follows@,
                            backward,
                            p,
                            self@.states[i],
                        ))
                },
                Err(e) => e == AutomataError::NotEnoughState && !is_permutation(order@, self@.states),
            },
    {
        let states = self.labels();
        match rank_all(states, &order) {
            None => Err(AutomataError::NotEnoughState),
            Some(places) => {
                let found = search_places(states, follows, &places, backward);
                let prefix = name_all(states, &found.prefix);
                let suffix = name_all(states, &found.suffix);
                let predecessor = name_pred(states, &found.pred);
                proof {
                    lemma_named_permutation(states@, found.prefix@);
                    lemma_named_permutation(states@, found.suffix@);
                    lemma_permutation_chain(prefix@, states@, order@);
                    lemma_permutation_chain(suffix@, states@, order@);
                    lemma_missing_named(states@, found.pred@);
                    let adj = graph_of(states@, follows@, places@, backward);
                    lemma_pictures(states@, follows@, backward, places@);
                    assert forall|i: int| 0 <= i < predecessor.len() implies ((
                    #[trigger] predecessor[i]) matches Some(p) ==> steps(
                        states@,
                        follows@,
                        backward,
                        p,
                        states@[i],
                    )) by {
                        if let Some(u) = found.pred@[i] {
                            assert(predecessor[i] == Some(states@[u as int]));
                            assert(edge(adj, u, i as usize));
                            assert(stands_for(states@, follows@, backward, u, i as usize));
                        }
                    }
                }
                Ok(DFSInfo { prefix, suffix, predecessor })
            },
        }
    }
}

/// Naming the predecessors does not change how many are missing.
pub proof fn lemma_missing_named(states: Seq<usize>, pred: Seq<Option<usize>>)
    ensures
        missing(named_pred(states, pred)) == missing(pred),
    decreases pred.len(),
{
    if pred.len() > 0 {
        lemma_missing_named(states, pred.drop_last());
        assert(named_pred(states, pred).drop_last() =~= named_pred(states, pred.drop_last()));
    }
}

} // verus!
