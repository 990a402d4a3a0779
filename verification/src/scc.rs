//! Strongly connected components by the algorithm of Kosaraju.
//!
//! A first search along the transitions, in the natural order of the states,
//! gives an order of completion. A second search against the transitions, in
//! the reverse of that order, discovers the states component by component:
//! each root of the second search opens a component, and every other state
//! joins the component that is open when it is discovered.

use vstd::prelude::*;
use crate::classes::{classes, lemma_groups_are_classes, opposite};
use crate::walks::{lemma_mutual_together, lemma_pictures, pictures, stands_for, together};
use crate::reach::edge;
use crate::dfs::{
    count_up,
    graph_of,
    is_permutation,
    lemma_named_permutation,
    name_all,
    named,
    natural,
    search,
    search_places,
};
use crate::graph::{is_arrangement, lemma_covers, lists, Trace};
use crate::visit::lemma_depth_first;
use crate::inner::InnerAutomata;

verus! {

/// The first search: along the transitions, states in their natural order.
pub open spec fn first_pass(states: Seq<usize>, follows: Seq<(usize, char, usize)>) -> Trace {
    search(states, follows, natural(states.len()), false)
}

/// The second search: against the transitions, states in the reverse of the
/// order in which the first search completed them.
pub open spec fn second_pass(states: Seq<usize>, follows: Seq<(usize, char, usize)>) -> Trace {
    search(states, follows, first_pass(states, follows).suffix.reverse(), true)
}

/// Cuts an order of discovery into groups: a node without predecessor opens a
/// group, any other node joins the last group.
pub open spec fn groups(prefix: Seq<usize>, pred: Seq<Option<usize>>) -> Seq<Seq<usize>>
    decreases prefix.len(),
{
    if prefix.len() == 0 {
        Seq::empty()
    } else {
        let before = groups(prefix.drop_last(), pred);
        let v = prefix.last();
        if before.len() == 0 || pred[v as int] is None {
            before.push(seq![v])
        } else {
            before.update(before.len() - 1, before.last().push(v))
        }
    }
}

/// The strongly connected components, as places of states.
pub open spec fn component_places(states: Seq<usize>, follows: Seq<(usize, char, usize)>) -> Seq<
    Seq<usize>,
> {
    groups(second_pass(states, follows).prefix, second_pass(states, follows).pred)
}

/// The strongly connected components, as labels of states.
pub open spec fn components(states: Seq<usize>, follows: Seq<(usize, char, usize)>) -> Seq<
    Seq<usize>,
> {
    component_places(states, follows).map_values(|part: Seq<usize>| named(states, part))
}

/// Two states stand in the same part exactly if walks along the transitions
/// between states of `states` lead from each of them to the other.
pub open spec fn divides(
    states: Seq<usize>,
    follows: Seq<(usize, char, usize)>,
    parts: Seq<Seq<usize>>,
) -> bool {
    forall|g: int, k: int, h: int, l: int|
        0 <= g < parts.len() && 0 <= k < parts[g].len() && 0 <= h < parts.len() && 0 <= l
            < parts[h].len() ==> ((g == h) <==> together(
            states,
            follows,
            #[trigger] parts[g][k],
            #[trigger] parts[h][l],
        ))
}

/// The graph against the transitions is the opposite of the graph along
/// them.
pub proof fn lemma_opposite(
    states: Seq<usize>,
    follows: Seq<(usize, char, usize)>,
    along: Seq<Seq<usize>>,
    against: Seq<Seq<usize>>,
)
    requires
        pictures(states, follows, false, along),
        pictures(states, follows, true, against),
    ensures
        opposite(along, against),
{
    assert forall|u: usize, v: usize| #[trigger] edge(against, u, v) implies edge(along, v, u) by {
        assert(stands_for(states, follows, true, u, v));
        assert(stands_for(states, follows, false, v, u));
    }
    assert forall|u: usize, v: usize| #[trigger] edge(along, u, v) implies edge(against, v, u) by {
        assert(stands_for(states, follows, false, u, v));
        assert(stands_for(states, follows, true, v, u));
    }
}

/// The parts that the two searches find, as places of states, are the
/// classes of the places that reach one another in the graph of the
/// automaton, and together they hold every place once.
pub proof fn lemma_component_places(states: Seq<usize>, follows: Seq<(usize, char, usize)>)
    requires
        states.no_duplicates(),
        states.len() <= usize::MAX,
    ensures
        pictures(states, follows, false, graph_of(states, follows, natural(states.len()), false)),
        classes(
            graph_of(states, follows, natural(states.len()), false),
            component_places(states, follows),
        ),
        is_arrangement(second_pass(states, follows).prefix, states.len()),
        is_arrangement(first_pass(states, follows).suffix, states.len()),
{
    let n = states.len();
    let order = natural(n);
    assert(is_arrangement(order, n));
    let along = graph_of(states, follows, order, false);
    lemma_pictures(states, follows, false, order);
    lemma_depth_first(along, order);
    let done = first_pass(states, follows).suffix;
    let back = done.reverse();
    lemma_reverse_arrangement(done, n);
    let against = graph_of(states, follows, back, true);
    lemma_pictures(states, follows, true, back);
    lemma_depth_first(against, back);
    lemma_opposite(states, follows, along, against);
    lemma_groups_are_classes(along, against, done, second_pass(states, follows));
}

/// The strongly connected components are the classes of the states that walks
/// join in both directions: two states stand in the same component exactly if
/// walks lead from each of them to the other. Together the components name
/// every state once, and none of them is empty.
pub proof fn lemma_components(states: Seq<usize>, follows: Seq<(usize, char, usize)>)
    requires
        states.no_duplicates(),
        states.len() <= usize::MAX,
    ensures
        divides(states, follows, components(states, follows)),
        is_permutation(components(states, follows).flatten(), states),
        scattered(components(states, follows)),
        forall|i: int|
            0 <= i < components(states, follows).len() ==> (#[trigger] components(
                states,
                follows,
            )[i]).len() > 0,
        forall|i: int, k: int|
            0 <= i < components(states, follows).len() && 0 <= k < components(
                states,
                follows,
            )[i].len() ==> states.contains(#[trigger] components(states, follows)[i][k]),
        forall|j: int|
            0 <= j < states.len() ==> covered(components(states, follows), #[trigger] states[j]),
        (components(states, follows).len() == 0) == (states.len() == 0),
{
    let n = states.len();
    let places = component_places(states, follows);
    let parts = components(states, follows);
    let second = second_pass(states, follows);
    let along = graph_of(states, follows, natural(n), false);
    lemma_component_places(states, follows);
    lemma_groups(second.prefix, second.pred);
    lemma_groups_within(second.prefix, second.pred, n);
    lemma_groups_scattered(second.prefix, second.pred);
    lemma_named_flatten(states, places);
    lemma_named_permutation(states, places.flatten());
    lemma_named_scattered(states, places);
    lemma_covers(second.prefix, n);
    assert forall|i: int| 0 <= i < parts.len() implies (#[trigger] parts[i]).len() > 0 by {
        assert(parts[i] == named(states, places[i]));
    }
    assert forall|g: int, k: int, h: int, l: int|
        0 <= g < parts.len() && 0 <= k < parts[g].len() && 0 <= h < parts.len() && 0 <= l
            < parts[h].len() implies ((g == h) <==> together(
        states,
        follows,
        #[trigger] parts[g][k],
        #[trigger] parts[h][l],
    )) by {
        assert(parts[g] == named(states, places[g]));
        assert(parts[h] == named(states, places[h]));
        let u = places[g][k];
        let v = places[h][l];
        assert(parts[g][k] == states[u as int]);
        assert(parts[h][l] == states[v as int]);
        lemma_mutual_together(states, follows, along, u, v);
    }
    assert forall|i: int, k: int| 0 <= i < parts.len() && 0 <= k < parts[i].len() implies states.contains(
        #[trigger] parts[i][k],
    ) by {
        assert(parts[i] == named(states, places[i]));
        assert(states[places[i][k] as int] == parts[i][k]);
    }
    assert forall|j: int| 0 <= j < states.len() implies covered(parts, #[trigger] states[j]) by {
        assert(second.prefix.contains(j as usize));
        let a = choose|a: int| 0 <= a < second.prefix.len() && second.prefix[a] == j as usize;
        assert(covered(places, second.prefix[a]));
        let (i, k) = choose|i: int, k: int|
            0 <= i < places.len() && 0 <= k < places[i].len() && #[trigger] places[i][k]
                == j as usize;
        assert(parts[i] == named(states, places[i]));
        assert(parts[i][k] == states[j]);
    }
    if parts.len() == 0 {
        assert(places.flatten() =~= Seq::<usize>::empty());
    }
}

/// The groups, one after the other, are the order of discovery, and no group
/// is empty.
pub proof fn lemma_groups(prefix: Seq<usize>, pred: Seq<Option<usize>>)
    ensures
        groups(prefix, pred).flatten() == prefix,
        forall|i: int| 0 <= i < groups(prefix, pred).len() ==> (#[trigger] groups(prefix, pred)[i]).len() > 0,
        prefix.len() > 0 ==> groups(prefix, pred).len() > 0,
    decreases prefix.len(),
{
    if prefix.len() == 0 {
        assert(groups(prefix, pred).flatten() =~= prefix);
    } else {
        let before = groups(prefix.drop_last(), pred);
        let v = prefix.last();
        lemma_groups(prefix.drop_last(), pred);
        assert(prefix.drop_last().push(v) =~= prefix);
        if before.len() == 0 || pred[v as int] is None {
            before.lemma_flatten_push(seq![v]);
            assert(before.flatten() + seq![v] =~= prefix);
        } else {
            let grown = before.update(before.len() - 1, before.last().push(v));
            assert(grown =~= before.drop_last().push(before.last().push(v)));
            assert(before =~= before.drop_last().push(before.last()));
            before.drop_last().lemma_flatten_push(before.last().push(v));
            before.drop_last().lemma_flatten_push(before.last());
            assert(grown.flatten() =~= before.flatten().push(v));
        }
    }
}

/// No state stands twice in the parts, neither in one nor in two of them.
pub open spec fn scattered(parts: Seq<Seq<usize>>) -> bool {
    forall|i: int, k: int, j: int, l: int|
        0 <= i < parts.len() && 0 <= k < parts[i].len() && 0 <= j < parts.len() && 0 <= l
            < parts[j].len() && (i != j || k != l) ==> #[trigger] parts[i][k] != #[trigger] parts[j][l]
}

/// Whether `state` stands in one of the parts.
pub open spec fn covered(parts: Seq<Seq<usize>>, state: usize) -> bool {
    exists|i: int, k: int|
        0 <= i < parts.len() && 0 <= k < parts[i].len() && #[trigger] parts[i][k] == state
}

/// The groups of an order of discovery without repetition hold each of its
/// nodes once, and nothing else.
pub proof fn lemma_groups_scattered(prefix: Seq<usize>, pred: Seq<Option<usize>>)
    requires
        prefix.no_duplicates(),
    ensures
        scattered(groups(prefix, pred)),
        forall|i: int, k: int|
            0 <= i < groups(prefix, pred).len() && 0 <= k < groups(prefix, pred)[i].len()
                ==> prefix.contains(#[trigger] groups(prefix, pred)[i][k]),
        forall|j: int| 0 <= j < prefix.len() ==> covered(groups(prefix, pred), #[trigger] prefix[j]),
    decreases prefix.len(),
{
    if prefix.len() > 0 {
        let front = prefix.drop_last();
        let v = prefix.last();
        lemma_groups_scattered(front, pred);
        let before = groups(front, pred);
        let now = groups(prefix, pred);
        let opened = before.len() == 0 || pred[v as int] is None;
        assert forall|i: int, k: int| 0 <= i < now.len() && 0 <= k < now[i].len() implies (
        #[trigger] now[i][k] == v && i == now.len() - 1 && k == now[i].len() - 1) || (i
            < before.len() && k < before[i].len() && now[i][k] == before[i][k] && front.contains(
            before[i][k],
        )) by {
            if opened {
            } else {
            }
        }
        assert forall|i: int, k: int| 0 <= i < now.len() && 0 <= k < now[i].len() implies prefix.contains(
            #[trigger] now[i][k],
        ) by {
            if now[i][k] == v && i == now.len() - 1 && k == now[i].len() - 1 {
                assert(prefix[prefix.len() - 1] == v);
            } else {
                let x = before[i][k];
                assert(front.contains(x));
                let a = choose|a: int| 0 <= a < front.len() && front[a] == x;
                assert(prefix[a] == x);
            }
        }
        assert(!front.contains(v)) by {
            if front.contains(v) {
                let a = choose|a: int| 0 <= a < front.len() && front[a] == v;
                assert(prefix[a] == prefix[prefix.len() - 1]);
            }
        }
        assert forall|i: int, k: int, j: int, l: int|
            0 <= i < now.len() && 0 <= k < now[i].len() && 0 <= j < now.len() && 0 <= l
                < now[j].len() && (i != j || k != l) implies #[trigger] now[i][k]
            != #[trigger] now[j][l] by {
            let first_new = i == now.len() - 1 && k == now[i].len() - 1;
            let second_new = j == now.len() - 1 && l == now[j].len() - 1;
            if first_new {
                assert(now[i][k] == v);
                assert(front.contains(before[j][l]));
            } else if second_new {
                assert(now[j][l] == v);
                assert(front.contains(before[i][k]));
            } else {
                assert(before[i][k] != before[j][l]);
            }
        }
        assert forall|j: int| 0 <= j < prefix.len() implies covered(now, #[trigger] prefix[j]) by {
            if j < front.len() {
                assert(covered(before, front[j]));
                let (i, k) = choose|i: int, k: int|
                    0 <= i < before.len() && 0 <= k < before[i].len() && #[trigger] before[i][k]
                        == front[j];
                assert(now[i][k] == prefix[j]);
            } else {
                let i = now.len() - 1;
                let k = now[i].len() - 1;
                assert(now[i][k] == prefix[j]);
            }
        }
    }
}

/// Naming the states keeps the parts scattered, and the parts then hold each
/// state once.
pub proof fn lemma_named_scattered(states: Seq<usize>, parts: Seq<Seq<usize>>)
    requires
        states.no_duplicates(),
        scattered(parts),
        forall|i: int, k: int|
            0 <= i < parts.len() && 0 <= k < parts[i].len() ==> (#[trigger] parts[i][k])
                < states.len(),
    ensures
        scattered(parts.map_values(|part: Seq<usize>| named(states, part))),
{
    let labels = parts.map_values(|part: Seq<usize>| named(states, part));
    assert forall|i: int, k: int, j: int, l: int|
        0 <= i < labels.len() && 0 <= k < labels[i].len() && 0 <= j < labels.len() && 0 <= l
            < labels[j].len() && (i != j || k != l) implies #[trigger] labels[i][k]
        != #[trigger] labels[j][l] by {
        assert(labels[i][k] == states[parts[i][k] as int]);
        assert(labels[j][l] == states[parts[j][l] as int]);
        assert(parts[i][k] != parts[j][l]);
    }
}

/// The list in reverse order.
pub fn reversed(list: &Vec<usize>) -> (back: Vec<usize>)
    ensures
        back@ == list@.reverse(),
{
    let n = list.len();
    let mut back: Vec<usize> = Vec::new();
    let mut i: usize = 0;
    while i < n
        invariant
            i <= n,
            n == list.len(),
            back.len() == i,
            forall|k: int| 0 <= k < i ==> back[k] == list[n - 1 - k],
        decreases n - i,
    {
        back.push(list[n - 1 - i]);
        i = i + 1;
    }
    assert(back@ =~= list@.reverse());
    back
}

/// The reverse of an arrangement is an arrangement.
pub proof fn lemma_reverse_arrangement(order: Seq<usize>, n: nat)
    requires
        is_arrangement(order, n),
    ensures
        is_arrangement(order.reverse(), n),
{
    let back = order.reverse();
    assert forall|i: int, j: int| 0 <= i < back.len() && 0 <= j < back.len() && i != j implies back[i]
        != back[j] by {
        assert(back[i] == order[order.len() - 1 - i]);
        assert(back[j] == order[order.len() - 1 - j]);
    }
    assert forall|i: int| 0 <= i < back.len() implies (#[trigger] back[i] as int) < n by {
        assert(back[i] == order[order.len() - 1 - i]);
    }
}

/// Cuts an order of discovery into its groups.
pub fn group(prefix: &Vec<usize>, pred: &Vec<Option<usize>>) -> (parts: Vec<Vec<usize>>)
    requires
        forall|i: int| 0 <= i < prefix.len() ==> prefix[i] < pred.len(),
    ensures
        lists(parts@) == groups(prefix@, pred@),
{
    let mut parts: Vec<Vec<usize>> = Vec::new();
    let mut i: usize = 0;
    assert(lists(parts@) =~= groups(prefix@.take(0), pred@));
    while i < prefix.len()
        invariant
            i <= prefix.len(),
            forall|k: int| 0 <= k < prefix.len() ==> prefix[k] < pred.len(),
            lists(parts@) == groups(prefix@.take(i as int), pred@),
        decreases prefix.len() - i,
    {
        let v = prefix[i];
        let ghost before = lists(parts@);
        proof {
            assert(prefix@.take(i + 1).drop_last() =~= prefix@.take(i as int));
            assert(prefix@.take(i + 1).last() == v);
        }
        let count = parts.len();
        if count == 0 || pred[v].is_none() {
            let mut part: Vec<usize> = Vec::new();
            part.push(v);
            parts.push(part);
            assert(lists(parts@) =~= before.push(seq![v]));
        } else {
            parts[count - 1].push(v);
            assert(lists(parts@) =~= before.update(before.len() - 1, before.last().push(v)));
        }
        i = i + 1;
    }
    assert(prefix@.take(i as int) =~= prefix@);
    parts
}

/// The labels of the states at the places `parts`, group by group.
pub fn name_groups(states: &Vec<usize>, parts: &Vec<Vec<usize>>) -> (labels: Vec<Vec<usize>>)
    requires
        forall|i: int, k: int|
            0 <= i < parts.len() && 0 <= k < parts[i].len() ==> (#[trigger] parts[i][k])
                < states.len(),
    ensures
        lists(labels@) == lists(parts@).map_values(|part: Seq<usize>| named(states@, part)),
{
    let mut labels: Vec<Vec<usize>> = Vec::new();
    let mut i: usize = 0;
    while i < parts.len()
        invariant
            i <= parts.len(),
            forall|a: int, k: int|
                0 <= a < parts.len() && 0 <= k < parts[a].len() ==> (#[trigger] parts[a][k])
                    < states.len(),
            labels.len() == i,
            forall|a: int| 0 <= a < i ==> (#[trigger] labels[a])@ == named(states@, parts[a]@),
        decreases parts.len() - i,
    {
        assert forall|k: int| 0 <= k < parts[i as int].len() implies parts[i as int][k] < states.len() by {
            assert(parts[i as int][k] < states.len());
        }
        let part = name_all(states, &parts[i]);
        labels.push(part);
        i = i + 1;
    }
    assert(lists(labels@) =~= lists(parts@).map_values(|part: Seq<usize>| named(states@, part)));
    labels
}

/// Naming the states group by group and then joining the groups is joining
/// them and then naming the states.
pub proof fn lemma_named_flatten(states: Seq<usize>, parts: Seq<Seq<usize>>)
    ensures
        parts.map_values(|part: Seq<usize>| named(states, part)).flatten() == named(
            states,
            parts.flatten(),
        ),
    decreases parts.len(),
{
    let name = |part: Seq<usize>| named(states, part);
    if parts.len() == 0 {
        assert(parts.map_values(name).flatten() =~= named(states, parts.flatten()));
    } else {
        let front = parts.drop_last();
        lemma_named_flatten(states, front);
        assert(parts =~= front.push(parts.last()));
        assert(parts.map_values(name) =~= front.map_values(name).push(name(parts.last())));
        front.lemma_flatten_push(parts.last());
        front.map_values(name).lemma_flatten_push(name(parts.last()));
        assert(named(states, front.flatten() + parts.last()) =~= named(states, front.flatten())
            + named(states, parts.last()));
    }
}

/// Each node of an order of discovery stands in one of its groups.
pub proof fn lemma_groups_within(prefix: Seq<usize>, pred: Seq<Option<usize>>, n: nat)
    requires
        forall|i: int| 0 <= i < prefix.len() ==> (#[trigger] prefix[i] as int) < n,
    ensures
        forall|i: int, k: int|
            0 <= i < groups(prefix, pred).len() && 0 <= k < groups(prefix, pred)[i].len() ==> (
            #[trigger] groups(prefix, pred)[i][k] as int) < n,
    decreases prefix.len(),
{
    if prefix.len() > 0 {
        let front = prefix.drop_last();
        assert forall|i: int| 0 <= i < front.len() implies (#[trigger] front[i] as int) < n by {
            assert(front[i] == prefix[i]);
        }
        lemma_groups_within(front, pred, n);
        let before = groups(front, pred);
        let now = groups(prefix, pred);
        assert forall|i: int, k: int| 0 <= i < now.len() && 0 <= k < now[i].len() implies (
        #[trigger] now[i][k] as int) < n by {
            if i < before.len() && k < before[i].len() {
                assert(now[i][k] == before[i][k]);
            } else {
                assert(now[i][k] == prefix.last());
                assert(prefix[prefix.len() - 1] == prefix.last());
            }
        }
    }
}

impl InnerAutomata {
    /// The strongly connected components of this description with the
    /// transitions `follows`, as lists of labels.
    ///
    /// Two states stand in the same component exactly if walks along the
    /// transitions between the states lead from each of them to the other.
    /// The components come in the order in which the two searches of
    /// [`components`] find them. Together they name every state once, and
    /// none of them is empty. A description without states has no component.
    pub fn kosaraju(&self, follows: &Vec<(usize, char, usize)>) -> (parts: Vec<Vec<usize>>)
        requires
            self.wf(),
        ensures
            lists(parts@) == components(self@.states, follows@),
            divides(self@.states, follows@, lists(parts@)),
            is_permutation(lists(parts@).flatten(), self@.states),
            forall|i: int| 0 <= i < parts.len() ==> (#[trigger] parts[i]).len() > 0,
            (parts.len() == 0) == (self@.states.len() == 0),
            scattered(lists(parts@)),
            forall|i: int, k: int|
                0 <= i < parts.len() && 0 <= k < parts[i].len() ==> self@.states.contains(
                    #[trigger] parts[i][k],
                ),
            forall|j: int|
                0 <= j < self@.states.len() ==> covered(lists(parts@), #[trigger] self@.states[j]),
    {
        let places = self.kosaraju_places(follows);
        let list = self.labels();
        let parts = name_groups(list, &places);
        proof {
            assert(self@.states.len() == list.len());
            lemma_components(self@.states, follows@);
            assert forall|i: int| 0 <= i < parts.len() implies (#[trigger] parts[i]).len() > 0 by {
                assert(lists(parts@)[i].len() > 0);
            }
            assert forall|i: int, k: int|
                0 <= i < parts.len() && 0 <= k < parts[i].len() implies self@.states.contains(
                #[trigger] parts[i][k],
            ) by {
                assert(self@.states.contains(lists(parts@)[i][k]));
            }
        }
        parts
    }

    /// The strongly connected components, as lists of places of states.
    pub fn kosaraju_places(&self, follows: &Vec<(usize, char, usize)>) -> (parts: Vec<Vec<usize>>)
        requires
            self.wf(),
        ensures
            lists(parts@) == component_places(self@.states, follows@),
            classes(
                graph_of(self@.states, follows@, natural(self@.states.len()), false),
                lists(parts@),
            ),
            is_arrangement(lists(parts@).flatten(), self@.states.len()),
            forall|i: int| 0 <= i < parts.len() ==> (#[trigger] parts[i]).len() > 0,
            forall|i: int, k: int|
                0 <= i < parts.len() && 0 <= k < parts[i].len() ==> (#[trigger] parts[i][k])
                    < self@.states.len(),
            (parts.len() == 0) == (self@.states.len() == 0),
            scattered(lists(parts@)),
            forall|v: usize| v < self@.states.len() ==> covered(lists(parts@), v),
    {
        let states = self.labels();
        let n = states.len();
        let order = count_up(n);
        let first = search_places(states, follows, &order, false);
        let back = reversed(&first.suffix);
        proof {
            lemma_reverse_arrangement(first.suffix@, n as nat);
        }
        let second = search_places(states, follows, &back, true);
        let parts = group(&second.prefix, &second.pred);
        proof {
            lemma_component_places(states@, follows@);
            lemma_groups(second.prefix@, second.pred@);
            lemma_groups_within(second.prefix@, second.pred@, n as nat);
            assert forall|i: int| 0 <= i < parts.len() implies (#[trigger] parts[i]).len() > 0 by {
                assert(lists(parts@)[i].len() > 0);
            }
            assert forall|i: int, k: int| 0 <= i < parts.len() && 0 <= k < parts[i].len() implies (
            #[trigger] parts[i][k]) < n by {
                assert(lists(parts@)[i][k] < n);
            }
            if parts.len() == 0 {
                assert(lists(parts@).flatten() =~= Seq::<usize>::empty());
            }
            lemma_groups_scattered(second.prefix@, second.pred@);
            crate::graph::lemma_covers(second.prefix@, n as nat);
            assert forall|v: usize| v < n implies covered(lists(parts@), v) by {
                assert(second.prefix@.contains(v));
                let j = choose|j: int| 0 <= j < second.prefix@.len() && second.prefix@[j] == v;
                assert(covered(lists(parts@), second.prefix@[j]));
            }
        }
        parts
    }
}

} // verus!
