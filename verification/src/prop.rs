//! Properties of an automaton: standard, deterministic, homogeneous,
//! accessible, strongly connected, orbit.
//!
//! Each property is defined on a description and a transition relation, of
//! which only the transitions between states of the description count.

use vstd::prelude::*;
use crate::classes::lemma_one_root;
use crate::dfs::{graph_of, is_permutation, lemma_ranks, ranks, search};
use crate::graph::Trace;
use crate::reach::reach;
use crate::walks::{lemma_pictures, lemma_reach_connected, lemma_turn_connected};
use crate::graph::{lemma_distinct_within, lists, missing};
use crate::inner::{Descriptor, InnerAutomata};
use crate::labels::holds;
use crate::relation::{arrow, flip, flipped, lemma_restrict, restrict, restricted};
use crate::scc::{components, covered, lemma_components};
use crate::walks::{connected, together};

verus! {

/// There is one initial state, and no transition leads to it.
pub open spec fn standard(d: Descriptor, follows: Seq<(usize, char, usize)>) -> bool {
    d.inputs.len() == 1 && forall|p: usize, c: char|
        !#[trigger] arrow(d.states, follows, p, c, d.inputs[0])
}

/// No state has two transitions on one symbol.
pub open spec fn single_valued(d: Descriptor, follows: Seq<(usize, char, usize)>) -> bool {
    forall|p: usize, c: char, q: usize, r: usize|
        #[trigger] arrow(d.states, follows, p, c, q) && #[trigger] arrow(d.states, follows, p, c, r)
            ==> q == r
}

/// Standard, and no state has two transitions on one symbol.
pub open spec fn deterministic(d: Descriptor, follows: Seq<(usize, char, usize)>) -> bool {
    standard(d, follows) && single_valued(d, follows)
}

/// Whether some transition carries the symbol `c`.
pub open spec fn uses(d: Descriptor, follows: Seq<(usize, char, usize)>, c: char) -> bool {
    exists|p: usize, q: usize| #[trigger] arrow(d.states, follows, p, c, q)
}

/// Whether a transition on `c` leaves the state `s`.
pub open spec fn moves(d: Descriptor, follows: Seq<(usize, char, usize)>, s: usize, c: char) -> bool {
    exists|q: usize| #[trigger] arrow(d.states, follows, s, c, q)
}

/// Every state has a transition on every symbol that the automaton uses.
pub open spec fn complete(d: Descriptor, follows: Seq<(usize, char, usize)>) -> bool {
    forall|i: int, c: char|
        0 <= i < d.states.len() && #[trigger] uses(d, follows, c) ==> moves(
            d,
            follows,
            #[trigger] d.states[i],
            c,
        )
}

/// Deterministic, and every state has exactly one transition on every symbol
/// that the automaton uses.
pub open spec fn fully_deterministic(d: Descriptor, follows: Seq<(usize, char, usize)>) -> bool {
    deterministic(d, follows) && complete(d, follows)
}

/// All the transitions that lead to one state carry the same symbol.
pub open spec fn homogeneous(d: Descriptor, follows: Seq<(usize, char, usize)>) -> bool {
    forall|p: usize, c: char, r: usize, e: char, q: usize|
        #[trigger] arrow(d.states, follows, p, c, q) && #[trigger] arrow(d.states, follows, r, e, q)
            ==> c == e
}

/// The states of `states` that are not in `first`, in their order.
pub open spec fn others(states: Seq<usize>, first: Seq<usize>) -> Seq<usize>
    decreases states.len(),
{
    if states.len() == 0 {
        states
    } else if first.contains(states.last()) {
        others(states.drop_last(), first)
    } else {
        others(states.drop_last(), first).push(states.last())
    }
}

/// The order of a search that starts from the states `first`: these, then the
/// other states.
pub open spec fn entry_order(states: Seq<usize>, first: Seq<usize>) -> Seq<usize> {
    first + others(states, first)
}

/// The state that the search for accessibility starts from: the first input,
/// or the first state where there is no input.
pub open spec fn first_entry(d: Descriptor) -> usize {
    entry_order(d.states, d.inputs)[0]
}

/// There are states, and walks lead to each of them from the first input
/// (from the first state, where there is no input).
pub open spec fn accessible(d: Descriptor, follows: Seq<(usize, char, usize)>) -> bool {
    d.states.len() > 0 && forall|i: int|
        0 <= i < d.states.len() ==> connected(d.states, follows, first_entry(d), #[trigger] d.states[i])
}

/// There are states, and walks lead from each of them to the first output
/// (to the first state, where there is no output).
pub open spec fn coaccessible(d: Descriptor, follows: Seq<(usize, char, usize)>) -> bool {
    d.states.len() > 0 && forall|i: int|
        0 <= i < d.states.len() ==> connected(
            d.states,
            follows,
            #[trigger] d.states[i],
            first_entry(d.mirror()),
        )
}

/// The search that tries the inputs first and then the other states.
pub open spec fn entry_search(d: Descriptor, follows: Seq<(usize, char, usize)>) -> Trace {
    search(d.states, follows, ranks(d.states, entry_order(d.states, d.inputs)), false)
}

/// An automaton is accessible exactly if the search that tries the inputs
/// first has one root.
pub proof fn lemma_accessible(d: Descriptor, follows: Seq<(usize, char, usize)>)
    requires
        d.wf(),
        d.states.len() <= usize::MAX,
    ensures
        accessible(d, follows) == (entry_search(d, follows).roots.len() == 1),
{
    let states = d.states;
    let n = states.len();
    let entry = entry_order(states, d.inputs);
    let order = ranks(states, entry);
    let adj = graph_of(states, follows, order, false);
    lemma_entry_order(states, d.inputs);
    lemma_ranks(states, entry);
    lemma_pictures(states, follows, false, order);
    lemma_one_root(adj, order);
    if n > 0 {
        let first = order[0];
        assert(states[first as int] == entry[0]);
        if accessible(d, follows) {
            assert forall|v: usize| v < n implies reach(adj, first, v) by {
                assert(connected(states, follows, first_entry(d), states[v as int]));
                lemma_reach_connected(states, follows, adj, first, v);
            }
        }
        if forall|v: usize| v < n ==> reach(adj, first, v) {
            assert forall|i: int| 0 <= i < n implies connected(
                states,
                follows,
                first_entry(d),
                #[trigger] states[i],
            ) by {
                assert(reach(adj, first, i as usize));
                lemma_reach_connected(states, follows, adj, first, i as usize);
            }
        }
    }
}

/// An automaton is coaccessible exactly if its mirror is accessible.
pub proof fn lemma_coaccessible(d: Descriptor, follows: Seq<(usize, char, usize)>)
    ensures
        coaccessible(d, follows) == accessible(d.mirror(), flip(follows)),
{
    let back = d.mirror();
    if coaccessible(d, follows) {
        assert forall|i: int| 0 <= i < back.states.len() implies connected(
            back.states,
            flip(follows),
            first_entry(back),
            #[trigger] back.states[i],
        ) by {
            assert(connected(d.states, follows, d.states[i], first_entry(back)));
            lemma_turn_connected(d.states, follows, first_entry(back), d.states[i]);
        }
    }
    if accessible(back, flip(follows)) {
        assert forall|i: int| 0 <= i < d.states.len() implies connected(
            d.states,
            follows,
            #[trigger] d.states[i],
            first_entry(back),
        ) by {
            assert(connected(back.states, flip(follows), first_entry(back), back.states[i]));
            lemma_turn_connected(d.states, follows, first_entry(back), d.states[i]);
        }
    }
}

/// Walks along the transitions between the states lead from every state to
/// every state.
pub open spec fn strongly_connected(d: Descriptor, follows: Seq<(usize, char, usize)>) -> bool {
    forall|i: int, j: int|
        0 <= i < d.states.len() && 0 <= j < d.states.len() ==> connected(
            d.states,
            follows,
            #[trigger] d.states[i],
            #[trigger] d.states[j],
        )
}

/// An automaton is strongly connected exactly if it has at most one strongly
/// connected component.
pub proof fn lemma_strongly_connected(d: Descriptor, follows: Seq<(usize, char, usize)>)
    requires
        d.states.no_duplicates(),
        d.states.len() <= usize::MAX,
    ensures
        strongly_connected(d, follows) == (components(d.states, follows).len() <= 1),
{
    let states = d.states;
    let parts = components(states, follows);
    lemma_components(states, follows);
    if parts.len() <= 1 {
        assert forall|i: int, j: int| 0 <= i < states.len() && 0 <= j < states.len() implies connected(
            states,
            follows,
            #[trigger] states[i],
            #[trigger] states[j],
        ) by {
            assert(covered(parts, states[i]));
            assert(covered(parts, states[j]));
            let (g, k) = choose|g: int, k: int|
                0 <= g < parts.len() && 0 <= k < parts[g].len() && #[trigger] parts[g][k]
                    == states[i];
            let (h, l) = choose|h: int, l: int|
                0 <= h < parts.len() && 0 <= l < parts[h].len() && #[trigger] parts[h][l]
                    == states[j];
            assert(together(states, follows, parts[g][k], parts[h][l]));
        }
    } else {
        let x = parts[0][0];
        let y = parts[1][0];
        assert(!together(states, follows, x, y));
        assert(states.contains(x));
        assert(states.contains(y));
        let i = choose|i: int| 0 <= i < states.len() && states[i] == x;
        let j = choose|j: int| 0 <= j < states.len() && states[j] == y;
        if strongly_connected(d, follows) {
            assert(connected(states, follows, states[i], states[j]));
            assert(connected(states, follows, states[j], states[i]));
        }
    }
}

/// Whether a transition leads from the state `s` to itself.
pub open spec fn loops(d: Descriptor, follows: Seq<(usize, char, usize)>, s: usize) -> bool {
    exists|c: char| #[trigger] arrow(d.states, follows, s, c, s)
}

/// Strongly connected, with more than one state or with one state that has a
/// transition to itself.
pub open spec fn orbit(d: Descriptor, follows: Seq<(usize, char, usize)>) -> bool {
    strongly_connected(d, follows) && (d.states.len() > 1 || (d.states.len() == 1 && loops(
        d,
        follows,
        d.states[0],
    )))
}

/// Whether a transition leads from `s` to an input.
pub open spec fn comes_back(d: Descriptor, follows: Seq<(usize, char, usize)>, s: usize) -> bool {
    exists|c: char, q: usize| #[trigger] arrow(d.states, follows, s, c, q) && d.inputs.contains(q)
}

/// Homogeneous and strongly connected, and every state has a transition to
/// an input.
pub open spec fn maximal_orbit(d: Descriptor, follows: Seq<(usize, char, usize)>) -> bool {
    homogeneous(d, follows) && strongly_connected(d, follows) && forall|i: int|
        0 <= i < d.states.len() ==> comes_back(d, follows, #[trigger] d.states[i])
}

/// What `others` holds.
pub proof fn lemma_others(states: Seq<usize>, first: Seq<usize>)
    requires
        states.no_duplicates(),
    ensures
        others(states, first).no_duplicates(),
        forall|x: usize| #[trigger]
            others(states, first).contains(x) <==> states.contains(x) && !first.contains(x),
    decreases states.len(),
{
    let rest = others(states, first);
    if states.len() > 0 {
        let front = states.drop_last();
        let last = states.last();
        lemma_others(front, first);
        let before = others(front, first);
        assert forall|x: usize| #[trigger]
            rest.contains(x) <==> states.contains(x) && !first.contains(x) by {
            if rest.contains(x) {
                let k = choose|k: int| 0 <= k < rest.len() && rest[k] == x;
                if k < before.len() {
                    assert(before[k] == x);
                    assert(before.contains(x));
                    let j = choose|j: int| 0 <= j < front.len() && front[j] == x;
                    assert(states[j] == x);
                } else {
                    assert(states[states.len() - 1] == x);
                }
            }
            if states.contains(x) && !first.contains(x) {
                let j = choose|j: int| 0 <= j < states.len() && states[j] == x;
                if j < front.len() {
                    assert(front[j] == x);
                    assert(before.contains(x));
                    let k = choose|k: int| 0 <= k < before.len() && before[k] == x;
                    assert(rest[k] == x);
                } else {
                    assert(rest[rest.len() - 1] == x);
                }
            }
        }
        assert forall|a: int, b: int| 0 <= a < rest.len() && 0 <= b < rest.len() && a
            != b implies rest[a] != rest[b] by {
            if a < before.len() && b < before.len() {
                assert(before[a] != before[b]);
            } else if a < before.len() {
                assert(before.contains(before[a]));
                let j = choose|j: int| 0 <= j < front.len() && front[j] == before[a];
                assert(states[j] != states[states.len() - 1]);
            } else if b < before.len() {
                assert(before.contains(before[b]));
                let j = choose|j: int| 0 <= j < front.len() && front[j] == before[b];
                assert(states[j] != states[states.len() - 1]);
            }
        }
    }
}

/// The order of a search from states of the automaton names every state once.
pub proof fn lemma_entry_order(states: Seq<usize>, first: Seq<usize>)
    requires
        states.no_duplicates(),
        first.no_duplicates(),
        forall|i: int| 0 <= i < first.len() ==> states.contains(#[trigger] first[i]),
    ensures
        is_permutation(entry_order(states, first), states),
{
    let rest = others(states, first);
    let order = entry_order(states, first);
    lemma_others(states, first);
    assert forall|a: int, b: int| 0 <= a < order.len() && 0 <= b < order.len() && a
        != b implies order[a] != order[b] by {
        if a < first.len() && b < first.len() {
        } else if a < first.len() {
            assert(rest.contains(rest[b - first.len()]));
            assert(first.contains(first[a]));
        } else if b < first.len() {
            assert(rest.contains(rest[a - first.len()]));
            assert(first.contains(first[b]));
        } else {
            assert(rest[a - first.len()] != rest[b - first.len()]);
        }
    }
    assert forall|i: int| 0 <= i < order.len() implies states.contains(#[trigger] order[i]) by {
        if i >= first.len() {
            assert(rest.contains(rest[i - first.len()]));
        }
    }
    assert forall|i: int| 0 <= i < states.len() implies order.contains(#[trigger] states[i]) by {
        let x = states[i];
        if first.contains(x) {
            let k = choose|k: int| 0 <= k < first.len() && first[k] == x;
            assert(order[k] == x);
        } else {
            assert(rest.contains(x));
            let k = choose|k: int| 0 <= k < rest.len() && rest[k] == x;
            assert(order[first.len() + k] == x);
        }
    }
    lemma_distinct_within(order, states);
    lemma_distinct_within(states, order);
}

/// The states of `states` that are not in `first`.
pub fn other_states(states: &Vec<usize>, first: &Vec<usize>) -> (rest: Vec<usize>)
    ensures
        rest@ == others(states@, first@),
{
    let mut rest: Vec<usize> = Vec::new();
    let mut i: usize = 0;
    assert(states@.take(0) =~= Seq::<usize>::empty());
    while i < states.len()
        invariant
            i <= states.len(),
            rest@ == others(states@.take(i as int), first@),
        decreases states.len() - i,
    {
        proof {
            assert(states@.take(i + 1).drop_last() =~= states@.take(i as int));
            assert(states@.take(i + 1).last() == states@[i as int]);
        }
        if !holds(first, states[i]) {
            rest.push(states[i]);
        }
        i = i + 1;
    }
    assert(states@.take(i as int) =~= states@);
    rest
}

/// The number of entries without a predecessor.
pub fn count_missing(pred: &Vec<Option<usize>>) -> (count: usize)
    ensures
        count == missing(pred@),
{
    let mut count: usize = 0;
    let mut i: usize = 0;
    assert(pred@.take(0) =~= Seq::<Option<usize>>::empty());
    while i < pred.len()
        invariant
            i <= pred.len(),
            count <= i,
            count == missing(pred@.take(i as int)),
        decreases pred.len() - i,
    {
        proof {
            assert(pred@.take(i + 1).drop_last() =~= pred@.take(i as int));
            assert(pred@.take(i + 1).last() == pred@[i as int]);
        }
        if pred[i].is_none() {
            count = count + 1;
        }
        i = i + 1;
    }
    assert(pred@.take(i as int) =~= pred@);
    count
}

/// Whether a transition of `rest` leaves `s` on `c`.
pub fn leaves_on(rest: &Vec<(usize, char, usize)>, s: usize, c: char) -> (found: bool)
    ensures
        found == exists|b: int| 0 <= b < rest.len() && (#[trigger] rest[b]).0 == s && rest[b].1 == c,
{
    let mut j: usize = 0;
    while j < rest.len()
        invariant
            j <= rest.len(),
            forall|b: int| 0 <= b < j ==> !((#[trigger] rest[b]).0 == s && rest[b].1 == c),
        decreases rest.len() - j,
    {
        if rest[j].0 == s && rest[j].1 == c {
            return true;
        }
        j = j + 1;
    }
    false
}

/// What a relation restricted to `states` holds, as arrows.
pub proof fn lemma_arrows(states: Seq<usize>, follows: Seq<(usize, char, usize)>)
    ensures
        forall|p: usize, c: char, q: usize| #[trigger]
            arrow(states, follows, p, c, q) <==> restrict(follows, states).contains((p, c, q)),
{
    lemma_restrict(follows, states);
    assert forall|p: usize, c: char, q: usize| #[trigger]
        arrow(states, follows, p, c, q) <==> restrict(follows, states).contains((p, c, q)) by {
        let t = (p, c, q);
        assert(restrict(follows, states).contains(t) <==> follows.contains(t) && crate::relation::inside(
            states,
            t,
        ));
    }
}

impl InnerAutomata {
    /// Whether there is exactly one input and no transition leads to it.
    pub fn is_standard(&self, follows: &Vec<(usize, char, usize)>) -> (holds: bool)
        requires
            self.wf(),
        ensures
            holds == standard(self@, follows@),
    {
        if self.inputs_count() != 1 {
            return false;
        }
        let start = self.entries()[0];
        let rest = restricted(follows, self.labels());
        proof {
            lemma_arrows(self@.states, follows@);
        }
        let mut i: usize = 0;
        while i < rest.len()
            invariant
                i <= rest.len(),
                start == self@.inputs[0],
                self@.inputs.len() == 1,
                rest@ == restrict(follows@, self@.states),
                forall|p: usize, c: char, q: usize| #[trigger]
                    arrow(self@.states, follows@, p, c, q) <==> rest@.contains((p, c, q)),
                forall|k: int| 0 <= k < i ==> (#[trigger] rest[k]).2 != start,
            decreases rest.len() - i,
        {
            if rest[i].2 == start {
                proof {
                    let t = rest@[i as int];
                    assert(rest@.contains(t));
                    assert(arrow(self@.states, follows@, t.0, t.1, start));
                }
                return false;
            }
            i = i + 1;
        }
        proof {
            assert forall|p: usize, c: char| !#[trigger] arrow(
                self@.states,
                follows@,
                p,
                c,
                start,
            ) by {
                if arrow(self@.states, follows@, p, c, start) {
                    let k = choose|k: int| 0 <= k < rest@.len() && rest@[k] == (p, c, start);
                    assert(rest[k].2 != start);
                }
            }
        }
        true
    }

    /// Whether no state has two transitions on one symbol.
    pub fn is_single_valued(&self, follows: &Vec<(usize, char, usize)>) -> (holds: bool)
        requires
            self.wf(),
        ensures
            holds == single_valued(self@, follows@),
    {
        let rest = restricted(follows, self.labels());
        proof {
            lemma_arrows(self@.states, follows@);
        }
        let mut i: usize = 0;
        while i < rest.len()
            invariant
                i <= rest.len(),
                forall|p: usize, c: char, q: usize| #[trigger]
                    arrow(self@.states, follows@, p, c, q) <==> rest@.contains((p, c, q)),
                forall|a: int, b: int|
                    0 <= a < i && 0 <= b < rest.len() && (#[trigger] rest[a]).0 == (
                    #[trigger] rest[b]).0 && rest[a].1 == rest[b].1 ==> rest[a].2 == rest[b].2,
            decreases rest.len() - i,
        {
            let mut j: usize = 0;
            while j < rest.len()
                invariant
                    j <= rest.len(),
                    i < rest.len(),
                    forall|p: usize, c: char, q: usize| #[trigger]
                        arrow(self@.states, follows@, p, c, q) <==> rest@.contains((p, c, q)),
                    forall|b: int|
                        0 <= b < j && rest[i as int].0 == (#[trigger] rest[b]).0 && rest[i as int].1
                            == rest[b].1 ==> rest[i as int].2 == rest[b].2,
                decreases rest.len() - j,
            {
                if rest[i].0 == rest[j].0 && rest[i].1 == rest[j].1 && rest[i].2 != rest[j].2 {
                    proof {
                        let s = rest@[i as int];
                        let t = rest@[j as int];
                        assert(rest@.contains(s));
                        assert(rest@.contains(t));
                        assert(arrow(self@.states, follows@, s.0, s.1, s.2));
                        assert(arrow(self@.states, follows@, s.0, s.1, t.2));
                    }
                    return false;
                }
                j = j + 1;
            }
            i = i + 1;
        }
        proof {
            assert forall|p: usize, c: char, q: usize, r: usize|
                #[trigger] arrow(self@.states, follows@, p, c, q) && #[trigger] arrow(
                    self@.states,
                    follows@,
                    p,
                    c,
                    r,
                ) implies q == r by {
                let a = choose|a: int| 0 <= a < rest@.len() && rest@[a] == (p, c, q);
                let b = choose|b: int| 0 <= b < rest@.len() && rest@[b] == (p, c, r);
                assert(rest[a].0 == rest[b].0);
            }
        }
        true
    }

    /// Whether the automaton is standard and no state has two transitions on
    /// one symbol.
    pub fn is_deterministic(&self, follows: &Vec<(usize, char, usize)>) -> (holds: bool)
        requires
            self.wf(),
        ensures
            holds == deterministic(self@, follows@),
    {
        self.is_standard(follows) && self.is_single_valued(follows)
    }

    /// Whether every state has a transition on every symbol that the
    /// automaton uses.
    pub fn is_complete(&self, follows: &Vec<(usize, char, usize)>) -> (holds: bool)
        requires
            self.wf(),
        ensures
            holds == complete(self@, follows@),
    {
        let states = self.labels();
        let rest = restricted(follows, states);
        proof {
            lemma_arrows(self@.states, follows@);
        }
        let mut i: usize = 0;
        while i < states.len()
            invariant
                i <= states.len(),
                states@ == self@.states,
                forall|p: usize, c: char, q: usize| #[trigger]
                    arrow(self@.states, follows@, p, c, q) <==> rest@.contains((p, c, q)),
                forall|a: int, c: char|
                    0 <= a < i && #[trigger] uses(self@, follows@, c) ==> moves(
                        self@,
                        follows@,
                        #[trigger] states[a],
                        c,
                    ),
            decreases states.len() - i,
        {
            let s = states[i];
            let mut k: usize = 0;
            while k < rest.len()
                invariant
                    k <= rest.len(),
                    i < states.len(),
                    s == states[i as int],
                    states@ == self@.states,
                    forall|p: usize, c: char, q: usize| #[trigger]
                        arrow(self@.states, follows@, p, c, q) <==> rest@.contains((p, c, q)),
                    forall|b: int|
                        0 <= b < k ==> moves(self@, follows@, s, (#[trigger] rest[b]).1),
                decreases rest.len() - k,
            {
                let c = rest[k].1;
                let found = leaves_on(&rest, s, c);
                proof {
                    if found {
                        let b = choose|b: int|
                            0 <= b < rest.len() && (#[trigger] rest[b]).0 == s && rest[b].1 == c;
                        let t = rest@[b];
                        assert(rest@.contains(t));
                        assert(arrow(self@.states, follows@, s, c, t.2));
                    }
                }
                if !found {
                    proof {
                        let t = rest@[k as int];
                        assert(rest@.contains(t));
                        assert(arrow(self@.states, follows@, t.0, c, t.2));
                        assert(uses(self@, follows@, c));
                        if moves(self@, follows@, s, c) {
                            let q = choose|q: usize| #[trigger] arrow(self@.states, follows@, s, c, q);
                            let b = choose|b: int| 0 <= b < rest@.len() && rest@[b] == (s, c, q);
                            assert(rest[b].0 == s && rest[b].1 == c);
                        }
                        assert(self@.states[i as int] == s);
                    }
                    return false;
                }
                k = k + 1;
            }
            proof {
                assert forall|c: char| #[trigger] uses(self@, follows@, c) implies moves(
                    self@,
                    follows@,
                    s,
                    c,
                ) by {
                    let (p, q) = choose|p: usize, q: usize| #[trigger]
                        arrow(self@.states, follows@, p, c, q);
                    let b = choose|b: int| 0 <= b < rest@.len() && rest@[b] == (p, c, q);
                    assert(moves(self@, follows@, s, rest[b].1));
                }
            }
            i = i + 1;
        }
        true
    }

    /// Whether the automaton is deterministic and every state has a
    /// transition on every symbol that the automaton uses.
    pub fn is_fully_deterministic(&self, follows: &Vec<(usize, char, usize)>) -> (holds: bool)
        requires
            self.wf(),
        ensures
            holds == fully_deterministic(self@, follows@),
    {
        self.is_deterministic(follows) && self.is_complete(follows)
    }

    /// Whether all the transitions that lead to one state carry the same
    /// symbol.
    pub fn is_homogeneous(&self, follows: &Vec<(usize, char, usize)>) -> (holds: bool)
        requires
            self.wf(),
        ensures
            holds == homogeneous(self@, follows@),
    {
        let rest = restricted(follows, self.labels());
        proof {
            lemma_arrows(self@.states, follows@);
        }
        let mut i: usize = 0;
        while i < rest.len()
            invariant
                i <= rest.len(),
                forall|p: usize, c: char, q: usize| #[trigger]
                    arrow(self@.states, follows@, p, c, q) <==> rest@.contains((p, c, q)),
                forall|a: int, b: int|
                    0 <= a < i && 0 <= b < rest.len() && (#[trigger] rest[a]).2 == (
                    #[trigger] rest[b]).2 ==> rest[a].1 == rest[b].1,
            decreases rest.len() - i,
        {
            let mut j: usize = 0;
            while j < rest.len()
                invariant
                    j <= rest.len(),
                    i < rest.len(),
                    forall|p: usize, c: char, q: usize| #[trigger]
                        arrow(self@.states, follows@, p, c, q) <==> rest@.contains((p, c, q)),
                    forall|b: int|
                        0 <= b < j && rest[i as int].2 == (#[trigger] rest[b]).2 ==> rest[i as int].1
                            == rest[b].1,
                decreases rest.len() - j,
            {
                if rest[i].2 == rest[j].2 && rest[i].1 != rest[j].1 {
                    proof {
                        let s = rest@[i as int];
                        let t = rest@[j as int];
                        assert(rest@.contains(s));
                        assert(rest@.contains(t));
                        assert(arrow(self@.states, follows@, s.0, s.1, s.2));
                        assert(arrow(self@.states, follows@, t.0, t.1, s.2));
                    }
                    return false;
                }
                j = j + 1;
            }
            i = i + 1;
        }
        proof {
            assert forall|p: usize, c: char, r: usize, e: char, q: usize|
                #[trigger] arrow(self@.states, follows@, p, c, q) && #[trigger] arrow(
                    self@.states,
                    follows@,
                    r,
                    e,
                    q,
                ) implies c == e by {
                let a = choose|a: int| 0 <= a < rest@.len() && rest@[a] == (p, c, q);
                let b = choose|b: int| 0 <= b < rest@.len() && rest@[b] == (r, e, q);
                assert(rest[a].2 == rest[b].2);
            }
        }
        true
    }

    /// Whether there are states and walks lead to each of them from the first
    /// input (from the first state, where there is no input): whether the
    /// search that tries the inputs first has exactly one root.
    pub fn is_accessible(&self, follows: &Vec<(usize, char, usize)>) -> (holds: bool)
        requires
            self.wf(),
        ensures
            holds == accessible(self@, follows@),
            holds == (entry_search(self@, follows@).roots.len() == 1),
    {
        let mut order = self.inputs();
        let list = self.labels();
        let mut rest = other_states(list, self.entries());
        proof {
            assert(self@.states.len() == list.len());
            lemma_entry_order(self@.states, self@.inputs);
            lemma_accessible(self@, follows@);
        }
        order.append(&mut rest);
        match self.dfs(follows, order, false) {
            Ok(info) => count_missing(&info.predecessor) == 1,
            Err(_) => false,
        }
    }

    /// Whether there are states and walks lead from each of them to the first
    /// output (to the first state, where there is no output): whether the
    /// mirror is accessible.
    pub fn is_coaccessible(&self, follows: &Vec<(usize, char, usize)>) -> (holds: bool)
        requires
            self.wf(),
        ensures
            holds == coaccessible(self@, follows@),
            holds == accessible(self@.mirror(), flip(follows@)),
    {
        proof {
            lemma_coaccessible(self@, follows@);
        }
        let mut back = self.duplicate();
        back.mirror();
        let turned = flipped(follows);
        back.is_accessible(&turned)
    }

    /// Whether walks lead from every state to every state: whether there is
    /// at most one strongly connected component.
    pub fn is_strongly_connected(&self, follows: &Vec<(usize, char, usize)>) -> (holds: bool)
        requires
            self.wf(),
        ensures
            holds == strongly_connected(self@, follows@),
            holds == (components(self@.states, follows@).len() <= 1),
    {
        let parts = self.kosaraju(follows);
        let list = self.labels();
        proof {
            assert(lists(parts@).len() == parts.len());
            assert(self@.states.len() == list.len());
            lemma_strongly_connected(self@, follows@);
        }
        parts.len() <= 1
    }

    /// Whether the automaton is strongly connected and has more than one
    /// state, or one state with a transition to itself.
    pub fn is_orbit(&self, follows: &Vec<(usize, char, usize)>) -> (holds: bool)
        requires
            self.wf(),
        ensures
            holds == orbit(self@, follows@),
    {
        if !self.is_strongly_connected(follows) {
            return false;
        }
        let states = self.labels();
        if states.len() != 1 {
            return states.len() > 1;
        }
        let s = states[0];
        let mut i: usize = 0;
        while i < follows.len()
            invariant
                i <= follows.len(),
                states@ == self@.states,
                states.len() == 1,
                s == states[0],
                strongly_connected(self@, follows@),
                forall|k: int|
                    0 <= k < i ==> !((#[trigger] follows[k]).0 == s && follows[k].2 == s),
            decreases follows.len() - i,
        {
            if follows[i].0 == s && follows[i].2 == s {
                proof {
                    let t = follows@[i as int];
                    assert(follows@.contains(t));
                    assert(self@.states[0] == s);
                    assert(arrow(self@.states, follows@, s, t.1, s));
                }
                return true;
            }
            i = i + 1;
        }
        proof {
            if loops(self@, follows@, s) {
                let c = choose|c: char| #[trigger] arrow(self@.states, follows@, s, c, s);
                let k = choose|k: int| 0 <= k < follows@.len() && follows@[k] == (s, c, s);
                assert(follows[k].0 == s);
            }
        }
        false
    }

    /// Whether a transition leads from `s` to an input.
    pub fn has_return(&self, follows: &Vec<(usize, char, usize)>, s: usize) -> (holds: bool)
        requires
            self.wf(),
        ensures
            holds == comes_back(self@, follows@, s),
    {
        let mut i: usize = 0;
        while i < follows.len()
            invariant
                i <= follows.len(),
                forall|k: int|
                    0 <= k < i ==> !((#[trigger] follows[k]).0 == s && self@.states.contains(s)
                        && self@.states.contains(follows[k].2) && self@.inputs.contains(
                        follows[k].2,
                    )),
            decreases follows.len() - i,
        {
            let t = follows[i];
            if t.0 == s && self.is_state(s) && self.is_state(t.2) && self.is_input(t.2) {
                proof {
                    assert(follows@.contains(follows@[i as int]));
                    assert(arrow(self@.states, follows@, s, t.1, t.2));
                }
                return true;
            }
            i = i + 1;
        }
        proof {
            if comes_back(self@, follows@, s) {
                let (c, q) = choose|c: char, q: usize| #[trigger]
                    arrow(self@.states, follows@, s, c, q) && self@.inputs.contains(q);
                let k = choose|k: int| 0 <= k < follows@.len() && follows@[k] == (s, c, q);
                assert(follows[k].0 == s);
            }
        }
        false
    }

    /// Whether the automaton is homogeneous and strongly connected, and every
    /// state has a transition to an input.
    pub fn is_maximal_orbit(&self, follows: &Vec<(usize, char, usize)>) -> (holds: bool)
        requires
            self.wf(),
        ensures
            holds == maximal_orbit(self@, follows@),
    {
        if !self.is_homogeneous(follows) || !self.is_strongly_connected(follows) {
            return false;
        }
        let states = self.labels();
        let mut i: usize = 0;
        while i < states.len()
            invariant
                i <= states.len(),
                states@ == self@.states,
                self.wf(),
                forall|k: int| 0 <= k < i ==> comes_back(self@, follows@, #[trigger] states[k]),
            decreases states.len() - i,
        {
            if !self.has_return(follows, states[i]) {
                assert(!comes_back(self@, follows@, self@.states[i as int]));
                return false;
            }
            i = i + 1;
        }
        true
    }
}

} // verus!
