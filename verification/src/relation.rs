//! The transition relation: a list of triples of a source state, a symbol and
//! a destination state, each triple at most once.

use vstd::prelude::*;
use crate::labels::holds;

verus! {

/// Whether `follows` has a transition from `from` to `to` on `symbol` between
/// two states of `states`.
pub open spec fn arrow(
    states: Seq<usize>,
    follows: Seq<(usize, char, usize)>,
    from: usize,
    symbol: char,
    to: usize,
) -> bool {
    follows.contains((from, symbol, to)) && states.contains(from) && states.contains(to)
}

/// Whether the transition `t` joins two states of `states`.
pub open spec fn inside(states: Seq<usize>, t: (usize, char, usize)) -> bool {
    states.contains(t.0) && states.contains(t.2)
}

/// Every transition joins two states of `states`.
pub open spec fn all_inside(states: Seq<usize>, follows: Seq<(usize, char, usize)>) -> bool {
    forall|i: int| 0 <= i < follows.len() ==> inside(states, #[trigger] follows[i])
}

/// The transition `t` turned round.
pub open spec fn turned(t: (usize, char, usize)) -> (usize, char, usize) {
    (t.2, t.1, t.0)
}

/// The relation with every transition turned round.
pub open spec fn flip(follows: Seq<(usize, char, usize)>) -> Seq<(usize, char, usize)> {
    follows.map_values(|t: (usize, char, usize)| turned(t))
}

/// The transitions that do not touch the state `value`, in their order.
pub open spec fn apart(follows: Seq<(usize, char, usize)>, value: usize) -> Seq<
    (usize, char, usize),
>
    decreases follows.len(),
{
    if follows.len() == 0 {
        follows
    } else {
        let front = apart(follows.drop_last(), value);
        if follows.last().0 == value || follows.last().2 == value {
            front
        } else {
            front.push(follows.last())
        }
    }
}

/// The transitions between two states of `states`, in their order.
pub open spec fn restrict(follows: Seq<(usize, char, usize)>, states: Seq<usize>) -> Seq<
    (usize, char, usize),
>
    decreases follows.len(),
{
    if follows.len() == 0 {
        follows
    } else {
        let front = restrict(follows.drop_last(), states);
        if inside(states, follows.last()) {
            front.push(follows.last())
        } else {
            front
        }
    }
}

/// What the relation holds after the state `value` was taken out.
pub proof fn lemma_apart(follows: Seq<(usize, char, usize)>, value: usize)
    ensures
        forall|t: (usize, char, usize)| #[trigger]
            apart(follows, value).contains(t) <==> follows.contains(t) && t.0 != value && t.2
                != value,
        follows.no_duplicates() ==> apart(follows, value).no_duplicates(),
        apart(follows, value).len() <= follows.len(),
    decreases follows.len(),
{
    let rest = apart(follows, value);
    if follows.len() > 0 {
        let front = follows.drop_last();
        let last = follows.last();
        lemma_apart(front, value);
        let before = apart(front, value);
        assert forall|t: (usize, char, usize)| #[trigger]
            rest.contains(t) <==> follows.contains(t) && t.0 != value && t.2 != value by {
            if rest.contains(t) {
                let k = choose|k: int| 0 <= k < rest.len() && rest[k] == t;
                if k < before.len() {
                    assert(before[k] == t);
                    assert(before.contains(t));
                    let j = choose|j: int| 0 <= j < front.len() && front[j] == t;
                    assert(follows[j] == t);
                } else {
                    assert(follows[follows.len() - 1] == t);
                }
            }
            if follows.contains(t) && t.0 != value && t.2 != value {
                let j = choose|j: int| 0 <= j < follows.len() && follows[j] == t;
                if j < front.len() {
                    assert(front[j] == t);
                    assert(before.contains(t));
                    let k = choose|k: int| 0 <= k < before.len() && before[k] == t;
                    assert(rest[k] == t);
                } else {
                    assert(rest[rest.len() - 1] == t);
                }
            }
        }
        if follows.no_duplicates() {
            assert(front.no_duplicates());
            assert forall|a: int, b: int| 0 <= a < rest.len() && 0 <= b < rest.len() && a
                != b implies rest[a] != rest[b] by {
                if a < before.len() && b < before.len() {
                    assert(before[a] != before[b]);
                } else if a < before.len() {
                    assert(before.contains(before[a]));
                    let j = choose|j: int| 0 <= j < front.len() && front[j] == before[a];
                    assert(follows[j] != follows[follows.len() - 1]);
                } else if b < before.len() {
                    assert(before.contains(before[b]));
                    let j = choose|j: int| 0 <= j < front.len() && front[j] == before[b];
                    assert(follows[j] != follows[follows.len() - 1]);
                }
            }
        }
    }
}

/// What the relation holds after it was restricted to `states`.
pub proof fn lemma_restrict(follows: Seq<(usize, char, usize)>, states: Seq<usize>)
    ensures
        forall|t: (usize, char, usize)| #[trigger]
            restrict(follows, states).contains(t) <==> follows.contains(t) && inside(states, t),
        follows.no_duplicates() ==> restrict(follows, states).no_duplicates(),
        restrict(follows, states).len() <= follows.len(),
        all_inside(states, restrict(follows, states)),
    decreases follows.len(),
{
    let rest = restrict(follows, states);
    if follows.len() > 0 {
        let front = follows.drop_last();
        let last = follows.last();
        lemma_restrict(front, states);
        let before = restrict(front, states);
        assert forall|t: (usize, char, usize)| #[trigger]
            rest.contains(t) <==> follows.contains(t) && inside(states, t) by {
            if rest.contains(t) {
                let k = choose|k: int| 0 <= k < rest.len() && rest[k] == t;
                if k < before.len() {
                    assert(before[k] == t);
                    assert(before.contains(t));
                    let j = choose|j: int| 0 <= j < front.len() && front[j] == t;
                    assert(follows[j] == t);
                } else {
                    assert(follows[follows.len() - 1] == t);
                }
            }
            if follows.contains(t) && inside(states, t) {
                let j = choose|j: int| 0 <= j < follows.len() && follows[j] == t;
                if j < front.len() {
                    assert(front[j] == t);
                    assert(before.contains(t));
                    let k = choose|k: int| 0 <= k < before.len() && before[k] == t;
                    assert(rest[k] == t);
                } else {
                    assert(rest[rest.len() - 1] == t);
                }
            }
        }
        assert forall|i: int| 0 <= i < rest.len() implies inside(states, #[trigger] rest[i]) by {
            assert(rest.contains(rest[i]));
        }
        if follows.no_duplicates() {
            assert(front.no_duplicates());
            assert forall|a: int, b: int| 0 <= a < rest.len() && 0 <= b < rest.len() && a
                != b implies rest[a] != rest[b] by {
                if a < before.len() && b < before.len() {
                    assert(before[a] != before[b]);
                } else if a < before.len() {
                    assert(before.contains(before[a]));
                    let j = choose|j: int| 0 <= j < front.len() && front[j] == before[a];
                    assert(follows[j] != follows[follows.len() - 1]);
                } else if b < before.len() {
                    assert(before.contains(before[b]));
                    let j = choose|j: int| 0 <= j < front.len() && front[j] == before[b];
                    assert(follows[j] != follows[follows.len() - 1]);
                }
            }
        }
    }
}

/// Turning a relation round twice gives the relation.
pub proof fn lemma_flip_flip(follows: Seq<(usize, char, usize)>)
    ensures
        flip(flip(follows)) == follows,
{
    assert(flip(flip(follows)) =~= follows);
}

/// What the relation turned round holds.
pub proof fn lemma_flip(follows: Seq<(usize, char, usize)>)
    ensures
        forall|t: (usize, char, usize)| #[trigger]
            flip(follows).contains(t) <==> follows.contains(turned(t)),
        follows.no_duplicates() ==> flip(follows).no_duplicates(),
{
    let back = flip(follows);
    assert forall|t: (usize, char, usize)| #[trigger]
        back.contains(t) <==> follows.contains(turned(t)) by {
        if back.contains(t) {
            let k = choose|k: int| 0 <= k < back.len() && back[k] == t;
            assert(follows[k] == turned(t));
        }
        if follows.contains(turned(t)) {
            let k = choose|k: int| 0 <= k < follows.len() && follows[k] == turned(t);
            assert(back[k] == t);
        }
    }
    if follows.no_duplicates() {
        assert forall|a: int, b: int| 0 <= a < back.len() && 0 <= b < back.len() && a
            != b implies back[a] != back[b] by {
            assert(back[a] == turned(follows[a]));
            assert(back[b] == turned(follows[b]));
            assert(follows[a] != follows[b]);
        }
    }
}

/// Whether `follows` holds the transition from `from` to `to` on `symbol`.
pub fn has_transition(follows: &Vec<(usize, char, usize)>, from: usize, symbol: char, to: usize) -> (found:
    bool)
    ensures
        found == follows@.contains((from, symbol, to)),
{
    let mut i: usize = 0;
    while i < follows.len()
        invariant
            i <= follows.len(),
            forall|k: int| 0 <= k < i ==> follows[k] != (from, symbol, to),
        decreases follows.len() - i,
    {
        let t = follows[i];
        if t.0 == from && t.1 == symbol && t.2 == to {
            assert(follows@[i as int] == (from, symbol, to));
            return true;
        }
        i = i + 1;
    }
    false
}

/// The place of the transition from `from` to `to` on `symbol`, if `follows`
/// holds it.
pub fn find_transition(follows: &Vec<(usize, char, usize)>, from: usize, symbol: char, to: usize) -> (at:
    Option<usize>)
    ensures
        match at {
            Some(i) => i < follows.len() && follows[i as int] == (from, symbol, to),
            None => !follows@.contains((from, symbol, to)),
        },
{
    let mut i: usize = 0;
    while i < follows.len()
        invariant
            i <= follows.len(),
            forall|k: int| 0 <= k < i ==> follows[k] != (from, symbol, to),
        decreases follows.len() - i,
    {
        let t = follows[i];
        if t.0 == from && t.1 == symbol && t.2 == to {
            return Some(i);
        }
        i = i + 1;
    }
    None
}

/// The relation with every transition turned round.
pub fn flipped(follows: &Vec<(usize, char, usize)>) -> (back: Vec<(usize, char, usize)>)
    ensures
        back@ == flip(follows@),
{
    let mut back: Vec<(usize, char, usize)> = Vec::new();
    let mut i: usize = 0;
    while i < follows.len()
        invariant
            i <= follows.len(),
            back@ == flip(follows@.take(i as int)),
        decreases follows.len() - i,
    {
        let t = follows[i];
        back.push((t.2, t.1, t.0));
        assert(flip(follows@.take(i + 1)) =~= flip(follows@.take(i as int)).push(turned(t)));
        i = i + 1;
    }
    assert(follows@.take(i as int) =~= follows@);
    back
}

/// The transitions that do not touch the state `value`.
pub fn set_apart(follows: &Vec<(usize, char, usize)>, value: usize) -> (rest: Vec<
    (usize, char, usize),
>)
    ensures
        rest@ == apart(follows@, value),
{
    let mut rest: Vec<(usize, char, usize)> = Vec::new();
    let mut i: usize = 0;
    while i < follows.len()
        invariant
            i <= follows.len(),
            rest@ == apart(follows@.take(i as int), value),
        decreases follows.len() - i,
    {
        let t = follows[i];
        proof {
            assert(follows@.take(i + 1).drop_last() =~= follows@.take(i as int));
            assert(follows@.take(i + 1).last() == t);
        }
        if t.0 != value && t.2 != value {
            rest.push(t);
        }
        i = i + 1;
    }
    assert(follows@.take(i as int) =~= follows@);
    rest
}

/// The transitions between two states of `states`.
pub fn restricted(follows: &Vec<(usize, char, usize)>, states: &Vec<usize>) -> (rest: Vec<
    (usize, char, usize),
>)
    ensures
        rest@ == restrict(follows@, states@),
{
    let mut rest: Vec<(usize, char, usize)> = Vec::new();
    let mut i: usize = 0;
    while i < follows.len()
        invariant
            i <= follows.len(),
            rest@ == restrict(follows@.take(i as int), states@),
        decreases follows.len() - i,
    {
        let t = follows[i];
        proof {
            assert(follows@.take(i + 1).drop_last() =~= follows@.take(i as int));
            assert(follows@.take(i + 1).last() == t);
        }
        if holds(states, t.0) && holds(states, t.2) {
            rest.push(t);
        }
        i = i + 1;
    }
    assert(follows@.take(i as int) =~= follows@);
    rest
}

/// A copy of the relation.
pub fn copy_relation(follows: &Vec<(usize, char, usize)>) -> (same: Vec<(usize, char, usize)>)
    ensures
        same@ == follows@,
{
    let mut same: Vec<(usize, char, usize)> = Vec::new();
    let mut i: usize = 0;
    while i < follows.len()
        invariant
            i <= follows.len(),
            same@ == follows@.take(i as int),
        decreases follows.len() - i,
    {
        same.push(follows[i]);
        assert(follows@.take(i + 1) =~= follows@.take(i as int).push(follows[i as int]));
        i = i + 1;
    }
    assert(follows@.take(i as int) =~= follows@);
    same
}

} // verus!
