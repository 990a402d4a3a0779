//! The words that an automaton recognizes.
//!
//! Reading a word moves a frontier of states: it starts as the set of the
//! inputs, and each symbol replaces it by the set of the states that a
//! transition on this symbol reaches from it. The word is recognized if the
//! frontier holds an output at the end.

use vstd::prelude::*;
use crate::inner::{Descriptor, InnerAutomata};
use crate::labels::holds;
use crate::relation::{arrow, inside};

verus! {

/// The states that a transition on `symbol` reaches from a state of
/// `frontier`.
pub open spec fn step(
    states: Seq<usize>,
    follows: Seq<(usize, char, usize)>,
    frontier: Set<usize>,
    symbol: char,
) -> Set<usize> {
    Set::new(
        |q: usize| exists|p: usize| frontier.contains(p) && arrow(states, follows, p, symbol, q),
    )
}

/// The frontier after `word` was read.
pub open spec fn frontier(d: Descriptor, follows: Seq<(usize, char, usize)>, word: Seq<char>) -> Set<
    usize,
>
    decreases word.len(),
{
    if word.len() == 0 {
        d.inputs.to_set()
    } else {
        step(d.states, follows, frontier(d, follows, word.drop_last()), word.last())
    }
}

/// Whether `word` is recognized.
pub open spec fn accepts(d: Descriptor, follows: Seq<(usize, char, usize)>, word: Seq<char>) -> bool {
    exists|q: usize| frontier(d, follows, word).contains(q) && d.outputs.contains(q)
}

/// Once the frontier is empty it stays empty.
pub proof fn lemma_dead_end(d: Descriptor, follows: Seq<(usize, char, usize)>, word: Seq<char>, i: int)
    requires
        0 <= i <= word.len(),
        forall|q: usize| !(#[trigger] frontier(d, follows, word.take(i)).contains(q)),
    ensures
        forall|q: usize| !(#[trigger] frontier(d, follows, word).contains(q)),
    decreases word.len() - i,
{
    if i < word.len() {
        assert(word.take(i + 1).drop_last() =~= word.take(i));
        assert forall|q: usize| !(#[trigger] frontier(d, follows, word.take(i + 1)).contains(q)) by {
            if frontier(d, follows, word.take(i + 1)).contains(q) {
                let p = choose|p: usize|
                    frontier(d, follows, word.take(i)).contains(p) && arrow(
                        d.states,
                        follows,
                        p,
                        word.take(i + 1).last(),
                        q,
                    );
                assert(frontier(d, follows, word.take(i)).contains(p));
            }
        }
        lemma_dead_end(d, follows, word, i + 1);
    } else {
        assert(word.take(i) =~= word);
    }
}

impl InnerAutomata {
    /// Whether the automaton of this description with the transitions
    /// `follows` recognizes `word`.
    pub fn accept(&self, follows: &Vec<(usize, char, usize)>, word: &[char]) -> (recognized: bool)
        requires
            self.wf(),
        ensures
            recognized == accepts(self@, follows@, word@),
    {
        let states = self.labels();
        let mut cur: Vec<usize> = self.inputs();
        let mut i: usize = 0;
        proof {
            assert(word@.take(0) =~= Seq::<char>::empty());
        }
        while i < word.len()
            invariant
                i <= word.len(),
                states@ == self@.states,
                forall|q: usize|
                    cur@.contains(q) <==> #[trigger] frontier(
                        self@,
                        follows@,
                        word@.take(i as int),
                    ).contains(q),
            decreases word.len() - i,
        {
            let symbol = word[i];
            let ghost before = frontier(self@, follows@, word@.take(i as int));
            let mut next: Vec<usize> = Vec::new();
            let mut k: usize = 0;
            while k < follows.len()
                invariant
                    k <= follows.len(),
                    states@ == self@.states,
                    forall|q: usize| cur@.contains(q) <==> #[trigger] before.contains(q),
                    forall|q: usize|
                        #[trigger] next@.contains(q) <==> exists|j: int|
                            0 <= j < k && reaches(
                                states@,
                                before,
                                symbol,
                                #[trigger] follows@[j],
                                q,
                            ),
                decreases follows.len() - k,
            {
                let t = follows[k];
                let ghost old_next = next@;
                if t.1 == symbol && holds(&cur, t.0) && holds(states, t.0) && holds(states, t.2)
                    && !holds(&next, t.2) {
                    next.push(t.2);
                }
                proof {
                    assert forall|q: usize| #[trigger]
                        next@.contains(q) <==> exists|j: int|
                            0 <= j < k + 1 && reaches(
                                states@,
                                before,
                                symbol,
                                #[trigger] follows@[j],
                                q,
                            ) by {
                        if next@.contains(q) {
                            let a = choose|a: int| 0 <= a < next@.len() && next@[a] == q;
                            if a < old_next.len() {
                                assert(old_next[a] == q);
                                assert(old_next.contains(q));
                                let j = choose|j: int|
                                    0 <= j < k && reaches(
                                        states@,
                                        before,
                                        symbol,
                                        #[trigger] follows@[j],
                                        q,
                                    );
                                assert(reaches(states@, before, symbol, follows@[j], q));
                            } else {
                                assert(reaches(states@, before, symbol, follows@[k as int], q));
                            }
                        }
                        if exists|j: int|
                            0 <= j < k + 1 && reaches(
                                states@,
                                before,
                                symbol,
                                #[trigger] follows@[j],
                                q,
                            ) {
                            let j = choose|j: int|
                                0 <= j < k + 1 && reaches(
                                    states@,
                                    before,
                                    symbol,
                                    #[trigger] follows@[j],
                                    q,
                                );
                            if j < k {
                                assert(old_next.contains(q));
                                let a = choose|a: int| 0 <= a < old_next.len() && old_next[a] == q;
                                assert(next@[a] == q);
                            } else {
                                if old_next.contains(q) {
                                    let a = choose|a: int|
                                        0 <= a < old_next.len() && old_next[a] == q;
                                    assert(next@[a] == q);
                                } else {
                                    assert(next@[next@.len() - 1] == q);
                                }
                            }
                        }
                    }
                }
                k = k + 1;
            }
            proof {
                let after = frontier(self@, follows@, word@.take(i + 1));
                assert(word@.take(i + 1).drop_last() =~= word@.take(i as int));
                assert(word@.take(i + 1).last() == symbol);
                assert(after == step(self@.states, follows@, before, symbol));
                assert forall|q: usize| next@.contains(q) <==> #[trigger] after.contains(q) by {
                    if next@.contains(q) {
                        let j = choose|j: int|
                            0 <= j < k && reaches(
                                states@,
                                before,
                                symbol,
                                #[trigger] follows@[j],
                                q,
                            );
                        let p = follows@[j].0;
                        assert(follows@.contains((p, symbol, q)));
                        assert(before.contains(p) && arrow(self@.states, follows@, p, symbol, q));
                    }
                    if after.contains(q) {
                        let p = choose|p: usize|
                            before.contains(p) && arrow(self@.states, follows@, p, symbol, q);
                        let j = choose|j: int|
                            0 <= j < follows@.len() && follows@[j] == (p, symbol, q);
                        assert(reaches(states@, before, symbol, follows@[j], q));
                    }
                }
            }
            if next.len() == 0 {
                proof {
                    assert forall|q: usize| !(#[trigger] frontier(
                        self@,
                        follows@,
                        word@.take(i + 1),
                    ).contains(q)) by {
                        if frontier(self@, follows@, word@.take(i + 1)).contains(q) {
                            assert(next@.contains(q));
                        }
                    }
                    lemma_dead_end(self@, follows@, word@, i + 1);
                }
                return false;
            }
            cur = next;
            i = i + 1;
        }
        assert(word@.take(i as int) =~= word@);
        let mut a: usize = 0;
        while a < cur.len()
            invariant
                a <= cur.len(),
                forall|q: usize|
                    cur@.contains(q) <==> #[trigger] frontier(self@, follows@, word@).contains(q),
                forall|b: int| 0 <= b < a ==> !self@.outputs.contains(#[trigger] cur@[b]),
            decreases cur.len() - a,
        {
            if self.is_output(cur[a]) {
                assert(cur@.contains(cur@[a as int]));
                return true;
            }
            a = a + 1;
        }
        proof {
            if accepts(self@, follows@, word@) {
                let q = choose|q: usize|
                    frontier(self@, follows@, word@).contains(q) && self@.outputs.contains(q);
                assert(cur@.contains(q));
                let b = choose|b: int| 0 <= b < cur@.len() && cur@[b] == q;
                assert(!self@.outputs.contains(cur@[b]));
            }
        }
        false
    }
}

/// Whether the transition `t` leads on `symbol` from a state of `frontier` to
/// `q`, within `states`.
pub open spec fn reaches(
    states: Seq<usize>,
    frontier: Set<usize>,
    symbol: char,
    t: (usize, char, usize),
    q: usize,
) -> bool {
    t.1 == symbol && t.2 == q && frontier.contains(t.0) && inside(states, t)
}

} // verus!
