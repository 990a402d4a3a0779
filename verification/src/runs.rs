//! Runs of an automaton on a word, and the words of the mirror.
//!
//! A word is recognized exactly if a run on it leads from an input to an
//! output, and the mirror recognizes the words of the automaton read
//! backwards.

use vstd::prelude::*;
use crate::accept::{accepts, frontier};
use crate::inner::Descriptor;
use crate::relation::{arrow, flip, lemma_flip, lemma_flip_flip, turned};

verus! {

/// Whether `q` is a run on `word`: it has one state more than the word has
/// symbols, and from each of its states a transition on the next symbol
/// leads to its next state.
pub open spec fn is_run(
    states: Seq<usize>,
    follows: Seq<(usize, char, usize)>,
    q: Seq<usize>,
    word: Seq<char>,
) -> bool {
    q.len() == word.len() + 1 && forall|i: int|
        0 <= i < word.len() ==> arrow(states, follows, #[trigger] q[i], word[i], q[i + 1])
}

/// Whether a run on `word` leads from an input to the state `x`.
pub open spec fn arrives(
    d: Descriptor,
    follows: Seq<(usize, char, usize)>,
    word: Seq<char>,
    x: usize,
) -> bool {
    exists|q: Seq<usize>| #[trigger]
        is_run(d.states, follows, q, word) && d.inputs.contains(q[0]) && q.last() == x
}

/// Whether a run on `word` leads from an input to an output.
pub open spec fn recognizes(d: Descriptor, follows: Seq<(usize, char, usize)>, word: Seq<char>) -> bool {
    exists|q: Seq<usize>| #[trigger]
        is_run(d.states, follows, q, word) && d.inputs.contains(q[0]) && d.outputs.contains(
            q.last(),
        )
}

/// The frontier after a word holds the states at which a run on the word
/// arrives from an input.
pub proof fn lemma_frontier(d: Descriptor, follows: Seq<(usize, char, usize)>, word: Seq<char>, x: usize)
    ensures
        frontier(d, follows, word).contains(x) <==> arrives(d, follows, word, x),
    decreases word.len(),
{
    if word.len() == 0 {
        if d.inputs.contains(x) {
            let q = seq![x];
            assert(is_run(d.states, follows, q, word) && d.inputs.contains(q[0]) && q.last() == x);
        }
        if arrives(d, follows, word, x) {
            let q = choose|q: Seq<usize>| #[trigger]
                is_run(d.states, follows, q, word) && d.inputs.contains(q[0]) && q.last() == x;
            assert(q[0] == x);
        }
    } else {
        let front = word.drop_last();
        let c = word.last();
        let n = front.len() as int;
        if frontier(d, follows, word).contains(x) {
            let p = choose|p: usize|
                frontier(d, follows, front).contains(p) && arrow(d.states, follows, p, c, x);
            lemma_frontier(d, follows, front, p);
            let before = choose|q: Seq<usize>| #[trigger]
                is_run(d.states, follows, q, front) && d.inputs.contains(q[0]) && q.last() == p;
            let q = before.push(x);
            assert forall|i: int| 0 <= i < word.len() implies arrow(
                d.states,
                follows,
                #[trigger] q[i],
                word[i],
                q[i + 1],
            ) by {
                if i < n {
                    assert(q[i] == before[i] && q[i + 1] == before[i + 1] && word[i] == front[i]);
                } else {
                    assert(q[i] == p && q[i + 1] == x && word[i] == c);
                }
            }
            assert(is_run(d.states, follows, q, word) && d.inputs.contains(q[0]) && q.last() == x);
        }
        if arrives(d, follows, word, x) {
            let q = choose|q: Seq<usize>| #[trigger]
                is_run(d.states, follows, q, word) && d.inputs.contains(q[0]) && q.last() == x;
            let before = q.drop_last();
            let p = q[n];
            assert forall|i: int| 0 <= i < front.len() implies arrow(
                d.states,
                follows,
                #[trigger] before[i],
                front[i],
                before[i + 1],
            ) by {
                assert(before[i] == q[i] && before[i + 1] == q[i + 1] && front[i] == word[i]);
            }
            assert(is_run(d.states, follows, before, front) && d.inputs.contains(before[0])
                && before.last() == p);
            lemma_frontier(d, follows, front, p);
            assert(arrow(d.states, follows, q[n], word[n], q[n + 1]));
            assert(frontier(d, follows, front).contains(p) && arrow(d.states, follows, p, c, x));
        }
    }
}

/// A word is recognized exactly if a run on it leads from an input to an
/// output.
pub proof fn lemma_accepts(d: Descriptor, follows: Seq<(usize, char, usize)>, word: Seq<char>)
    ensures
        accepts(d, follows, word) == recognizes(d, follows, word),
{
    if accepts(d, follows, word) {
        let x = choose|x: usize| frontier(d, follows, word).contains(x) && d.outputs.contains(x);
        lemma_frontier(d, follows, word, x);
        let q = choose|q: Seq<usize>| #[trigger]
            is_run(d.states, follows, q, word) && d.inputs.contains(q[0]) && q.last() == x;
        assert(is_run(d.states, follows, q, word) && d.inputs.contains(q[0]) && d.outputs.contains(
            q.last(),
        ));
    }
    if recognizes(d, follows, word) {
        let q = choose|q: Seq<usize>| #[trigger]
            is_run(d.states, follows, q, word) && d.inputs.contains(q[0]) && d.outputs.contains(
                q.last(),
            );
        assert(arrives(d, follows, word, q.last()));
        lemma_frontier(d, follows, word, q.last());
    }
}

/// A run, read backwards, is a run of the transitions turned round on the
/// word read backwards.
pub proof fn lemma_turn_run(
    states: Seq<usize>,
    follows: Seq<(usize, char, usize)>,
    q: Seq<usize>,
    word: Seq<char>,
)
    requires
        is_run(states, follows, q, word),
    ensures
        is_run(states, flip(follows), q.reverse(), word.reverse()),
{
    let r = q.reverse();
    let back = word.reverse();
    let n = word.len() as int;
    lemma_flip(follows);
    assert forall|i: int| 0 <= i < back.len() implies arrow(
        states,
        flip(follows),
        #[trigger] r[i],
        back[i],
        r[i + 1],
    ) by {
        let j = n - 1 - i;
        assert(r[i] == q[j + 1] && r[i + 1] == q[j] && back[i] == word[j]);
        assert(arrow(states, follows, q[j], word[j], q[j + 1]));
        assert(turned((q[j + 1], word[j], q[j])) == (q[j], word[j], q[j + 1]));
    }
}

/// The mirror recognizes a word read backwards if the automaton recognizes
/// the word.
proof fn lemma_mirror_half(d: Descriptor, follows: Seq<(usize, char, usize)>, word: Seq<char>)
    requires
        recognizes(d, follows, word),
    ensures
        recognizes(d.mirror(), flip(follows), word.reverse()),
{
    let q = choose|q: Seq<usize>| #[trigger]
        is_run(d.states, follows, q, word) && d.inputs.contains(q[0]) && d.outputs.contains(
            q.last(),
        );
    lemma_turn_run(d.states, follows, q, word);
    let r = q.reverse();
    assert(r[0] == q.last() && r.last() == q[0]);
    assert(is_run(d.mirror().states, flip(follows), r, word.reverse()) && d.mirror().inputs.contains(
        r[0],
    ) && d.mirror().outputs.contains(r.last()));
}

/// The mirror of an automaton recognizes exactly the words of the automaton
/// read backwards.
pub proof fn lemma_mirror(d: Descriptor, follows: Seq<(usize, char, usize)>, word: Seq<char>)
    ensures
        accepts(d.mirror(), flip(follows), word.reverse()) == accepts(d, follows, word),
{
    lemma_accepts(d, follows, word);
    lemma_accepts(d.mirror(), flip(follows), word.reverse());
    if recognizes(d, follows, word) {
        lemma_mirror_half(d, follows, word);
    }
    if recognizes(d.mirror(), flip(follows), word.reverse()) {
        lemma_mirror_half(d.mirror(), flip(follows), word.reverse());
        lemma_flip_flip(follows);
        assert(word.reverse().reverse() =~= word);
        assert(d.mirror().mirror() == d);
    }
}

} // verus!
