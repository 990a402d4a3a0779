//! The Glushkov automaton of a regular expression.
//!
//! The automaton has the state 0 and one state for each occurrence of a
//! symbol, labelled with the number of the occurrence, from 1 on. A transition
//! carries the symbol of the occurrence that it enters. It leads from 0 to the
//! positions with which a word can begin, and from a position to those that
//! can follow it. The state 0 is the initial state; the final states are the
//! positions with which a word can end, and 0 if the empty word is recognized.

use vstd::prelude::*;
use crate::accept::accepts;
use crate::automata::{Automata, Model};
use crate::language::{lemma_glushkov_shape, lemma_glushkov_words};
use crate::prop::{homogeneous, standard};
use crate::dfs::{count_up, natural};
use crate::inner::InnerAutomata;
use crate::labels::copy;
use crate::regexp::{bridge, Numbered, RegExp};
use crate::relation::inside;

verus! {

/// Whether the Glushkov automaton of `reg` has the transition `t`.
pub open spec fn glushkov_arrow(reg: RegExp<char>, t: (usize, char, usize)) -> bool {
    let lin = reg.linearized(1);
    &&& 1 <= t.2 <= reg.count()
    &&& t.1 == reg.letters()[t.2 - 1]
    &&& (t.0 == 0 && lin.firsts().contains(t.2)) || lin.follows().contains((t.0, t.2))
}

/// Whether the Glushkov automaton of `reg` has the final state `x`.
pub open spec fn glushkov_final(reg: RegExp<char>, x: usize) -> bool {
    let lin = reg.linearized(1);
    lin.lasts().contains(x) || (x == 0 && lin.nullable())
}

/// Whether `made` is the Glushkov automaton of `reg`.
pub open spec fn is_glushkov(made: Model, reg: RegExp<char>) -> bool {
    &&& made.inner.states == natural(reg.count() + 1)
    &&& made.inner.inputs == seq![0usize]
    &&& forall|x: usize| #[trigger] made.inner.outputs.contains(x) <==> glushkov_final(reg, x)
    &&& forall|t: (usize, char, usize)| #[trigger] made.follows.contains(t) <==> glushkov_arrow(reg, t)
    &&& made.childs.len() == 0
}

/// The positions of a linearized expression are the numbers that were given.
pub proof fn lemma_positions<T>(reg: RegExp<T>, start: nat)
    requires
        start + reg.count() <= usize::MAX,
    ensures
        forall|p: usize| #[trigger]
            reg.linearized(start).firsts().contains(p) ==> start <= p < start + reg.count(),
        forall|p: usize| #[trigger]
            reg.linearized(start).lasts().contains(p) ==> start <= p < start + reg.count(),
        forall|p: usize, q: usize| #[trigger]
            reg.linearized(start).follows().contains((p, q)) ==> start <= p < start + reg.count()
                && start <= q < start + reg.count(),
    decreases reg,
{
    let lin = reg.linearized(start);
    let n = reg.count();
    match reg {
        RegExp::Epsilon => {
            assert(lin.firsts() =~= Set::<usize>::empty());
            assert(lin.lasts() =~= Set::<usize>::empty());
            assert(lin.follows() =~= Set::<(usize, usize)>::empty());
        },
        RegExp::Symbol(s) => {
            assert(lin == RegExp::Symbol(Numbered(s, start as usize)));
            assert(lin.firsts() =~= set![start as usize]);
            assert(lin.lasts() =~= set![start as usize]);
            assert(lin.follows() =~= Set::<(usize, usize)>::empty());
        },
        RegExp::Repeat(c) => {
            lemma_positions(*c, start);
            let inner = c.linearized(start);
            assert(lin == RegExp::Repeat(Box::new(inner)));
            assert(lin.firsts() == inner.firsts());
            assert(lin.lasts() == inner.lasts());
            assert(lin.follows() == inner.follows().union(bridge(inner.lasts(), inner.firsts())));
            assert forall|p: usize, q: usize| #[trigger]
                lin.follows().contains((p, q)) implies start <= p < start + n && start <= q < start
                + n by {
                if !inner.follows().contains((p, q)) {
                    assert(bridge(inner.lasts(), inner.firsts()).contains((p, q)));
                    assert(inner.lasts().contains(p) && inner.firsts().contains(q));
                }
            }
        },
        RegExp::Or(l, r) => {
            lemma_positions(*l, start);
            lemma_positions(*r, start + l.count());
            let left = l.linearized(start);
            let right = r.linearized(start + l.count());
            assert(lin == RegExp::Or(Box::new(left), Box::new(right)));
            assert(lin.firsts() == left.firsts().union(right.firsts()));
            assert(lin.lasts() == left.lasts().union(right.lasts()));
            assert(lin.follows() == left.follows().union(right.follows()));
        },
        RegExp::Concat(l, r) => {
            lemma_positions(*l, start);
            lemma_positions(*r, start + l.count());
            let left = l.linearized(start);
            let right = r.linearized(start + l.count());
            assert(lin == RegExp::Concat(Box::new(left), Box::new(right)));
            assert(lin.firsts() == if left.nullable() {
                left.firsts().union(right.firsts())
            } else {
                left.firsts()
            });
            assert(lin.lasts() == if right.nullable() {
                right.lasts().union(left.lasts())
            } else {
                right.lasts()
            });
            assert(lin.follows() == left.follows().union(right.follows()).union(
                bridge(left.lasts(), right.firsts()),
            ));
            assert forall|p: usize, q: usize| #[trigger]
                lin.follows().contains((p, q)) implies start <= p < start + n && start <= q < start
                + n by {
                if !left.follows().contains((p, q)) && !right.follows().contains((p, q)) {
                    assert(bridge(left.lasts(), right.firsts()).contains((p, q)));
                    assert(left.lasts().contains(p) && right.firsts().contains(q));
                }
            }
        },
    }
}

/// The pairs of positions as transitions, each with the symbol of the position
/// that it enters.
pub open spec fn labelled(pairs: Seq<(usize, usize)>, letters: Seq<char>) -> Seq<(usize, char, usize)> {
    pairs.map_values(|pq: (usize, usize)| (pq.0, letters[pq.1 - 1], pq.1))
}

/// The transitions from the state 0 to the positions `firsts`.
pub open spec fn opening(firsts: Seq<usize>, letters: Seq<char>) -> Seq<(usize, char, usize)> {
    firsts.map_values(|f: usize| (0usize, letters[f - 1], f))
}

/// The pairs as transitions, each with the symbol of the position it enters.
fn label_pairs(pairs: &Vec<(usize, usize)>, letters: &Vec<char>) -> (made: Vec<(usize, char, usize)>)
    requires
        forall|i: int| 0 <= i < pairs.len() ==> 1 <= (#[trigger] pairs[i]).1 <= letters.len(),
    ensures
        made@ == labelled(pairs@, letters@),
{
    let mut made: Vec<(usize, char, usize)> = Vec::new();
    let mut i: usize = 0;
    while i < pairs.len()
        invariant
            i <= pairs.len(),
            forall|k: int| 0 <= k < pairs.len() ==> 1 <= (#[trigger] pairs[k]).1 <= letters.len(),
            made@ == labelled(pairs@.take(i as int), letters@),
        decreases pairs.len() - i,
    {
        let pq = pairs[i];
        made.push((pq.0, letters[pq.1 - 1], pq.1));
        assert(labelled(pairs@.take(i + 1), letters@) =~= labelled(
            pairs@.take(i as int),
            letters@,
        ).push((pq.0, letters@[pq.1 - 1], pq.1)));
        i = i + 1;
    }
    assert(pairs@.take(i as int) =~= pairs@);
    made
}

/// Adds the transitions from the state 0 to the positions `firsts`.
fn open_firsts(firsts: &Vec<usize>, letters: &Vec<char>, made: &mut Vec<(usize, char, usize)>)
    requires
        forall|i: int| 0 <= i < firsts.len() ==> 1 <= #[trigger] firsts[i] <= letters.len(),
    ensures
        final(made)@ == old(made)@ + opening(firsts@, letters@),
{
    let ghost before = made@;
    let mut i: usize = 0;
    assert(before + opening(firsts@.take(0), letters@) =~= before);
    while i < firsts.len()
        invariant
            i <= firsts.len(),
            forall|k: int| 0 <= k < firsts.len() ==> 1 <= #[trigger] firsts[k] <= letters.len(),
            made@ == before + opening(firsts@.take(i as int), letters@),
        decreases firsts.len() - i,
    {
        let f = firsts[i];
        made.push((0, letters[f - 1], f));
        assert(before + opening(firsts@.take(i + 1), letters@) =~= (before + opening(
            firsts@.take(i as int),
            letters@,
        )).push((0usize, letters@[f - 1], f)));
        i = i + 1;
    }
    assert(firsts@.take(i as int) =~= firsts@);
}

impl Automata {
    /// The Glushkov automaton of `reg`. It recognizes exactly the words of
    /// `reg`, and it is standard and homogeneous.
    pub fn from(reg: RegExp<char>) -> (made: Automata)
        requires
            reg.count() < usize::MAX,
        ensures
            made.wf(),
            is_glushkov(made@, reg),
            forall|word: Seq<char>| #[trigger]
                accepts(made@.inner, made@.follows, word) == reg.matches(word),
            standard(made@.inner, made@.follows),
            homogeneous(made@.inner, made@.follows),
    {
        Automata::from_regexp(&reg)
    }

    /// The Glushkov automaton of `reg`, unless `reg` has too many symbols for
    /// their positions to be machine numbers. It recognizes exactly the words
    /// of `reg`, and it is standard and homogeneous.
    pub fn try_from_regexp(reg: &RegExp<char>) -> (made: Option<Automata>)
        ensures
            match made {
                Some(a) => {
                    &&& reg.count() < usize::MAX
                    &&& a.wf()
                    &&& is_glushkov(a@, *reg)
                    &&& forall|word: Seq<char>| #[trigger]
                        accepts(a@.inner, a@.follows, word) == reg.matches(word)
                    &&& standard(a@.inner, a@.follows)
                    &&& homogeneous(a@.inner, a@.follows)
                },
                None => reg.count() >= usize::MAX,
            },
    {
        match reg.symbol_count() {
            Some(n) => if n < usize::MAX {
                Some(Automata::from_regexp(reg))
            } else {
                None
            },
            None => None,
        }
    }

    /// The Glushkov automaton of `reg`. It recognizes exactly the words of
    /// `reg`, and it is standard and homogeneous.
    pub fn from_regexp(reg: &RegExp<char>) -> (made: Automata)
        requires
            reg.count() < usize::MAX,
        ensures
            made.wf(),
            is_glushkov(made@, *reg),
            forall|word: Seq<char>| #[trigger]
                accepts(made@.inner, made@.follows, word) == reg.matches(word),
            standard(made@.inner, made@.follows),
            homogeneous(made@.inner, made@.follows),
    {
        let (lin, end) = reg.linearization(1);
        let sets = lin.get_flnf();
        let letters = reg.symbols();
        proof {
            reg.lemma_letters();
            lemma_positions(*reg, 1);
        }
        let ghost n = reg.count();
        let states = count_up(end);
        let mut inputs: Vec<usize> = Vec::new();
        inputs.push(0);
        let mut outputs = copy(&sets.lasts);
        if sets.null {
            outputs.push(0);
        }
        proof {
            assert forall|i: int| 0 <= i < sets.follows.len() implies 1 <= (
            #[trigger] sets.follows[i]).1 <= letters.len() by {
                let pq = sets.follows[i];
                assert(sets.follows@.contains(pq));
                assert(lin.follows().contains((pq.0, pq.1)));
            }
            assert forall|i: int| 0 <= i < sets.firsts.len() implies 1 <= #[trigger] sets.firsts[i]
                <= letters.len() by {
                assert(sets.firsts@.contains(sets.firsts[i]));
                assert(lin.firsts().contains(sets.firsts[i]));
            }
        }
        let mut follows = label_pairs(&sets.follows, &letters);
        open_firsts(&sets.firsts, &letters, &mut follows);
        proof {
            let pairs = sets.follows@;
            let firsts = sets.firsts@;
            let inside_part = labelled(pairs, letters@);
            let start_part = opening(firsts, letters@);
            assert(follows@ == inside_part + start_part);
            // the states
            assert forall|x: usize| x <= n implies #[trigger] states@.contains(x) by {
                assert(states@[x as int] == x);
            }
            assert(states@.no_duplicates());
            assert(inputs@ =~= seq![0usize]);
            // the final states
            assert forall|x: usize| #[trigger] outputs@.contains(x) <==> glushkov_final(*reg, x) by {
                if outputs@.contains(x) {
                    let k = choose|k: int| 0 <= k < outputs@.len() && outputs@[k] == x;
                    if k < sets.lasts.len() {
                        assert(sets.lasts@[k] == x);
                        assert(sets.lasts@.contains(x));
                    }
                }
                if lin.lasts().contains(x) {
                    assert(sets.lasts@.contains(x));
                    let k = choose|k: int| 0 <= k < sets.lasts@.len() && sets.lasts@[k] == x;
                    assert(outputs@[k] == x);
                }
                if x == 0 && lin.nullable() {
                    assert(outputs@[sets.lasts.len() as int] == x);
                }
            }
            assert forall|a: int, b: int| 0 <= a < outputs@.len() && 0 <= b < outputs@.len() && a
                != b implies outputs@[a] != outputs@[b] by {
                if a < sets.lasts.len() && b < sets.lasts.len() {
                    assert(sets.lasts@[a] != sets.lasts@[b]);
                } else if a < sets.lasts.len() {
                    assert(sets.lasts@.contains(sets.lasts@[a]));
                    assert(lin.lasts().contains(sets.lasts@[a]));
                } else if b < sets.lasts.len() {
                    assert(sets.lasts@.contains(sets.lasts@[b]));
                    assert(lin.lasts().contains(sets.lasts@[b]));
                }
            }
            assert forall|i: int| 0 <= i < outputs@.len() implies states@.contains(
                #[trigger] outputs@[i],
            ) by {
                let x = outputs@[i];
                assert(outputs@.contains(x));
                if lin.lasts().contains(x) {
                    assert(x <= n);
                }
            }
            assert(states@.contains(0usize));
            // the transitions
            assert forall|t: (usize, char, usize)| #[trigger]
                follows@.contains(t) <==> glushkov_arrow(*reg, t) by {
                if follows@.contains(t) {
                    let k = choose|k: int| 0 <= k < follows@.len() && follows@[k] == t;
                    if k < inside_part.len() {
                        let pq = pairs[k];
                        assert(pairs.contains(pq));
                        assert(lin.follows().contains((pq.0, pq.1)));
                        assert(t == (pq.0, letters@[pq.1 - 1], pq.1));
                    } else {
                        let f = firsts[k - inside_part.len()];
                        assert(firsts.contains(f));
                        assert(lin.firsts().contains(f));
                        assert(t == (0usize, letters@[f - 1], f));
                    }
                }
                if glushkov_arrow(*reg, t) {
                    if lin.follows().contains((t.0, t.2)) {
                        assert(pairs.contains((t.0, t.2)));
                        let k = choose|k: int| 0 <= k < pairs.len() && pairs[k] == (t.0, t.2);
                        assert(inside_part[k] == t);
                        assert(follows@[k] == t);
                    } else {
                        assert(firsts.contains(t.2));
                        let k = choose|k: int| 0 <= k < firsts.len() && firsts[k] == t.2;
                        assert(start_part[k] == t);
                        assert(follows@[inside_part.len() + k] == t);
                    }
                }
            }
            assert forall|a: int, b: int| 0 <= a < follows@.len() && 0 <= b < follows@.len() && a
                != b implies follows@[a] != follows@[b] by {
                let m = inside_part.len() as int;
                if a < m && b < m {
                    assert(pairs[a] != pairs[b]);
                } else if a < m {
                    assert(pairs.contains(pairs[a]));
                    assert(lin.follows().contains((pairs[a].0, pairs[a].1)));
                } else if b < m {
                    assert(pairs.contains(pairs[b]));
                    assert(lin.follows().contains((pairs[b].0, pairs[b].1)));
                } else {
                    assert(firsts[a - m] != firsts[b - m]);
                }
            }
            assert forall|i: int| 0 <= i < follows@.len() implies inside(
                states@,
                #[trigger] follows@[i],
            ) by {
                let t = follows@[i];
                assert(follows@.contains(t));
                assert(glushkov_arrow(*reg, t));
                if t.0 != 0 {
                    assert(lin.follows().contains((t.0, t.2)));
                }
                assert(t.0 <= n && t.2 <= n);
            }
        }
        let made = Automata::build(InnerAutomata::assemble(states, inputs, outputs), follows);
        proof {
            assert forall|word: Seq<char>| #[trigger]
                accepts(made@.inner, made@.follows, word) == reg.matches(word) by {
                lemma_glushkov_words(made@, *reg, word);
            }
            lemma_glushkov_shape(made@, *reg);
        }
        made
    }
}

} // verus!
