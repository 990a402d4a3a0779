//! The homogeneous automaton of an automaton.
//!
//! Every state is split into one state for each symbol on which it is
//! entered; a state that no transition enters is kept once, with the empty
//! word in place of a symbol. A transition leads to the copy of its
//! destination that carries its symbol, from every copy of its source. All
//! the transitions that enter a state of the new automaton then carry the same
//! symbol, and the automaton recognizes the words that the first recognizes.

use vstd::prelude::*;
use crate::accept::accepts;
use crate::automata::{Automata, Model, SubAutomata};
use crate::runs::{is_run, lemma_accepts, recognizes};
use crate::dfs::{count_up, natural};
use crate::inner::{Descriptor, InnerAutomata};
use crate::labels::holds;
use crate::prop::homogeneous;
use crate::relation::{arrow, has_transition, inside};
use crate::utils::{Couple, Epsilon, Union};

verus! {

/// What a state of a homogeneous automaton stands for: a state of the
/// automaton it was made from, with the symbol on which it is entered, or
/// with the empty word if no transition enters it.
pub type Tag = Couple<Union<char, Epsilon>, usize>;

/// Whether a transition on `c` leads from a state of `states` to `v`.
pub open spec fn entered_on(
    states: Seq<usize>,
    follows: Seq<(usize, char, usize)>,
    c: char,
    v: usize,
) -> bool {
    exists|p: usize| #[trigger] follows.contains((p, c, v)) && states.contains(p)
}

/// The symbols on which `v` is entered from a state of `states`, each once,
/// in the order of the first transition that carries it.
pub open spec fn entries(states: Seq<usize>, follows: Seq<(usize, char, usize)>, v: usize) -> Seq<char>
    decreases follows.len(),
{
    if follows.len() == 0 {
        Seq::empty()
    } else {
        let before = entries(states, follows.drop_last(), v);
        let t = follows.last();
        if t.2 == v && states.contains(t.0) && !before.contains(t.1) {
            before.push(t.1)
        } else {
            before
        }
    }
}

/// The state `v` with the symbol `c`.
pub open spec fn with_symbol(c: char, v: usize) -> Tag {
    Couple(Union::T(c), v)
}

/// The state `v` with the empty word.
pub open spec fn with_nothing(v: usize) -> Tag {
    Couple(Union::V(Epsilon), v)
}

/// The copies of the state `v`: one for each symbol on which it is entered,
/// or one with the empty word.
pub open spec fn couples_at(states: Seq<usize>, follows: Seq<(usize, char, usize)>, v: usize) -> Seq<Tag> {
    let symbols = entries(states, follows, v);
    if symbols.len() == 0 {
        seq![with_nothing(v)]
    } else {
        symbols.map_values(|c: char| with_symbol(c, v))
    }
}

/// The copies of the states `list`, state by state.
pub open spec fn couples_of(
    states: Seq<usize>,
    follows: Seq<(usize, char, usize)>,
    list: Seq<usize>,
) -> Seq<Tag>
    decreases list.len(),
{
    if list.len() == 0 {
        Seq::empty()
    } else {
        couples_of(states, follows, list.drop_last()) + couples_at(states, follows, list.last())
    }
}

/// The symbols of `entries` are those on which the state is entered, each
/// once.
pub proof fn lemma_entries(states: Seq<usize>, follows: Seq<(usize, char, usize)>, v: usize)
    ensures
        entries(states, follows, v).no_duplicates(),
        forall|c: char| #[trigger]
            entries(states, follows, v).contains(c) <==> entered_on(states, follows, c, v),
    decreases follows.len(),
{
    let now = entries(states, follows, v);
    if follows.len() == 0 {
        assert forall|c: char| #[trigger] entered_on(states, follows, c, v) implies now.contains(c) by {
            let p = choose|p: usize| #[trigger] follows.contains((p, c, v)) && states.contains(p);
        }
    } else {
        let front = follows.drop_last();
        let before = entries(states, front, v);
        let t = follows.last();
        lemma_entries(states, front, v);
        assert(follows[follows.len() - 1] == t);
        assert forall|c: char| #[trigger] now.contains(c) implies entered_on(states, follows, c, v) by {
            if before.contains(c) {
                let p = choose|p: usize| #[trigger] front.contains((p, c, v)) && states.contains(p);
                let i = choose|i: int| 0 <= i < front.len() && front[i] == (p, c, v);
                assert(follows[i] == (p, c, v));
                assert(follows.contains((p, c, v)));
            } else {
                let i = choose|i: int| 0 <= i < now.len() && now[i] == c;
                assert(now == before.push(t.1));
                if i < before.len() {
                    assert(before[i] == c);
                }
                assert(c == t.1);
                assert(follows.contains((t.0, c, v)));
            }
        }
        assert forall|c: char| #[trigger] entered_on(states, follows, c, v) implies now.contains(c) by {
            let p = choose|p: usize| #[trigger] follows.contains((p, c, v)) && states.contains(p);
            let i = choose|i: int| 0 <= i < follows.len() && follows[i] == (p, c, v);
            if i < front.len() {
                assert(front[i] == (p, c, v));
                assert(front.contains((p, c, v)));
                assert(entered_on(states, front, c, v));
                assert(before.contains(c));
                let k = choose|k: int| 0 <= k < before.len() && before[k] == c;
                assert(now[k] == c);
            } else {
                assert(t == (p, c, v));
                if before.contains(c) {
                    let k = choose|k: int| 0 <= k < before.len() && before[k] == c;
                    assert(now[k] == c);
                } else {
                    assert(now[before.len() as int] == c);
                }
            }
        }
    }
}

/// What the copies of one state are.
pub proof fn lemma_couples_at(states: Seq<usize>, follows: Seq<(usize, char, usize)>, v: usize)
    ensures
        couples_at(states, follows, v).no_duplicates(),
        couples_at(states, follows, v).len() > 0,
        forall|i: int|
            0 <= i < couples_at(states, follows, v).len() ==> (#[trigger] couples_at(
                states,
                follows,
                v,
            )[i]).1 == v,
        forall|c: char|
            couples_at(states, follows, v).contains(#[trigger] with_symbol(c, v)) <==> entered_on(
                states,
                follows,
                c,
                v,
            ),
        couples_at(states, follows, v).contains(with_nothing(v)) <==> forall|c: char|
            !entered_on(states, follows, c, v),
{
    let symbols = entries(states, follows, v);
    let tags = couples_at(states, follows, v);
    lemma_entries(states, follows, v);
    if symbols.len() == 0 {
        assert(tags[0] == with_nothing(v));
        assert forall|c: char| !entered_on(states, follows, c, v) by {
            if entered_on(states, follows, c, v) {
                assert(symbols.contains(c));
            }
        }
        assert forall|c: char| !tags.contains(#[trigger] with_symbol(c, v)) by {
            if tags.contains(with_symbol(c, v)) {
                let i = choose|i: int| 0 <= i < tags.len() && tags[i] == with_symbol(c, v);
            }
        }
    } else {
        assert forall|i: int, j: int| 0 <= i < tags.len() && 0 <= j < tags.len() && i
            != j implies tags[i] != tags[j] by {
            assert(tags[i] == with_symbol(symbols[i], v));
            assert(tags[j] == with_symbol(symbols[j], v));
        }
        assert forall|c: char| tags.contains(#[trigger] with_symbol(c, v)) <==> entered_on(
            states,
            follows,
            c,
            v,
        ) by {
            if tags.contains(with_symbol(c, v)) {
                let i = choose|i: int| 0 <= i < tags.len() && tags[i] == with_symbol(c, v);
                assert(tags[i] == with_symbol(symbols[i], v));
                assert(symbols[i] == c);
                assert(symbols.contains(c));
            }
            if entered_on(states, follows, c, v) {
                assert(symbols.contains(c));
                let i = choose|i: int| 0 <= i < symbols.len() && symbols[i] == c;
                assert(tags[i] == with_symbol(c, v));
            }
        }
        if tags.contains(with_nothing(v)) {
            let i = choose|i: int| 0 <= i < tags.len() && tags[i] == with_nothing(v);
            assert(tags[i] == with_symbol(symbols[i], v));
        }
        assert(symbols.contains(symbols[0]));
        assert(entered_on(states, follows, symbols[0], v));
    }
}

/// What the copies of the states of a list without repetition are: each
/// copy once, for every state of the list a copy for each symbol on which it
/// is entered, and a copy with the empty word for a state that is not
/// entered.
pub proof fn lemma_couples_of(states: Seq<usize>, follows: Seq<(usize, char, usize)>, list: Seq<usize>)
    requires
        list.no_duplicates(),
    ensures
        couples_of(states, follows, list).no_duplicates(),
        forall|i: int|
            0 <= i < couples_of(states, follows, list).len() ==> list.contains(
                (#[trigger] couples_of(states, follows, list)[i]).1,
            ),
        forall|c: char, v: usize|
            couples_of(states, follows, list).contains(#[trigger] with_symbol(c, v)) <==> list.contains(
                v,
            ) && entered_on(states, follows, c, v),
        forall|v: usize|
            couples_of(states, follows, list).contains(#[trigger] with_nothing(v)) <==> list.contains(
                v,
            ) && forall|c: char| !entered_on(states, follows, c, v),
    decreases list.len(),
{
    let now = couples_of(states, follows, list);
    if list.len() == 0 {
    } else {
        let front = list.drop_last();
        let v = list.last();
        let before = couples_of(states, follows, front);
        let tags = couples_at(states, follows, v);
        lemma_couples_of(states, follows, front);
        lemma_couples_at(states, follows, v);
        assert(list[list.len() - 1] == v);
        assert(!front.contains(v)) by {
            if front.contains(v) {
                let i = choose|i: int| 0 <= i < front.len() && front[i] == v;
                assert(list[i] == list[list.len() - 1]);
            }
        }
        assert forall|x: usize| list.contains(x) <==> (front.contains(x) || x == v) by {
            if list.contains(x) {
                let i = choose|i: int| 0 <= i < list.len() && list[i] == x;
                if i < front.len() {
                    assert(front[i] == x);
                }
            }
            if front.contains(x) {
                let i = choose|i: int| 0 <= i < front.len() && front[i] == x;
                assert(list[i] == x);
            }
        }
        assert forall|i: int| 0 <= i < now.len() implies list.contains((#[trigger] now[i]).1) by {
            if i < before.len() {
                assert(now[i] == before[i]);
                assert(front.contains(before[i].1));
            } else {
                assert(now[i] == tags[i - before.len()]);
            }
        }
        assert forall|i: int, j: int| 0 <= i < now.len() && 0 <= j < now.len() && i
            != j implies now[i] != now[j] by {
            if i < before.len() && j < before.len() {
                assert(now[i] == before[i] && now[j] == before[j]);
            } else if i >= before.len() && j >= before.len() {
                assert(now[i] == tags[i - before.len()] && now[j] == tags[j - before.len()]);
            } else if i < before.len() {
                assert(now[i] == before[i] && now[j] == tags[j - before.len()]);
                assert(front.contains(before[i].1));
            } else {
                assert(now[j] == before[j] && now[i] == tags[i - before.len()]);
                assert(front.contains(before[j].1));
            }
        }
        assert forall|tag: Tag| now.contains(tag) <==> (before.contains(tag) || tags.contains(tag)) by {
            if now.contains(tag) {
                let i = choose|i: int| 0 <= i < now.len() && now[i] == tag;
                if i < before.len() {
                    assert(before[i] == tag);
                } else {
                    assert(tags[i - before.len()] == tag);
                }
            }
            if before.contains(tag) {
                let i = choose|i: int| 0 <= i < before.len() && before[i] == tag;
                assert(now[i] == tag);
            }
            if tags.contains(tag) {
                let i = choose|i: int| 0 <= i < tags.len() && tags[i] == tag;
                assert(now[before.len() + i] == tag);
            }
        }
        assert forall|c: char, w: usize|
            now.contains(#[trigger] with_symbol(c, w)) <==> list.contains(w) && entered_on(
                states,
                follows,
                c,
                w,
            ) by {
            let tag = with_symbol(c, w);
            assert(now.contains(tag) <==> (before.contains(tag) || tags.contains(tag)));
            if tags.contains(tag) {
                let i = choose|i: int| 0 <= i < tags.len() && tags[i] == tag;
                assert(tags[i].1 == v);
            }
            if w == v {
                assert(tags.contains(with_symbol(c, v)) <==> entered_on(states, follows, c, v));
            }
        }
        assert forall|w: usize|
            now.contains(#[trigger] with_nothing(w)) <==> list.contains(w) && forall|c: char|
                !entered_on(states, follows, c, w) by {
            let tag = with_nothing(w);
            assert(now.contains(tag) <==> (before.contains(tag) || tags.contains(tag)));
            if tags.contains(tag) {
                let i = choose|i: int| 0 <= i < tags.len() && tags[i] == tag;
                assert(tags[i].1 == v);
            }
        }
    }
}

/// Whether `c` occurs in `list`.
pub fn has_symbol(list: &Vec<char>, c: char) -> (found: bool)
    ensures
        found == list@.contains(c),
{
    let mut i: usize = 0;
    while i < list.len()
        invariant
            i <= list.len(),
            forall|k: int| 0 <= k < i ==> list[k] != c,
        decreases list.len() - i,
    {
        if list[i] == c {
            return true;
        }
        i = i + 1;
    }
    false
}

/// The symbols on which `v` is entered from a state of `states`.
pub fn entry_symbols(states: &Vec<usize>, follows: &Vec<(usize, char, usize)>, v: usize) -> (symbols:
    Vec<char>)
    ensures
        symbols@ == entries(states@, follows@, v),
{
    let mut symbols: Vec<char> = Vec::new();
    let mut k: usize = 0;
    assert(follows@.take(0) =~= Seq::<(usize, char, usize)>::empty());
    while k < follows.len()
        invariant
            k <= follows.len(),
            symbols@ == entries(states@, follows@.take(k as int), v),
        decreases follows.len() - k,
    {
        let t = follows[k];
        proof {
            assert(follows@.take(k + 1).drop_last() =~= follows@.take(k as int));
            assert(follows@.take(k + 1).last() == t);
        }
        if t.2 == v && holds(states, t.0) && !has_symbol(&symbols, t.1) {
            symbols.push(t.1);
        }
        k = k + 1;
    }
    assert(follows@.take(k as int) =~= follows@);
    symbols
}

/// The copies of all the states.
pub fn split_states(states: &Vec<usize>, follows: &Vec<(usize, char, usize)>) -> (couples: Vec<Tag>)
    ensures
        couples@ == couples_of(states@, follows@, states@),
{
    let mut couples: Vec<Tag> = Vec::new();
    let mut a: usize = 0;
    assert(states@.take(0) =~= Seq::<usize>::empty());
    while a < states.len()
        invariant
            a <= states.len(),
            couples@ == couples_of(states@, follows@, states@.take(a as int)),
        decreases states.len() - a,
    {
        let v = states[a];
        let ghost before = couples@;
        proof {
            assert(states@.take(a + 1).drop_last() =~= states@.take(a as int));
            assert(states@.take(a + 1).last() == v);
        }
        let symbols = entry_symbols(states, follows, v);
        if symbols.len() == 0 {
            couples.push(Couple(Union::V(Epsilon), v));
            assert(couples@ =~= before + couples_at(states@, follows@, v));
        } else {
            let mut b: usize = 0;
            while b < symbols.len()
                invariant
                    b <= symbols.len(),
                    symbols@ == entries(states@, follows@, v),
                    couples@ == before + symbols@.take(b as int).map_values(
                        |c: char| with_symbol(c, v),
                    ),
                decreases symbols.len() - b,
            {
                couples.push(Couple(Union::T(symbols[b]), v));
                assert(couples@ =~= before + symbols@.take(b + 1).map_values(
                    |c: char| with_symbol(c, v),
                ));
                b = b + 1;
            }
            assert(symbols@.take(b as int) =~= symbols@);
        }
        a = a + 1;
    }
    assert(states@.take(a as int) =~= states@);
    couples
}

/// The place of the copy of `v` that carries `c`, if there is one.
pub fn find_couple(couples: &Vec<Tag>, c: char, v: usize) -> (at: Option<usize>)
    ensures
        match at {
            Some(j) => j < couples.len() && couples[j as int] == with_symbol(c, v),
            None => !couples@.contains(with_symbol(c, v)),
        },
{
    let mut j: usize = 0;
    while j < couples.len()
        invariant
            j <= couples.len(),
            forall|k: int| 0 <= k < j ==> couples[k] != with_symbol(c, v),
        decreases couples.len() - j,
    {
        let found = match couples[j].0 {
            Union::T(d) => d == c && couples[j].1 == v,
            Union::V(_) => false,
        };
        if found {
            return Some(j);
        }
        j = j + 1;
    }
    None
}

/// Whether the copy at the place `i` stands for a state of `list`.
pub open spec fn stands_in(couples: Seq<Tag>, list: Seq<usize>) -> spec_fn(usize) -> bool {
    |i: usize| list.contains(couples[i as int].1)
}

/// The places of the copies of the states of `list`, ascending.
pub open spec fn copies_of(couples: Seq<Tag>, list: Seq<usize>) -> Seq<usize> {
    natural(couples.len()).filter(stands_in(couples, list))
}

/// The places of the copies of the states of `list`.
pub fn copies(couples: &Vec<Tag>, list: &Vec<usize>) -> (picked: Vec<usize>)
    ensures
        picked@ == copies_of(couples@, list@),
        picked@.no_duplicates(),
        forall|k: int| 0 <= k < picked.len() ==> (#[trigger] picked[k]) < couples.len(),
{
    let m = couples.len();
    let ghost keep = stands_in(couples@, list@);
    let mut picked: Vec<usize> = Vec::new();
    let mut i: usize = 0;
    proof {
        assert(natural(m as nat).take(0) =~= Seq::<usize>::empty());
        reveal_with_fuel(Seq::filter, 1);
        assert(Seq::<usize>::empty().filter(keep) =~= Seq::<usize>::empty());
    }
    while i < m
        invariant
            i <= m,
            m == couples.len(),
            keep == stands_in(couples@, list@),
            picked@ == natural(m as nat).take(i as int).filter(keep),
            forall|k: int| 0 <= k < picked.len() ==> (#[trigger] picked[k]) < i,
            picked@.no_duplicates(),
        decreases m - i,
    {
        proof {
            let part = natural(m as nat).take(i as int);
            assert(natural(m as nat).take(i + 1) =~= part.push(i));
            part.lemma_filter_push(i, keep);
        }
        if holds(list, couples[i].1) {
            picked.push(i);
        }
        i = i + 1;
    }
    assert(natural(m as nat).take(i as int) =~= natural(m as nat));
    picked
}

/// Whether `t` is a transition of the homogeneous automaton: it leads to a
/// copy that carries its symbol, and a transition on this symbol joins the
/// two states that its ends stand for.
pub open spec fn copied(
    states: Seq<usize>,
    follows: Seq<(usize, char, usize)>,
    couples: Seq<Tag>,
    t: (usize, char, usize),
) -> bool {
    &&& t.0 < couples.len()
    &&& t.2 < couples.len()
    &&& couples[t.2 as int].0 == Union::<char, Epsilon>::T(t.1)
    &&& arrow(states, follows, couples[t.0 as int].1, t.1, couples[t.2 as int].1)
}

/// Whether `made` is the homogeneous automaton of the description `d` with
/// the transitions `follows`, its state `i` standing for `couples[i]`.
pub open spec fn homogenized(
    d: Descriptor,
    follows: Seq<(usize, char, usize)>,
    couples: Seq<Tag>,
    made: Model,
) -> bool {
    &&& couples == couples_of(d.states, follows, d.states)
    &&& made.inner.states == natural(couples.len())
    &&& made.inner.inputs == copies_of(couples, d.inputs)
    &&& made.inner.outputs == copies_of(couples, d.outputs)
    &&& forall|t: (usize, char, usize)| #[trigger]
        made.follows.contains(t) <==> copied(d.states, follows, couples, t)
    &&& made.childs.len() == 0
}

/// What one more transition adds to the transitions of the homogeneous
/// automaton.
proof fn lemma_copied_more(
    states: Seq<usize>,
    front: Seq<(usize, char, usize)>,
    t: (usize, char, usize),
    couples: Seq<Tag>,
    x: (usize, char, usize),
)
    ensures
        copied(states, front.push(t), couples, x) <==> copied(states, front, couples, x) || (x.0
            < couples.len() && x.2 < couples.len() && couples[x.2 as int] == with_symbol(t.1, t.2)
            && x.1 == t.1 && couples[x.0 as int].1 == t.0 && states.contains(t.0) && states.contains(
            t.2,
        )),
{
    let more = front.push(t);
    if x.0 < couples.len() && x.2 < couples.len() {
        let wanted = (couples[x.0 as int].1, x.1, couples[x.2 as int].1);
        assert(more.contains(wanted) <==> (front.contains(wanted) || wanted == t)) by {
            if front.contains(wanted) {
                let i = choose|i: int| 0 <= i < front.len() && front[i] == wanted;
                assert(more[i] == wanted);
            }
            if wanted == t {
                assert(more[front.len() as int] == wanted);
            }
            if more.contains(wanted) {
                let i = choose|i: int| 0 <= i < more.len() && more[i] == wanted;
                if i < front.len() {
                    assert(front[i] == wanted);
                }
            }
        }
    }
}

/// The states that a run of the homogeneous automaton stands for.
pub open spec fn stood_for(couples: Seq<Tag>, r: Seq<usize>) -> Seq<usize> {
    r.map_values(|i: usize| couples[i as int].1)
}

/// The copies through which the run `q` on `word` goes in the homogeneous
/// automaton: a copy of its first state, and then for each state the copy
/// that carries the symbol on which the state is entered.
pub open spec fn raised(couples: Seq<Tag>, q: Seq<usize>, word: Seq<char>) -> Seq<usize> {
    Seq::new(
        q.len(),
        |i: int|
            if i == 0 {
                choose|j: usize| j < couples.len() && couples[j as int].1 == q[0]
            } else {
                choose|j: usize| j < couples.len() && couples[j as int] == with_symbol(word[i - 1], q[i])
            },
    )
}

/// A word that the homogeneous automaton recognizes is recognized by the
/// automaton it was made from.
proof fn lemma_words_down(
    d: Descriptor,
    follows: Seq<(usize, char, usize)>,
    couples: Seq<Tag>,
    made: Model,
    word: Seq<char>,
)
    requires
        couples.len() <= usize::MAX,
        homogenized(d, follows, couples, made),
        recognizes(made.inner, made.follows, word),
    ensures
        recognizes(d, follows, word),
{
    let m = couples.len();
    let r = choose|r: Seq<usize>| #[trigger]
        is_run(made.inner.states, made.follows, r, word) && made.inner.inputs.contains(r[0])
            && made.inner.outputs.contains(r.last());
    let q = stood_for(couples, r);
    assert forall|i: int| 0 <= i < word.len() implies arrow(
        d.states,
        follows,
        #[trigger] q[i],
        word[i],
        q[i + 1],
    ) by {
        assert(arrow(made.inner.states, made.follows, r[i], word[i], r[i + 1]));
        assert(made.follows.contains((r[i], word[i], r[i + 1])));
        assert(copied(d.states, follows, couples, (r[i], word[i], r[i + 1])));
    }
    lemma_copies_of(couples, d.inputs, r[0]);
    lemma_copies_of(couples, d.outputs, r.last());
    assert(is_run(d.states, follows, q, word) && d.inputs.contains(q[0]) && d.outputs.contains(
        q.last(),
    ));
}

/// The places of the copies of the states of a list are the places at which
/// a state of the list stands.
pub proof fn lemma_copies_of(couples: Seq<Tag>, list: Seq<usize>, i: usize)
    requires
        couples.len() <= usize::MAX,
    ensures
        copies_of(couples, list).contains(i) <==> i < couples.len() && list.contains(
            couples[i as int].1,
        ),
{
    let all = natural(couples.len());
    let keep = stands_in(couples, list);
    if copies_of(couples, list).contains(i) {
        let k = choose|k: int| 0 <= k < all.filter(keep).len() && all.filter(keep)[k] == i;
        all.lemma_filter_pred(keep, k);
        all.lemma_filter_contains_rev(keep, i);
        let a = choose|a: int| 0 <= a < all.len() && all[a] == i;
        assert(keep(i));
    }
    if i < couples.len() && list.contains(couples[i as int].1) {
        assert(all[i as int] == i);
        assert(keep(all[i as int]));
        all.lemma_filter_contains(keep, i as int);
    }
}

/// A word that an automaton recognizes is recognized by its homogeneous
/// automaton.
proof fn lemma_words_up(
    d: Descriptor,
    follows: Seq<(usize, char, usize)>,
    couples: Seq<Tag>,
    made: Model,
    word: Seq<char>,
)
    requires
        d.wf(),
        couples.len() <= usize::MAX,
        homogenized(d, follows, couples, made),
        recognizes(d, follows, word),
    ensures
        recognizes(made.inner, made.follows, word),
{
    let m = couples.len();
    let q = choose|q: Seq<usize>| #[trigger]
        is_run(d.states, follows, q, word) && d.inputs.contains(q[0]) && d.outputs.contains(
            q.last(),
        );
    let r = raised(couples, q, word);
    lemma_couples_of(d.states, follows, d.states);
    assert forall|i: int| 0 <= i < q.len() implies (#[trigger] r[i]) < m && couples[r[i] as int].1
        == q[i] && (i > 0 ==> couples[r[i] as int] == with_symbol(word[i - 1], q[i])) by {
        if i == 0 {
            assert(d.states.contains(q[0]));
            lemma_has_copy(d.states, follows, q[0]);
            let tag = choose|tag: Tag| couples.contains(tag) && tag.1 == q[0];
            let j = choose|j: int| 0 <= j < couples.len() && couples[j] == tag;
            assert((j as usize) < couples.len() && couples[j as usize as int].1 == q[0]);
        } else {
            assert(arrow(d.states, follows, q[i - 1], word[i - 1], q[i - 1 + 1]));
            assert(follows.contains((q[i - 1], word[i - 1], q[i])));
            assert(entered_on(d.states, follows, word[i - 1], q[i]));
            assert(couples.contains(with_symbol(word[i - 1], q[i])));
            let j = choose|j: int|
                0 <= j < couples.len() && couples[j] == with_symbol(word[i - 1], q[i]);
            assert((j as usize) < couples.len() && couples[j as usize as int] == with_symbol(
                word[i - 1],
                q[i],
            ));
        }
    }
    assert forall|i: int| 0 <= i < word.len() implies arrow(
        made.inner.states,
        made.follows,
        #[trigger] r[i],
        word[i],
        r[i + 1],
    ) by {
        assert(arrow(d.states, follows, q[i], word[i], q[i + 1]));
        assert(r[i] < m && r[i + 1] < m);
        assert(couples[r[i + 1] as int] == with_symbol(word[i], q[i + 1]));
        assert(copied(d.states, follows, couples, (r[i], word[i], r[i + 1])));
        assert(natural(m)[r[i] as int] == r[i]);
        assert(natural(m)[r[i + 1] as int] == r[i + 1]);
    }
    assert(r[0] < m && couples[r[0] as int].1 == q[0]);
    assert(r[q.len() - 1] < m && couples[r[q.len() - 1] as int].1 == q[q.len() - 1]);
    lemma_copies_of(couples, d.inputs, r[0]);
    lemma_copies_of(couples, d.outputs, r.last());
    assert(is_run(made.inner.states, made.follows, r, word) && made.inner.inputs.contains(r[0])
        && made.inner.outputs.contains(r.last()));
}

/// Every state has a copy.
proof fn lemma_has_copy(states: Seq<usize>, follows: Seq<(usize, char, usize)>, v: usize)
    requires
        states.no_duplicates(),
        states.contains(v),
    ensures
        exists|tag: Tag| couples_of(states, follows, states).contains(tag) && tag.1 == v,
{
    lemma_couples_of(states, follows, states);
    let couples = couples_of(states, follows, states);
    if exists|c: char| entered_on(states, follows, c, v) {
        let c = choose|c: char| entered_on(states, follows, c, v);
        assert(couples.contains(with_symbol(c, v)));
        assert(with_symbol(c, v).1 == v);
    } else {
        assert(couples.contains(with_nothing(v)));
        assert(with_nothing(v).1 == v);
    }
}

/// The homogeneous automaton of an automaton recognizes the words that the
/// automaton recognizes.
pub proof fn lemma_homogenized_words(
    d: Descriptor,
    follows: Seq<(usize, char, usize)>,
    couples: Seq<Tag>,
    made: Model,
    word: Seq<char>,
)
    requires
        d.wf(),
        couples.len() <= usize::MAX,
        homogenized(d, follows, couples, made),
    ensures
        accepts(made.inner, made.follows, word) == accepts(d, follows, word),
{
    lemma_accepts(d, follows, word);
    lemma_accepts(made.inner, made.follows, word);
    if recognizes(d, follows, word) {
        lemma_words_up(d, follows, couples, made, word);
    }
    if recognizes(made.inner, made.follows, word) {
        lemma_words_down(d, follows, couples, made, word);
    }
}

impl InnerAutomata {
    /// The homogeneous automaton of this description with the transitions
    /// `follows`, and the couples that its states stand for: the state `i`
    /// stands for the `i`-th couple.
    ///
    /// There is a couple for every state and every symbol on which the state
    /// is entered, and a couple with the empty word for every state that is
    /// not entered. A copy is an input or an output if its state is one. A
    /// transition on a symbol leads from every copy of its source to the copy
    /// of its destination that carries the symbol. The new automaton is
    /// homogeneous and recognizes the words that this one recognizes.
    pub fn homogenize(&self, follows: &Vec<(usize, char, usize)>) -> (made: (Automata, Vec<Tag>))
        requires
            self.wf(),
        ensures
            made.0.wf(),
            homogenized(self@, follows@, made.1@, made.0@),
            homogeneous(made.0@.inner, made.0@.follows),
            forall|word: Seq<char>| #[trigger]
                accepts(made.0@.inner, made.0@.follows, word) == accepts(self@, follows@, word),
    {
        let states = self.labels();
        let couples = split_states(states, follows);
        let m = couples.len();
        let names = count_up(m);
        let inputs = copies(&couples, self.entries());
        let outputs = copies(&couples, self.exits());
        proof {
            lemma_couples_of(states@, follows@, states@);
        }
        let mut arrows: Vec<(usize, char, usize)> = Vec::new();
        let mut k: usize = 0;
        assert(follows@.take(0) =~= Seq::<(usize, char, usize)>::empty());
        while k < follows.len()
            invariant
                k <= follows.len(),
                m == couples.len(),
                states@ == self@.states,
                states@.no_duplicates(),
                couples@ == couples_of(states@, follows@, states@),
                couples@.no_duplicates(),
                forall|c: char, v: usize|
                    couples@.contains(#[trigger] with_symbol(c, v)) <==> states@.contains(v)
                        && entered_on(states@, follows@, c, v),
                arrows@.no_duplicates(),
                forall|x: (usize, char, usize)| #[trigger]
                    arrows@.contains(x) <==> copied(states@, follows@.take(k as int), couples@, x),
            decreases follows.len() - k,
        {
            let t = follows[k];
            let ghost front = follows@.take(k as int);
            proof {
                assert(follows@.take(k + 1) =~= front.push(t));
            }
            if holds(states, t.0) && holds(states, t.2) {
                proof {
                    assert(follows@[k as int] == t);
                    assert(follows@.contains((t.0, t.1, t.2)));
                    assert(entered_on(states@, follows@, t.1, t.2));
                    assert(couples@.contains(with_symbol(t.1, t.2)));
                }
                match find_couple(&couples, t.1, t.2) {
                    Some(j) => {
                        let mut i: usize = 0;
                        while i < m
                            invariant
                                i <= m,
                                m == couples.len(),
                                j < m,
                                couples[j as int] == with_symbol(t.1, t.2),
                                couples@.no_duplicates(),
                                arrows@.no_duplicates(),
                                forall|x: (usize, char, usize)| #[trigger]
                                    arrows@.contains(x) <==> copied(states@, front, couples@, x) || (
                                    x.0 < i && x.2 == j && x.1 == t.1 && couples[x.0 as int].1
                                        == t.0),
                            decreases m - i,
                        {
                            let ghost before = arrows@;
                            let fits = couples[i].1 == t.0;
                            if fits && !has_transition(&arrows, i, t.1, j) {
                                arrows.push((i, t.1, j));
                            }
                            proof {
                                assert forall|x: (usize, char, usize)| #[trigger]
                                    arrows@.contains(x) <==> copied(states@, front, couples@, x) || (
                                    x.0 < i + 1 && x.2 == j && x.1 == t.1 && couples[x.0 as int].1
                                        == t.0) by {
                                    lemma_push_arrow(before, (i, t.1, j), x);
                                    assert(before.contains(x) <==> copied(states@, front, couples@, x)
                                        || (x.0 < i && x.2 == j && x.1 == t.1 && couples[x.0 as int].1
                                        == t.0));
                                    if x == (i, t.1, j) && fits {
                                        assert(arrows@.contains(x));
                                    }
                                }
                            }
                            i = i + 1;
                        }
                        proof {
                            assert forall|x: (usize, char, usize)| #[trigger]
                                arrows@.contains(x) <==> copied(
                                    states@,
                                    follows@.take(k + 1),
                                    couples@,
                                    x,
                                ) by {
                                lemma_copied_more(states@, front, t, couples@, x);
                                if x.2 < m && couples[x.2 as int] == with_symbol(t.1, t.2) {
                                    assert(couples[x.2 as int] == couples[j as int]);
                                    assert(x.2 == j);
                                }
                            }
                        }
                    },
                    None => {},
                }
            } else {
                proof {
                    assert forall|x: (usize, char, usize)| #[trigger]
                        arrows@.contains(x) <==> copied(
                            states@,
                            follows@.take(k + 1),
                            couples@,
                            x,
                        ) by {
                        lemma_copied_more(states@, front, t, couples@, x);
                    }
                }
            }
            k = k + 1;
        }
        proof {
            assert forall|i: int| 0 <= i < inputs.len() implies natural(m as nat).contains(
                #[trigger] inputs[i],
            ) by {
                assert(natural(m as nat)[inputs[i] as int] == inputs[i]);
            }
            assert forall|i: int| 0 <= i < outputs.len() implies natural(m as nat).contains(
                #[trigger] outputs[i],
            ) by {
                assert(natural(m as nat)[outputs[i] as int] == outputs[i]);
            }
        }
        let inner = InnerAutomata::assemble(names, inputs, outputs);
        proof {
            assert(follows@.take(k as int) =~= follows@);
            assert forall|i: int| 0 <= i < arrows.len() implies inside(
                inner@.states,
                #[trigger] arrows[i],
            ) by {
                let x = arrows[i];
                assert(arrows@.contains(x));
                assert(copied(states@, follows@, couples@, x));
                assert(natural(m as nat)[x.0 as int] == x.0);
                assert(natural(m as nat)[x.2 as int] == x.2);
            }
        }
        let made = Automata::build(inner, arrows);
        proof {
            assert forall|word: Seq<char>| #[trigger]
                accepts(made@.inner, made@.follows, word) == accepts(self@, follows@, word) by {
                lemma_homogenized_words(self@, follows@, couples@, made@, word);
            }
        }
        (made, couples)
    }
}

/// What a list of transitions holds after a push.
proof fn lemma_push_arrow(s: Seq<(usize, char, usize)>, t: (usize, char, usize), x: (usize, char, usize))
    ensures
        s.push(t).contains(x) <==> (s.contains(x) || x == t),
{
    if s.contains(x) {
        let i = choose|i: int| 0 <= i < s.len() && s[i] == x;
        assert(s.push(t)[i] == x);
    }
    if x == t {
        assert(s.push(t)[s.len() as int] == x);
    }
    if s.push(t).contains(x) {
        let i = choose|i: int| 0 <= i < s.push(t).len() && s.push(t)[i] == x;
        if i < s.len() {
            assert(s[i] == x);
        }
    }
}

impl Automata {
    /// The homogeneous automaton of this automaton, and the couples that its
    /// states stand for. It recognizes the words that this automaton
    /// recognizes.
    pub fn homogenize(&self) -> (made: (Automata, Vec<Tag>))
        requires
            self.wf(),
        ensures
            made.0.wf(),
            homogenized(self@.inner, self@.follows, made.1@, made.0@),
            homogeneous(made.0@.inner, made.0@.follows),
            forall|word: Seq<char>| #[trigger]
                accepts(made.0@.inner, made.0@.follows, word) == accepts(
                    self@.inner,
                    self@.follows,
                    word,
                ),
    {
        self.inner().homogenize(self.transitions())
    }
}

impl SubAutomata {
    /// The homogeneous automaton of the part, with the transitions of
    /// `parent` between its states, and the couples that its states stand
    /// for.
    pub fn homogenize(&self, parent: &Automata) -> (made: (Automata, Vec<Tag>))
        requires
            parent.wf(),
        ensures
            made.0.wf(),
            homogenized(parent@.part(self.id()), parent@.follows, made.1@, made.0@),
            homogeneous(made.0@.inner, made.0@.follows),
            forall|word: Seq<char>| #[trigger]
                accepts(made.0@.inner, made.0@.follows, word) == accepts(
                    parent@.part(self.id()),
                    parent@.follows,
                    word,
                ),
    {
        parent.part(self).homogenize(parent.transitions())
    }
}

} // verus!
