//! The words of a regular expression, and why its Glushkov automaton
//! recognizes them.
//!
//! A word of a linearized expression is a list of positions. It begins with
//! one of the `firsts`, ends with one of the `lasts`, and each of its
//! positions is followed by one of its `follows`; and every list of
//! positions that is chained in this way is a word of the expression. The
//! runs of the Glushkov automaton are these chains.

use vstd::prelude::*;
use crate::accept::accepts;
use crate::automata::Model;
use crate::glushkov::{glushkov_arrow, glushkov_final, is_glushkov, lemma_positions};
use crate::prop::{homogeneous, standard};
use crate::regexp::{bridge, Numbered, RegExp};
use crate::relation::arrow;
use crate::runs::{is_run, lemma_accepts, recognizes};

verus! {

/// The position at the place `i` and the next one.
pub open spec fn pair_at(ps: Seq<usize>, i: int) -> (usize, usize) {
    (ps[i], ps[i + 1])
}

/// Whether every two neighbours of `ps` are a pair of `pairs`.
pub open spec fn linked_by(pairs: Set<(usize, usize)>, ps: Seq<usize>) -> bool {
    forall|i: int| 0 <= i < ps.len() - 1 ==> pairs.contains(#[trigger] pair_at(ps, i))
}

/// Whether a list of `n` elements can be cut behind its `k`-th element.
pub open spec fn cuts(k: int, n: nat) -> bool {
    0 <= k <= n
}

impl<T> RegExp<T> {
    /// Whether `word` is a word of the expression.
    #[verifier::opaque]
    pub open spec fn matches(self, word: Seq<T>) -> bool
        decreases self, word.len(),
    {
        match self {
            RegExp::Epsilon => word.len() == 0,
            RegExp::Symbol(s) => word == seq![s],
            RegExp::Or(l, r) => l.matches(word) || r.matches(word),
            RegExp::Concat(l, r) => exists|k: int|
                #[trigger] cuts(k, word.len()) && l.matches(word.take(k)) && r.matches(word.skip(k)),
            RegExp::Repeat(c) => word.len() == 0 || exists|k: int|
                #[trigger] cuts(k, word.len()) && 0 < k && c.matches(word.take(k)) && self.matches(
                    word.skip(k),
                ),
        }
    }
}

impl<T> RegExp<Numbered<T>> {
    /// Whether the positions `ps`, in this order, are a word of the
    /// expression.
    #[verifier::opaque]
    pub open spec fn spells(self, ps: Seq<usize>) -> bool
        decreases self, ps.len(),
    {
        match self {
            RegExp::Epsilon => ps.len() == 0,
            RegExp::Symbol(s) => ps == seq![s.1],
            RegExp::Or(l, r) => l.spells(ps) || r.spells(ps),
            RegExp::Concat(l, r) => exists|k: int|
                #[trigger] cuts(k, ps.len()) && l.spells(ps.take(k)) && r.spells(ps.skip(k)),
            RegExp::Repeat(c) => ps.len() == 0 || exists|k: int|
                #[trigger] cuts(k, ps.len()) && 0 < k && c.spells(ps.take(k)) && self.spells(
                    ps.skip(k),
                ),
        }
    }

    /// Whether every position of `ps` but the last is followed by one of its
    /// `follows`.
    pub open spec fn linked(self, ps: Seq<usize>) -> bool {
        linked_by(self.follows(), ps)
    }

    /// Whether `ps` is chained: it begins with one of the `firsts`, ends with
    /// one of the `lasts`, and is linked; or it is empty, and the expression
    /// has the empty word.
    pub open spec fn chains(self, ps: Seq<usize>) -> bool {
        if ps.len() == 0 {
            self.nullable()
        } else {
            self.firsts().contains(ps[0]) && self.lasts().contains(ps.last()) && self.linked(ps)
        }
    }
}

/// Two linked lists, the one after the other, are linked if the last of the
/// first and the first of the second are a pair.
proof fn lemma_linked_join(
    a: Set<(usize, usize)>,
    b: Set<(usize, usize)>,
    all: Set<(usize, usize)>,
    u: Seq<usize>,
    v: Seq<usize>,
)
    requires
        linked_by(a, u),
        linked_by(b, v),
        forall|p: (usize, usize)| a.contains(p) ==> all.contains(p),
        forall|p: (usize, usize)| b.contains(p) ==> all.contains(p),
        u.len() > 0 && v.len() > 0 ==> all.contains((u.last(), v[0])),
    ensures
        linked_by(all, u + v),
{
    let w = u + v;
    assert forall|i: int| 0 <= i < w.len() - 1 implies all.contains(#[trigger] pair_at(w, i)) by {
        if i < u.len() - 1 {
            assert(pair_at(w, i) == pair_at(u, i));
            assert(a.contains(pair_at(u, i)));
        } else if i == u.len() - 1 {
            assert(pair_at(w, i) == (u.last(), v[0]));
        } else {
            let j = i - u.len();
            assert(pair_at(w, i) == pair_at(v, j));
            assert(b.contains(pair_at(v, j)));
        }
    }
}

/// A list that is linked by some pairs is linked by more pairs.
proof fn lemma_linked_more(a: Set<(usize, usize)>, all: Set<(usize, usize)>, ps: Seq<usize>)
    requires
        linked_by(a, ps),
        forall|p: (usize, usize)| a.contains(p) ==> all.contains(p),
    ensures
        linked_by(all, ps),
{
    assert forall|i: int| 0 <= i < ps.len() - 1 implies all.contains(#[trigger] pair_at(ps, i)) by {
        assert(a.contains(pair_at(ps, i)));
    }
}

/// The ends of two lists put together.
proof fn lemma_ends(u: Seq<usize>, v: Seq<usize>)
    requires
        u.len() + v.len() > 0,
    ensures
        (u + v)[0] == if u.len() > 0 {
            u[0]
        } else {
            v[0]
        },
        (u + v).last() == if v.len() > 0 {
            v.last()
        } else {
            u.last()
        },
{
}

/// A chain of the first expression and then a chain of the second are a
/// chain of the two expressions, the one after the other.
proof fn lemma_chains_concat<T>(l: RegExp<Numbered<T>>, r: RegExp<Numbered<T>>, u: Seq<usize>, v: Seq<usize>)
    requires
        l.chains(u),
        r.chains(v),
    ensures
        RegExp::Concat(Box::new(l), Box::new(r)).chains(u + v),
{
    let e = RegExp::Concat(Box::new(l), Box::new(r));
    let ps = u + v;
    assert(e.nullable() == (l.nullable() && r.nullable()));
    assert(e.firsts() == if l.nullable() {
        l.firsts().union(r.firsts())
    } else {
        l.firsts()
    });
    assert(e.lasts() == if r.nullable() {
        r.lasts().union(l.lasts())
    } else {
        r.lasts()
    });
    assert(e.follows() == l.follows().union(r.follows()).union(bridge(l.lasts(), r.firsts())));
    if ps.len() > 0 {
        lemma_ends(u, v);
        if u.len() > 0 && v.len() > 0 {
            assert(bridge(l.lasts(), r.firsts()).contains((u.last(), v[0])));
        }
        lemma_linked_join(l.follows(), r.follows(), e.follows(), u, v);
    }
}

/// A chain of an expression and then a chain of its repetition are a chain
/// of the repetition.
proof fn lemma_chains_repeat<T>(c: RegExp<Numbered<T>>, u: Seq<usize>, v: Seq<usize>)
    requires
        c.chains(u),
        u.len() > 0,
        RegExp::Repeat(Box::new(c)).chains(v),
    ensures
        RegExp::Repeat(Box::new(c)).chains(u + v),
{
    let e = RegExp::Repeat(Box::new(c));
    assert(e.firsts() == c.firsts());
    assert(e.lasts() == c.lasts());
    assert(e.follows() == c.follows().union(bridge(c.lasts(), c.firsts())));
    lemma_ends(u, v);
    if v.len() > 0 {
        assert(bridge(c.lasts(), c.firsts()).contains((u.last(), v[0])));
    }
    lemma_linked_join(c.follows(), e.follows(), e.follows(), u, v);
}

/// Where a word of two expressions, the one after the other, is cut.
pub open spec fn cut_concat<T>(l: RegExp<Numbered<T>>, r: RegExp<Numbered<T>>, ps: Seq<usize>, k: int) -> bool {
    cuts(k, ps.len()) && l.spells(ps.take(k)) && r.spells(ps.skip(k))
}

/// Where a word of a repetition is cut behind its first part.
pub open spec fn cut_repeat<T>(c: RegExp<Numbered<T>>, ps: Seq<usize>, k: int) -> bool {
    cuts(k, ps.len()) && 0 < k && c.spells(ps.take(k)) && RegExp::Repeat(Box::new(c)).spells(
        ps.skip(k),
    )
}

/// What the words of an expression without operator are, and those of a
/// choice.
pub proof fn lemma_spells_plain<T>(e: RegExp<Numbered<T>>, ps: Seq<usize>)
    ensures
        e matches RegExp::Epsilon ==> (e.spells(ps) <==> ps.len() == 0),
        e matches RegExp::Symbol(s) ==> (e.spells(ps) <==> ps == seq![s.1]),
        e matches RegExp::Or(l, r) ==> (e.spells(ps) <==> l.spells(ps) || r.spells(ps)),
{
    reveal(RegExp::spells);
}

/// A list of positions is a word of two expressions, the one after the
/// other, exactly if it can be cut into a word of each.
pub proof fn lemma_spells_concat<T>(l: RegExp<Numbered<T>>, r: RegExp<Numbered<T>>, ps: Seq<usize>)
    ensures
        RegExp::Concat(Box::new(l), Box::new(r)).spells(ps) <==> exists|k: int|
            #[trigger] cuts(k, ps.len()) && cut_concat(l, r, ps, k),
{
    reveal(RegExp::spells);
}

/// A list of positions is a word of a repetition exactly if it is empty or
/// can be cut into a word of the expression that is not empty and a word of
/// the repetition.
pub proof fn lemma_spells_repeat<T>(c: RegExp<Numbered<T>>, ps: Seq<usize>)
    ensures
        RegExp::Repeat(Box::new(c)).spells(ps) <==> ps.len() == 0 || exists|k: int|
            #[trigger] cuts(k, ps.len()) && cut_repeat(c, ps, k),
{
    reveal(RegExp::spells);
}

/// A word of a linearized expression is chained.
pub proof fn lemma_spells_chains<T>(e: RegExp<Numbered<T>>, ps: Seq<usize>)
    requires
        e.spells(ps),
    ensures
        e.chains(ps),
    decreases e, ps.len(),
{
    lemma_spells_plain(e, ps);
    match e {
        RegExp::Epsilon => {},
        RegExp::Symbol(s) => {
            assert(ps[0] == s.1);
        },
        RegExp::Or(l, r) => {
            assert(e.nullable() == (l.nullable() || r.nullable()));
            assert(e.firsts() == l.firsts().union(r.firsts()));
            assert(e.lasts() == l.lasts().union(r.lasts()));
            assert(e.follows() == l.follows().union(r.follows()));
            if l.spells(ps) {
                lemma_spells_chains(*l, ps);
                lemma_linked_more(l.follows(), e.follows(), ps);
            } else {
                lemma_spells_chains(*r, ps);
                lemma_linked_more(r.follows(), e.follows(), ps);
            }
        },
        RegExp::Concat(l, r) => {
            lemma_spells_concat(*l, *r, ps);
            let k = choose|k: int| #[trigger] cuts(k, ps.len()) && cut_concat(*l, *r, ps, k);
            let u = ps.take(k);
            let v = ps.skip(k);
            lemma_spells_chains(*l, u);
            lemma_spells_chains(*r, v);
            assert(ps =~= u + v);
            lemma_chains_concat(*l, *r, u, v);
        },
        RegExp::Repeat(c) => {
            if ps.len() > 0 {
                lemma_spells_repeat(*c, ps);
                let k = choose|k: int| #[trigger] cuts(k, ps.len()) && cut_repeat(*c, ps, k);
                let u = ps.take(k);
                let v = ps.skip(k);
                lemma_spells_chains(*c, u);
                lemma_spells_chains(e, v);
                assert(ps =~= u + v);
                lemma_chains_repeat(*c, u, v);
            }
        },
    }
}

/// Whether both positions of every pair lie in `lo..hi`.
pub open spec fn square(pairs: Set<(usize, usize)>, lo: nat, hi: nat) -> bool {
    forall|p: (usize, usize)| #[trigger] pairs.contains(p) ==> lo <= p.0 < hi && lo <= p.1 < hi
}

/// Whether every pair leads from `lo..mid` to `mid..hi`.
pub open spec fn crossing(pairs: Set<(usize, usize)>, lo: nat, mid: nat, hi: nat) -> bool {
    forall|p: (usize, usize)| #[trigger] pairs.contains(p) ==> lo <= p.0 < mid && mid <= p.1 < hi
}

/// Whether every position of the set lies in `lo..hi`.
pub open spec fn ranged(set: Set<usize>, lo: nat, hi: nat) -> bool {
    forall|x: usize| #[trigger] set.contains(x) ==> lo <= x < hi
}

/// Whether every position of the list lies in `lo..hi`.
pub open spec fn all_in(ps: Seq<usize>, lo: nat, hi: nat) -> bool {
    forall|i: int| 0 <= i < ps.len() ==> lo <= #[trigger] ps[i] < hi
}

/// Whether every pair of `all` is one of `a`, of `b` or of `c`.
pub open spec fn made_of(
    all: Set<(usize, usize)>,
    a: Set<(usize, usize)>,
    b: Set<(usize, usize)>,
    c: Set<(usize, usize)>,
) -> bool {
    forall|p: (usize, usize)| #[trigger] all.contains(p) ==> a.contains(p) || b.contains(p) || c.contains(p)
}

/// A linked list of positions of two expressions, of which the first comes
/// before the second, goes through the first and then through the second:
/// it can be cut so that the first part is linked by the pairs of the first,
/// the second by those of the second, and a pair leads across the cut.
proof fn lemma_split(
    all: Set<(usize, usize)>,
    a: Set<(usize, usize)>,
    b: Set<(usize, usize)>,
    c: Set<(usize, usize)>,
    ps: Seq<usize>,
    lo: nat,
    mid: nat,
    hi: nat,
) -> (k: int)
    requires
        made_of(all, a, b, c),
        square(a, lo, mid),
        square(b, mid, hi),
        crossing(c, lo, mid, hi),
        linked_by(all, ps),
        ps.len() > 0 ==> lo <= ps[0] < hi,
    ensures
        0 <= k <= ps.len(),
        all_in(ps.take(k), lo, mid),
        all_in(ps.skip(k), mid, hi),
        linked_by(a, ps.take(k)),
        linked_by(b, ps.skip(k)),
        0 < k < ps.len() ==> c.contains((ps[k - 1], ps[k])),
    decreases ps.len(),
{
    let n = ps.len() as int;
    if n == 0 {
        0
    } else if n == 1 {
        if ps[0] < mid {
            1
        } else {
            0
        }
    } else {
        let front = ps.drop_last();
        assert forall|i: int| 0 <= i < front.len() - 1 implies all.contains(
            #[trigger] pair_at(front, i),
        ) by {
            assert(pair_at(front, i) == pair_at(ps, i));
        }
        let j = lemma_split(all, a, b, c, front, lo, mid, hi);
        let p = pair_at(ps, n - 2);
        assert(all.contains(p));
        assert(a.contains(p) || b.contains(p) || c.contains(p));
        if j == n - 1 {
            assert(front.take(j)[n - 2] == ps[n - 2]);
            if a.contains(p) {
                assert forall|i: int| 0 <= i < ps.take(n).len() implies lo <= #[trigger] ps.take(
                    n,
                )[i] < mid by {
                    if i < n - 1 {
                        assert(front.take(j)[i] == ps[i]);
                    }
                }
                assert forall|i: int| 0 <= i < ps.take(n).len() - 1 implies a.contains(
                    #[trigger] pair_at(ps.take(n), i),
                ) by {
                    if i < n - 2 {
                        assert(pair_at(ps.take(n), i) == pair_at(front.take(j), i));
                    } else {
                        assert(pair_at(ps.take(n), i) == p);
                    }
                }
                n
            } else {
                assert(c.contains(p));
                assert(ps.take(j) =~= front.take(j));
                assert(ps.skip(j) =~= seq![ps[n - 1]]);
                j
            }
        } else {
            assert(front.skip(j)[n - 2 - j] == ps[n - 2]);
            assert(b.contains(p));
            assert(ps.take(j) =~= front.take(j));
            let tail = ps.skip(j);
            assert forall|i: int| 0 <= i < tail.len() implies mid <= #[trigger] tail[i] < hi by {
                if i < tail.len() - 1 {
                    assert(front.skip(j)[i] == tail[i]);
                }
            }
            assert forall|i: int| 0 <= i < tail.len() - 1 implies b.contains(
                #[trigger] pair_at(tail, i),
            ) by {
                if i < tail.len() - 2 {
                    assert(pair_at(tail, i) == pair_at(front.skip(j), i));
                } else {
                    assert(pair_at(tail, i) == p);
                }
            }
            if 0 < j {
                assert(front[j - 1] == ps[j - 1] && front[j] == ps[j]);
            }
            j
        }
    }
}

/// The first place of a list, from `i` on, whose pair with the next is not
/// one of `a`; the last place, if there is none.
proof fn lemma_first_break(a: Set<(usize, usize)>, ps: Seq<usize>, i: int) -> (k: int)
    requires
        0 <= i < ps.len(),
    ensures
        i <= k < ps.len(),
        forall|j: int| i <= j < k ==> a.contains(#[trigger] pair_at(ps, j)),
        k == ps.len() - 1 || !a.contains(pair_at(ps, k)),
    decreases ps.len() - i,
{
    if i == ps.len() - 1 || !a.contains(pair_at(ps, i)) {
        i
    } else {
        lemma_first_break(a, ps, i + 1)
    }
}

/// Whether all the positions of the sets of `e` lie in `lo..hi`.
pub open spec fn framed<T>(e: RegExp<Numbered<T>>, lo: nat, hi: nat) -> bool {
    ranged(e.firsts(), lo, hi) && ranged(e.lasts(), lo, hi) && square(e.follows(), lo, hi)
}

/// A chain of a choice between two expressions, of which the first comes
/// before the second, is a chain of one of them.
proof fn lemma_or_parts<T>(
    l: RegExp<Numbered<T>>,
    r: RegExp<Numbered<T>>,
    ps: Seq<usize>,
    lo: nat,
    mid: nat,
    hi: nat,
)
    requires
        lo <= mid <= hi,
        framed(l, lo, mid),
        framed(r, mid, hi),
        RegExp::Or(Box::new(l), Box::new(r)).chains(ps),
    ensures
        l.chains(ps) || r.chains(ps),
{
    let e = RegExp::Or(Box::new(l), Box::new(r));
    assert(e.nullable() == (l.nullable() || r.nullable()));
    assert(e.firsts() == l.firsts().union(r.firsts()));
    assert(e.lasts() == l.lasts().union(r.lasts()));
    assert(e.follows() == l.follows().union(r.follows()));
    if ps.len() > 0 {
        let none = Set::<(usize, usize)>::empty();
        let k = lemma_split(e.follows(), l.follows(), r.follows(), none, ps, lo, mid, hi);
        if k == 0 {
            assert(ps.skip(0) =~= ps);
            assert(mid <= ps[0] && mid <= ps[ps.len() - 1]);
            assert(r.chains(ps));
        } else {
            assert(k == ps.len());
            assert(ps.take(k) =~= ps);
            assert(ps[0] < mid && ps[ps.len() - 1] < mid);
            assert(l.chains(ps));
        }
    }
}

/// A chain of two expressions, the one after the other and the first before
/// the second, can be cut into a chain of each.
proof fn lemma_concat_parts<T>(
    l: RegExp<Numbered<T>>,
    r: RegExp<Numbered<T>>,
    ps: Seq<usize>,
    lo: nat,
    mid: nat,
    hi: nat,
) -> (k: int)
    requires
        lo <= mid <= hi,
        framed(l, lo, mid),
        framed(r, mid, hi),
        RegExp::Concat(Box::new(l), Box::new(r)).chains(ps),
    ensures
        0 <= k <= ps.len(),
        l.chains(ps.take(k)),
        r.chains(ps.skip(k)),
{
    let e = RegExp::Concat(Box::new(l), Box::new(r));
    let over = bridge(l.lasts(), r.firsts());
    assert(e.nullable() == (l.nullable() && r.nullable()));
    assert(e.firsts() == if l.nullable() {
        l.firsts().union(r.firsts())
    } else {
        l.firsts()
    });
    assert(e.lasts() == if r.nullable() {
        r.lasts().union(l.lasts())
    } else {
        r.lasts()
    });
    assert(e.follows() == l.follows().union(r.follows()).union(over));
    let k = lemma_split(e.follows(), l.follows(), r.follows(), over, ps, lo, mid, hi);
    let u = ps.take(k);
    let v = ps.skip(k);
    if ps.len() > 0 {
        if k > 0 {
            assert(u[0] == ps[0] && u[0] < mid);
            assert(u[k - 1] == ps[k - 1] && u[k - 1] < mid);
        }
        if k < ps.len() {
            assert(v[0] == ps[k] && mid <= v[0]);
            assert(v[v.len() - 1] == ps[ps.len() - 1] && mid <= v[v.len() - 1]);
        }
        if 0 < k < ps.len() {
            assert(over.contains((ps[k - 1], ps[k])));
        }
    }
    k
}

/// A chain of a repetition that is not empty can be cut into a chain of the
/// expression that is not empty and a chain of the repetition.
proof fn lemma_repeat_parts<T>(c: RegExp<Numbered<T>>, ps: Seq<usize>) -> (k: int)
    requires
        RegExp::Repeat(Box::new(c)).chains(ps),
        ps.len() > 0,
    ensures
        0 < k <= ps.len(),
        c.chains(ps.take(k)),
        RegExp::Repeat(Box::new(c)).chains(ps.skip(k)),
{
    let e = RegExp::Repeat(Box::new(c));
    let over = bridge(c.lasts(), c.firsts());
    assert(e.firsts() == c.firsts());
    assert(e.lasts() == c.lasts());
    assert(e.follows() == c.follows().union(over));
    let j = lemma_first_break(c.follows(), ps, 0);
    let k = j + 1;
    let u = ps.take(k);
    let v = ps.skip(k);
    assert(u[0] == ps[0] && u[u.len() - 1] == ps[j]);
    assert forall|i: int| 0 <= i < u.len() - 1 implies c.follows().contains(#[trigger] pair_at(u, i)) by {
        assert(pair_at(u, i) == pair_at(ps, i));
    }
    if j < ps.len() - 1 {
        assert(e.follows().contains(pair_at(ps, j)));
        assert(over.contains(pair_at(ps, j)));
        assert(v[0] == ps[j + 1] && v[v.len() - 1] == ps[ps.len() - 1]);
        assert forall|i: int| 0 <= i < v.len() - 1 implies e.follows().contains(
            #[trigger] pair_at(v, i),
        ) by {
            assert(pair_at(v, i) == pair_at(ps, i + k));
        }
    }
    k
}

/// The positions of the sets of a linearized expression are the numbers
/// that were given.
proof fn lemma_framed<T>(reg: RegExp<T>, start: nat)
    requires
        start + reg.count() <= usize::MAX,
    ensures
        framed(reg.linearized(start), start, start + reg.count()),
{
    lemma_positions(reg, start);
    let e = reg.linearized(start);
    assert forall|p: (usize, usize)| #[trigger] e.follows().contains(p) implies start <= p.0 < start
        + reg.count() && start <= p.1 < start + reg.count() by {
        assert(e.follows().contains((p.0, p.1)));
    }
}

/// A chain of a linearized expression is one of its words.
pub proof fn lemma_chains_spells<T>(reg: RegExp<T>, start: nat, ps: Seq<usize>)
    requires
        start + reg.count() <= usize::MAX,
        reg.linearized(start).chains(ps),
    ensures
        reg.linearized(start).spells(ps),
    decreases reg, ps.len(),
{
    let e = reg.linearized(start);
    lemma_spells_plain(e, ps);
    match reg {
        RegExp::Epsilon => {
            if ps.len() > 0 {
                assert(e.firsts().contains(ps[0]));
            }
        },
        RegExp::Symbol(s) => {
            assert(e == RegExp::Symbol(Numbered(s, start as usize)));
            assert(e.firsts() =~= set![start as usize]);
            assert(e.follows() =~= Set::<(usize, usize)>::empty());
            if ps.len() > 1 {
                assert(e.follows().contains(pair_at(ps, 0)));
            }
            assert(ps =~= seq![start as usize]);
        },
        RegExp::Or(l, r) => {
            let mid = start + l.count();
            let left = l.linearized(start);
            let right = r.linearized(mid);
            assert(e == RegExp::Or(Box::new(left), Box::new(right)));
            lemma_framed(*l, start);
            lemma_framed(*r, mid);
            lemma_or_parts(left, right, ps, start, mid, mid + r.count());
            if left.chains(ps) {
                lemma_chains_spells(*l, start, ps);
            } else {
                lemma_chains_spells(*r, mid, ps);
            }
        },
        RegExp::Concat(l, r) => {
            let mid = start + l.count();
            let left = l.linearized(start);
            let right = r.linearized(mid);
            assert(e == RegExp::Concat(Box::new(left), Box::new(right)));
            lemma_framed(*l, start);
            lemma_framed(*r, mid);
            let k = lemma_concat_parts(left, right, ps, start, mid, mid + r.count());
            lemma_chains_spells(*l, start, ps.take(k));
            lemma_chains_spells(*r, mid, ps.skip(k));
            assert(cuts(k, ps.len()) && cut_concat(left, right, ps, k));
            lemma_spells_concat(left, right, ps);
        },
        RegExp::Repeat(c) => {
            let inner = c.linearized(start);
            assert(e == RegExp::Repeat(Box::new(inner)));
            lemma_spells_repeat(inner, ps);
            if ps.len() > 0 {
                let k = lemma_repeat_parts(inner, ps);
                lemma_chains_spells(*c, start, ps.take(k));
                lemma_chains_spells(reg, start, ps.skip(k));
                assert(cuts(k, ps.len()) && cut_repeat(inner, ps, k));
            }
        },
    }
}

/// Where a word of two expressions, the one after the other, is cut.
pub open spec fn word_cut_concat<T>(l: RegExp<T>, r: RegExp<T>, word: Seq<T>, k: int) -> bool {
    cuts(k, word.len()) && l.matches(word.take(k)) && r.matches(word.skip(k))
}

/// Where a word of a repetition is cut behind its first part.
pub open spec fn word_cut_repeat<T>(c: RegExp<T>, word: Seq<T>, k: int) -> bool {
    cuts(k, word.len()) && 0 < k && c.matches(word.take(k)) && RegExp::Repeat(Box::new(c)).matches(
        word.skip(k),
    )
}

/// What the words of an expression without operator are, and those of a
/// choice.
pub proof fn lemma_matches_plain<T>(e: RegExp<T>, word: Seq<T>)
    ensures
        e matches RegExp::Epsilon ==> (e.matches(word) <==> word.len() == 0),
        e matches RegExp::Symbol(s) ==> (e.matches(word) <==> word == seq![s]),
        e matches RegExp::Or(l, r) ==> (e.matches(word) <==> l.matches(word) || r.matches(word)),
{
    reveal(RegExp::matches);
}

/// A word is one of two expressions, the one after the other, exactly if it
/// can be cut into a word of each.
pub proof fn lemma_matches_concat<T>(l: RegExp<T>, r: RegExp<T>, word: Seq<T>)
    ensures
        RegExp::Concat(Box::new(l), Box::new(r)).matches(word) <==> exists|k: int|
            #[trigger] cuts(k, word.len()) && word_cut_concat(l, r, word, k),
{
    reveal(RegExp::matches);
}

/// A word is one of a repetition exactly if it is empty or can be cut into
/// a word of the expression that is not empty and a word of the repetition.
pub proof fn lemma_matches_repeat<T>(c: RegExp<T>, word: Seq<T>)
    ensures
        RegExp::Repeat(Box::new(c)).matches(word) <==> word.len() == 0 || exists|k: int|
            #[trigger] cuts(k, word.len()) && word_cut_repeat(c, word, k),
{
    reveal(RegExp::matches);
}

/// Whether `word` is what the positions `ps` spell: its symbols are those
/// that stand at these positions, the first position being `start`.
pub open spec fn reads<T>(letters: Seq<T>, start: nat, ps: Seq<usize>, word: Seq<T>) -> bool {
    &&& ps.len() == word.len()
    &&& forall|i: int|
        0 <= i < ps.len() ==> start <= #[trigger] ps[i] < start + letters.len() && word[i]
            == letters[ps[i] - start]
}

/// The positions of a word of a linearized expression are the numbers that
/// were given.
pub proof fn lemma_spells_range<T>(reg: RegExp<T>, start: nat, ps: Seq<usize>)
    requires
        start + reg.count() <= usize::MAX,
        reg.linearized(start).spells(ps),
    ensures
        all_in(ps, start, start + reg.count()),
{
    let e = reg.linearized(start);
    lemma_spells_chains(e, ps);
    lemma_framed(reg, start);
    assert forall|i: int| 0 <= i < ps.len() implies start <= #[trigger] ps[i] < start + reg.count() by {
        if i == 0 {
            assert(e.firsts().contains(ps[0]));
        } else {
            assert(e.follows().contains(pair_at(ps, i - 1)));
        }
    }
}

/// What two readings, the one after the other, read.
proof fn lemma_reads_join<T>(
    a: Seq<T>,
    b: Seq<T>,
    start: nat,
    u: Seq<usize>,
    v: Seq<usize>,
    first: Seq<T>,
    second: Seq<T>,
)
    requires
        reads(a, start, u, first),
        reads(b, start + a.len(), v, second),
    ensures
        reads(a + b, start, u + v, first + second),
{
    let ps = u + v;
    let word = first + second;
    let all = a + b;
    assert forall|i: int| 0 <= i < ps.len() implies start <= #[trigger] ps[i] < start + all.len()
        && word[i] == all[ps[i] - start] by {
        if i < u.len() {
            assert(ps[i] == u[i] && word[i] == first[i]);
        } else {
            let j = i - u.len();
            assert(ps[i] == v[j] && word[i] == second[j]);
            assert(all[v[j] - start] == b[v[j] - start - a.len()]);
        }
    }
}

/// What a reading reads among the symbols of the first of two expressions.
proof fn lemma_reads_left<T>(a: Seq<T>, b: Seq<T>, start: nat, ps: Seq<usize>, word: Seq<T>)
    requires
        reads(a + b, start, ps, word),
        all_in(ps, start, start + a.len()),
    ensures
        reads(a, start, ps, word),
{
    assert forall|i: int| 0 <= i < ps.len() implies start <= #[trigger] ps[i] < start + a.len()
        && word[i] == a[ps[i] - start] by {
        assert((a + b)[ps[i] - start] == a[ps[i] - start]);
    }
}

/// What a reading reads among the symbols of the second of two expressions.
proof fn lemma_reads_right<T>(a: Seq<T>, b: Seq<T>, start: nat, ps: Seq<usize>, word: Seq<T>)
    requires
        reads(a + b, start, ps, word),
        all_in(ps, start + a.len(), start + a.len() + b.len()),
    ensures
        reads(b, start + a.len(), ps, word),
{
    assert forall|i: int| 0 <= i < ps.len() implies start + a.len() <= #[trigger] ps[i] < start
        + a.len() + b.len() && word[i] == b[ps[i] - (start + a.len())] by {
        assert((a + b)[ps[i] - start] == b[ps[i] - start - a.len()]);
    }
}

/// The positions that spell a word of an expression.
pub proof fn lemma_lift<T>(reg: RegExp<T>, start: nat, word: Seq<T>) -> (ps: Seq<usize>)
    requires
        start + reg.count() <= usize::MAX,
        reg.matches(word),
    ensures
        reg.linearized(start).spells(ps),
        reads(reg.letters(), start, ps, word),
    decreases reg, word.len(),
{
    let e = reg.linearized(start);
    let none = Seq::<T>::empty();
    lemma_matches_plain(reg, word);
    reg.lemma_letters();
    match reg {
        RegExp::Epsilon => {
            let ps = Seq::<usize>::empty();
            lemma_spells_plain(e, ps);
            ps
        },
        RegExp::Symbol(s) => {
            let ps = seq![start as usize];
            assert(e == RegExp::Symbol(Numbered(s, start as usize)));
            lemma_spells_plain(e, ps);
            assert(word[0] == s);
            ps
        },
        RegExp::Or(l, r) => {
            let mid = start + l.count();
            let left = l.linearized(start);
            let right = r.linearized(mid);
            assert(e == RegExp::Or(Box::new(left), Box::new(right)));
            l.lemma_letters();
            r.lemma_letters();
            if l.matches(word) {
                let ps = lemma_lift(*l, start, word);
                lemma_spells_plain(e, ps);
                lemma_reads_join(l.letters(), r.letters(), start, ps, Seq::empty(), word, none);
                assert(ps + Seq::<usize>::empty() =~= ps);
                assert(word + none =~= word);
                ps
            } else {
                let ps = lemma_lift(*r, mid, word);
                lemma_spells_plain(e, ps);
                lemma_reads_join(l.letters(), r.letters(), start, Seq::empty(), ps, none, word);
                assert(Seq::<usize>::empty() + ps =~= ps);
                assert(none + word =~= word);
                ps
            }
        },
        RegExp::Concat(l, r) => {
            let mid = start + l.count();
            let left = l.linearized(start);
            let right = r.linearized(mid);
            assert(e == RegExp::Concat(Box::new(left), Box::new(right)));
            l.lemma_letters();
            r.lemma_letters();
            lemma_matches_concat(*l, *r, word);
            let k = choose|k: int| #[trigger] cuts(k, word.len()) && word_cut_concat(*l, *r, word, k);
            let u = lemma_lift(*l, start, word.take(k));
            let v = lemma_lift(*r, mid, word.skip(k));
            let ps = u + v;
            lemma_reads_join(l.letters(), r.letters(), start, u, v, word.take(k), word.skip(k));
            assert(word.take(k) + word.skip(k) =~= word);
            assert(ps.take(k) =~= u);
            assert(ps.skip(k) =~= v);
            assert(cuts(k, ps.len()) && cut_concat(left, right, ps, k));
            lemma_spells_concat(left, right, ps);
            ps
        },
        RegExp::Repeat(c) => {
            let inner = c.linearized(start);
            assert(e == RegExp::Repeat(Box::new(inner)));
            c.lemma_letters();
            if word.len() == 0 {
                let ps = Seq::<usize>::empty();
                lemma_spells_repeat(inner, ps);
                ps
            } else {
                lemma_matches_repeat(*c, word);
                let k = choose|k: int| #[trigger] cuts(k, word.len()) && word_cut_repeat(*c, word, k);
                let u = lemma_lift(*c, start, word.take(k));
                let v = lemma_lift(reg, start, word.skip(k));
                let ps = u + v;
                assert(word.take(k) + word.skip(k) =~= word);
                assert(ps.take(k) =~= u);
                assert(ps.skip(k) =~= v);
                assert forall|i: int| 0 <= i < ps.len() implies start <= #[trigger] ps[i] < start
                    + reg.letters().len() && word[i] == reg.letters()[ps[i] - start] by {
                    if i < k {
                        assert(ps[i] == u[i] && word[i] == word.take(k)[i]);
                    } else {
                        assert(ps[i] == v[i - k] && word[i] == word.skip(k)[i - k]);
                    }
                }
                assert(cuts(k, ps.len()) && cut_repeat(inner, ps, k));
                lemma_spells_repeat(inner, ps);
                ps
            }
        },
    }
}

/// What positions that are a word of the linearized expression spell is a
/// word of the expression.
pub proof fn lemma_lower<T>(reg: RegExp<T>, start: nat, ps: Seq<usize>, word: Seq<T>)
    requires
        start + reg.count() <= usize::MAX,
        reg.linearized(start).spells(ps),
        reads(reg.letters(), start, ps, word),
    ensures
        reg.matches(word),
    decreases reg, ps.len(),
{
    let e = reg.linearized(start);
    lemma_matches_plain(reg, word);
    lemma_spells_plain(e, ps);
    reg.lemma_letters();
    match reg {
        RegExp::Epsilon => {},
        RegExp::Symbol(s) => {
            assert(e == RegExp::Symbol(Numbered(s, start as usize)));
            assert(ps[0] == start);
            assert(word =~= seq![s]);
        },
        RegExp::Or(l, r) => {
            let mid = start + l.count();
            let left = l.linearized(start);
            let right = r.linearized(mid);
            assert(e == RegExp::Or(Box::new(left), Box::new(right)));
            l.lemma_letters();
            r.lemma_letters();
            if left.spells(ps) {
                lemma_spells_range(*l, start, ps);
                lemma_reads_left(l.letters(), r.letters(), start, ps, word);
                lemma_lower(*l, start, ps, word);
            } else {
                lemma_spells_range(*r, mid, ps);
                lemma_reads_right(l.letters(), r.letters(), start, ps, word);
                lemma_lower(*r, mid, ps, word);
            }
        },
        RegExp::Concat(l, r) => {
            let mid = start + l.count();
            let left = l.linearized(start);
            let right = r.linearized(mid);
            assert(e == RegExp::Concat(Box::new(left), Box::new(right)));
            l.lemma_letters();
            r.lemma_letters();
            lemma_spells_concat(left, right, ps);
            let k = choose|k: int| #[trigger] cuts(k, ps.len()) && cut_concat(left, right, ps, k);
            let u = ps.take(k);
            let v = ps.skip(k);
            lemma_spells_range(*l, start, u);
            lemma_spells_range(*r, mid, v);
            lemma_reads_part(reg.letters(), start, ps, word, 0, k);
            lemma_reads_part(reg.letters(), start, ps, word, k, ps.len() as int);
            assert(ps.subrange(0, k) =~= u && word.subrange(0, k) =~= word.take(k));
            assert(ps.subrange(k, ps.len() as int) =~= v && word.subrange(k, ps.len() as int)
                =~= word.skip(k));
            lemma_reads_left(l.letters(), r.letters(), start, u, word.take(k));
            lemma_reads_right(l.letters(), r.letters(), start, v, word.skip(k));
            lemma_lower(*l, start, u, word.take(k));
            lemma_lower(*r, mid, v, word.skip(k));
            assert(cuts(k, word.len()) && word_cut_concat(*l, *r, word, k));
            lemma_matches_concat(*l, *r, word);
        },
        RegExp::Repeat(c) => {
            let inner = c.linearized(start);
            assert(e == RegExp::Repeat(Box::new(inner)));
            c.lemma_letters();
            lemma_matches_repeat(*c, word);
            lemma_spells_repeat(inner, ps);
            if ps.len() > 0 {
                let k = choose|k: int| #[trigger] cuts(k, ps.len()) && cut_repeat(inner, ps, k);
                let u = ps.take(k);
                let v = ps.skip(k);
                lemma_reads_part(reg.letters(), start, ps, word, 0, k);
                lemma_reads_part(reg.letters(), start, ps, word, k, ps.len() as int);
                assert(ps.subrange(0, k) =~= u && word.subrange(0, k) =~= word.take(k));
                assert(ps.subrange(k, ps.len() as int) =~= v && word.subrange(k, ps.len() as int)
                    =~= word.skip(k));
                lemma_lower(*c, start, u, word.take(k));
                lemma_lower(reg, start, v, word.skip(k));
                assert(cuts(k, word.len()) && word_cut_repeat(*c, word, k));
            }
        },
    }
}

/// A part of a reading reads the same part of the word.
proof fn lemma_reads_part<T>(letters: Seq<T>, start: nat, ps: Seq<usize>, word: Seq<T>, from: int, to: int)
    requires
        reads(letters, start, ps, word),
        0 <= from <= to <= ps.len(),
    ensures
        reads(letters, start, ps.subrange(from, to), word.subrange(from, to)),
{
    let part = ps.subrange(from, to);
    let read = word.subrange(from, to);
    assert forall|i: int| 0 <= i < part.len() implies start <= #[trigger] part[i] < start
        + letters.len() && read[i] == letters[part[i] - start] by {
        assert(part[i] == ps[i + from] && read[i] == word[i + from]);
    }
}

/// The Glushkov automaton recognizes every word of its expression: the
/// positions that spell the word, behind the state 0, are a run.
proof fn lemma_words_run(made: Model, reg: RegExp<char>, word: Seq<char>)
    requires
        reg.count() < usize::MAX,
        is_glushkov(made, reg),
        reg.matches(word),
    ensures
        recognizes(made.inner, made.follows, word),
{
    let n = reg.count();
    let e = reg.linearized(1);
    let states = made.inner.states;
    let ps = lemma_lift(reg, 1, word);
    lemma_spells_chains(e, ps);
    reg.lemma_letters();
    let q = seq![0usize] + ps;
    assert(q[0] == 0);
    assert forall|i: int| 0 <= i < q.len() implies states.contains(#[trigger] q[i]) by {
        if i > 0 {
            assert(q[i] == ps[i - 1]);
        }
        assert(states[q[i] as int] == q[i]);
    }
    assert forall|i: int| 0 <= i < word.len() implies arrow(
        states,
        made.follows,
        #[trigger] q[i],
        word[i],
        q[i + 1],
    ) by {
        let t = (q[i], word[i], q[i + 1]);
        assert(q[i + 1] == ps[i]);
        if i == 0 {
            assert(e.firsts().contains(ps[0]));
        } else {
            assert(q[i] == ps[i - 1]);
            assert(e.follows().contains(pair_at(ps, i - 1)));
        }
        assert(glushkov_arrow(reg, t));
        assert(made.follows.contains(t));
        assert(states.contains(q[i]) && states.contains(q[i + 1]));
    }
    assert(made.inner.inputs[0] == 0);
    if word.len() == 0 {
        assert(q.last() == 0);
    } else {
        assert(q.last() == ps.last());
    }
    assert(glushkov_final(reg, q.last()));
    assert(is_run(states, made.follows, q, word) && made.inner.inputs.contains(q[0])
        && made.inner.outputs.contains(q.last()));
}

/// Every word that the Glushkov automaton recognizes is a word of its
/// expression: a run, without the state 0 at its beginning, is a chain.
proof fn lemma_run_words(made: Model, reg: RegExp<char>, word: Seq<char>)
    requires
        reg.count() < usize::MAX,
        is_glushkov(made, reg),
        recognizes(made.inner, made.follows, word),
    ensures
        reg.matches(word),
{
    let n = reg.count();
    let e = reg.linearized(1);
    let states = made.inner.states;
    let q = choose|q: Seq<usize>| #[trigger]
        is_run(states, made.follows, q, word) && made.inner.inputs.contains(q[0])
            && made.inner.outputs.contains(q.last());
    let ps = q.skip(1);
    lemma_framed(reg, 1);
    reg.lemma_letters();
    assert(q[0] == 0) by {
        let i = choose|i: int| 0 <= i < made.inner.inputs.len() && made.inner.inputs[i] == q[0];
    }
    assert forall|i: int| 0 <= i < word.len() implies glushkov_arrow(
        reg,
        (#[trigger] q[i], word[i], q[i + 1]),
    ) by {
        assert(arrow(states, made.follows, q[i], word[i], q[i + 1]));
        assert(made.follows.contains((q[i], word[i], q[i + 1])));
    }
    assert forall|i: int| 0 <= i < ps.len() implies 1 <= #[trigger] ps[i] < 1 + reg.letters().len()
        && word[i] == reg.letters()[ps[i] - 1] by {
        assert(ps[i] == q[i + 1]);
        assert(glushkov_arrow(reg, (q[i], word[i], q[i + 1])));
    }
    assert(glushkov_final(reg, q.last()));
    if word.len() == 0 {
        assert(q.last() == 0);
        if e.lasts().contains(0) {
        }
        assert(e.nullable());
    } else {
        assert(glushkov_arrow(reg, (q[0], word[0], q[1])));
        assert(ps[0] == q[1]);
        if e.follows().contains((0usize, q[1])) {
        }
        assert(e.firsts().contains(ps[0]));
        assert(ps.last() == q.last());
        assert(ps[ps.len() - 1] == q[ps.len() as int]);
        assert(1 <= ps[ps.len() - 1]);
        assert(e.lasts().contains(ps.last()));
        assert forall|i: int| 0 <= i < ps.len() - 1 implies e.follows().contains(
            #[trigger] pair_at(ps, i),
        ) by {
            assert(glushkov_arrow(reg, (q[i + 1], word[i + 1], q[i + 1 + 1])));
            assert(ps[i] == q[i + 1] && ps[i + 1] == q[i + 2]);
            assert(1 <= ps[i]);
        }
    }
    assert(e.chains(ps));
    lemma_chains_spells(reg, 1, ps);
    lemma_lower(reg, 1, ps, word);
}

/// The Glushkov automaton of an expression recognizes exactly the words of
/// the expression.
pub proof fn lemma_glushkov_words(made: Model, reg: RegExp<char>, word: Seq<char>)
    requires
        reg.count() < usize::MAX,
        is_glushkov(made, reg),
    ensures
        accepts(made.inner, made.follows, word) == reg.matches(word),
{
    lemma_accepts(made.inner, made.follows, word);
    if reg.matches(word) {
        lemma_words_run(made, reg, word);
    }
    if recognizes(made.inner, made.follows, word) {
        lemma_run_words(made, reg, word);
    }
}

/// A Glushkov automaton is standard and homogeneous: no transition leads to
/// its initial state, and every transition carries the symbol of the
/// position that it enters.
pub proof fn lemma_glushkov_shape(made: Model, reg: RegExp<char>)
    requires
        is_glushkov(made, reg),
    ensures
        standard(made.inner, made.follows),
        homogeneous(made.inner, made.follows),
{
    assert(made.inner.inputs[0] == 0);
    assert forall|p: usize, c: char| !#[trigger] arrow(
        made.inner.states,
        made.follows,
        p,
        c,
        made.inner.inputs[0],
    ) by {
        if made.follows.contains((p, c, 0usize)) {
            assert(glushkov_arrow(reg, (p, c, 0usize)));
        }
    }
    assert forall|p: usize, c: char, r: usize, e: char, q: usize|
        #[trigger] arrow(made.inner.states, made.follows, p, c, q) && #[trigger] arrow(
            made.inner.states,
            made.follows,
            r,
            e,
            q,
        ) implies c == e by {
        assert(glushkov_arrow(reg, (p, c, q)));
        assert(glushkov_arrow(reg, (r, e, q)));
    }
}

} // verus!
