//! Regular expressions as trees, their linearization, and the sets from which
//! the Glushkov automaton is built.
//!
//! Linearization numbers the occurrences of symbols from left to right. On a
//! linearized expression, `firsts` are the positions with which a word can
//! begin, `lasts` those with which it can end, and `follows` the pairs of
//! positions that can stand one after the other in a word.

use vstd::prelude::*;
use crate::labels::holds;

verus! {

/// A regular expression over symbols of type `T`.
#[derive(Debug, PartialEq, Eq)]
pub enum RegExp<T> {
    /// The empty word.
    Epsilon,
    /// One symbol.
    Symbol(T),
    /// Any number of repetitions, none included.
    Repeat(Box<RegExp<T>>),
    /// The first expression followed by the second.
    Concat(Box<RegExp<T>>, Box<RegExp<T>>),
    /// One of the two expressions.
    Or(Box<RegExp<T>>, Box<RegExp<T>>),
}

/// A symbol with the number of its occurrence.
#[derive(Debug, Clone, Copy, PartialEq, Eq, Hash)]
pub struct Numbered<T>(pub T, pub usize);

/// The sets of positions of a linearized expression: with which positions a
/// word begins and ends, whether the empty word is recognized, and which
/// position can follow which.
#[derive(Debug)]
pub struct FLNF {
    /// The positions with which a word can begin, each once.
    pub firsts: Vec<usize>,
    /// The positions with which a word can end, each once.
    pub lasts: Vec<usize>,
    /// Whether the empty word is recognized.
    pub null: bool,
    /// The pairs of a position and one that can follow it, each once.
    pub follows: Vec<(usize, usize)>,
}

/// A second name for the same sets.
pub type Info = FLNF;

impl<T> RegExp<T> {
    /// The number of occurrences of symbols.
    pub open spec fn count(self) -> nat
        decreases self,
    {
        match self {
            RegExp::Epsilon => 0,
            RegExp::Symbol(_) => 1,
            RegExp::Repeat(c) => c.count(),
            RegExp::Concat(l, r) => l.count() + r.count(),
            RegExp::Or(l, r) => l.count() + r.count(),
        }
    }

    /// The symbols in the order of their occurrences.
    pub open spec fn letters(self) -> Seq<T>
        decreases self,
    {
        match self {
            RegExp::Epsilon => Seq::empty(),
            RegExp::Symbol(s) => seq![s],
            RegExp::Repeat(c) => c.letters(),
            RegExp::Concat(l, r) => l.letters() + r.letters(),
            RegExp::Or(l, r) => l.letters() + r.letters(),
        }
    }

    /// The expression with its occurrences numbered from `start` on.
    pub open spec fn linearized(self, start: nat) -> RegExp<Numbered<T>>
        decreases self,
    {
        match self {
            RegExp::Epsilon => RegExp::Epsilon,
            RegExp::Symbol(s) => RegExp::Symbol(Numbered(s, start as usize)),
            RegExp::Repeat(c) => RegExp::Repeat(Box::new(c.linearized(start))),
            RegExp::Concat(l, r) => RegExp::Concat(
                Box::new(l.linearized(start)),
                Box::new(r.linearized(start + l.count())),
            ),
            RegExp::Or(l, r) => RegExp::Or(
                Box::new(l.linearized(start)),
                Box::new(r.linearized(start + l.count())),
            ),
        }
    }

    /// The lemma of counting: an expression has as many letters as
    /// occurrences.
    pub proof fn lemma_letters(self)
        ensures
            self.letters().len() == self.count(),
        decreases self,
    {
        match self {
            RegExp::Epsilon => {},
            RegExp::Symbol(_) => {},
            RegExp::Repeat(c) => {
                c.lemma_letters();
            },
            RegExp::Concat(l, r) => {
                l.lemma_letters();
                r.lemma_letters();
            },
            RegExp::Or(l, r) => {
                l.lemma_letters();
                r.lemma_letters();
            },
        }
    }
}

impl<T> RegExp<T> {
    /// The number of occurrences of symbols, if it is a machine number.
    pub fn symbol_count(&self) -> (n: Option<usize>)
        ensures
            match n {
                Some(k) => k == self.count(),
                None => self.count() > usize::MAX,
            },
        decreases self,
    {
        match self {
            RegExp::Epsilon => Some(0),
            RegExp::Symbol(_) => Some(1),
            RegExp::Repeat(c) => c.symbol_count(),
            RegExp::Concat(l, r) => match l.symbol_count() {
                None => None,
                Some(a) => match r.symbol_count() {
                    None => None,
                    Some(b) => a.checked_add(b),
                },
            },
            RegExp::Or(l, r) => match l.symbol_count() {
                None => None,
                Some(a) => match r.symbol_count() {
                    None => None,
                    Some(b) => a.checked_add(b),
                },
            },
        }
    }
}

impl<T: Copy> RegExp<T> {
    /// Numbers the occurrences of symbols from `start` on, from left to
    /// right. Returns the numbered expression and the first number that was
    /// not used.
    pub fn linearization(&self, start: usize) -> (numbered: (RegExp<Numbered<T>>, usize))
        requires
            start + self.count() <= usize::MAX,
        ensures
            numbered.0 == self.linearized(start as nat),
            numbered.1 == start + self.count(),
        decreases self,
    {
        match self {
            RegExp::Epsilon => (RegExp::Epsilon, start),
            RegExp::Symbol(s) => (RegExp::Symbol(Numbered(*s, start)), start + 1),
            RegExp::Repeat(c) => {
                let (inner, end) = c.linearization(start);
                (RegExp::Repeat(Box::new(inner)), end)
            },
            RegExp::Concat(l, r) => {
                let (left, middle) = l.linearization(start);
                let (right, end) = r.linearization(middle);
                (RegExp::Concat(Box::new(left), Box::new(right)), end)
            },
            RegExp::Or(l, r) => {
                let (left, middle) = l.linearization(start);
                let (right, end) = r.linearization(middle);
                (RegExp::Or(Box::new(left), Box::new(right)), end)
            },
        }
    }

    /// Numbers the occurrences of symbols from `start` on.
    pub fn linearization_start(&self, start: usize) -> (numbered: (RegExp<Numbered<T>>, usize))
        requires
            start + self.count() <= usize::MAX,
        ensures
            numbered.0 == self.linearized(start as nat),
            numbered.1 == start + self.count(),
    {
        self.linearization(start)
    }

    /// Numbers the occurrences of symbols from `start` on.
    pub fn numbered(&self, start: usize) -> (numbered: (RegExp<Numbered<T>>, usize))
        requires
            start + self.count() <= usize::MAX,
        ensures
            numbered.0 == self.linearized(start as nat),
            numbered.1 == start + self.count(),
    {
        self.linearization(start)
    }

    /// The symbols in the order of their occurrences.
    pub fn symbols(&self) -> (list: Vec<T>)
        ensures
            list@ == self.letters(),
        decreases self,
    {
        match self {
            RegExp::Epsilon => Vec::new(),
            RegExp::Symbol(s) => {
                let mut list: Vec<T> = Vec::new();
                list.push(*s);
                list
            },
            RegExp::Repeat(c) => c.symbols(),
            RegExp::Concat(l, r) => {
                let mut list = l.symbols();
                let mut right = r.symbols();
                list.append(&mut right);
                list
            },
            RegExp::Or(l, r) => {
                let mut list = l.symbols();
                let mut right = r.symbols();
                list.append(&mut right);
                list
            },
        }
    }
}

impl<T> RegExp<Numbered<T>> {
    /// The positions with which a word can begin.
    pub open spec fn firsts(self) -> Set<usize>
        decreases self,
    {
        match self {
            RegExp::Epsilon => Set::empty(),
            RegExp::Symbol(s) => set![s.1],
            RegExp::Repeat(c) => c.firsts(),
            RegExp::Or(l, r) => l.firsts().union(r.firsts()),
            RegExp::Concat(l, r) => if l.nullable() {
                l.firsts().union(r.firsts())
            } else {
                l.firsts()
            },
        }
    }

    /// The positions with which a word can end.
    pub open spec fn lasts(self) -> Set<usize>
        decreases self,
    {
        match self {
            RegExp::Epsilon => Set::empty(),
            RegExp::Symbol(s) => set![s.1],
            RegExp::Repeat(c) => c.lasts(),
            RegExp::Or(l, r) => l.lasts().union(r.lasts()),
            RegExp::Concat(l, r) => if r.nullable() {
                r.lasts().union(l.lasts())
            } else {
                r.lasts()
            },
        }
    }

    /// Whether the empty word is recognized.
    pub open spec fn nullable(self) -> bool
        decreases self,
    {
        match self {
            RegExp::Epsilon => true,
            RegExp::Symbol(_) => false,
            RegExp::Repeat(_) => true,
            RegExp::Or(l, r) => l.nullable() || r.nullable(),
            RegExp::Concat(l, r) => l.nullable() && r.nullable(),
        }
    }

    /// The pairs of a position and a position that can follow it.
    pub open spec fn follows(self) -> Set<(usize, usize)>
        decreases self,
    {
        match self {
            RegExp::Epsilon => Set::empty(),
            RegExp::Symbol(_) => Set::empty(),
            RegExp::Repeat(c) => c.follows().union(bridge(c.lasts(), c.firsts())),
            RegExp::Or(l, r) => l.follows().union(r.follows()),
            RegExp::Concat(l, r) => l.follows().union(r.follows()).union(
                bridge(l.lasts(), r.firsts()),
            ),
        }
    }

    /// The sets of positions from which the Glushkov automaton is built.
    pub fn get_flnf(&self) -> (sets: FLNF)
        ensures
            sets.describes(self.firsts(), self.lasts(), self.nullable(), self.follows()),
        decreases self,
    {
        match self {
            RegExp::Epsilon => FLNF {
                firsts: Vec::new(),
                lasts: Vec::new(),
                null: true,
                follows: Vec::new(),
            },
            RegExp::Symbol(s) => {
                let mut firsts: Vec<usize> = Vec::new();
                firsts.push(s.1);
                let mut lasts: Vec<usize> = Vec::new();
                lasts.push(s.1);
                assert(firsts@[0] == s.1);
                assert(lasts@[0] == s.1);
                FLNF { firsts, lasts, null: false, follows: Vec::new() }
            },
            RegExp::Repeat(c) => {
                let inner = c.get_flnf();
                let mut follows = inner.follows;
                add_bridge(&mut follows, &inner.lasts, &inner.firsts);
                FLNF { firsts: inner.firsts, lasts: inner.lasts, null: true, follows }
            },
            RegExp::Or(l, r) => {
                let left = l.get_flnf();
                let right = r.get_flnf();
                let mut firsts = left.firsts;
                merge(&mut firsts, &right.firsts);
                let mut lasts = left.lasts;
                merge(&mut lasts, &right.lasts);
                let mut follows = left.follows;
                merge_pairs(&mut follows, &right.follows);
                FLNF { firsts, lasts, null: left.null || right.null, follows }
            },
            RegExp::Concat(l, r) => {
                let left = l.get_flnf();
                let right = r.get_flnf();
                let mut follows = left.follows;
                merge_pairs(&mut follows, &right.follows);
                add_bridge(&mut follows, &left.lasts, &right.firsts);
                let mut firsts = left.firsts;
                if left.null {
                    merge(&mut firsts, &right.firsts);
                }
                let mut lasts = right.lasts;
                if right.null {
                    merge(&mut lasts, &left.lasts);
                }
                FLNF { firsts, lasts, null: left.null && right.null, follows }
            },
        }
    }

    /// The sets of positions from which the Glushkov automaton is built.
    pub fn get_info(&self) -> (sets: FLNF)
        ensures
            sets.describes(self.firsts(), self.lasts(), self.nullable(), self.follows()),
    {
        self.get_flnf()
    }
}

/// The pairs of a position of `from` and a position of `to`.
pub open spec fn bridge(from: Set<usize>, to: Set<usize>) -> Set<(usize, usize)> {
    Set::new(|p: (usize, usize)| from.contains(p.0) && to.contains(p.1))
}

/// Whether `list` names each element of `set` once, and nothing else.
pub open spec fn lists_set(list: Seq<usize>, set: Set<usize>) -> bool {
    list.no_duplicates() && forall|x: usize|
        #![trigger list.contains(x)]
        #![trigger set.contains(x)]
        list.contains(x) <==> set.contains(x)
}

/// Whether `list` names each pair of `set` once, and nothing else.
pub open spec fn lists_pairs(list: Seq<(usize, usize)>, set: Set<(usize, usize)>) -> bool {
    list.no_duplicates() && forall|x: (usize, usize)|
        #![trigger list.contains(x)]
        #![trigger set.contains(x)]
        list.contains(x) <==> set.contains(x)
}

impl FLNF {
    /// Whether the lists name the elements of the four sets.
    pub open spec fn describes(
        &self,
        firsts: Set<usize>,
        lasts: Set<usize>,
        null: bool,
        follows: Set<(usize, usize)>,
    ) -> bool {
        &&& lists_set(self.firsts@, firsts)
        &&& lists_set(self.lasts@, lasts)
        &&& self.null == null
        &&& lists_pairs(self.follows@, follows)
    }
}

/// Whether `list` holds the pair `(p, q)`.
pub fn holds_pair(list: &Vec<(usize, usize)>, p: usize, q: usize) -> (found: bool)
    ensures
        found == list@.contains((p, q)),
{
    let mut i: usize = 0;
    while i < list.len()
        invariant
            i <= list.len(),
            forall|k: int| 0 <= k < i ==> list[k] != (p, q),
        decreases list.len() - i,
    {
        if list[i].0 == p && list[i].1 == q {
            assert(list@[i as int] == (p, q));
            return true;
        }
        i = i + 1;
    }
    false
}

/// Adds `value` to `list` unless it is there.
pub fn put(list: &mut Vec<usize>, value: usize)
    requires
        old(list)@.no_duplicates(),
    ensures
        final(list)@.no_duplicates(),
        forall|x: usize| #[trigger] final(list)@.contains(x) <==> old(list)@.contains(x) || x == value,
{
    if !holds(list, value) {
        let ghost before = list@;
        list.push(value);
        proof {
            assert forall|x: usize| list@.contains(x) <==> before.contains(x) || x == value by {
                if list@.contains(x) {
                    let k = choose|k: int| 0 <= k < list@.len() && list@[k] == x;
                    if k < before.len() {
                        assert(before[k] == x);
                    }
                }
                if before.contains(x) {
                    let k = choose|k: int| 0 <= k < before.len() && before[k] == x;
                    assert(list@[k] == x);
                }
                if x == value {
                    assert(list@[before.len() as int] == x);
                }
            }
        }
    }
}

/// Adds the pair `(p, q)` to `list` unless it is there.
pub fn put_pair(list: &mut Vec<(usize, usize)>, p: usize, q: usize)
    requires
        old(list)@.no_duplicates(),
    ensures
        final(list)@.no_duplicates(),
        forall|x: (usize, usize)| #[trigger]
            final(list)@.contains(x) <==> old(list)@.contains(x) || x == (p, q),
{
    if !holds_pair(list, p, q) {
        let ghost before = list@;
        list.push((p, q));
        proof {
            assert forall|x: (usize, usize)|
                list@.contains(x) <==> before.contains(x) || x == (p, q) by {
                if list@.contains(x) {
                    let k = choose|k: int| 0 <= k < list@.len() && list@[k] == x;
                    if k < before.len() {
                        assert(before[k] == x);
                    }
                }
                if before.contains(x) {
                    let k = choose|k: int| 0 <= k < before.len() && before[k] == x;
                    assert(list@[k] == x);
                }
                if x == (p, q) {
                    assert(list@[before.len() as int] == x);
                }
            }
        }
    }
}

/// What the first `i + 1` elements hold: the first `i`, and the next one.
pub proof fn lemma_take_holds<A>(list: Seq<A>, i: int)
    requires
        0 <= i < list.len(),
    ensures
        forall|x: A| #[trigger]
            list.take(i + 1).contains(x) <==> list.take(i).contains(x) || x == list[i],
        forall|x: A| !(#[trigger] list.take(0).contains(x)),
{
    let more = list.take(i + 1);
    let less = list.take(i);
    assert forall|x: A| #[trigger] more.contains(x) <==> less.contains(x) || x == list[i] by {
        if more.contains(x) {
            let k = choose|k: int| 0 <= k < more.len() && more[k] == x;
            if k < i {
                assert(less[k] == x);
            }
        }
        if less.contains(x) {
            let k = choose|k: int| 0 <= k < less.len() && less[k] == x;
            assert(more[k] == x);
        }
        if x == list[i] {
            assert(more[i] == x);
        }
    }
}

/// Adds to `list` the elements of `more` that it has not.
pub fn merge(list: &mut Vec<usize>, more: &Vec<usize>)
    requires
        old(list)@.no_duplicates(),
    ensures
        final(list)@.no_duplicates(),
        forall|x: usize| #[trigger]
            final(list)@.contains(x) <==> old(list)@.contains(x) || more@.contains(x),
{
    let ghost before = list@;
    let mut i: usize = 0;
    while i < more.len()
        invariant
            i <= more.len(),
            list@.no_duplicates(),
            forall|x: usize| #[trigger]
                list@.contains(x) <==> before.contains(x) || more@.take(i as int).contains(x),
        decreases more.len() - i,
    {
        proof {
            lemma_take_holds(more@, i as int);
        }
        put(list, more[i]);
        i = i + 1;
    }
    assert(more@.take(i as int) =~= more@);
}

/// Adds to `list` the pairs of `more` that it has not.
pub fn merge_pairs(list: &mut Vec<(usize, usize)>, more: &Vec<(usize, usize)>)
    requires
        old(list)@.no_duplicates(),
    ensures
        final(list)@.no_duplicates(),
        forall|x: (usize, usize)| #[trigger]
            final(list)@.contains(x) <==> old(list)@.contains(x) || more@.contains(x),
{
    let ghost before = list@;
    let mut i: usize = 0;
    while i < more.len()
        invariant
            i <= more.len(),
            list@.no_duplicates(),
            forall|x: (usize, usize)| #[trigger]
                list@.contains(x) <==> before.contains(x) || more@.take(i as int).contains(x),
        decreases more.len() - i,
    {
        proof {
            lemma_take_holds(more@, i as int);
        }
        put_pair(list, more[i].0, more[i].1);
        i = i + 1;
    }
    assert(more@.take(i as int) =~= more@);
}

/// Adds to `list` every pair of a position of `from` and a position of `to`
/// that it has not.
pub fn add_bridge(list: &mut Vec<(usize, usize)>, from: &Vec<usize>, to: &Vec<usize>)
    requires
        old(list)@.no_duplicates(),
    ensures
        final(list)@.no_duplicates(),
        forall|x: (usize, usize)| #[trigger]
            final(list)@.contains(x) <==> old(list)@.contains(x) || (from@.contains(x.0)
                && to@.contains(x.1)),
{
    let ghost before = list@;
    let mut i: usize = 0;
    while i < from.len()
        invariant
            i <= from.len(),
            list@.no_duplicates(),
            forall|x: (usize, usize)| #[trigger]
                list@.contains(x) <==> before.contains(x) || (from@.take(i as int).contains(x.0)
                    && to@.contains(x.1)),
        decreases from.len() - i,
    {
        let ghost middle = list@;
        let mut j: usize = 0;
        while j < to.len()
            invariant
                j <= to.len(),
                i < from.len(),
                list@.no_duplicates(),
                forall|x: (usize, usize)| #[trigger]
                    list@.contains(x) <==> middle.contains(x) || (x.0 == from@[i as int]
                        && to@.take(j as int).contains(x.1)),
            decreases to.len() - j,
        {
            proof {
                lemma_take_holds(to@, j as int);
            }
            put_pair(list, from[i], to[j]);
            j = j + 1;
        }
        proof {
            assert(to@.take(j as int) =~= to@);
            lemma_take_holds(from@, i as int);
        }
        i = i + 1;
    }
    assert(from@.take(i as int) =~= from@);
}

} // verus!
