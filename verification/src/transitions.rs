//! Questions about the transitions of an automaton: where a state leads on a
//! symbol, from where it is reached, and which symbols join two states.

use vstd::prelude::*;
use crate::automata::Automata;
use crate::error::AutomataError;
use crate::relation::{flip, flipped};

verus! {

/// The states to which a transition on `symbol` leads from `state`, in the
/// order of the transitions.
pub open spec fn targets(follows: Seq<(usize, char, usize)>, state: usize, symbol: char) -> Seq<
    usize,
>
    decreases follows.len(),
{
    if follows.len() == 0 {
        Seq::empty()
    } else if follows.last().0 == state && follows.last().1 == symbol {
        targets(follows.drop_last(), state, symbol).push(follows.last().2)
    } else {
        targets(follows.drop_last(), state, symbol)
    }
}

/// The symbols of the transitions that leave `state`, each once, in the order
/// of their first transition.
pub open spec fn symbols_from(follows: Seq<(usize, char, usize)>, state: usize) -> Seq<char>
    decreases follows.len(),
{
    if follows.len() == 0 {
        Seq::empty()
    } else if follows.last().0 == state && !symbols_from(follows.drop_last(), state).contains(
        follows.last().1,
    ) {
        symbols_from(follows.drop_last(), state).push(follows.last().1)
    } else {
        symbols_from(follows.drop_last(), state)
    }
}

/// The symbols of the transitions from `from` to `to`, in the order of the
/// transitions.
pub open spec fn symbols_between(follows: Seq<(usize, char, usize)>, from: usize, to: usize) -> Seq<
    char,
>
    decreases follows.len(),
{
    if follows.len() == 0 {
        Seq::empty()
    } else if follows.last().0 == from && follows.last().2 == to {
        symbols_between(follows.drop_last(), from, to).push(follows.last().1)
    } else {
        symbols_between(follows.drop_last(), from, to)
    }
}

/// For each symbol of `symbols`, the states to which `state` leads on it.
pub open spec fn grouped(follows: Seq<(usize, char, usize)>, state: usize, symbols: Seq<char>) -> Seq<
    (char, Seq<usize>),
> {
    symbols.map_values(|c: char| (c, targets(follows, state, c)))
}

/// The lists of a list of symbols with lists of states.
pub open spec fn group_lists(groups: Seq<(char, Vec<usize>)>) -> Seq<(char, Seq<usize>)> {
    groups.map_values(|g: (char, Vec<usize>)| (g.0, g.1@))
}

/// The states to which a transition on `symbol` leads from `state`.
pub fn list_targets(follows: &Vec<(usize, char, usize)>, state: usize, symbol: char) -> (list: Vec<
    usize,
>)
    ensures
        list@ == targets(follows@, state, symbol),
{
    let mut list: Vec<usize> = Vec::new();
    let mut i: usize = 0;
    assert(follows@.take(0) =~= Seq::<(usize, char, usize)>::empty());
    while i < follows.len()
        invariant
            i <= follows.len(),
            list@ == targets(follows@.take(i as int), state, symbol),
        decreases follows.len() - i,
    {
        proof {
            assert(follows@.take(i + 1).drop_last() =~= follows@.take(i as int));
            assert(follows@.take(i + 1).last() == follows@[i as int]);
        }
        if follows[i].0 == state && follows[i].1 == symbol {
            list.push(follows[i].2);
        }
        i = i + 1;
    }
    assert(follows@.take(i as int) =~= follows@);
    list
}

/// Whether `list` holds the symbol `c`.
pub fn holds_symbol(list: &Vec<char>, c: char) -> (found: bool)
    ensures
        found == list@.contains(c),
{
    let mut i: usize = 0;
    while i < list.len()
        invariant
            i <= list.len(),
            forall|k: int| 0 <= k < i ==> list[k] != c,
        decreases list.len() - i,
    {
        if list[i] == c {
            return true;
        }
        i = i + 1;
    }
    false
}

/// The symbols of the transitions that leave `state`, each once.
pub fn list_symbols(follows: &Vec<(usize, char, usize)>, state: usize) -> (list: Vec<char>)
    ensures
        list@ == symbols_from(follows@, state),
{
    let mut list: Vec<char> = Vec::new();
    let mut i: usize = 0;
    assert(follows@.take(0) =~= Seq::<(usize, char, usize)>::empty());
    while i < follows.len()
        invariant
            i <= follows.len(),
            list@ == symbols_from(follows@.take(i as int), state),
        decreases follows.len() - i,
    {
        proof {
            assert(follows@.take(i + 1).drop_last() =~= follows@.take(i as int));
            assert(follows@.take(i + 1).last() == follows@[i as int]);
        }
        if follows[i].0 == state && !holds_symbol(&list, follows[i].1) {
            list.push(follows[i].1);
        }
        i = i + 1;
    }
    assert(follows@.take(i as int) =~= follows@);
    list
}

/// The symbols of the transitions from `from` to `to`.
pub fn list_between(follows: &Vec<(usize, char, usize)>, from: usize, to: usize) -> (list: Vec<char>)
    ensures
        list@ == symbols_between(follows@, from, to),
{
    let mut list: Vec<char> = Vec::new();
    let mut i: usize = 0;
    assert(follows@.take(0) =~= Seq::<(usize, char, usize)>::empty());
    while i < follows.len()
        invariant
            i <= follows.len(),
            list@ == symbols_between(follows@.take(i as int), from, to),
        decreases follows.len() - i,
    {
        proof {
            assert(follows@.take(i + 1).drop_last() =~= follows@.take(i as int));
            assert(follows@.take(i + 1).last() == follows@[i as int]);
        }
        if follows[i].0 == from && follows[i].2 == to {
            list.push(follows[i].1);
        }
        i = i + 1;
    }
    assert(follows@.take(i as int) =~= follows@);
    list
}

/// For each symbol on which `state` has a transition, the states to which it
/// leads.
pub fn list_groups(follows: &Vec<(usize, char, usize)>, state: usize) -> (groups: Vec<
    (char, Vec<usize>),
>)
    ensures
        group_lists(groups@) == grouped(follows@, state, symbols_from(follows@, state)),
{
    let symbols = list_symbols(follows, state);
    let mut groups: Vec<(char, Vec<usize>)> = Vec::new();
    let mut i: usize = 0;
    while i < symbols.len()
        invariant
            i <= symbols.len(),
            groups.len() == i,
            forall|k: int|
                0 <= k < i ==> (#[trigger] groups[k]).0 == symbols[k] && groups[k].1@ == targets(
                    follows@,
                    state,
                    symbols[k],
                ),
        decreases symbols.len() - i,
    {
        let c = symbols[i];
        groups.push((c, list_targets(follows, state, c)));
        i = i + 1;
    }
    assert(group_lists(groups@) =~= grouped(follows@, state, symbols@));
    groups
}

impl Automata {
    /// The number of symbols on which `state` has a transition. Fails with
    /// `UnknownState` if there is no such state.
    pub fn transition_out_count(&self, state: usize) -> (count: Result<usize, AutomataError>)
        requires
            self.wf(),
        ensures
            match count {
                Ok(n) => self@.inner.states.contains(state) && n == symbols_from(
                    self@.follows,
                    state,
                ).len(),
                Err(e) => e == AutomataError::UnknownState && !self@.inner.states.contains(state),
            },
    {
        if !self.inner().is_state(state) {
            return Err(AutomataError::UnknownState);
        }
        Ok(list_symbols(self.transitions(), state).len())
    }

    /// The number of symbols on which a transition leads to `state`. Fails
    /// with `UnknownState` if there is no such state.
    pub fn transition_in_count(&self, state: usize) -> (count: Result<usize, AutomataError>)
        requires
            self.wf(),
        ensures
            match count {
                Ok(n) => self@.inner.states.contains(state) && n == symbols_from(
                    flip(self@.follows),
                    state,
                ).len(),
                Err(e) => e == AutomataError::UnknownState && !self@.inner.states.contains(state),
            },
    {
        if !self.inner().is_state(state) {
            return Err(AutomataError::UnknownState);
        }
        let back = flipped(self.transitions());
        Ok(list_symbols(&back, state).len())
    }

    /// The states to which `state` leads on `symbol`. Fails with
    /// `UnknownState` if there is no such state.
    pub fn get_follow(&self, state: usize, symbol: char) -> (list: Result<Vec<usize>, AutomataError>)
        requires
            self.wf(),
        ensures
            match list {
                Ok(l) => self@.inner.states.contains(state) && l@ == targets(
                    self@.follows,
                    state,
                    symbol,
                ),
                Err(e) => e == AutomataError::UnknownState && !self@.inner.states.contains(state),
            },
    {
        if !self.inner().is_state(state) {
            return Err(AutomataError::UnknownState);
        }
        Ok(list_targets(self.transitions(), state, symbol))
    }

    /// The number of states to which `state` leads on `symbol`. Fails with
    /// `UnknownState` if there is no such state.
    pub fn get_follow_count(&self, state: usize, symbol: char) -> (count: Result<
        usize,
        AutomataError,
    >)
        requires
            self.wf(),
        ensures
            match count {
                Ok(n) => self@.inner.states.contains(state) && n == targets(
                    self@.follows,
                    state,
                    symbol,
                ).len(),
                Err(e) => e == AutomataError::UnknownState && !self@.inner.states.contains(state),
            },
    {
        if !self.inner().is_state(state) {
            return Err(AutomataError::UnknownState);
        }
        Ok(list_targets(self.transitions(), state, symbol).len())
    }

    /// For each symbol on which `state` has a transition, the states to which
    /// it leads. Fails with `UnknownState` if there is no such state.
    pub fn get_follows(&self, state: usize) -> (groups: Result<
        Vec<(char, Vec<usize>)>,
        AutomataError,
    >)
        requires
            self.wf(),
        ensures
            match groups {
                Ok(g) => self@.inner.states.contains(state) && group_lists(g@) == grouped(
                    self@.follows,
                    state,
                    symbols_from(self@.follows, state),
                ),
                Err(e) => e == AutomataError::UnknownState && !self@.inner.states.contains(state),
            },
    {
        if !self.inner().is_state(state) {
            return Err(AutomataError::UnknownState);
        }
        Ok(list_groups(self.transitions(), state))
    }

    /// The states from which a transition on `symbol` leads to `state`. Fails
    /// with `UnknownState` if there is no such state.
    pub fn get_previou(&self, state: usize, symbol: char) -> (list: Result<
        Vec<usize>,
        AutomataError,
    >)
        requires
            self.wf(),
        ensures
            match list {
                Ok(l) => self@.inner.states.contains(state) && l@ == targets(
                    flip(self@.follows),
                    state,
                    symbol,
                ),
                Err(e) => e == AutomataError::UnknownState && !self@.inner.states.contains(state),
            },
    {
        if !self.inner().is_state(state) {
            return Err(AutomataError::UnknownState);
        }
        let back = flipped(self.transitions());
        Ok(list_targets(&back, state, symbol))
    }

    /// The number of states from which a transition on `symbol` leads to
    /// `state`. Fails with `UnknownState` if there is no such state.
    pub fn get_previous_count(&self, state: usize, symbol: char) -> (count: Result<
        usize,
        AutomataError,
    >)
        requires
            self.wf(),
        ensures
            match count {
                Ok(n) => self@.inner.states.contains(state) && n == targets(
                    flip(self@.follows),
                    state,
                    symbol,
                ).len(),
                Err(e) => e == AutomataError::UnknownState && !self@.inner.states.contains(state),
            },
    {
        if !self.inner().is_state(state) {
            return Err(AutomataError::UnknownState);
        }
        let back = flipped(self.transitions());
        Ok(list_targets(&back, state, symbol).len())
    }

    /// For each symbol on which a transition leads to `state`, the states
    /// from which it comes. Fails with `UnknownState` if there is no such
    /// state.
    pub fn get_previous(&self, state: usize) -> (groups: Result<
        Vec<(char, Vec<usize>)>,
        AutomataError,
    >)
        requires
            self.wf(),
        ensures
            match groups {
                Ok(g) => self@.inner.states.contains(state) && group_lists(g@) == grouped(
                    flip(self@.follows),
                    state,
                    symbols_from(flip(self@.follows), state),
                ),
                Err(e) => e == AutomataError::UnknownState && !self@.inner.states.contains(state),
            },
    {
        if !self.inner().is_state(state) {
            return Err(AutomataError::UnknownState);
        }
        let back = flipped(self.transitions());
        Ok(list_groups(&back, state))
    }

    /// The symbols of the transitions from `from` to `to`. Fails with
    /// `UnknownStateTo` if there is no state `to`, else with
    /// `UnknownStateFrom` if there is no state `from`.
    pub fn get_transition(&self, from: usize, to: usize) -> (symbols: Result<
        Vec<char>,
        AutomataError,
    >)
        requires
            self.wf(),
        ensures
            match symbols {
                Ok(l) => self@.inner.states.contains(from) && self@.inner.states.contains(to)
                    && l@ == symbols_between(self@.follows, from, to),
                Err(e) => if !self@.inner.states.contains(to) {
                    e == AutomataError::UnknownStateTo
                } else {
                    e == AutomataError::UnknownStateFrom && !self@.inner.states.contains(from)
                },
            },
    {
        if !self.inner().is_state(to) {
            return Err(AutomataError::UnknownStateTo);
        }
        if !self.inner().is_state(from) {
            return Err(AutomataError::UnknownStateFrom);
        }
        Ok(list_between(self.transitions(), from, to))
    }
}

} // verus!
