//! Automata: states with labels, initial and final states, and transitions
//! with symbols; and the parts of an automaton that it keeps consistent.
//!
//! A state is known by its label, which is unique in the automaton. A part
//! ([`SubAutomata`]) is a choice of states with inputs and outputs of its own.
//! It has no transitions of its own: it reads those of the automaton between
//! its states. When the automaton loses a state, every part loses it too.

use vstd::prelude::*;
use crate::accept::accepts;
use crate::error::AutomataError;
use crate::inner::{
    lemma_remove_wf,
    lemma_still_holds,
    Descriptor,
    InnerAutomata,
};
use crate::labels::{lemma_without, without};
use crate::relation::{
    all_inside,
    apart,
    find_transition,
    has_transition,
    inside,
    lemma_apart,
    set_apart,
};

verus! {

/// An automaton with the parts that were taken from it.
#[derive(Debug)]
pub struct Automata {
    inner: InnerAutomata,
    follows: Vec<(usize, char, usize)>,
    childs: Vec<InnerAutomata>,
}

/// A second name for the automaton: the automata of this library are finite.
pub type FinitAutomata = Automata;

/// A part of an automaton: the handle by which the automaton knows it.
#[derive(Debug)]
pub struct SubAutomata {
    id: usize,
}

/// What an [`Automata`] stands for: its states with the initial and the final
/// ones, its transitions, and the descriptions of its parts.
pub struct Model {
    pub inner: Descriptor,
    pub follows: Seq<(usize, char, usize)>,
    pub childs: Seq<Descriptor>,
}

impl Model {
    /// The descriptions are well-formed, no transition occurs twice, every
    /// transition joins two states, and the states of a part are states of the
    /// automaton.
    pub open spec fn wf(self) -> bool {
        &&& self.inner.wf()
        &&& self.follows.no_duplicates()
        &&& all_inside(self.inner.states, self.follows)
        &&& forall|i: int| 0 <= i < self.childs.len() ==> (#[trigger] self.childs[i]).wf()
        &&& forall|i: int, k: int|
            0 <= i < self.childs.len() && 0 <= k < self.childs[i].states.len()
                ==> self.inner.states.contains(#[trigger] self.childs[i].states[k])
    }

    /// The description of the part `id`; the empty description if there is no
    /// such part.
    pub open spec fn part(self, id: int) -> Descriptor {
        if 0 <= id < self.childs.len() {
            self.childs[id]
        } else {
            Descriptor::empty()
        }
    }

    /// The automaton without states.
    pub open spec fn empty() -> Model {
        Model { inner: Descriptor::empty(), follows: Seq::empty(), childs: Seq::empty() }
    }

    /// The automaton after the state `value` was removed: it leaves the
    /// states, the transitions that touch it leave the relation, and every
    /// part loses it.
    pub open spec fn remove(self, value: usize) -> Model {
        Model {
            inner: self.inner.remove(value),
            follows: apart(self.follows, value),
            childs: self.childs.map_values(|c: Descriptor| c.remove(value)),
        }
    }
}

/// The descriptions of a list of parts.
pub open spec fn described(childs: Seq<InnerAutomata>) -> Seq<Descriptor> {
    childs.map_values(|c: InnerAutomata| c@)
}

impl View for Automata {
    type V = Model;

    closed spec fn view(&self) -> Model {
        Model { inner: self.inner@, follows: self.follows@, childs: described(self.childs@) }
    }
}

impl SubAutomata {
    /// The number by which the automaton knows this part.
    pub closed spec fn id(&self) -> int {
        self.id as int
    }

    /// The number by which the automaton knows this part.
    pub fn number(&self) -> (id: usize)
        ensures
            id == self.id(),
    {
        self.id
    }
}

/// Removing a state keeps an automaton well-formed.
pub proof fn lemma_remove_model(m: Model, value: usize)
    requires
        m.wf(),
    ensures
        m.remove(value).wf(),
{
    let r = m.remove(value);
    lemma_remove_wf(m.inner, value);
    lemma_apart(m.follows, value);
    lemma_without(m.inner.states, value);
    assert forall|i: int| 0 <= i < r.follows.len() implies inside(
        r.inner.states,
        #[trigger] r.follows[i],
    ) by {
        let t = r.follows[i];
        assert(r.follows.contains(t));
        assert(m.follows.contains(t));
        let j = choose|j: int| 0 <= j < m.follows.len() && m.follows[j] == t;
        assert(inside(m.inner.states, m.follows[j]));
    }
    assert forall|i: int| 0 <= i < r.childs.len() implies (#[trigger] r.childs[i]).wf() by {
        assert(m.childs[i].wf());
        lemma_remove_wf(m.childs[i], value);
    }
    assert forall|i: int, k: int|
        0 <= i < r.childs.len() && 0 <= k < r.childs[i].states.len()
            implies r.inner.states.contains(#[trigger] r.childs[i].states[k]) by {
        let c = m.childs[i];
        assert(c.wf());
        lemma_without(c.states, value);
        let x = r.childs[i].states[k];
        assert(without(c.states, value).contains(x));
        assert(c.states.contains(x));
        let j = choose|j: int| 0 <= j < c.states.len() && c.states[j] == x;
        assert(m.inner.states.contains(c.states[j]));
    }
}

/// An automaton stays well-formed when its parts stay as they are and its
/// states only grow.
pub proof fn lemma_parts_kept(before: Model, after: Model)
    requires
        before.wf(),
        after.inner.wf(),
        after.follows.no_duplicates(),
        all_inside(after.inner.states, after.follows),
        after.childs == before.childs,
        forall|x: usize| before.inner.states.contains(x) ==> after.inner.states.contains(x),
    ensures
        after.wf(),
{
    assert forall|i: int| 0 <= i < after.childs.len() implies (#[trigger] after.childs[i]).wf() by {
        assert(before.childs[i].wf());
    }
    assert forall|i: int, k: int|
        0 <= i < after.childs.len() && 0 <= k < after.childs[i].states.len()
            implies after.inner.states.contains(#[trigger] after.childs[i].states[k]) by {
        assert(before.inner.states.contains(before.childs[i].states[k]));
    }
}

impl Automata {
    /// The model is well-formed.
    pub open spec fn wf(&self) -> bool {
        self@.wf()
    }

    /// An automaton without states.
    pub fn new() -> (made: Automata)
        ensures
            made@ == Model::empty(),
            made.wf(),
    {
        let made = Automata { inner: InnerAutomata::new(), follows: Vec::new(), childs: Vec::new() };
        assert(described(made.childs@) =~= Seq::<Descriptor>::empty());
        made
    }

    /// The description of the states of the automaton.
    pub fn inner(&self) -> (inner: &InnerAutomata)
        ensures
            inner@ == self@.inner,
    {
        &self.inner
    }

    /// The transitions of the automaton.
    pub fn transitions(&self) -> (follows: &Vec<(usize, char, usize)>)
        ensures
            follows@ == self@.follows,
    {
        &self.follows
    }

    /// The number of parts that the automaton keeps.
    pub fn parts_count(&self) -> (count: usize)
        ensures
            count == self@.childs.len(),
    {
        self.childs.len()
    }

    /// The description of the part `sub`, if the automaton keeps it.
    pub fn child(&self, sub: &SubAutomata) -> (part: Option<&InnerAutomata>)
        ensures
            match part {
                Some(p) => 0 <= sub.id() < self@.childs.len() && p@ == self@.childs[sub.id()],
                None => sub.id() >= self@.childs.len(),
            },
    {
        if sub.id < self.childs.len() {
            Some(&self.childs[sub.id])
        } else {
            None
        }
    }

    /// The number of states.
    pub fn get_nb_states(&self) -> (count: usize)
        ensures
            count == self@.inner.states.len(),
    {
        self.inner.states_count()
    }

    /// The number of states.
    pub fn states_count(&self) -> (count: usize)
        ensures
            count == self@.inner.states.len(),
    {
        self.inner.states_count()
    }

    /// The number of initial states.
    pub fn initals_count(&self) -> (count: usize)
        ensures
            count == self@.inner.inputs.len(),
    {
        self.inner.inputs_count()
    }

    /// The number of final states.
    pub fn finals_count(&self) -> (count: usize)
        ensures
            count == self@.inner.outputs.len(),
    {
        self.inner.outputs_count()
    }

    /// The labels of the states, in the order in which they were added.
    pub fn get_states(&self) -> (list: Vec<usize>)
        ensures
            list@ == self@.inner.states,
    {
        self.inner.states()
    }

    /// The labels of the states, in the order in which they were added.
    pub fn states(&self) -> (list: Vec<usize>)
        ensures
            list@ == self@.inner.states,
    {
        self.inner.states()
    }

    /// The labels of the initial states.
    pub fn get_initials(&self) -> (list: Vec<usize>)
        ensures
            list@ == self@.inner.inputs,
    {
        self.inner.inputs()
    }

    /// The labels of the initial states.
    pub fn initials(&self) -> (list: Vec<usize>)
        ensures
            list@ == self@.inner.inputs,
    {
        self.inner.inputs()
    }

    /// The labels of the final states.
    pub fn get_finals(&self) -> (list: Vec<usize>)
        ensures
            list@ == self@.inner.outputs,
    {
        self.inner.outputs()
    }

    /// The labels of the final states.
    pub fn finals(&self) -> (list: Vec<usize>)
        ensures
            list@ == self@.inner.outputs,
    {
        self.inner.outputs()
    }

    /// Adds a state with the label `state`, unless there is one. Says whether
    /// the state is new.
    pub fn add_state(&mut self, state: usize) -> (added: bool)
        requires
            old(self).wf(),
        ensures
            final(self).wf(),
            added == !old(self)@.inner.states.contains(state),
            final(self)@.inner.states == (if added {
                old(self)@.inner.states.push(state)
            } else {
                old(self)@.inner.states
            }),
            final(self)@.inner.inputs == old(self)@.inner.inputs,
            final(self)@.inner.outputs == old(self)@.inner.outputs,
            final(self)@.follows == old(self)@.follows,
            final(self)@.childs == old(self)@.childs,
    {
        let ghost before = self@;
        let added = self.inner.add_state(state);
        proof {
            assert forall|x: usize| before.inner.states.contains(x) implies self@.inner.states.contains(
                x,
            ) by {
                if added {
                    lemma_still_holds(before.inner.states, state, x);
                }
            }
            assert forall|i: int| 0 <= i < self@.follows.len() implies inside(
                self@.inner.states,
                #[trigger] self@.follows[i],
            ) by {
                assert(inside(before.inner.states, before.follows[i]));
            }
            lemma_parts_kept(before, self@);
        }
        added
    }

    /// Removes the state with the label `state`, with every transition from
    /// it or to it, from the automaton and from each of its parts.
    ///
    /// Fails with `UnknownState` if there is no such state.
    pub fn remove_state(&mut self, state: usize) -> (removed: Result<bool, AutomataError>)
        requires
            old(self).wf(),
        ensures
            final(self).wf(),
            match removed {
                Ok(done) => done && old(self)@.inner.states.contains(state) && final(self)@ == old(
                    self,
                )@.remove(state),
                Err(e) => e == AutomataError::UnknownState && !old(self)@.inner.states.contains(
                    state,
                ) && final(self)@ == old(self)@,
            },
    {
        if !self.inner.is_state(state) {
            return Err(AutomataError::UnknownState);
        }
        let ghost before = self@;
        proof {
            lemma_remove_model(before, state);
        }
        self.inner.remove_state(state);
        self.follows = set_apart(&self.follows, state);
        let mut fresh: Vec<InnerAutomata> = Vec::new();
        let mut i: usize = 0;
        while i < self.childs.len()
            invariant
                i <= self.childs.len(),
                described(self.childs@) == before.childs,
                before.wf(),
                fresh.len() == i,
                forall|k: int| 0 <= k < i ==> (#[trigger] fresh[k])@ == before.childs[k].remove(state),
            decreases self.childs.len() - i,
        {
            let mut part = self.childs[i].duplicate();
            assert(part@ == before.childs[i as int]);
            assert(before.childs[i as int].wf());
            part.remove_state(state);
            fresh.push(part);
            i = i + 1;
        }
        self.childs = fresh;
        proof {
            assert(described(self.childs@) =~= before.remove(state).childs);
        }
        Ok(true)
    }

    /// Makes the state with the label `state` initial. Says whether this is
    /// new. Fails with `UnknownState` if there is no such state.
    pub fn add_initial(&mut self, state: usize) -> (added: Result<bool, AutomataError>)
        requires
            old(self).wf(),
        ensures
            final(self).wf(),
            final(self)@.inner.states == old(self)@.inner.states,
            final(self)@.inner.outputs == old(self)@.inner.outputs,
            final(self)@.follows == old(self)@.follows,
            final(self)@.childs == old(self)@.childs,
            match added {
                Ok(new) => old(self)@.inner.states.contains(state) && new == !old(
                    self,
                )@.inner.inputs.contains(state) && final(self)@.inner.inputs == (if new {
                    old(self)@.inner.inputs.push(state)
                } else {
                    old(self)@.inner.inputs
                }),
                Err(e) => e == AutomataError::UnknownState && !old(self)@.inner.states.contains(
                    state,
                ) && final(self)@ == old(self)@,
            },
    {
        if !self.inner.is_state(state) {
            return Err(AutomataError::UnknownState);
        }
        let ghost before = self@;
        let changed = self.inner.add_input(state);
        proof {
            lemma_parts_kept(before, self@);
        }
        Ok(changed)
    }

    /// Makes the state with the label `state` final. Says whether this is
    /// new. Fails with `UnknownState` if there is no such state.
    pub fn add_final(&mut self, state: usize) -> (added: Result<bool, AutomataError>)
        requires
            old(self).wf(),
        ensures
            final(self).wf(),
            final(self)@.inner.states == old(self)@.inner.states,
            final(self)@.inner.inputs == old(self)@.inner.inputs,
            final(self)@.follows == old(self)@.follows,
            final(self)@.childs == old(self)@.childs,
            match added {
                Ok(new) => old(self)@.inner.states.contains(state) && new == !old(
                    self,
                )@.inner.outputs.contains(state) && final(self)@.inner.outputs == (if new {
                    old(self)@.inner.outputs.push(state)
                } else {
                    old(self)@.inner.outputs
                }),
                Err(e) => e == AutomataError::UnknownState && !old(self)@.inner.states.contains(
                    state,
                ) && final(self)@ == old(self)@,
            },
    {
        if !self.inner.is_state(state) {
            return Err(AutomataError::UnknownState);
        }
        let ghost before = self@;
        let changed = self.inner.add_output(state);
        proof {
            lemma_parts_kept(before, self@);
        }
        Ok(changed)
    }

    /// Makes the state with the label `state` no initial state any more. Says
    /// whether it was one. Fails with `UnknownState` if there is no such
    /// state.
    pub fn remove_initial(&mut self, state: usize) -> (removed: Result<bool, AutomataError>)
        requires
            old(self).wf(),
        ensures
            final(self).wf(),
            final(self)@.inner.states == old(self)@.inner.states,
            final(self)@.inner.outputs == old(self)@.inner.outputs,
            final(self)@.follows == old(self)@.follows,
            final(self)@.childs == old(self)@.childs,
            match removed {
                Ok(was) => old(self)@.inner.states.contains(state) && was == old(
                    self,
                )@.inner.inputs.contains(state) && final(self)@.inner.inputs == without(
                    old(self)@.inner.inputs,
                    state,
                ),
                Err(e) => e == AutomataError::UnknownState && !old(self)@.inner.states.contains(
                    state,
                ) && final(self)@ == old(self)@,
            },
    {
        if !self.inner.is_state(state) {
            return Err(AutomataError::UnknownState);
        }
        let ghost before = self@;
        let changed = self.inner.remove_input(state);
        proof {
            lemma_parts_kept(before, self@);
        }
        Ok(changed)
    }

    /// Makes the state with the label `state` no final state any more. Says
    /// whether it was one. Fails with `UnknownState` if there is no such
    /// state.
    pub fn remove_final(&mut self, state: usize) -> (removed: Result<bool, AutomataError>)
        requires
            old(self).wf(),
        ensures
            final(self).wf(),
            final(self)@.inner.states == old(self)@.inner.states,
            final(self)@.inner.inputs == old(self)@.inner.inputs,
            final(self)@.follows == old(self)@.follows,
            final(self)@.childs == old(self)@.childs,
            match removed {
                Ok(was) => old(self)@.inner.states.contains(state) && was == old(
                    self,
                )@.inner.outputs.contains(state) && final(self)@.inner.outputs == without(
                    old(self)@.inner.outputs,
                    state,
                ),
                Err(e) => e == AutomataError::UnknownState && !old(self)@.inner.states.contains(
                    state,
                ) && final(self)@ == old(self)@,
            },
    {
        if !self.inner.is_state(state) {
            return Err(AutomataError::UnknownState);
        }
        let ghost before = self@;
        let changed = self.inner.remove_output(state);
        proof {
            lemma_parts_kept(before, self@);
        }
        Ok(changed)
    }

    /// Adds the transition from `from` to `to` on `symbol`, unless there is
    /// one. Says whether the transition is new.
    ///
    /// Fails with `UnknownStateTo` if there is no state `to`, else with
    /// `UnknownStateFrom` if there is no state `from`.
    pub fn add_transition(&mut self, from: usize, to: usize, symbol: char) -> (added: Result<
        bool,
        AutomataError,
    >)
        requires
            old(self).wf(),
        ensures
            final(self).wf(),
            final(self)@.inner == old(self)@.inner,
            final(self)@.childs == old(self)@.childs,
            match added {
                Ok(new) => old(self)@.inner.states.contains(to) && old(
                    self,
                )@.inner.states.contains(from) && new == !old(self)@.follows.contains(
                    (from, symbol, to),
                ) && final(self)@.follows == (if new {
                    old(self)@.follows.push((from, symbol, to))
                } else {
                    old(self)@.follows
                }),
                Err(e) => final(self)@ == old(self)@ && (if !old(self)@.inner.states.contains(
                    to,
                ) {
                    e == AutomataError::UnknownStateTo
                } else {
                    e == AutomataError::UnknownStateFrom && !old(self)@.inner.states.contains(
                        from,
                    )
                }),
            },
    {
        if !self.inner.is_state(to) {
            return Err(AutomataError::UnknownStateTo);
        }
        if !self.inner.is_state(from) {
            return Err(AutomataError::UnknownStateFrom);
        }
        if has_transition(&self.follows, from, symbol, to) {
            return Ok(false);
        }
        let ghost before = self@;
        self.follows.push((from, symbol, to));
        proof {
            assert forall|i: int| 0 <= i < self@.follows.len() implies inside(
                self@.inner.states,
                #[trigger] self@.follows[i],
            ) by {
                if i < before.follows.len() {
                    assert(inside(before.inner.states, before.follows[i]));
                }
            }
            lemma_parts_kept(before, self@);
        }
        Ok(true)
    }

    /// Removes the transition from `from` to `to` on `symbol`. Says whether
    /// there was one.
    ///
    /// Fails with `UnknownStateTo` if there is no state `to`, else with
    /// `UnknownStateFrom` if there is no state `from`.
    pub fn remove_transition(&mut self, from: usize, to: usize, symbol: char) -> (removed: Result<
        bool,
        AutomataError,
    >)
        requires
            old(self).wf(),
        ensures
            final(self).wf(),
            final(self)@.inner == old(self)@.inner,
            final(self)@.childs == old(self)@.childs,
            match removed {
                Ok(was) => old(self)@.inner.states.contains(to) && old(
                    self,
                )@.inner.states.contains(from) && was == old(self)@.follows.contains(
                    (from, symbol, to),
                ) && !final(self)@.follows.contains((from, symbol, to)) && (forall|
                    t: (usize, char, usize),
                |
                    t != (from, symbol, to) ==> (#[trigger] final(self)@.follows.contains(t)
                        <==> old(self)@.follows.contains(t))),
                Err(e) => final(self)@ == old(self)@ && (if !old(self)@.inner.states.contains(
                    to,
                ) {
                    e == AutomataError::UnknownStateTo
                } else {
                    e == AutomataError::UnknownStateFrom && !old(self)@.inner.states.contains(
                        from,
                    )
                }),
            },
    {
        if !self.inner.is_state(to) {
            return Err(AutomataError::UnknownStateTo);
        }
        if !self.inner.is_state(from) {
            return Err(AutomataError::UnknownStateFrom);
        }
        match find_transition(&self.follows, from, symbol, to) {
            None => Ok(false),
            Some(at) => {
                let ghost before = self@;
                self.follows.remove(at);
                proof {
                    let now = self@.follows;
                    let was = before.follows;
                    assert(now == was.remove(at as int));
                    assert forall|i: int| 0 <= i < now.len() implies inside(
                        self@.inner.states,
                        #[trigger] now[i],
                    ) by {
                        if i < at {
                            assert(now[i] == was[i]);
                        } else {
                            assert(now[i] == was[i + 1]);
                        }
                    }
                    assert forall|a: int, b: int| 0 <= a < now.len() && 0 <= b < now.len() && a
                        != b implies now[a] != now[b] by {
                        let a2 = if a < at {
                            a
                        } else {
                            a + 1
                        };
                        let b2 = if b < at {
                            b
                        } else {
                            b + 1
                        };
                        assert(now[a] == was[a2]);
                        assert(now[b] == was[b2]);
                    }
                    assert forall|t: (usize, char, usize)| t != (from, symbol, to) implies (
                    #[trigger] now.contains(t) <==> was.contains(t)) by {
                        if now.contains(t) {
                            let i = choose|i: int| 0 <= i < now.len() && now[i] == t;
                            if i < at {
                                assert(was[i] == t);
                            } else {
                                assert(was[i + 1] == t);
                            }
                        }
                        if was.contains(t) {
                            let i = choose|i: int| 0 <= i < was.len() && was[i] == t;
                            if i < at {
                                assert(now[i] == t);
                            } else {
                                assert(now[i - 1] == t);
                            }
                        }
                    }
                    if now.contains((from, symbol, to)) {
                        let i = choose|i: int| 0 <= i < now.len() && now[i] == (from, symbol, to);
                        if i < at {
                            assert(was[i] == was[at as int]);
                        } else {
                            assert(was[i + 1] == was[at as int]);
                        }
                    }
                    lemma_parts_kept(before, self@);
                }
                Ok(true)
            },
        }
    }

    /// Whether the automaton recognizes `word`.
    pub fn accept(&self, word: &[char]) -> (recognized: bool)
        requires
            self.wf(),
        ensures
            recognized == accepts(self@.inner, self@.follows, word@),
    {
        self.inner.accept(&self.follows, word)
    }

    /// The automaton with the states of `inner` and the transitions
    /// `follows`, without parts.
    pub(crate) fn build(inner: InnerAutomata, follows: Vec<(usize, char, usize)>) -> (made: Automata)
        requires
            inner.wf(),
            follows@.no_duplicates(),
            all_inside(inner@.states, follows@),
        ensures
            made@ == (Model { inner: inner@, follows: follows@, childs: Seq::empty() }),
            made.wf(),
    {
        let made = Automata { inner, follows, childs: Vec::new() };
        assert(described(made.childs@) =~= Seq::<Descriptor>::empty());
        made
    }

    /// A copy of the description of the part `sub`; the empty description if
    /// the automaton keeps no such part.
    pub fn part(&self, sub: &SubAutomata) -> (part: InnerAutomata)
        requires
            self.wf(),
        ensures
            part@ == self@.part(sub.id()),
            part.wf(),
    {
        if sub.id < self.childs.len() {
            let part = self.childs[sub.id].duplicate();
            assert(self@.childs[sub.id as int].wf());
            part
        } else {
            InnerAutomata::new()
        }
    }

    /// Takes the description `part` among the parts of the automaton and
    /// gives the handle for it.
    pub(crate) fn adopt(&mut self, part: InnerAutomata) -> (sub: SubAutomata)
        requires
            old(self).wf(),
            part.wf(),
            forall|k: int|
                0 <= k < part@.states.len() ==> old(self)@.inner.states.contains(
                    #[trigger] part@.states[k],
                ),
        ensures
            final(self).wf(),
            final(self)@.inner == old(self)@.inner,
            final(self)@.follows == old(self)@.follows,
            final(self)@.childs == old(self)@.childs.push(part@),
            sub.id() == old(self)@.childs.len(),
    {
        let ghost before = self@;
        let id = self.childs.len();
        self.childs.push(part);
        proof {
            assert(described(self.childs@) =~= before.childs.push(part@));
            assert forall|i: int| 0 <= i < self@.childs.len() implies (#[trigger] self@.childs[i]).wf() by {
                if i < before.childs.len() {
                    assert(before.childs[i].wf());
                }
            }
            assert forall|i: int, k: int|
                0 <= i < self@.childs.len() && 0 <= k < self@.childs[i].states.len()
                    implies self@.inner.states.contains(#[trigger] self@.childs[i].states[k]) by {
                if i < before.childs.len() {
                    assert(before.inner.states.contains(before.childs[i].states[k]));
                }
            }
        }
        SubAutomata { id }
    }
}

/// An automaton stays well-formed when one of its parts is replaced by a
/// well-formed description of states of the automaton, and its states only
/// grow.
pub proof fn lemma_part_replaced(before: Model, after: Model, id: int)
    requires
        before.wf(),
        0 <= id < before.childs.len(),
        after.inner.wf(),
        after.follows.no_duplicates(),
        all_inside(after.inner.states, after.follows),
        after.childs == before.childs.update(id, after.childs[id]),
        after.childs[id].wf(),
        forall|k: int|
            0 <= k < after.childs[id].states.len() ==> after.inner.states.contains(
                #[trigger] after.childs[id].states[k],
            ),
        forall|x: usize| before.inner.states.contains(x) ==> after.inner.states.contains(x),
    ensures
        after.wf(),
{
    assert forall|i: int| 0 <= i < after.childs.len() implies (#[trigger] after.childs[i]).wf() by {
        if i != id {
            assert(before.childs[i].wf());
        }
    }
    assert forall|i: int, k: int|
        0 <= i < after.childs.len() && 0 <= k < after.childs[i].states.len()
            implies after.inner.states.contains(#[trigger] after.childs[i].states[k]) by {
        if i != id {
            assert(before.inner.states.contains(before.childs[i].states[k]));
        }
    }
}

impl SubAutomata {
    /// Whether `parent` keeps this part.
    pub open spec fn kept_by(&self, parent: &Automata) -> bool {
        0 <= self.id() < parent@.childs.len()
    }

    /// Whether `parent` keeps this part.
    pub fn is_kept_by(&self, parent: &Automata) -> (kept: bool)
        ensures
            kept == self.kept_by(parent),
    {
        self.id < parent.childs.len()
    }

    /// Adds the state with the label `value` to this part, and to `parent` if
    /// it has no such state yet. Says whether the state is new in the part;
    /// nothing changes if `parent` does not keep the part.
    pub fn add_state(&self, parent: &mut Automata, value: usize) -> (added: bool)
        requires
            old(parent).wf(),
        ensures
            final(parent).wf(),
            final(parent)@.follows == old(parent)@.follows,
            final(parent)@.inner.inputs == old(parent)@.inner.inputs,
            final(parent)@.inner.outputs == old(parent)@.inner.outputs,
            !self.kept_by(old(parent)) ==> !added && final(parent)@ == old(parent)@,
            self.kept_by(old(parent)) ==> {
                let part = old(parent)@.childs[self.id()];
                &&& added == !part.states.contains(value)
                &&& final(parent)@.inner.states == (if old(parent)@.inner.states.contains(value) {
                    old(parent)@.inner.states
                } else {
                    old(parent)@.inner.states.push(value)
                })
                &&& final(parent)@.childs == old(parent)@.childs.update(
                    self.id(),
                    Descriptor {
                        states: if added {
                            part.states.push(value)
                        } else {
                            part.states
                        },
                        inputs: part.inputs,
                        outputs: part.outputs,
                    },
                )
            },
    {
        if self.id >= parent.childs.len() {
            return false;
        }
        let ghost before = parent@;
        assert(before.childs[self.id as int].wf());
        let grown = parent.inner.add_state(value);
        let mut part = parent.childs[self.id].duplicate();
        let added = part.add_state(value);
        parent.childs.set(self.id, part);
        proof {
            let after = parent@;
            assert(after.childs =~= before.childs.update(self.id as int, after.childs[self.id as int]));
            assert forall|x: usize| before.inner.states.contains(x) implies after.inner.states.contains(
                x,
            ) by {
                if grown {
                    lemma_still_holds(before.inner.states, value, x);
                }
            }
            assert(after.inner.states.contains(value)) by {
                if grown {
                    assert(after.inner.states[before.inner.states.len() as int] == value);
                }
            }
            assert forall|i: int| 0 <= i < after.follows.len() implies inside(
                after.inner.states,
                #[trigger] after.follows[i],
            ) by {
                assert(inside(before.inner.states, before.follows[i]));
            }
            let now = after.childs[self.id as int];
            let was = before.childs[self.id as int];
            assert forall|k: int| 0 <= k < now.states.len() implies after.inner.states.contains(
                #[trigger] now.states[k],
            ) by {
                if k < was.states.len() {
                    assert(before.inner.states.contains(was.states[k]));
                }
            }
            lemma_part_replaced(before, after, self.id as int);
        }
        added
    }

    /// Removes the state with the label `value` from this part, also from its
    /// inputs and outputs; `parent` keeps the state.
    ///
    /// Fails with `UnknownState` if the part has no such state, or if
    /// `parent` does not keep the part.
    pub fn remove_state(&self, parent: &mut Automata, value: usize) -> (removed: Result<
        bool,
        AutomataError,
    >)
        requires
            old(parent).wf(),
        ensures
            final(parent).wf(),
            final(parent)@.inner == old(parent)@.inner,
            final(parent)@.follows == old(parent)@.follows,
            match removed {
                Ok(done) => done && self.kept_by(old(parent)) && old(parent)@.childs[self.id()].states.contains(
                    value,
                ) && final(parent)@.childs == old(parent)@.childs.update(
                    self.id(),
                    old(parent)@.childs[self.id()].remove(value),
                ),
                Err(e) => e == AutomataError::UnknownState && final(parent)@ == old(parent)@ && !(
                self.kept_by(old(parent)) && old(parent)@.childs[self.id()].states.contains(value)),
            },
    {
        if self.id >= parent.childs.len() {
            return Err(AutomataError::UnknownState);
        }
        if !parent.childs[self.id].is_state(value) {
            return Err(AutomataError::UnknownState);
        }
        let ghost before = parent@;
        assert(before.childs[self.id as int].wf());
        let mut part = parent.childs[self.id].duplicate();
        part.remove_state(value);
        parent.childs.set(self.id, part);
        proof {
            let after = parent@;
            assert(after.childs =~= before.childs.update(self.id as int, after.childs[self.id as int]));
            let was = before.childs[self.id as int];
            let now = after.childs[self.id as int];
            lemma_without(was.states, value);
            assert forall|k: int| 0 <= k < now.states.len() implies after.inner.states.contains(
                #[trigger] now.states[k],
            ) by {
                let x = now.states[k];
                assert(now.states.contains(x));
                assert(was.states.contains(x));
                let j = choose|j: int| 0 <= j < was.states.len() && was.states[j] == x;
                assert(before.inner.states.contains(was.states[j]));
            }
            lemma_part_replaced(before, after, self.id as int);
        }
        Ok(true)
    }

    /// Makes the state with the label `value` an input (`input`) or an output
    /// of this part, or takes this role from it (`add` is false). Says
    /// whether this changed the part.
    ///
    /// Fails with `UnknownState` if the part has no such state, or if
    /// `parent` does not keep the part.
    pub fn set_door(&self, parent: &mut Automata, value: usize, input: bool, add: bool) -> (changed:
        Result<bool, AutomataError>)
        requires
            old(parent).wf(),
        ensures
            final(parent).wf(),
            final(parent)@.inner == old(parent)@.inner,
            final(parent)@.follows == old(parent)@.follows,
            match changed {
                Ok(new) => {
                    let part = old(parent)@.childs[self.id()];
                    let list = if input {
                        part.inputs
                    } else {
                        part.outputs
                    };
                    let made = if add {
                        if new {
                            list.push(value)
                        } else {
                            list
                        }
                    } else {
                        without(list, value)
                    };
                    &&& self.kept_by(old(parent))
                    &&& part.states.contains(value)
                    &&& new == (list.contains(value) != add)
                    &&& final(parent)@.childs == old(parent)@.childs.update(
                        self.id(),
                        Descriptor {
                            states: part.states,
                            inputs: if input {
                                made
                            } else {
                                part.inputs
                            },
                            outputs: if input {
                                part.outputs
                            } else {
                                made
                            },
                        },
                    )
                },
                Err(e) => e == AutomataError::UnknownState && final(parent)@ == old(parent)@ && !(
                self.kept_by(old(parent)) && old(parent)@.childs[self.id()].states.contains(value)),
            },
    {
        if self.id >= parent.childs.len() {
            return Err(AutomataError::UnknownState);
        }
        if !parent.childs[self.id].is_state(value) {
            return Err(AutomataError::UnknownState);
        }
        let ghost before = parent@;
        assert(before.childs[self.id as int].wf());
        let mut part = parent.childs[self.id].duplicate();
        let changed = if input {
            if add {
                part.add_input(value)
            } else {
                part.remove_input(value)
            }
        } else {
            if add {
                part.add_output(value)
            } else {
                part.remove_output(value)
            }
        };
        parent.childs.set(self.id, part);
        proof {
            let after = parent@;
            assert(after.childs =~= before.childs.update(self.id as int, after.childs[self.id as int]));
            let was = before.childs[self.id as int];
            let now = after.childs[self.id as int];
            assert forall|k: int| 0 <= k < now.states.len() implies after.inner.states.contains(
                #[trigger] now.states[k],
            ) by {
                assert(before.inner.states.contains(was.states[k]));
            }
            lemma_part_replaced(before, after, self.id as int);
        }
        Ok(changed)
    }
}

} // verus!
