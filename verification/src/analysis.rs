//! The analyses of an automaton and of its parts, by labels of states.
//!
//! An automaton is analysed with all its transitions; a part with the
//! transitions of the automaton between its own states. A handle that the
//! automaton does not keep stands for the part without states.

use vstd::prelude::*;
use crate::accept::accepts;
use crate::automata::{Automata, Model, SubAutomata};
use crate::dfs::{is_permutation, ranks, search, DFSInfo};
use crate::door::{all_doors, door_lists, DoorPolicy, DoorType};
use crate::error::AutomataError;
use crate::graph::{lists, missing};
use crate::prop::{
    accessible,
    coaccessible,
    deterministic,
    fully_deterministic,
    homogeneous,
    maximal_orbit,
    orbit,
    standard,
    strongly_connected,
};
use crate::relation::{lemma_restrict, restrict, restricted};
use crate::scc::{components, covered, divides, scattered};
use crate::walks::steps;
use crate::stability::{stable, transverse};

verus! {

/// The lists of doors one after the other.
pub fn flatten_doors(doors: &Vec<Vec<(usize, DoorType)>>) -> (flat: Vec<(usize, DoorType)>)
    ensures
        flat@ == door_lists(doors@).flatten(),
{
    let ghost all = door_lists(doors@);
    let mut flat: Vec<(usize, DoorType)> = Vec::new();
    let mut i: usize = 0;
    assert(all.take(0).flatten() =~= Seq::<(usize, DoorType)>::empty());
    while i < doors.len()
        invariant
            i <= doors.len(),
            all == door_lists(doors@),
            flat@ == all.take(i as int).flatten(),
        decreases doors.len() - i,
    {
        let ghost before = flat@;
        let mut k: usize = 0;
        while k < doors[i].len()
            invariant
                i < doors.len(),
                k <= doors[i as int].len(),
                flat@ == before + doors[i as int]@.take(k as int),
            decreases doors[i as int].len() - k,
        {
            flat.push(doors[i][k]);
            assert(doors[i as int]@.take(k + 1) =~= doors[i as int]@.take(k as int).push(
                doors[i as int]@[k as int],
            ));
            assert(before + doors[i as int]@.take(k + 1) =~= (before + doors[i as int]@.take(
                k as int,
            )).push(doors[i as int]@[k as int]));
            k = k + 1;
        }
        proof {
            assert(doors[i as int]@.take(k as int) =~= doors[i as int]@);
            assert(all.take(i + 1) =~= all.take(i as int).push(all[i as int]));
            all.take(i as int).lemma_flatten_push(all[i as int]);
        }
        i = i + 1;
    }
    assert(all.take(i as int) =~= all);
    flat
}

impl Automata {
    /// The strongly connected components, as lists of labels: two states
    /// stand in the same component exactly if walks lead from each of them to
    /// the other; together the components name every state once, and none of
    /// them is empty.
    pub fn kosaraju(&self) -> (parts: Vec<Vec<usize>>)
        requires
            self.wf(),
        ensures
            lists(parts@) == components(self@.inner.states, self@.follows),
            divides(self@.inner.states, self@.follows, lists(parts@)),
            is_permutation(lists(parts@).flatten(), self@.inner.states),
            scattered(lists(parts@)),
            forall|i: int| 0 <= i < parts.len() ==> (#[trigger] parts[i]).len() > 0,
            forall|j: int|
                0 <= j < self@.inner.states.len() ==> covered(
                    lists(parts@),
                    #[trigger] self@.inner.states[j],
                ),
    {
        self.inner().kosaraju(self.transitions())
    }

    /// The strongly connected components, every state with the kind of door
    /// it is for its component.
    pub fn kosaraju_type(&self, policy: DoorPolicy) -> (doors: Vec<Vec<(usize, DoorType)>>)
        requires
            self.wf(),
        ensures
            door_lists(doors@) == all_doors(self@.inner, self@.follows, policy),
    {
        self.inner().get_door(self.transitions(), policy)
    }

    /// Every state with the kind of door it is for its strongly connected
    /// component, component by component.
    pub fn get_states_type(&self, policy: DoorPolicy) -> (doors: Vec<(usize, DoorType)>)
        requires
            self.wf(),
        ensures
            doors@ == all_doors(self@.inner, self@.follows, policy).flatten(),
    {
        let doors = self.inner().get_door(self.transitions(), policy);
        flatten_doors(&doors)
    }

    /// Depth-first search along the transitions or, if `backward`, against
    /// them. `order` must name every state once, or the search fails with
    /// `NotEnoughState`.
    pub fn dfs(&self, order: Vec<usize>, backward: bool) -> (found: Result<DFSInfo, AutomataError>)
        requires
            self.wf(),
        ensures
            match found {
                Ok(info) => {
                    &&& is_permutation(order@, self@.inner.states)
                    &&& info.tells(
                        self@.inner.states,
                        search(
                            self@.inner.states,
                            self@.follows,
                            ranks(self@.inner.states, order@),
                            backward,
                        ),
                    )
                    &&& is_permutation(info.prefix@, order@)
                    &&& is_permutation(info.suffix@, order@)
                    &&& info.predecessor.len() == order.len()
                    &&& missing(info.predecessor@) == search(
                        self@.inner.states,
                        self@.follows,
                        ranks(self@.inner.states, order@),
                        backward,
                    ).roots.len()
                    &&& forall|i: int|
                        0 <= i < info.predecessor.len() ==> ((
                        #[trigger] info.predecessor[i]) matches Some(p) ==> steps(
                            self@.inner.states,
                            self@.follows,
                            backward,
                            p,
                            self@.inner.states[i],
                        ))
                },
                Err(e) => e == AutomataError::NotEnoughState && !is_permutation(
                    order@,
                    self@.inner.states,
                ),
            },
    {
        self.inner().dfs(self.transitions(), order, backward)
    }

    /// Depth-first search along the transitions.
    pub fn get_dfs(&self, order: Vec<usize>) -> (found: Result<DFSInfo, AutomataError>)
        requires
            self.wf(),
        ensures
            match found {
                Ok(info) => {
                    &&& is_permutation(order@, self@.inner.states)
                    &&& info.tells(
                        self@.inner.states,
                        search(
                            self@.inner.states,
                            self@.follows,
                            ranks(self@.inner.states, order@),
                            false,
                        ),
                    )
                    &&& is_permutation(info.prefix@, order@)
                    &&& is_permutation(info.suffix@, order@)
                    &&& info.predecessor.len() == order.len()
                    &&& missing(info.predecessor@) == search(
                        self@.inner.states,
                        self@.follows,
                        ranks(self@.inner.states, order@),
                        false,
                    ).roots.len()
                    &&& forall|i: int|
                        0 <= i < info.predecessor.len() ==> ((
                        #[trigger] info.predecessor[i]) matches Some(p) ==> steps(
                            self@.inner.states,
                            self@.follows,
                            false,
                            p,
                            self@.inner.states[i],
                        ))
                },
                Err(e) => e == AutomataError::NotEnoughState && !is_permutation(
                    order@,
                    self@.inner.states,
                ),
            },
    {
        self.inner().dfs(self.transitions(), order, false)
    }

    /// Whether there is exactly one initial state and no transition leads to it.
    pub fn is_standard(&self) -> (holds: bool)
        requires
            self.wf(),
        ensures
            holds == standard(self@.inner, self@.follows),
    {
        self.inner().is_standard(self.transitions())
    }

    /// Whether the automaton is standard and no state has two transitions on one symbol.
    pub fn is_deterministic(&self) -> (holds: bool)
        requires
            self.wf(),
        ensures
            holds == deterministic(self@.inner, self@.follows),
    {
        self.inner().is_deterministic(self.transitions())
    }

    /// Whether the automaton is deterministic and every state has a transition on every symbol that the automaton uses.
    pub fn is_fully_deterministic(&self) -> (holds: bool)
        requires
            self.wf(),
        ensures
            holds == fully_deterministic(self@.inner, self@.follows),
    {
        self.inner().is_fully_deterministic(self.transitions())
    }

    /// Whether all the transitions that lead to one state carry the same symbol.
    pub fn is_homogeneous(&self) -> (holds: bool)
        requires
            self.wf(),
        ensures
            holds == homogeneous(self@.inner, self@.follows),
    {
        self.inner().is_homogeneous(self.transitions())
    }

    /// Whether the search that starts from the initial states has exactly one root.
    pub fn is_accessible(&self) -> (holds: bool)
        requires
            self.wf(),
        ensures
            holds == accessible(self@.inner, self@.follows),
    {
        self.inner().is_accessible(self.transitions())
    }

    /// Whether the mirror is accessible.
    pub fn is_coaccessible(&self) -> (holds: bool)
        requires
            self.wf(),
        ensures
            holds == coaccessible(self@.inner, self@.follows),
    {
        self.inner().is_coaccessible(self.transitions())
    }

    /// Whether there is at most one strongly connected component.
    pub fn is_strongly_connected(&self) -> (holds: bool)
        requires
            self.wf(),
        ensures
            holds == strongly_connected(self@.inner, self@.follows),
    {
        self.inner().is_strongly_connected(self.transitions())
    }

    /// Whether the automaton is homogeneous and strongly connected, and every
    /// state has a transition to an initial state.
    pub fn is_maximal_orbit(&self) -> (holds: bool)
        requires
            self.wf(),
        ensures
            holds == maximal_orbit(self@.inner, self@.follows),
    {
        self.inner().is_maximal_orbit(self.transitions())
    }

    /// Whether the automaton is strongly connected and has more than one state, or one state with a transition to itself.
    pub fn is_orbit(&self) -> (holds: bool)
        requires
            self.wf(),
        ensures
            holds == orbit(self@.inner, self@.follows),
    {
        self.inner().is_orbit(self.transitions())
    }

    /// Whether every output door has a transition to an input door, and every input door a transition from an output door.
    pub fn is_stable(&self, policy: DoorPolicy) -> (holds: bool)
        requires
            self.wf(),
        ensures
            holds == stable(self@.inner, self@.follows, policy),
    {
        self.inner().is_stable(self.transitions(), policy)
    }

    /// Whether all input doors are entered from the same states outside their components, and all output doors lead to the same states outside.
    pub fn is_transverse(&self, policy: DoorPolicy) -> (holds: bool)
        requires
            self.wf(),
        ensures
            holds == transverse(self@.inner, self@.follows, policy),
    {
        self.inner().is_transverse(self.transitions(), policy)
    }
}

impl SubAutomata {
    /// The number of states of the part.
    pub fn states_count(&self, parent: &Automata) -> (count: usize)
        requires
            parent.wf(),
        ensures
            count == parent@.part(self.id()).states.len(),
    {
        parent.part(self).states_count()
    }

    /// The number of inputs of the part.
    pub fn inputs_count(&self, parent: &Automata) -> (count: usize)
        requires
            parent.wf(),
        ensures
            count == parent@.part(self.id()).inputs.len(),
    {
        parent.part(self).inputs_count()
    }

    /// The number of outputs of the part.
    pub fn outputs_count(&self, parent: &Automata) -> (count: usize)
        requires
            parent.wf(),
        ensures
            count == parent@.part(self.id()).outputs.len(),
    {
        parent.part(self).outputs_count()
    }

    /// The labels of the states of the part.
    pub fn states(&self, parent: &Automata) -> (list: Vec<usize>)
        requires
            parent.wf(),
        ensures
            list@ == parent@.part(self.id()).states,
    {
        parent.part(self).states()
    }

    /// The labels of the inputs of the part.
    pub fn inputs(&self, parent: &Automata) -> (list: Vec<usize>)
        requires
            parent.wf(),
        ensures
            list@ == parent@.part(self.id()).inputs,
    {
        parent.part(self).inputs()
    }

    /// The labels of the outputs of the part.
    pub fn outputs(&self, parent: &Automata) -> (list: Vec<usize>)
        requires
            parent.wf(),
        ensures
            list@ == parent@.part(self.id()).outputs,
    {
        parent.part(self).outputs()
    }

    /// Makes the state with the label `value` an input of the part. Says
    /// whether this is new. Fails with `UnknownState` if the part has no such
    /// state.
    pub fn add_input(&self, parent: &mut Automata, value: usize) -> (added: Result<
        bool,
        AutomataError,
    >)
        requires
            old(parent).wf(),
        ensures
            final(parent).wf(),
            final(parent)@.inner == old(parent)@.inner,
            final(parent)@.follows == old(parent)@.follows,
            match added {
                Ok(new) => {
                    let part = old(parent)@.part(self.id());
                    &&& part.states.contains(value)
                    &&& new == !part.inputs.contains(value)
                    &&& final(parent)@.part(self.id()).states == part.states
                    &&& final(parent)@.part(self.id()).outputs == part.outputs
                    &&& final(parent)@.part(self.id()).inputs == (if new {
                        part.inputs.push(value)
                    } else {
                        part.inputs
                    })
                },
                Err(e) => e == AutomataError::UnknownState && final(parent)@ == old(parent)@ && !old(
                    parent,
                )@.part(self.id()).states.contains(value),
            },
    {
        self.set_door(parent, value, true, true)
    }

    /// Makes the state with the label `value` an output of the part. Says
    /// whether this is new. Fails with `UnknownState` if the part has no such
    /// state.
    pub fn add_output(&self, parent: &mut Automata, value: usize) -> (added: Result<
        bool,
        AutomataError,
    >)
        requires
            old(parent).wf(),
        ensures
            final(parent).wf(),
            final(parent)@.inner == old(parent)@.inner,
            final(parent)@.follows == old(parent)@.follows,
            match added {
                Ok(new) => {
                    let part = old(parent)@.part(self.id());
                    &&& part.states.contains(value)
                    &&& new == !part.outputs.contains(value)
                    &&& final(parent)@.part(self.id()).states == part.states
                    &&& final(parent)@.part(self.id()).inputs == part.inputs
                    &&& final(parent)@.part(self.id()).outputs == (if new {
                        part.outputs.push(value)
                    } else {
                        part.outputs
                    })
                },
                Err(e) => e == AutomataError::UnknownState && final(parent)@ == old(parent)@ && !old(
                    parent,
                )@.part(self.id()).states.contains(value),
            },
    {
        self.set_door(parent, value, false, true)
    }

    /// Makes the state with the label `value` no input of the part any more.
    /// Says whether it was one. Fails with `UnknownState` if the part has no
    /// such state.
    pub fn remove_input(&self, parent: &mut Automata, value: usize) -> (removed: Result<
        bool,
        AutomataError,
    >)
        requires
            old(parent).wf(),
        ensures
            final(parent).wf(),
            final(parent)@.inner == old(parent)@.inner,
            final(parent)@.follows == old(parent)@.follows,
            match removed {
                Ok(was) => {
                    let part = old(parent)@.part(self.id());
                    &&& part.states.contains(value)
                    &&& was == part.inputs.contains(value)
                    &&& final(parent)@.part(self.id()).states == part.states
                    &&& final(parent)@.part(self.id()).outputs == part.outputs
                    &&& final(parent)@.part(self.id()).inputs == crate::labels::without(
                        part.inputs,
                        value,
                    )
                },
                Err(e) => e == AutomataError::UnknownState && final(parent)@ == old(parent)@ && !old(
                    parent,
                )@.part(self.id()).states.contains(value),
            },
    {
        self.set_door(parent, value, true, false)
    }

    /// Makes the state with the label `value` no output of the part any more.
    /// Says whether it was one. Fails with `UnknownState` if the part has no
    /// such state.
    pub fn remove_output(&self, parent: &mut Automata, value: usize) -> (removed: Result<
        bool,
        AutomataError,
    >)
        requires
            old(parent).wf(),
        ensures
            final(parent).wf(),
            final(parent)@.inner == old(parent)@.inner,
            final(parent)@.follows == old(parent)@.follows,
            match removed {
                Ok(was) => {
                    let part = old(parent)@.part(self.id());
                    &&& part.states.contains(value)
                    &&& was == part.outputs.contains(value)
                    &&& final(parent)@.part(self.id()).states == part.states
                    &&& final(parent)@.part(self.id()).inputs == part.inputs
                    &&& final(parent)@.part(self.id()).outputs == crate::labels::without(
                        part.outputs,
                        value,
                    )
                },
                Err(e) => e == AutomataError::UnknownState && final(parent)@ == old(parent)@ && !old(
                    parent,
                )@.part(self.id()).states.contains(value),
            },
    {
        self.set_door(parent, value, false, false)
    }

    /// Whether the part recognizes `word`, with the transitions of `parent`
    /// between its states.
    pub fn accept(&self, parent: &Automata, word: &[char]) -> (recognized: bool)
        requires
            parent.wf(),
        ensures
            recognized == accepts(parent@.part(self.id()), parent@.follows, word@),
    {
        parent.part(self).accept(parent.transitions(), word)
    }

    /// The strongly connected components of the part, as lists of labels:
    /// two states of the part stand in the same component exactly if walks
    /// within the part lead from each of them to the other.
    pub fn kosaraju(&self, parent: &Automata) -> (parts: Vec<Vec<usize>>)
        requires
            parent.wf(),
        ensures
            lists(parts@) == components(parent@.part(self.id()).states, parent@.follows),
            divides(parent@.part(self.id()).states, parent@.follows, lists(parts@)),
            is_permutation(lists(parts@).flatten(), parent@.part(self.id()).states),
            scattered(lists(parts@)),
    {
        parent.part(self).kosaraju(parent.transitions())
    }

    /// The strongly connected components of the part, every state with the
    /// kind of door it is for its component.
    pub fn kosaraju_type(&self, parent: &Automata, policy: DoorPolicy) -> (doors: Vec<
        Vec<(usize, DoorType)>,
    >)
        requires
            parent.wf(),
        ensures
            door_lists(doors@) == all_doors(parent@.part(self.id()), parent@.follows, policy),
    {
        parent.part(self).get_door(parent.transitions(), policy)
    }

    /// Depth-first search of the part along the transitions or, if
    /// `backward`, against them. `order` must name every state of the part
    /// once, or the search fails with `NotEnoughState`.
    pub fn dfs(&self, parent: &Automata, order: Vec<usize>, backward: bool) -> (found: Result<
        DFSInfo,
        AutomataError,
    >)
        requires
            parent.wf(),
        ensures
            match found {
                Ok(info) => {
                    &&& is_permutation(order@, parent@.part(self.id()).states)
                    &&& info.tells(
                        parent@.part(self.id()).states,
                        search(
                            parent@.part(self.id()).states,
                            parent@.follows,
                            ranks(parent@.part(self.id()).states, order@),
                            backward,
                        ),
                    )
                    &&& is_permutation(info.prefix@, order@)
                    &&& is_permutation(info.suffix@, order@)
                    &&& info.predecessor.len() == order.len()
                    &&& missing(info.predecessor@) == search(
                        parent@.part(self.id()).states,
                        parent@.follows,
                        ranks(parent@.part(self.id()).states, order@),
                        backward,
                    ).roots.len()
                    &&& forall|i: int|
                        0 <= i < info.predecessor.len() ==> ((
                        #[trigger] info.predecessor[i]) matches Some(p) ==> steps(
                            parent@.part(self.id()).states,
                            parent@.follows,
                            backward,
                            p,
                            parent@.part(self.id()).states[i],
                        ))
                },
                Err(e) => e == AutomataError::NotEnoughState && !is_permutation(
                    order@,
                    parent@.part(self.id()).states,
                ),
            },
    {
        parent.part(self).dfs(parent.transitions(), order, backward)
    }

    /// A copy of the part that stands by itself: its states, inputs and
    /// outputs, and the transitions of `parent` between its states.
    pub fn cloned(&self, parent: &Automata) -> (same: Automata)
        requires
            parent.wf(),
        ensures
            same.wf(),
            same@ == (Model {
                inner: parent@.part(self.id()),
                follows: restrict(parent@.follows, parent@.part(self.id()).states),
                childs: Seq::empty(),
            }),
    {
        let part = parent.part(self);
        let states = part.states();
        let follows = restricted(parent.transitions(), &states);
        proof {
            lemma_restrict(parent@.follows, states@);
        }
        Automata::build(part, follows)
    }

    /// The mirror of the part, as an automaton that stands by itself.
    pub fn mirror(&self, parent: &Automata) -> (back: Automata)
        requires
            parent.wf(),
        ensures
            back.wf(),
            back@ == (Model {
                inner: parent@.part(self.id()).mirror(),
                follows: crate::relation::flip(
                    restrict(parent@.follows, parent@.part(self.id()).states),
                ),
                childs: Seq::empty(),
            }),
    {
        self.cloned(parent).mirror()
    }

    /// Whether there is exactly one input and no transition leads to it.
    pub fn is_standard(&self, parent: &Automata) -> (holds: bool)
        requires
            parent.wf(),
        ensures
            holds == standard(parent@.part(self.id()), parent@.follows),
    {
        parent.part(self).is_standard(parent.transitions())
    }

    /// Whether the part is standard and no state has two transitions on one symbol.
    pub fn is_deterministic(&self, parent: &Automata) -> (holds: bool)
        requires
            parent.wf(),
        ensures
            holds == deterministic(parent@.part(self.id()), parent@.follows),
    {
        parent.part(self).is_deterministic(parent.transitions())
    }

    /// Whether the part is deterministic and every state has a transition on every symbol that the part uses.
    pub fn is_fully_deterministic(&self, parent: &Automata) -> (holds: bool)
        requires
            parent.wf(),
        ensures
            holds == fully_deterministic(parent@.part(self.id()), parent@.follows),
    {
        parent.part(self).is_fully_deterministic(parent.transitions())
    }

    /// Whether all the transitions that lead to one state carry the same symbol.
    pub fn is_homogeneous(&self, parent: &Automata) -> (holds: bool)
        requires
            parent.wf(),
        ensures
            holds == homogeneous(parent@.part(self.id()), parent@.follows),
    {
        parent.part(self).is_homogeneous(parent.transitions())
    }

    /// Whether the search that starts from the inputs has exactly one root.
    pub fn is_accessible(&self, parent: &Automata) -> (holds: bool)
        requires
            parent.wf(),
        ensures
            holds == accessible(parent@.part(self.id()), parent@.follows),
    {
        parent.part(self).is_accessible(parent.transitions())
    }

    /// Whether the mirror is accessible.
    pub fn is_coaccessible(&self, parent: &Automata) -> (holds: bool)
        requires
            parent.wf(),
        ensures
            holds == coaccessible(parent@.part(self.id()), parent@.follows),
    {
        parent.part(self).is_coaccessible(parent.transitions())
    }

    /// Whether there is at most one strongly connected component.
    pub fn is_strongly_connected(&self, parent: &Automata) -> (holds: bool)
        requires
            parent.wf(),
        ensures
            holds == strongly_connected(parent@.part(self.id()), parent@.follows),
    {
        parent.part(self).is_strongly_connected(parent.transitions())
    }

    /// Whether the part is homogeneous and strongly connected, and every state
    /// has a transition to an input.
    pub fn is_maximal_orbit(&self, parent: &Automata) -> (holds: bool)
        requires
            parent.wf(),
        ensures
            holds == maximal_orbit(parent@.part(self.id()), parent@.follows),
    {
        parent.part(self).is_maximal_orbit(parent.transitions())
    }

    /// Whether the part is strongly connected and has more than one state, or one state with a transition to itself.
    pub fn is_orbit(&self, parent: &Automata) -> (holds: bool)
        requires
            parent.wf(),
        ensures
            holds == orbit(parent@.part(self.id()), parent@.follows),
    {
        parent.part(self).is_orbit(parent.transitions())
    }

    /// Whether every output door has a transition to an input door, and every input door a transition from an output door.
    pub fn is_stable(&self, parent: &Automata, policy: DoorPolicy) -> (holds: bool)
        requires
            parent.wf(),
        ensures
            holds == stable(parent@.part(self.id()), parent@.follows, policy),
    {
        parent.part(self).is_stable(parent.transitions(), policy)
    }

    /// Whether all input doors are entered from the same states outside their components, and all output doors lead to the same states outside.
    pub fn is_transverse(&self, parent: &Automata, policy: DoorPolicy) -> (holds: bool)
        requires
            parent.wf(),
        ensures
            holds == transverse(parent@.part(self.id()), parent@.follows, policy),
    {
        parent.part(self).is_transverse(parent.transitions(), policy)
    }
}

} // verus!
