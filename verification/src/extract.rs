//! Parts of an automaton: one for each strongly connected component, or
//! chosen by hand; and copies of an automaton that stand by themselves.

use vstd::prelude::*;
use crate::automata::{Automata, Model, SubAutomata};
use crate::door::{doors_of, DoorPolicy, DoorType};
use crate::error::AutomataError;
use crate::graph::lists;
use crate::inner::{check_list, lemma_no_fault, list_fault, Descriptor, InnerAutomata};
use crate::labels::copy;
use crate::relation::{
    copy_relation,
    flip,
    flipped,
    inside,
    lemma_flip,
    lemma_restrict,
    restrict,
    restricted,
    turned,
};
use crate::scc::{components, divides};

verus! {

/// The states of `doors` through which a component is entered, in their order.
pub open spec fn entering(doors: Seq<(usize, DoorType)>) -> Seq<usize>
    decreases doors.len(),
{
    if doors.len() == 0 {
        Seq::empty()
    } else if doors.last().1.lets_in() {
        entering(doors.drop_last()).push(doors.last().0)
    } else {
        entering(doors.drop_last())
    }
}

/// The states of `doors` through which a component is left, in their order.
pub open spec fn leaving(doors: Seq<(usize, DoorType)>) -> Seq<usize>
    decreases doors.len(),
{
    if doors.len() == 0 {
        Seq::empty()
    } else if doors.last().1.lets_out() {
        leaving(doors.drop_last()).push(doors.last().0)
    } else {
        leaving(doors.drop_last())
    }
}

/// The description of the component `part`: its states, with its input doors
/// as inputs and its output doors as outputs.
pub open spec fn part_descriptor(
    d: Descriptor,
    follows: Seq<(usize, char, usize)>,
    part: Seq<usize>,
    policy: DoorPolicy,
) -> Descriptor {
    Descriptor {
        states: part,
        inputs: entering(doors_of(d, follows, part, policy)),
        outputs: leaving(doors_of(d, follows, part, policy)),
    }
}

/// The descriptions of the components of a description.
pub open spec fn scc_descriptors(
    d: Descriptor,
    follows: Seq<(usize, char, usize)>,
    policy: DoorPolicy,
) -> Seq<Descriptor> {
    components(d.states, follows).map_values(
        |part: Seq<usize>| part_descriptor(d, follows, part, policy),
    )
}

/// The doors chosen from a list of states without repetition are states of
/// the list, each once.
pub proof fn lemma_chosen(doors: Seq<(usize, DoorType)>)
    requires
        forall|i: int, j: int|
            0 <= i < doors.len() && 0 <= j < doors.len() && i != j ==> (#[trigger] doors[i]).0 != (
            #[trigger] doors[j]).0,
    ensures
        entering(doors).no_duplicates(),
        leaving(doors).no_duplicates(),
        forall|k: int|
            0 <= k < entering(doors).len() ==> exists|i: int|
                0 <= i < doors.len() && (#[trigger] doors[i]).0 == #[trigger] entering(doors)[k],
        forall|k: int|
            0 <= k < leaving(doors).len() ==> exists|i: int|
                0 <= i < doors.len() && (#[trigger] doors[i]).0 == #[trigger] leaving(doors)[k],
    decreases doors.len(),
{
    if doors.len() > 0 {
        let front = doors.drop_last();
        let last = doors.last();
        assert forall|i: int, j: int| 0 <= i < front.len() && 0 <= j < front.len() && i
            != j implies (#[trigger] front[i]).0 != (#[trigger] front[j]).0 by {
            assert(front[i] == doors[i]);
            assert(front[j] == doors[j]);
        }
        lemma_chosen(front);
        let e = entering(doors);
        let ef = entering(front);
        assert forall|k: int| 0 <= k < e.len() implies exists|i: int|
            0 <= i < doors.len() && (#[trigger] doors[i]).0 == #[trigger] e[k] by {
            if k < ef.len() {
                let i = choose|i: int| 0 <= i < front.len() && (#[trigger] front[i]).0 == ef[k];
                assert(doors[i].0 == e[k]);
            } else {
                assert(doors[doors.len() - 1].0 == e[k]);
            }
        }
        assert forall|a: int, b: int| 0 <= a < e.len() && 0 <= b < e.len() && a != b implies e[a]
            != e[b] by {
            if a < ef.len() && b < ef.len() {
                assert(ef[a] != ef[b]);
            } else if a < ef.len() {
                let i = choose|i: int| 0 <= i < front.len() && (#[trigger] front[i]).0 == ef[a];
                assert(doors[i].0 != doors[doors.len() - 1].0);
            } else if b < ef.len() {
                let i = choose|i: int| 0 <= i < front.len() && (#[trigger] front[i]).0 == ef[b];
                assert(doors[i].0 != doors[doors.len() - 1].0);
            }
        }
        let l = leaving(doors);
        let lf = leaving(front);
        assert forall|k: int| 0 <= k < l.len() implies exists|i: int|
            0 <= i < doors.len() && (#[trigger] doors[i]).0 == #[trigger] l[k] by {
            if k < lf.len() {
                let i = choose|i: int| 0 <= i < front.len() && (#[trigger] front[i]).0 == lf[k];
                assert(doors[i].0 == l[k]);
            } else {
                assert(doors[doors.len() - 1].0 == l[k]);
            }
        }
        assert forall|a: int, b: int| 0 <= a < l.len() && 0 <= b < l.len() && a != b implies l[a]
            != l[b] by {
            if a < lf.len() && b < lf.len() {
                assert(lf[a] != lf[b]);
            } else if a < lf.len() {
                let i = choose|i: int| 0 <= i < front.len() && (#[trigger] front[i]).0 == lf[a];
                assert(doors[i].0 != doors[doors.len() - 1].0);
            } else if b < lf.len() {
                let i = choose|i: int| 0 <= i < front.len() && (#[trigger] front[i]).0 == lf[b];
                assert(doors[i].0 != doors[doors.len() - 1].0);
            }
        }
    }
}

/// The description of a component without repeated states is well-formed.
pub proof fn lemma_part_wf(
    d: Descriptor,
    follows: Seq<(usize, char, usize)>,
    part: Seq<usize>,
    policy: DoorPolicy,
)
    requires
        part.no_duplicates(),
    ensures
        part_descriptor(d, follows, part, policy).wf(),
{
    let doors = doors_of(d, follows, part, policy);
    let made = part_descriptor(d, follows, part, policy);
    assert forall|i: int, j: int| 0 <= i < doors.len() && 0 <= j < doors.len() && i
        != j implies (#[trigger] doors[i]).0 != (#[trigger] doors[j]).0 by {
        assert(doors[i].0 == part[i]);
        assert(doors[j].0 == part[j]);
    }
    lemma_chosen(doors);
    assert forall|k: int| 0 <= k < made.inputs.len() implies made.states.contains(
        #[trigger] made.inputs[k],
    ) by {
        let i = choose|i: int| 0 <= i < doors.len() && (#[trigger] doors[i]).0 == made.inputs[k];
        assert(part[i] == made.inputs[k]);
    }
    assert forall|k: int| 0 <= k < made.outputs.len() implies made.states.contains(
        #[trigger] made.outputs[k],
    ) by {
        let i = choose|i: int| 0 <= i < doors.len() && (#[trigger] doors[i]).0 == made.outputs[k];
        assert(part[i] == made.outputs[k]);
    }
}

/// The states of `doors` through which a component is entered.
pub fn entering_list(doors: &Vec<(usize, DoorType)>) -> (list: Vec<usize>)
    ensures
        list@ == entering(doors@),
{
    let mut list: Vec<usize> = Vec::new();
    let mut i: usize = 0;
    assert(doors@.take(0) =~= Seq::<(usize, DoorType)>::empty());
    while i < doors.len()
        invariant
            i <= doors.len(),
            list@ == entering(doors@.take(i as int)),
        decreases doors.len() - i,
    {
        proof {
            assert(doors@.take(i + 1).drop_last() =~= doors@.take(i as int));
            assert(doors@.take(i + 1).last() == doors@[i as int]);
        }
        if doors[i].1.is_in() {
            list.push(doors[i].0);
        }
        i = i + 1;
    }
    assert(doors@.take(i as int) =~= doors@);
    list
}

/// The states of `doors` through which a component is left.
pub fn leaving_list(doors: &Vec<(usize, DoorType)>) -> (list: Vec<usize>)
    ensures
        list@ == leaving(doors@),
{
    let mut list: Vec<usize> = Vec::new();
    let mut i: usize = 0;
    assert(doors@.take(0) =~= Seq::<(usize, DoorType)>::empty());
    while i < doors.len()
        invariant
            i <= doors.len(),
            list@ == leaving(doors@.take(i as int)),
        decreases doors.len() - i,
    {
        proof {
            assert(doors@.take(i + 1).drop_last() =~= doors@.take(i as int));
            assert(doors@.take(i + 1).last() == doors@[i as int]);
        }
        if doors[i].1.is_out() {
            list.push(doors[i].0);
        }
        i = i + 1;
    }
    assert(doors@.take(i as int) =~= doors@);
    list
}

/// The descriptions of a list of descriptions.
pub open spec fn views(parts: Seq<InnerAutomata>) -> Seq<Descriptor> {
    parts.map_values(|p: InnerAutomata| p@)
}

/// The lists of states of a list of descriptions.
pub open spec fn states_of(parts: Seq<Descriptor>) -> Seq<Seq<usize>> {
    parts.map_values(|p: Descriptor| p.states)
}

/// The states of the descriptions of the components are the components.
pub proof fn lemma_states_of_components(
    d: Descriptor,
    follows: Seq<(usize, char, usize)>,
    policy: DoorPolicy,
)
    ensures
        states_of(scc_descriptors(d, follows, policy)) == components(d.states, follows),
{
    assert(states_of(scc_descriptors(d, follows, policy)) =~= components(d.states, follows));
}

impl InnerAutomata {
    /// One description for each strongly connected component of this
    /// description with the transitions `follows`: its states are those of the
    /// component, its inputs the input doors and its outputs the output doors.
    /// Every state stands in one of them, and two states stand in the same
    /// one exactly if walks lead from each of them to the other.
    pub fn extract_scc(&self, follows: &Vec<(usize, char, usize)>, policy: DoorPolicy) -> (parts:
        Vec<InnerAutomata>)
        requires
            self.wf(),
        ensures
            views(parts@) == scc_descriptors(self@, follows@, policy),
            forall|i: int| 0 <= i < parts.len() ==> (#[trigger] parts[i]).wf(),
            forall|i: int, k: int|
                0 <= i < parts.len() && 0 <= k < parts[i]@.states.len()
                    ==> self@.states.contains(#[trigger] parts[i]@.states[k]),
            crate::dfs::is_permutation(states_of(views(parts@)).flatten(), self@.states),
            crate::scc::scattered(states_of(views(parts@))),
            divides(self@.states, follows@, states_of(views(parts@))),
    {
        let comps = self.kosaraju(follows);
        proof {
            lemma_states_of_components(self@, follows@, policy);
        }
        let mut parts: Vec<InnerAutomata> = Vec::new();
        let mut i: usize = 0;
        while i < comps.len()
            invariant
                i <= comps.len(),
                lists(comps@) == components(self@.states, follows@),
                crate::scc::scattered(lists(comps@)),
                forall|a: int, k: int|
                    0 <= a < comps.len() && 0 <= k < comps[a].len() ==> self@.states.contains(
                        #[trigger] comps[a][k],
                    ),
                crate::dfs::is_permutation(lists(comps@).flatten(), self@.states),
                states_of(scc_descriptors(self@, follows@, policy)) == components(
                    self@.states,
                    follows@,
                ),
                parts.len() == i,
                forall|a: int|
                    0 <= a < i ==> (#[trigger] parts[a])@ == part_descriptor(
                        self@,
                        follows@,
                        comps[a]@,
                        policy,
                    ) && parts[a].wf(),
            decreases comps.len() - i,
        {
            let doors = self.part_doors(follows, &comps[i], policy);
            let inputs = entering_list(&doors);
            let outputs = leaving_list(&doors);
            let states = copy(&comps[i]);
            proof {
                let part = comps[i as int]@;
                assert forall|a: int, b: int| 0 <= a < part.len() && 0 <= b < part.len() && a
                    != b implies part[a] != part[b] by {
                    assert(lists(comps@)[i as int][a] != lists(comps@)[i as int][b]);
                }
                lemma_part_wf(self@, follows@, part, policy);
            }
            let made = InnerAutomata::assemble(states, inputs, outputs);
            parts.push(made);
            i = i + 1;
        }
        proof {
            assert forall|a: int| 0 <= a < parts.len() implies views(parts@)[a] == scc_descriptors(
                self@,
                follows@,
                policy,
            )[a] by {
                assert(lists(comps@)[a] == comps[a]@);
            }
            assert(views(parts@) =~= scc_descriptors(self@, follows@, policy));
            assert forall|a: int, k: int|
                0 <= a < parts.len() && 0 <= k < parts[a]@.states.len()
                    implies self@.states.contains(#[trigger] parts[a]@.states[k]) by {
                assert(parts[a]@.states[k] == comps[a][k]);
            }
        }
        parts
    }
}

/// The first fault of the lists that describe a part of an automaton with the
/// states `known`.
pub open spec fn part_fault(
    known: Seq<usize>,
    states: Seq<usize>,
    inputs: Seq<usize>,
    outputs: Seq<usize>,
) -> Option<AutomataError> {
    match list_fault(
        states,
        known,
        known,
        AutomataError::UnknownState,
        AutomataError::UnknownState,
    ) {
        Some(e) => Some(e),
        None => match list_fault(
            inputs,
            known,
            states,
            AutomataError::UnknownState,
            AutomataError::InputStateIsNotInStates,
        ) {
            Some(e) => Some(e),
            None => list_fault(
                outputs,
                known,
                states,
                AutomataError::UnknownState,
                AutomataError::OutputStateIsNotInStates,
            ),
        },
    }
}

/// The first fault of a list of states of which an automaton with the states
/// `known` is to be copied: a repetition, else a state that is not known.
pub open spec fn copy_fault(known: Seq<usize>, states: Seq<usize>) -> Option<AutomataError> {
    if !states.no_duplicates() {
        Some(AutomataError::DuplicateState)
    } else if exists|i: int| 0 <= i < states.len() && !known.contains(#[trigger] states[i]) {
        Some(AutomataError::UnknownState)
    } else {
        None
    }
}

impl Automata {
    /// A copy of the automaton, without its parts.
    pub fn cloned(&self) -> (same: Automata)
        requires
            self.wf(),
        ensures
            same@ == (Model { inner: self@.inner, follows: self@.follows, childs: Seq::empty() }),
            same.wf(),
    {
        Automata::build(self.inner().duplicate(), copy_relation(self.transitions()))
    }

    /// The mirror of the automaton: the same states, initial and final states
    /// exchanged, and every transition turned round.
    pub fn mirror(&self) -> (back: Automata)
        requires
            self.wf(),
        ensures
            back@ == (Model {
                inner: self@.inner.mirror(),
                follows: flip(self@.follows),
                childs: Seq::empty(),
            }),
            back.wf(),
    {
        let mut inner = self.inner().duplicate();
        inner.mirror();
        let follows = flipped(self.transitions());
        proof {
            lemma_flip(self@.follows);
            assert forall|i: int| 0 <= i < follows@.len() implies inside(
                inner@.states,
                #[trigger] follows@[i],
            ) by {
                assert(follows@[i] == turned(self@.follows[i]));
                assert(inside(self@.inner.states, self@.follows[i]));
            }
        }
        Automata::build(inner, follows)
    }

    /// The mirror of the automaton.
    pub fn get_inverse(&self) -> (back: Automata)
        requires
            self.wf(),
        ensures
            back@ == (Model {
                inner: self@.inner.mirror(),
                follows: flip(self@.follows),
                childs: Seq::empty(),
            }),
            back.wf(),
    {
        self.mirror()
    }

    /// A copy of the automaton restricted to the states `states`: these
    /// states, the transitions between them, and neither initial nor final
    /// states.
    ///
    /// Fails with `DuplicateState` if `states` names a state twice, else with
    /// `UnknownState` if it names a state that the automaton has not.
    pub fn get_subautomata(&self, states: &Vec<usize>) -> (made: Result<Automata, AutomataError>)
        requires
            self.wf(),
        ensures
            match made {
                Ok(a) => copy_fault(self@.inner.states, states@) is None && a.wf() && a@ == (Model {
                    inner: Descriptor {
                        states: states@,
                        inputs: Seq::empty(),
                        outputs: Seq::empty(),
                    },
                    follows: restrict(self@.follows, states@),
                    childs: Seq::empty(),
                }),
                Err(e) => copy_fault(self@.inner.states, states@) == Some(e),
            },
    {
        if crate::labels::repeats(states) {
            return Err(AutomataError::DuplicateState);
        }
        let mut i: usize = 0;
        while i < states.len()
            invariant
                i <= states.len(),
                states@.no_duplicates(),
                forall|k: int| 0 <= k < i ==> self@.inner.states.contains(#[trigger] states[k]),
            decreases states.len() - i,
        {
            if !self.inner().is_state(states[i]) {
                assert(!self@.inner.states.contains(states@[i as int]));
                return Err(AutomataError::UnknownState);
            }
            i = i + 1;
        }
        let inner = InnerAutomata::assemble(copy(states), Vec::new(), Vec::new());
        let follows = restricted(self.transitions(), states);
        proof {
            lemma_restrict(self@.follows, states@);
        }
        Ok(Automata::build(inner, follows))
    }

    /// Makes the states `states` a part of the automaton, with the inputs
    /// `inputs` and the outputs `outputs`, and gives the handle for it.
    ///
    /// The three lists are read in this order, each from the left, and the
    /// first fault is reported: `UnknownState` for a state that the automaton
    /// has not, `InputStateIsNotInStates` or `OutputStateIsNotInStates` for an
    /// input or an output that is not among `states`, `DuplicateState` for a
    /// state that a list names twice.
    pub fn subautomata(&mut self, states: Vec<usize>, inputs: Vec<usize>, outputs: Vec<usize>) -> (made:
        Result<SubAutomata, AutomataError>)
        requires
            old(self).wf(),
        ensures
            final(self).wf(),
            final(self)@.inner == old(self)@.inner,
            final(self)@.follows == old(self)@.follows,
            match made {
                Ok(sub) => part_fault(old(self)@.inner.states, states@, inputs@, outputs@) is None
                    && sub.id() == old(self)@.childs.len() && final(self)@.childs == old(
                    self,
                )@.childs.push(Descriptor { states: states@, inputs: inputs@, outputs: outputs@ }),
                Err(e) => part_fault(old(self)@.inner.states, states@, inputs@, outputs@) == Some(e)
                    && final(self)@ == old(self)@,
            },
    {
        let known = self.inner().states();
        if let Some(e) = check_list(
            &states,
            &known,
            &known,
            AutomataError::UnknownState,
            AutomataError::UnknownState,
        ) {
            return Err(e);
        }
        if let Some(e) = check_list(
            &inputs,
            &known,
            &states,
            AutomataError::UnknownState,
            AutomataError::InputStateIsNotInStates,
        ) {
            return Err(e);
        }
        if let Some(e) = check_list(
            &outputs,
            &known,
            &states,
            AutomataError::UnknownState,
            AutomataError::OutputStateIsNotInStates,
        ) {
            return Err(e);
        }
        proof {
            let unknown = AutomataError::UnknownState;
            lemma_no_fault(states@, known@, known@, unknown, unknown);
            lemma_no_fault(
                inputs@,
                known@,
                states@,
                unknown,
                AutomataError::InputStateIsNotInStates,
            );
            lemma_no_fault(
                outputs@,
                known@,
                states@,
                unknown,
                AutomataError::OutputStateIsNotInStates,
            );
        }
        let part = InnerAutomata::assemble(states, inputs, outputs);
        Ok(self.adopt(part))
    }

    /// Makes each strongly connected component a part of the automaton: its
    /// states are those of the component, its inputs the input doors and its
    /// outputs the output doors. Gives the handles, in the order of the
    /// components. Every state stands in one of the new parts, and two states
    /// stand in the same one exactly if walks lead from each of them to the
    /// other.
    pub fn extract_scc(&mut self, policy: DoorPolicy) -> (subs: Vec<SubAutomata>)
        requires
            old(self).wf(),
        ensures
            final(self).wf(),
            final(self)@.inner == old(self)@.inner,
            final(self)@.follows == old(self)@.follows,
            final(self)@.childs == old(self)@.childs + scc_descriptors(
                old(self)@.inner,
                old(self)@.follows,
                policy,
            ),
            subs.len() == scc_descriptors(old(self)@.inner, old(self)@.follows, policy).len(),
            forall|i: int| 0 <= i < subs.len() ==> (#[trigger] subs[i]).id() == old(
                self,
            )@.childs.len() + i,
            crate::dfs::is_permutation(
                states_of(
                    scc_descriptors(old(self)@.inner, old(self)@.follows, policy),
                ).flatten(),
                old(self)@.inner.states,
            ),
            crate::scc::scattered(
                states_of(scc_descriptors(old(self)@.inner, old(self)@.follows, policy)),
            ),
            divides(
                old(self)@.inner.states,
                old(self)@.follows,
                states_of(scc_descriptors(old(self)@.inner, old(self)@.follows, policy)),
            ),
    {
        let ghost before = self@;
        let ghost wanted = scc_descriptors(before.inner, before.follows, policy);
        let parts = self.inner().extract_scc(self.transitions(), policy);
        let mut subs: Vec<SubAutomata> = Vec::new();
        let mut i: usize = 0;
        assert(before.childs + wanted.take(0) =~= before.childs);
        while i < parts.len()
            invariant
                i <= parts.len(),
                self.wf(),
                self@.inner == before.inner,
                self@.follows == before.follows,
                views(parts@) == wanted,
                self@.childs == before.childs + wanted.take(i as int),
                forall|a: int| 0 <= a < parts.len() ==> (#[trigger] parts[a]).wf(),
                forall|a: int, k: int|
                    0 <= a < parts.len() && 0 <= k < parts[a]@.states.len()
                        ==> before.inner.states.contains(#[trigger] parts[a]@.states[k]),
                subs.len() == i,
                forall|a: int| 0 <= a < i ==> (#[trigger] subs[a]).id() == before.childs.len() + a,
            decreases parts.len() - i,
        {
            let part = parts[i].duplicate();
            proof {
                assert(parts[i as int].wf());
                assert(part@ == wanted[i as int]);
                assert forall|k: int| 0 <= k < part@.states.len() implies self@.inner.states.contains(
                    #[trigger] part@.states[k],
                ) by {
                    assert(before.inner.states.contains(parts[i as int]@.states[k]));
                }
            }
            let sub = self.adopt(part);
            subs.push(sub);
            proof {
                assert(wanted.take(i + 1) =~= wanted.take(i as int).push(wanted[i as int]));
                assert(before.childs + wanted.take(i + 1) =~= (before.childs + wanted.take(
                    i as int,
                )).push(wanted[i as int]));
            }
            i = i + 1;
        }
        assert(wanted.take(i as int) =~= wanted);
        subs
    }
}

} // verus!
