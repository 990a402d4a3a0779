//! The description of an automaton, or of a part of one: which states it has,
//! and which of them are inputs and outputs.
//!
//! States are known by their labels. The transitions are not kept here: they
//! belong to the automaton as a whole, so that every part of it reads the same
//! relation, restricted to its own states.

use vstd::prelude::*;
use crate::error::AutomataError;
use crate::labels::{copy, holds, lemma_without, position, take_out, without};

verus! {

/// A state: its place among the states of an automaton, and its label.
#[derive(Debug, Clone, Copy, PartialEq, Eq, Structural)]
pub struct State {
    pub index: usize,
    pub value: usize,
}

impl State {
    /// The state with the label `value` at the place `index`.
    pub fn new(index: usize, value: usize) -> (state: State)
        ensures
            state.index == index,
            state.value == value,
    {
        State { index, value }
    }

    /// The label of the state.
    pub fn get_value(&self) -> (value: usize)
        ensures
            value == self.value,
    {
        self.value
    }

    /// The place of the state.
    pub fn get_index(&self) -> (index: usize)
        ensures
            index == self.index,
    {
        self.index
    }
}

/// What an [`InnerAutomata`] stands for: three lists of labels.
pub struct Descriptor {
    pub states: Seq<usize>,
    pub inputs: Seq<usize>,
    pub outputs: Seq<usize>,
}

impl Descriptor {
    /// No list names a state twice, and inputs and outputs are states.
    pub open spec fn wf(self) -> bool {
        &&& self.states.no_duplicates()
        &&& self.inputs.no_duplicates()
        &&& self.outputs.no_duplicates()
        &&& forall|i: int| 0 <= i < self.inputs.len() ==> self.states.contains(#[trigger] self.inputs[i])
        &&& forall|i: int|
            0 <= i < self.outputs.len() ==> self.states.contains(#[trigger] self.outputs[i])
    }

    /// The description without states.
    pub open spec fn empty() -> Descriptor {
        Descriptor { states: Seq::empty(), inputs: Seq::empty(), outputs: Seq::empty() }
    }

    /// The description without the state `value`.
    pub open spec fn remove(self, value: usize) -> Descriptor {
        Descriptor {
            states: without(self.states, value),
            inputs: without(self.inputs, value),
            outputs: without(self.outputs, value),
        }
    }

    /// The description with inputs and outputs exchanged.
    pub open spec fn mirror(self) -> Descriptor {
        Descriptor { states: self.states, inputs: self.outputs, outputs: self.inputs }
    }
}

/// The first fault of a list of labels, read from the left: a label that is
/// not in `known` gives `unknown`, one that is not in `within` gives
/// `outside`, and one that stood in the list before gives `DuplicateState`.
pub open spec fn list_fault(
    list: Seq<usize>,
    known: Seq<usize>,
    within: Seq<usize>,
    unknown: AutomataError,
    outside: AutomataError,
) -> Option<AutomataError>
    decreases list.len(),
{
    if list.len() == 0 {
        None
    } else {
        match list_fault(list.drop_last(), known, within, unknown, outside) {
            Some(e) => Some(e),
            None => if !known.contains(list.last()) {
                Some(unknown)
            } else if !within.contains(list.last()) {
                Some(outside)
            } else if list.drop_last().contains(list.last()) {
                Some(AutomataError::DuplicateState)
            } else {
                None
            },
        }
    }
}

/// A list without fault has no repetition and lies within both lists.
pub proof fn lemma_no_fault(
    list: Seq<usize>,
    known: Seq<usize>,
    within: Seq<usize>,
    unknown: AutomataError,
    outside: AutomataError,
)
    requires
        list_fault(list, known, within, unknown, outside) is None,
    ensures
        list.no_duplicates(),
        forall|i: int| 0 <= i < list.len() ==> known.contains(#[trigger] list[i]),
        forall|i: int| 0 <= i < list.len() ==> within.contains(#[trigger] list[i]),
    decreases list.len(),
{
    if list.len() > 0 {
        let front = list.drop_last();
        lemma_no_fault(front, known, within, unknown, outside);
        assert forall|i: int, j: int| 0 <= i < list.len() && 0 <= j < list.len() && i != j implies list[i]
            != list[j] by {
            if i < front.len() && j < front.len() {
                assert(front[i] != front[j]);
            } else if i < front.len() {
                assert(front[i] == list[i]);
            } else {
                assert(front[j] == list[j]);
            }
        }
        assert forall|i: int| 0 <= i < list.len() implies known.contains(#[trigger] list[i])
            && within.contains(list[i]) by {
            if i < front.len() {
                assert(front[i] == list[i]);
            }
        }
    }
}

/// Reads `list` from the left and reports its first fault.
pub fn check_list(
    list: &Vec<usize>,
    known: &Vec<usize>,
    within: &Vec<usize>,
    unknown: AutomataError,
    outside: AutomataError,
) -> (fault: Option<AutomataError>)
    ensures
        fault == list_fault(list@, known@, within@, unknown, outside),
{
    let mut i: usize = 0;
    while i < list.len()
        invariant
            i <= list.len(),
            list_fault(list@.take(i as int), known@, within@, unknown, outside) is None,
        decreases list.len() - i,
    {
        let value = list[i];
        let ghost upto = list@.take(i + 1);
        proof {
            assert(upto.drop_last() =~= list@.take(i as int));
            assert(upto.last() == value);
        }
        if !holds(known, value) {
            proof {
                lemma_fault_stays(list@, i + 1, known@, within@, unknown, outside);
            }
            return Some(unknown);
        }
        if !holds(within, value) {
            proof {
                lemma_fault_stays(list@, i + 1, known@, within@, unknown, outside);
            }
            return Some(outside);
        }
        let mut k: usize = 0;
        while k < i
            invariant
                k <= i,
                i < list.len(),
                value == list[i as int],
                known@.contains(value),
                within@.contains(value),
                list_fault(list@.take(i as int), known@, within@, unknown, outside) is None,
                forall|j: int| 0 <= j < k ==> list[j] != value,
            decreases i - k,
        {
            if list[k] == value {
                proof {
                    assert(list@.take(i + 1).drop_last() =~= list@.take(i as int));
                    assert(list@.take(i + 1).last() == value);
                    assert(list@.take(i as int)[k as int] == value);
                    lemma_fault_stays(list@, i + 1, known@, within@, unknown, outside);
                }
                return Some(AutomataError::DuplicateState);
            }
            k = k + 1;
        }
        proof {
            assert(!list@.take(i as int).contains(value)) by {
                if list@.take(i as int).contains(value) {
                    let j = choose|j: int|
                        0 <= j < list@.take(i as int).len() && list@.take(i as int)[j] == value;
                    assert(list[j] != value);
                }
            }
        }
        i = i + 1;
    }
    assert(list@.take(i as int) =~= list@);
    None
}

/// A fault found in the first `i` labels is the fault of the whole list.
proof fn lemma_fault_stays(
    list: Seq<usize>,
    i: int,
    known: Seq<usize>,
    within: Seq<usize>,
    unknown: AutomataError,
    outside: AutomataError,
)
    requires
        0 <= i <= list.len(),
        list_fault(list.take(i), known, within, unknown, outside) is Some,
    ensures
        list_fault(list, known, within, unknown, outside) == list_fault(
            list.take(i),
            known,
            within,
            unknown,
            outside,
        ),
    decreases list.len() - i,
{
    if i < list.len() {
        assert(list.take(i + 1).drop_last() =~= list.take(i));
        lemma_fault_stays(list, i + 1, known, within, unknown, outside);
    } else {
        assert(list.take(i) =~= list);
    }
}

/// The states of an automaton, or of a part of one, with its inputs and
/// outputs.
#[derive(Debug)]
pub struct InnerAutomata {
    states: Vec<usize>,
    inputs: Vec<usize>,
    outputs: Vec<usize>,
}

impl View for InnerAutomata {
    type V = Descriptor;

    closed spec fn view(&self) -> Descriptor {
        Descriptor { states: self.states@, inputs: self.inputs@, outputs: self.outputs@ }
    }
}

impl InnerAutomata {
    /// The lists name no state twice, and inputs and outputs are states.
    pub open spec fn wf(&self) -> bool {
        self@.wf()
    }

    /// The description without states.
    pub fn new() -> (made: InnerAutomata)
        ensures
            made@ == Descriptor::empty(),
            made.wf(),
    {
        InnerAutomata { states: Vec::new(), inputs: Vec::new(), outputs: Vec::new() }
    }

    /// The description with the states `states`, of which `inputs` are the
    /// inputs and `outputs` the outputs.
    ///
    /// Fails with `DuplicateState` if a list names a state twice, with
    /// `InputStateIsNotInStates` or `OutputStateIsNotInStates` if an input or
    /// an output is not among `states`. The lists are read in this order, each
    /// from the left, and the first fault is reported.
    pub fn create(states: Vec<usize>, inputs: Vec<usize>, outputs: Vec<usize>) -> (made: Result<
        InnerAutomata,
        AutomataError,
    >)
        ensures
            match made {
                Ok(a) => a@ == (Descriptor {
                    states: states@,
                    inputs: inputs@,
                    outputs: outputs@,
                }) && a.wf() && Self::create_fault(states@, inputs@, outputs@) is None,
                Err(e) => Self::create_fault(states@, inputs@, outputs@) == Some(e),
            },
    {
        if let Some(e) = check_list(
            &states,
            &states,
            &states,
            AutomataError::DuplicateState,
            AutomataError::DuplicateState,
        ) {
            return Err(e);
        }
        if let Some(e) = check_list(
            &inputs,
            &states,
            &states,
            AutomataError::InputStateIsNotInStates,
            AutomataError::InputStateIsNotInStates,
        ) {
            return Err(e);
        }
        if let Some(e) = check_list(
            &outputs,
            &states,
            &states,
            AutomataError::OutputStateIsNotInStates,
            AutomataError::OutputStateIsNotInStates,
        ) {
            return Err(e);
        }
        proof {
            lemma_no_fault(
                states@,
                states@,
                states@,
                AutomataError::DuplicateState,
                AutomataError::DuplicateState,
            );
            lemma_no_fault(
                inputs@,
                states@,
                states@,
                AutomataError::InputStateIsNotInStates,
                AutomataError::InputStateIsNotInStates,
            );
            lemma_no_fault(
                outputs@,
                states@,
                states@,
                AutomataError::OutputStateIsNotInStates,
                AutomataError::OutputStateIsNotInStates,
            );
        }
        Ok(InnerAutomata { states, inputs, outputs })
    }

    /// The first fault of the three lists given to [`InnerAutomata::create`].
    pub open spec fn create_fault(
        states: Seq<usize>,
        inputs: Seq<usize>,
        outputs: Seq<usize>,
    ) -> Option<AutomataError> {
        match list_fault(
            states,
            states,
            states,
            AutomataError::DuplicateState,
            AutomataError::DuplicateState,
        ) {
            Some(e) => Some(e),
            None => match list_fault(
                inputs,
                states,
                states,
                AutomataError::InputStateIsNotInStates,
                AutomataError::InputStateIsNotInStates,
            ) {
                Some(e) => Some(e),
                None => list_fault(
                    outputs,
                    states,
                    states,
                    AutomataError::OutputStateIsNotInStates,
                    AutomataError::OutputStateIsNotInStates,
                ),
            },
        }
    }

    /// The description from three lists that are known to be without fault.
    pub(crate) fn assemble(states: Vec<usize>, inputs: Vec<usize>, outputs: Vec<usize>) -> (made:
        InnerAutomata)
        requires
            (Descriptor { states: states@, inputs: inputs@, outputs: outputs@ }).wf(),
        ensures
            made@ == (Descriptor { states: states@, inputs: inputs@, outputs: outputs@ }),
            made.wf(),
    {
        InnerAutomata { states, inputs, outputs }
    }

    /// The number of states.
    pub fn states_count(&self) -> (count: usize)
        ensures
            count == self@.states.len(),
    {
        self.states.len()
    }

    /// The number of inputs.
    pub fn inputs_count(&self) -> (count: usize)
        ensures
            count == self@.inputs.len(),
    {
        self.inputs.len()
    }

    /// The number of outputs.
    pub fn outputs_count(&self) -> (count: usize)
        ensures
            count == self@.outputs.len(),
    {
        self.outputs.len()
    }

    /// Whether the state with the label `value` is an input.
    pub fn is_input(&self, value: usize) -> (found: bool)
        ensures
            found == self@.inputs.contains(value),
    {
        holds(&self.inputs, value)
    }

    /// Whether the state with the label `value` is an output.
    pub fn is_output(&self, value: usize) -> (found: bool)
        ensures
            found == self@.outputs.contains(value),
    {
        holds(&self.outputs, value)
    }

    /// Whether there is a state with the label `value`.
    pub fn is_state(&self, value: usize) -> (found: bool)
        ensures
            found == self@.states.contains(value),
    {
        holds(&self.states, value)
    }

    /// The labels of the states, in the order in which they were added.
    pub fn states(&self) -> (list: Vec<usize>)
        ensures
            list@ == self@.states,
    {
        copy(&self.states)
    }

    /// The labels of the inputs, in the order in which they were added.
    pub fn inputs(&self) -> (list: Vec<usize>)
        ensures
            list@ == self@.inputs,
    {
        copy(&self.inputs)
    }

    /// The labels of the outputs, in the order in which they were added.
    pub fn outputs(&self) -> (list: Vec<usize>)
        ensures
            list@ == self@.outputs,
    {
        copy(&self.outputs)
    }

    /// The list of the states, as it is kept.
    pub(crate) fn labels(&self) -> (list: &Vec<usize>)
        ensures
            list@ == self@.states,
    {
        &self.states
    }

    /// The list of the inputs, as it is kept.
    pub(crate) fn entries(&self) -> (list: &Vec<usize>)
        ensures
            list@ == self@.inputs,
    {
        &self.inputs
    }

    /// The list of the outputs, as it is kept.
    pub(crate) fn exits(&self) -> (list: &Vec<usize>)
        ensures
            list@ == self@.outputs,
    {
        &self.outputs
    }

    /// Adds a state with the label `value`, unless there is one. Says whether
    /// the state is new.
    pub fn add_state(&mut self, value: usize) -> (added: bool)
        requires
            old(self).wf(),
        ensures
            final(self).wf(),
            added == !old(self)@.states.contains(value),
            final(self)@.states == (if added {
                old(self)@.states.push(value)
            } else {
                old(self)@.states
            }),
            final(self)@.inputs == old(self)@.inputs,
            final(self)@.outputs == old(self)@.outputs,
    {
        if holds(&self.states, value) {
            return false;
        }
        let ghost before = self.states@;
        self.states.push(value);
        proof {
            assert forall|i: int| 0 <= i < self.inputs@.len() implies self.states@.contains(
                #[trigger] self.inputs@[i],
            ) by {
                lemma_still_holds(before, value, self.inputs@[i]);
            }
            assert forall|i: int| 0 <= i < self.outputs@.len() implies self.states@.contains(
                #[trigger] self.outputs@[i],
            ) by {
                lemma_still_holds(before, value, self.outputs@[i]);
            }
        }
        true
    }

    /// Makes the state with the label `value` an input. Says whether this is
    /// new: `false` if it was an input already, or if there is no such state.
    pub fn add_input(&mut self, value: usize) -> (added: bool)
        requires
            old(self).wf(),
        ensures
            final(self).wf(),
            added == (old(self)@.states.contains(value) && !old(self)@.inputs.contains(value)),
            final(self)@.inputs == (if added {
                old(self)@.inputs.push(value)
            } else {
                old(self)@.inputs
            }),
            final(self)@.states == old(self)@.states,
            final(self)@.outputs == old(self)@.outputs,
    {
        if !holds(&self.states, value) || holds(&self.inputs, value) {
            return false;
        }
        self.inputs.push(value);
        true
    }

    /// Makes the state with the label `value` an output. Says whether this is
    /// new: `false` if it was an output already, or if there is no such state.
    pub fn add_output(&mut self, value: usize) -> (added: bool)
        requires
            old(self).wf(),
        ensures
            final(self).wf(),
            added == (old(self)@.states.contains(value) && !old(self)@.outputs.contains(value)),
            final(self)@.outputs == (if added {
                old(self)@.outputs.push(value)
            } else {
                old(self)@.outputs
            }),
            final(self)@.states == old(self)@.states,
            final(self)@.inputs == old(self)@.inputs,
    {
        if !holds(&self.states, value) || holds(&self.outputs, value) {
            return false;
        }
        self.outputs.push(value);
        true
    }

    /// Removes the state with the label `value`, also from the inputs and the
    /// outputs. Says whether there was such a state.
    pub fn remove_state(&mut self, value: usize) -> (removed: bool)
        requires
            old(self).wf(),
        ensures
            final(self).wf(),
            removed == old(self)@.states.contains(value),
            final(self)@ == old(self)@.remove(value),
    {
        proof {
            lemma_remove_wf(self@, value);
        }
        let removed = take_out(&mut self.states, value);
        take_out(&mut self.inputs, value);
        take_out(&mut self.outputs, value);
        removed
    }

    /// Makes the state with the label `value` no input any more. Says whether
    /// it was one.
    pub fn remove_input(&mut self, value: usize) -> (removed: bool)
        requires
            old(self).wf(),
        ensures
            final(self).wf(),
            removed == old(self)@.inputs.contains(value),
            final(self)@.inputs == without(old(self)@.inputs, value),
            final(self)@.states == old(self)@.states,
            final(self)@.outputs == old(self)@.outputs,
    {
        proof {
            lemma_without(self.inputs@, value);
            lemma_without_within(self.inputs@, value, self.states@);
        }
        take_out(&mut self.inputs, value)
    }

    /// Makes the state with the label `value` no output any more. Says
    /// whether it was one.
    pub fn remove_output(&mut self, value: usize) -> (removed: bool)
        requires
            old(self).wf(),
        ensures
            final(self).wf(),
            removed == old(self)@.outputs.contains(value),
            final(self)@.outputs == without(old(self)@.outputs, value),
            final(self)@.states == old(self)@.states,
            final(self)@.inputs == old(self)@.inputs,
    {
        proof {
            lemma_without(self.outputs@, value);
            lemma_without_within(self.outputs@, value, self.states@);
        }
        take_out(&mut self.outputs, value)
    }

    /// Exchanges inputs and outputs.
    pub fn mirror(&mut self)
        requires
            old(self).wf(),
        ensures
            final(self).wf(),
            final(self)@ == old(self)@.mirror(),
    {
        let inputs = copy(&self.inputs);
        let outputs = copy(&self.outputs);
        self.inputs = outputs;
        self.outputs = inputs;
    }

    /// The state with the label `value`, if there is one.
    pub fn get_state(&self, value: usize) -> (state: Option<State>)
        ensures
            match state {
                Some(s) => s.value == value && s.index < self@.states.len()
                    && self@.states[s.index as int] == value,
                None => !self@.states.contains(value),
            },
    {
        match position(&self.states, value) {
            Some(index) => Some(State::new(index, value)),
            None => None,
        }
    }

    /// The state with the label `value`, if it is an input.
    pub fn get_input(&self, value: usize) -> (state: Option<State>)
        ensures
            match state {
                Some(s) => s.value == value && s.index < self@.states.len()
                    && self@.states[s.index as int] == value && self@.inputs.contains(value),
                None => !self@.inputs.contains(value) || !self@.states.contains(value),
            },
    {
        if holds(&self.inputs, value) {
            self.get_state(value)
        } else {
            None
        }
    }

    /// The state with the label `value`, if it is an output.
    pub fn get_output(&self, value: usize) -> (state: Option<State>)
        ensures
            match state {
                Some(s) => s.value == value && s.index < self@.states.len()
                    && self@.states[s.index as int] == value && self@.outputs.contains(value),
                None => !self@.outputs.contains(value) || !self@.states.contains(value),
            },
    {
        if holds(&self.outputs, value) {
            self.get_state(value)
        } else {
            None
        }
    }

    /// A copy of the description.
    pub fn duplicate(&self) -> (same: InnerAutomata)
        ensures
            same@ == self@,
    {
        InnerAutomata {
            states: copy(&self.states),
            inputs: copy(&self.inputs),
            outputs: copy(&self.outputs),
        }
    }
}

/// What a list held, it holds after a push.
pub proof fn lemma_still_holds(list: Seq<usize>, pushed: usize, value: usize)
    requires
        list.contains(value),
    ensures
        list.push(pushed).contains(value),
{
    let i = choose|i: int| 0 <= i < list.len() && list[i] == value;
    assert(list.push(pushed)[i] == value);
}

/// A list that lies within another one still does after a label was taken
/// out of it.
pub proof fn lemma_without_within(list: Seq<usize>, value: usize, within: Seq<usize>)
    requires
        list.no_duplicates(),
        forall|i: int| 0 <= i < list.len() ==> within.contains(#[trigger] list[i]),
    ensures
        forall|i: int|
            0 <= i < without(list, value).len() ==> within.contains(
                #[trigger] without(list, value)[i],
            ),
{
    lemma_without(list, value);
    assert forall|i: int| 0 <= i < without(list, value).len() implies within.contains(
        #[trigger] without(list, value)[i],
    ) by {
        let x = without(list, value)[i];
        assert(without(list, value).contains(x));
        assert(list.contains(x));
        let k = choose|k: int| 0 <= k < list.len() && list[k] == x;
        assert(within.contains(list[k]));
    }
}

/// A description stays well-formed when a state is removed from it.
pub proof fn lemma_remove_wf(d: Descriptor, value: usize)
    requires
        d.wf(),
    ensures
        d.remove(value).wf(),
{
    let r = d.remove(value);
    lemma_without(d.states, value);
    lemma_without(d.inputs, value);
    lemma_without(d.outputs, value);
    assert forall|i: int| 0 <= i < r.inputs.len() implies r.states.contains(
        #[trigger] r.inputs[i],
    ) by {
        let x = r.inputs[i];
        assert(r.inputs.contains(x));
        assert(d.inputs.contains(x));
        let k = choose|k: int| 0 <= k < d.inputs.len() && d.inputs[k] == x;
        assert(d.states.contains(d.inputs[k]));
    }
    assert forall|i: int| 0 <= i < r.outputs.len() implies r.states.contains(
        #[trigger] r.outputs[i],
    ) by {
        let x = r.outputs[i];
        assert(r.outputs.contains(x));
        assert(d.outputs.contains(x));
        let k = choose|k: int| 0 <= k < d.outputs.len() && d.outputs[k] == x;
        assert(d.states.contains(d.outputs[k]));
    }
}

} // verus!
