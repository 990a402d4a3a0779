//! The stored form of an automaton: the list of its states, the lists of its
//! initial and final states, and the list of its transitions.
//!
//! An automaton is rebuilt from its stored form only if the form is sound:
//! no state is listed twice, and every initial state, every final state and
//! both ends of every transition are listed states.

use vstd::prelude::*;
use crate::automata::{Automata, Model};
use crate::error::AutomataError;
use crate::relation::copy_relation;

verus! {

/// The stored form of an automaton.
#[derive(Debug)]
pub struct Schema {
    /// The labels of the states.
    pub states: Vec<usize>,
    /// The labels of the initial states.
    pub initials: Vec<usize>,
    /// The labels of the final states.
    pub finals: Vec<usize>,
    /// The transitions: source, symbol, destination.
    pub follows: Vec<(usize, char, usize)>,
}

/// The elements of `list`, each at the place of its first occurrence.
pub open spec fn distinct<A>(list: Seq<A>) -> Seq<A>
    decreases list.len(),
{
    if list.len() == 0 {
        list
    } else if distinct(list.drop_last()).contains(list.last()) {
        distinct(list.drop_last())
    } else {
        distinct(list.drop_last()).push(list.last())
    }
}

/// The fault of the first transition of `follows` that has an end outside
/// `states`: `UnknownStateTo` for the destination, else `UnknownStateFrom`.
pub open spec fn follows_fault(states: Seq<usize>, follows: Seq<(usize, char, usize)>) -> Option<
    AutomataError,
>
    decreases follows.len(),
{
    if follows.len() == 0 {
        None
    } else {
        match follows_fault(states, follows.drop_last()) {
            Some(e) => Some(e),
            None => if !states.contains(follows.last().2) {
                Some(AutomataError::UnknownStateTo)
            } else if !states.contains(follows.last().0) {
                Some(AutomataError::UnknownStateFrom)
            } else {
                None
            },
        }
    }
}

/// Whether every label of `list` is in `states`.
pub open spec fn all_known(states: Seq<usize>, list: Seq<usize>) -> bool {
    forall|i: int| 0 <= i < list.len() ==> states.contains(#[trigger] list[i])
}

/// The first fault of a stored form, read in the order of its four lists.
pub open spec fn schema_fault(
    states: Seq<usize>,
    initials: Seq<usize>,
    finals: Seq<usize>,
    follows: Seq<(usize, char, usize)>,
) -> Option<AutomataError> {
    if !states.no_duplicates() {
        Some(AutomataError::DuplicateState)
    } else if !all_known(states, initials) {
        Some(AutomataError::InputStateIsNotInStates)
    } else if !all_known(states, finals) {
        Some(AutomataError::OutputStateIsNotInStates)
    } else {
        follows_fault(states, follows)
    }
}

/// A fault among the first transitions is the fault of the whole list.
proof fn lemma_follows_fault_stays(states: Seq<usize>, follows: Seq<(usize, char, usize)>, i: int)
    requires
        0 <= i <= follows.len(),
        follows_fault(states, follows.take(i)) is Some,
    ensures
        follows_fault(states, follows) == follows_fault(states, follows.take(i)),
    decreases follows.len() - i,
{
    if i < follows.len() {
        assert(follows.take(i + 1).drop_last() =~= follows.take(i));
        lemma_follows_fault_stays(states, follows, i + 1);
    } else {
        assert(follows.take(i) =~= follows);
    }
}

impl Automata {
    /// The stored form of the automaton, without its parts.
    pub fn to_schema(&self) -> (schema: Schema)
        ensures
            schema.states@ == self@.inner.states,
            schema.initials@ == self@.inner.inputs,
            schema.finals@ == self@.inner.outputs,
            schema.follows@ == self@.follows,
    {
        Schema {
            states: self.get_states(),
            initials: self.get_initials(),
            finals: self.get_finals(),
            follows: copy_relation(self.transitions()),
        }
    }

    /// The automaton of a stored form, if the form is sound.
    ///
    /// Fails with `DuplicateState` if a state is listed twice, with
    /// `InputStateIsNotInStates` or `OutputStateIsNotInStates` if an initial or
    /// a final state is no listed state, and with `UnknownStateTo` or
    /// `UnknownStateFrom` if the destination or the source of a transition is
    /// none. An initial state, a final state or a transition that is listed
    /// twice counts once.
    pub fn from_schema(schema: &Schema) -> (made: Result<Automata, AutomataError>)
        ensures
            match made {
                Ok(a) => {
                    &&& schema_fault(
                        schema.states@,
                        schema.initials@,
                        schema.finals@,
                        schema.follows@,
                    ) is None
                    &&& a.wf()
                    &&& a@ == (Model {
                        inner: crate::inner::Descriptor {
                            states: schema.states@,
                            inputs: distinct(schema.initials@),
                            outputs: distinct(schema.finals@),
                        },
                        follows: distinct(schema.follows@),
                        childs: Seq::empty(),
                    })
                },
                Err(e) => schema_fault(
                    schema.states@,
                    schema.initials@,
                    schema.finals@,
                    schema.follows@,
                ) == Some(e),
            },
    {
        let mut a = Automata::new();
        let ghost nothing = a@;
        let mut i: usize = 0;
        assert(schema.states@.take(0) =~= Seq::<usize>::empty());
        while i < schema.states.len()
            invariant
                i <= schema.states.len(),
                a.wf(),
                a@.inner.states == schema.states@.take(i as int),
                a@.inner.states.no_duplicates(),
                a@.inner.inputs == nothing.inner.inputs,
                a@.inner.outputs == nothing.inner.outputs,
                a@.follows == nothing.follows,
                a@.childs == nothing.childs,
                nothing == Model::empty(),
            decreases schema.states.len() - i,
        {
            let added = a.add_state(schema.states[i]);
            if !added {
                proof {
                    let x = schema.states@[i as int];
                    let k = choose|k: int|
                        0 <= k < i && schema.states@.take(i as int)[k] == x;
                    assert(schema.states@[k] == schema.states@[i as int]);
                }
                return Err(AutomataError::DuplicateState);
            }
            assert(schema.states@.take(i + 1) =~= schema.states@.take(i as int).push(
                schema.states@[i as int],
            ));
            i = i + 1;
        }
        assert(schema.states@.take(i as int) =~= schema.states@);
        let mut j: usize = 0;
        assert(schema.initials@.take(0) =~= Seq::<usize>::empty());
        while j < schema.initials.len()
            invariant
                j <= schema.initials.len(),
                a.wf(),
                a@.inner.states == schema.states@,
                schema.states@.no_duplicates(),
                a@.inner.inputs == distinct(schema.initials@.take(j as int)),
                all_known(schema.states@, schema.initials@.take(j as int)),
                a@.inner.outputs == nothing.inner.outputs,
                a@.follows == nothing.follows,
                a@.childs == nothing.childs,
                nothing == Model::empty(),
            decreases schema.initials.len() - j,
        {
            proof {
                assert(schema.initials@.take(j + 1).drop_last() =~= schema.initials@.take(j as int));
                assert(schema.initials@.take(j + 1).last() == schema.initials@[j as int]);
            }
            match a.add_initial(schema.initials[j]) {
                Ok(_) => {},
                Err(_) => {
                    assert(!all_known(schema.states@, schema.initials@));
                    return Err(AutomataError::InputStateIsNotInStates);
                },
            }
            proof {
                let now = schema.initials@.take(j + 1);
                assert forall|k: int| 0 <= k < now.len() implies schema.states@.contains(
                    #[trigger] now[k],
                ) by {
                    if k < j {
                        assert(schema.initials@.take(j as int)[k] == now[k]);
                    }
                }
            }
            j = j + 1;
        }
        assert(schema.initials@.take(j as int) =~= schema.initials@);
        let mut k: usize = 0;
        assert(schema.finals@.take(0) =~= Seq::<usize>::empty());
        while k < schema.finals.len()
            invariant
                k <= schema.finals.len(),
                a.wf(),
                a@.inner.states == schema.states@,
                schema.states@.no_duplicates(),
                all_known(schema.states@, schema.initials@),
                a@.inner.inputs == distinct(schema.initials@),
                a@.inner.outputs == distinct(schema.finals@.take(k as int)),
                all_known(schema.states@, schema.finals@.take(k as int)),
                a@.follows == nothing.follows,
                a@.childs == nothing.childs,
                nothing == Model::empty(),
            decreases schema.finals.len() - k,
        {
            proof {
                assert(schema.finals@.take(k + 1).drop_last() =~= schema.finals@.take(k as int));
                assert(schema.finals@.take(k + 1).last() == schema.finals@[k as int]);
            }
            match a.add_final(schema.finals[k]) {
                Ok(_) => {},
                Err(_) => {
                    assert(!all_known(schema.states@, schema.finals@));
                    return Err(AutomataError::OutputStateIsNotInStates);
                },
            }
            proof {
                let now = schema.finals@.take(k + 1);
                assert forall|x: int| 0 <= x < now.len() implies schema.states@.contains(
                    #[trigger] now[x],
                ) by {
                    if x < k {
                        assert(schema.finals@.take(k as int)[x] == now[x]);
                    }
                }
            }
            k = k + 1;
        }
        assert(schema.finals@.take(k as int) =~= schema.finals@);
        let mut m: usize = 0;
        assert(schema.follows@.take(0) =~= Seq::<(usize, char, usize)>::empty());
        while m < schema.follows.len()
            invariant
                m <= schema.follows.len(),
                a.wf(),
                a@.inner.states == schema.states@,
                schema.states@.no_duplicates(),
                all_known(schema.states@, schema.initials@),
                all_known(schema.states@, schema.finals@),
                a@.inner.inputs == distinct(schema.initials@),
                a@.inner.outputs == distinct(schema.finals@),
                a@.follows == distinct(schema.follows@.take(m as int)),
                follows_fault(schema.states@, schema.follows@.take(m as int)) is None,
                a@.childs == nothing.childs,
                nothing == Model::empty(),
            decreases schema.follows.len() - m,
        {
            proof {
                assert(schema.follows@.take(m + 1).drop_last() =~= schema.follows@.take(m as int));
                assert(schema.follows@.take(m + 1).last() == schema.follows@[m as int]);
            }
            let t = schema.follows[m];
            match a.add_transition(t.0, t.2, t.1) {
                Ok(_) => {},
                Err(e) => {
                    proof {
                        lemma_follows_fault_stays(schema.states@, schema.follows@, m + 1);
                    }
                    return Err(e);
                },
            }
            m = m + 1;
        }
        assert(schema.follows@.take(m as int) =~= schema.follows@);
        Ok(a)
    }
}

} // verus!
