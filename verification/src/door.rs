//! Doors: the states of a strongly connected component through which the
//! component is entered or left.
//!
//! A state is an input door of its component if a transition comes to it from
//! a state outside the component, and an output door if a transition leads
//! from it to a state outside. The transitions are those of the whole
//! automaton, so that the doors of a part are also those that lead to the rest
//! of the automaton.
//!
//! Whether an initial state is an input door by itself is a matter of
//! convention; [`DoorPolicy`] makes the choice explicit.

use vstd::prelude::*;
use crate::graph::lists;
use crate::inner::{Descriptor, InnerAutomata};
use crate::labels::holds;
use crate::scc::components;

verus! {

/// What kind of door a state is for its strongly connected component.
#[derive(Debug, Clone, Copy, PartialEq, Eq, Structural)]
pub enum DoorType {
    /// An input door: the component is entered through the state.
    In,
    /// An output door: the component is left through the state.
    Out,
    /// Both an input door and an output door.
    Both,
    /// No door.
    Neither,
}

/// The convention for initial states.
#[derive(Debug, Clone, Copy, PartialEq, Eq, Structural)]
pub enum DoorPolicy {
    /// Only a transition that crosses the border of the component makes a
    /// door.
    Crossing,
    /// An initial state is an input door as well.
    InitialsEnter,
}

impl DoorType {
    /// Whether the component is entered through such a door.
    pub open spec fn lets_in(self) -> bool {
        self is In || self is Both
    }

    /// Whether the component is left through such a door.
    pub open spec fn lets_out(self) -> bool {
        self is Out || self is Both
    }

    /// The kind of door that lets in if `enter` and lets out if `leave`.
    pub open spec fn of(enter: bool, leave: bool) -> DoorType {
        if enter && leave {
            DoorType::Both
        } else if enter {
            DoorType::In
        } else if leave {
            DoorType::Out
        } else {
            DoorType::Neither
        }
    }

    /// The kind of door that is both `self` and `other`.
    pub fn combine(self, other: DoorType) -> (both: DoorType)
        ensures
            both == DoorType::of(
                self.lets_in() || other.lets_in(),
                self.lets_out() || other.lets_out(),
            ),
    {
        let enter = self.is_in() || other.is_in();
        let leave = self.is_out() || other.is_out();
        DoorType::make(enter, leave)
    }

    /// The kind of door that lets in if `enter` and lets out if `leave`.
    pub fn make(enter: bool, leave: bool) -> (door: DoorType)
        ensures
            door == DoorType::of(enter, leave),
    {
        if enter && leave {
            DoorType::Both
        } else if enter {
            DoorType::In
        } else if leave {
            DoorType::Out
        } else {
            DoorType::Neither
        }
    }

    /// Whether the component is entered through such a door.
    pub fn is_in(&self) -> (enter: bool)
        ensures
            enter == self.lets_in(),
    {
        match self {
            DoorType::In => true,
            DoorType::Both => true,
            _ => false,
        }
    }

    /// Whether the component is left through such a door.
    pub fn is_out(&self) -> (leave: bool)
        ensures
            leave == self.lets_out(),
    {
        match self {
            DoorType::Out => true,
            DoorType::Both => true,
            _ => false,
        }
    }
}

/// Whether a transition comes to `state` from a state outside `part`.
pub open spec fn enters(part: Seq<usize>, follows: Seq<(usize, char, usize)>, state: usize) -> bool {
    exists|i: int|
        0 <= i < follows.len() && (#[trigger] follows[i]).2 == state && !part.contains(follows[i].0)
}

/// Whether a transition leads from `state` to a state outside `part`.
pub open spec fn leaves(part: Seq<usize>, follows: Seq<(usize, char, usize)>, state: usize) -> bool {
    exists|i: int|
        0 <= i < follows.len() && (#[trigger] follows[i]).0 == state && !part.contains(follows[i].2)
}

/// The kind of door that `state` is for the component `part`.
pub open spec fn door_of(
    d: Descriptor,
    follows: Seq<(usize, char, usize)>,
    part: Seq<usize>,
    state: usize,
    policy: DoorPolicy,
) -> DoorType {
    DoorType::of(
        enters(part, follows, state) || (policy is InitialsEnter && d.inputs.contains(state)),
        leaves(part, follows, state),
    )
}

/// The states of `part`, each with the kind of door it is.
pub open spec fn doors_of(
    d: Descriptor,
    follows: Seq<(usize, char, usize)>,
    part: Seq<usize>,
    policy: DoorPolicy,
) -> Seq<(usize, DoorType)> {
    part.map_values(|state: usize| (state, door_of(d, follows, part, state, policy)))
}

/// The components of a description, every state with the kind of door it is.
pub open spec fn all_doors(d: Descriptor, follows: Seq<(usize, char, usize)>, policy: DoorPolicy) -> Seq<
    Seq<(usize, DoorType)>,
> {
    components(d.states, follows).map_values(|part: Seq<usize>| doors_of(d, follows, part, policy))
}

/// The lists of a list of lists of doors.
pub open spec fn door_lists(doors: Seq<Vec<(usize, DoorType)>>) -> Seq<Seq<(usize, DoorType)>> {
    Seq::new(doors.len(), |i: int| doors[i]@)
}

/// Whether a transition comes to `state` from a state outside `part`.
pub fn enters_part(follows: &Vec<(usize, char, usize)>, part: &Vec<usize>, state: usize) -> (found:
    bool)
    ensures
        found == enters(part@, follows@, state),
{
    let mut i: usize = 0;
    while i < follows.len()
        invariant
            i <= follows.len(),
            forall|k: int|
                0 <= k < i ==> !((#[trigger] follows[k]).2 == state && !part@.contains(follows[k].0)),
        decreases follows.len() - i,
    {
        let t = follows[i];
        if t.2 == state && !holds(part, t.0) {
            return true;
        }
        i = i + 1;
    }
    false
}

/// Whether a transition leads from `state` to a state outside `part`.
pub fn leaves_part(follows: &Vec<(usize, char, usize)>, part: &Vec<usize>, state: usize) -> (found:
    bool)
    ensures
        found == leaves(part@, follows@, state),
{
    let mut i: usize = 0;
    while i < follows.len()
        invariant
            i <= follows.len(),
            forall|k: int|
                0 <= k < i ==> !((#[trigger] follows[k]).0 == state && !part@.contains(follows[k].2)),
        decreases follows.len() - i,
    {
        let t = follows[i];
        if t.0 == state && !holds(part, t.2) {
            return true;
        }
        i = i + 1;
    }
    false
}

impl InnerAutomata {
    /// The kind of door that `state` is for the component `part`.
    pub fn door_type(
        &self,
        follows: &Vec<(usize, char, usize)>,
        part: &Vec<usize>,
        state: usize,
        policy: DoorPolicy,
    ) -> (door: DoorType)
        ensures
            door == door_of(self@, follows@, part@, state, policy),
    {
        let initial = match policy {
            DoorPolicy::Crossing => false,
            DoorPolicy::InitialsEnter => self.is_input(state),
        };
        let enter = initial || enters_part(follows, part, state);
        let leave = leaves_part(follows, part, state);
        DoorType::make(enter, leave)
    }

    /// The states of `part`, each with the kind of door it is.
    pub fn part_doors(
        &self,
        follows: &Vec<(usize, char, usize)>,
        part: &Vec<usize>,
        policy: DoorPolicy,
    ) -> (doors: Vec<(usize, DoorType)>)
        ensures
            doors@ == doors_of(self@, follows@, part@, policy),
    {
        let mut doors: Vec<(usize, DoorType)> = Vec::new();
        let mut k: usize = 0;
        while k < part.len()
            invariant
                k <= part.len(),
                doors.len() == k,
                forall|j: int|
                    0 <= j < k ==> #[trigger] doors[j] == (
                        part[j],
                        door_of(self@, follows@, part@, part[j], policy),
                    ),
            decreases part.len() - k,
        {
            let state = part[k];
            doors.push((state, self.door_type(follows, part, state, policy)));
            k = k + 1;
        }
        assert(doors@ =~= doors_of(self@, follows@, part@, policy));
        doors
    }

    /// The strongly connected components of this description with the
    /// transitions `follows`, every state with the kind of door it is for its
    /// component.
    pub fn get_door(&self, follows: &Vec<(usize, char, usize)>, policy: DoorPolicy) -> (doors: Vec<
        Vec<(usize, DoorType)>,
    >)
        requires
            self.wf(),
        ensures
            door_lists(doors@) == all_doors(self@, follows@, policy),
    {
        let parts = self.kosaraju(follows);
        let mut doors: Vec<Vec<(usize, DoorType)>> = Vec::new();
        let mut i: usize = 0;
        while i < parts.len()
            invariant
                i <= parts.len(),
                lists(parts@) == components(self@.states, follows@),
                doors.len() == i,
                forall|j: int|
                    0 <= j < i ==> (#[trigger] doors[j])@ == doors_of(
                        self@,
                        follows@,
                        parts[j]@,
                        policy,
                    ),
            decreases parts.len() - i,
        {
            let list = self.part_doors(follows, &parts[i], policy);
            doors.push(list);
            i = i + 1;
        }
        proof {
            assert forall|j: int| 0 <= j < doors.len() implies door_lists(doors@)[j] == all_doors(
                self@,
                follows@,
                policy,
            )[j] by {
                assert(lists(parts@)[j] == parts[j]@);
            }
            assert(door_lists(doors@) =~= all_doors(self@, follows@, policy));
        }
        doors
    }
}

} // verus!
