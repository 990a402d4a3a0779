//! Errors reported by the operations on automata.

use vstd::prelude::*;
use vstd::string::*;

verus! {

/// What can go wrong when an automaton is edited or analysed.
#[derive(Debug, Clone, Copy, PartialEq, Eq, Structural)]
pub enum AutomataError {
    /// The source state of a transition does not exist.
    UnknownStateFrom,
    /// The destination state of a transition does not exist.
    UnknownStateTo,
    /// The state does not exist.
    UnknownState,
    /// The order given to a traversal is not one occurrence of every state.
    NotEnoughState,
    /// A list of states names the same state twice.
    DuplicateState,
    /// An input of a sub-automaton is not one of its states.
    InputStateIsNotInStates,
    /// An output of a sub-automaton is not one of its states.
    OutputStateIsNotInStates,
}

impl AutomataError {
    /// The text of the message, as a sequence of characters.
    pub open spec fn spec_message(self) -> Seq<char> {
        match self {
            AutomataError::UnknownStateFrom => "Unknown state 'from' given"@,
            AutomataError::UnknownStateTo => "Unknown state 'to' given"@,
            AutomataError::UnknownState => "Unknown state given"@,
            AutomataError::NotEnoughState => "Not enough state given"@,
            AutomataError::DuplicateState => "Duplicate state"@,
            AutomataError::InputStateIsNotInStates => "Input state is not in states"@,
            AutomataError::OutputStateIsNotInStates => "Output state is not in states"@,
        }
    }

    /// A human-readable message for the error.
    pub fn message(&self) -> (text: String)
        ensures
            text@ == self.spec_message(),
    {
        match self {
            AutomataError::UnknownStateFrom => String::from_str("Unknown state 'from' given"),
            AutomataError::UnknownStateTo => String::from_str("Unknown state 'to' given"),
            AutomataError::UnknownState => String::from_str("Unknown state given"),
            AutomataError::NotEnoughState => String::from_str("Not enough state given"),
            AutomataError::DuplicateState => String::from_str("Duplicate state"),
            AutomataError::InputStateIsNotInStates => String::from_str(
                "Input state is not in states",
            ),
            AutomataError::OutputStateIsNotInStates => String::from_str(
                "Output state is not in states",
            ),
        }
    }
}

} // verus!
