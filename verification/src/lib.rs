//! Regular expressions, Glushkov automata and structural analysis of automata.
//!
//! A regular expression is linearized and turned into its Glushkov automaton;
//! automata can also be built by hand. On an automaton the library offers
//! depth-first search, strongly connected components, door classification,
//! extraction of sub-automata that stay consistent with their parent, word
//! acceptance and a set of structural predicates.
//!
//! The contracts are stated over walks and runs: the Glushkov automaton
//! recognizes the words of its expression, the strongly connected components
//! are the classes of the states that walks join in both directions, and an
//! automaton is accessible if walks lead to every state from its first input.
//! The module `laws` states what relates the operations to one another.

pub mod accept;
pub mod adjacency;
pub mod analysis;
pub mod automata;
pub mod classes;
pub mod dfs;
pub mod door;
pub mod dot;
pub mod error;
pub mod export;
pub mod extract;
pub mod glushkov;
pub mod graph;
pub mod inner;
pub mod labels;
pub mod language;
pub mod laws;
pub mod parser;
pub mod prop;
pub mod reach;
pub mod regexp;
pub mod relation;
pub mod render;
pub mod runs;
pub mod scc;
pub mod schema;
pub mod spelling;
pub mod stability;
pub mod transform;
pub mod transitions;
pub mod utils;
pub mod visit;
pub mod walks;
