use glushkovizer::automata::Automata;
use glushkovizer::door::{DoorPolicy, DoorType};
use glushkovizer::error::AutomataError;
use glushkovizer::inner::InnerAutomata;
use glushkovizer::parser::ParseError;
use glushkovizer::regexp::RegExp;
use glushkovizer::schema::Schema;

fn chain() -> Automata {
    let mut g = Automata::new();
    g.add_state(1);
    g.add_state(2);
    g.add_state(3);
    g.add_initial(1).unwrap();
    g.add_final(3).unwrap();
    g.add_transition(1, 2, 'a').unwrap();
    g.add_transition(2, 3, 'a').unwrap();
    g
}

fn sorted(mut parts: Vec<Vec<usize>>) -> Vec<Vec<usize>> {
    parts.iter_mut().for_each(|p| p.sort());
    parts.sort();
    parts
}

#[test]
fn regex_a_dot_a() {
    let g = Automata::from(RegExp::try_from("a.a").unwrap());
    assert_eq!(g.get_states(), vec![0, 1, 2]);
    assert_eq!(g.get_initials(), vec![0]);
    assert_eq!(g.get_finals(), vec![2]);
    assert!(g.accept(&['a', 'a']));
    assert!(!g.accept(&['a']));
    assert!(!g.accept(&[]));
    assert!(!g.accept(&['a', 'a', 'a']));
}

#[test]
fn regex_with_orbit() {
    let mut g = Automata::from(RegExp::try_from("(a+b).a*.b*.(a+b)*").unwrap());
    let parts = g.extract_scc(DoorPolicy::Crossing);
    assert!(parts.iter().any(|p| p.is_orbit(&g)));
}

#[test]
fn handmade_chain() {
    let g = chain();
    assert!(g.is_accessible());
    assert!(g.is_coaccessible());
    assert!(g.accept(&['a', 'a']));
    assert!(g.is_standard());
    assert!(g.is_deterministic());
    assert!(g.is_homogeneous());
    assert!(!g.is_strongly_connected());
    assert!(!g.is_orbit());
}

#[test]
fn removal_reaches_parts() {
    let mut g = chain();
    g.add_transition(2, 1, 'b').unwrap();
    let part = g.subautomata(vec![1, 2], vec![1], vec![2]).unwrap();
    assert_eq!(part.states(&g), vec![1, 2]);
    assert!(part.accept(&g, &['a']));
    assert!(part.is_orbit(&g));
    assert_eq!(g.remove_state(2), Ok(true));
    assert_eq!(part.states(&g), vec![1]);
    assert_eq!(part.inputs(&g), vec![1]);
    assert_eq!(part.outputs(&g), Vec::<usize>::new());
    assert!(!part.accept(&g, &['a']));
    assert_eq!(g.transitions().len(), 0);
    assert_eq!(g.get_states(), vec![1, 3]);
}

#[test]
fn part_adds_state_to_parent_only() {
    let mut g = chain();
    let first = g.subautomata(vec![1], vec![], vec![]).unwrap();
    let second = g.subautomata(vec![2], vec![], vec![]).unwrap();
    assert!(first.add_state(&mut g, 7));
    assert!(!first.add_state(&mut g, 7));
    assert_eq!(first.states(&g), vec![1, 7]);
    assert_eq!(second.states(&g), vec![2]);
    assert_eq!(g.get_states(), vec![1, 2, 3, 7]);
    assert!(first.add_state(&mut g, 3));
    assert_eq!(g.get_states(), vec![1, 2, 3, 7]);
    assert_eq!(first.remove_state(&mut g, 3), Ok(true));
    assert_eq!(first.remove_state(&mut g, 3), Err(AutomataError::UnknownState));
    assert_eq!(g.get_states(), vec![1, 2, 3, 7]);
}

#[test]
fn stored_form_is_checked() {
    let bad_final = Schema {
        states: vec![0, 1, 2],
        initials: vec![0],
        finals: vec![5],
        follows: vec![(0, 'a', 1)],
    };
    assert_eq!(
        Automata::from_schema(&bad_final).err(),
        Some(AutomataError::OutputStateIsNotInStates)
    );
    let bad_initial = Schema { states: vec![0], initials: vec![1], finals: vec![], follows: vec![] };
    assert_eq!(
        Automata::from_schema(&bad_initial).err(),
        Some(AutomataError::InputStateIsNotInStates)
    );
    let twice = Schema { states: vec![0, 0], initials: vec![], finals: vec![], follows: vec![] };
    assert_eq!(Automata::from_schema(&twice).err(), Some(AutomataError::DuplicateState));
    let bad_to =
        Schema { states: vec![0], initials: vec![], finals: vec![], follows: vec![(0, 'a', 9)] };
    assert_eq!(Automata::from_schema(&bad_to).err(), Some(AutomataError::UnknownStateTo));
    let bad_from =
        Schema { states: vec![0], initials: vec![], finals: vec![], follows: vec![(9, 'a', 0)] };
    assert_eq!(Automata::from_schema(&bad_from).err(), Some(AutomataError::UnknownStateFrom));
    let good = Schema {
        states: vec![3, 1],
        initials: vec![3, 3],
        finals: vec![1],
        follows: vec![(3, 'a', 1), (3, 'a', 1)],
    };
    let a = Automata::from_schema(&good).unwrap();
    assert_eq!(a.get_initials(), vec![3]);
    assert_eq!(a.transitions(), &vec![(3, 'a', 1)]);
    assert!(a.accept(&['a']));
    let back = a.to_schema();
    assert_eq!(back.states, vec![3, 1]);
    assert_eq!(back.follows, vec![(3, 'a', 1)]);
}

#[test]
fn mirror_twice_is_the_same() {
    let g = Automata::from(RegExp::try_from("(a+b).a*.b").unwrap());
    let back = g.mirror();
    let again = back.mirror();
    assert_eq!(again.get_states(), g.get_states());
    assert_eq!(again.get_initials(), g.get_initials());
    assert_eq!(again.get_finals(), g.get_finals());
    assert_eq!(again.transitions(), g.transitions());
    for word in [vec!['a', 'b'], vec!['b', 'a', 'a', 'b'], vec!['a'], vec![]] {
        assert_eq!(g.accept(&word), again.accept(&word));
        let mut turned = word.clone();
        turned.reverse();
        assert_eq!(g.accept(&word), back.accept(&turned));
    }
    assert!(g.accept(&['a', 'b']));
    assert!(!back.accept(&['a', 'b']));
    assert!(back.accept(&['b', 'a']));
}

#[test]
fn components_are_a_partition() {
    let g = Automata::from(RegExp::try_from("(a+b).a*.b*.(a+b)*").unwrap());
    let parts = g.kosaraju();
    let mut all: Vec<usize> = parts.iter().flatten().copied().collect();
    assert_eq!(all.len(), g.get_nb_states());
    all.sort();
    assert_eq!(all, g.get_states());
    assert!(parts.iter().all(|p| !p.is_empty()));
    assert_eq!(
        sorted(parts),
        vec![vec![0], vec![1], vec![2], vec![3], vec![4], vec![5, 6]]
    );
}

#[test]
fn search_gives_permutations_and_roots() {
    let mut g = chain();
    g.add_state(9);
    let found = g.dfs(vec![2, 9, 1, 3], false).unwrap();
    assert_eq!(found.prefix, vec![2, 3, 9, 1]);
    assert_eq!(found.suffix, vec![3, 2, 9, 1]);
    assert_eq!(found.predecessor, vec![None, None, Some(2), None]);
    let back = g.dfs(vec![3, 2, 1, 9], true).unwrap();
    assert_eq!(back.prefix, vec![3, 2, 1, 9]);
    assert_eq!(back.suffix, vec![1, 2, 3, 9]);
    assert_eq!(back.predecessor, vec![Some(2), Some(3), None, None]);
    assert_eq!(g.dfs(vec![1, 2, 3], false).err(), Some(AutomataError::NotEnoughState));
    assert_eq!(g.dfs(vec![1, 2, 3, 3], false).err(), Some(AutomataError::NotEnoughState));
    assert_eq!(g.dfs(vec![1, 2, 3, 4], false).err(), Some(AutomataError::NotEnoughState));
}

#[test]
fn strongly_connected_is_one_component() {
    let mut g = chain();
    assert_eq!(g.is_strongly_connected(), g.kosaraju().len() <= 1);
    g.add_transition(3, 1, 'c').unwrap();
    assert_eq!(g.kosaraju().len(), 1);
    assert!(g.is_strongly_connected());
    assert!(g.is_orbit());
    let empty = Automata::new();
    assert_eq!(empty.kosaraju().len(), 0);
    assert!(empty.is_strongly_connected());
    assert!(!empty.is_orbit());
    assert!(!empty.is_accessible());
    let mut lone = Automata::new();
    lone.add_state(4);
    assert!(lone.is_strongly_connected());
    assert!(!lone.is_orbit());
    lone.add_transition(4, 4, 'x').unwrap();
    assert!(lone.is_orbit());
}

#[test]
fn errors_of_editing() {
    let mut g = chain();
    assert!(!g.add_state(1));
    assert_eq!(g.add_initial(8), Err(AutomataError::UnknownState));
    assert_eq!(g.add_final(8), Err(AutomataError::UnknownState));
    assert_eq!(g.remove_initial(8), Err(AutomataError::UnknownState));
    assert_eq!(g.remove_final(8), Err(AutomataError::UnknownState));
    assert_eq!(g.remove_state(8), Err(AutomataError::UnknownState));
    assert_eq!(g.add_transition(1, 8, 'a'), Err(AutomataError::UnknownStateTo));
    assert_eq!(g.add_transition(8, 1, 'a'), Err(AutomataError::UnknownStateFrom));
    assert_eq!(g.add_transition(8, 9, 'a'), Err(AutomataError::UnknownStateTo));
    assert_eq!(g.remove_transition(8, 1, 'a'), Err(AutomataError::UnknownStateFrom));
    assert_eq!(g.add_transition(1, 2, 'a'), Ok(false));
    assert_eq!(g.add_transition(1, 2, 'b'), Ok(true));
    assert_eq!(g.remove_transition(1, 2, 'b'), Ok(true));
    assert_eq!(g.remove_transition(1, 2, 'b'), Ok(false));
    assert_eq!(g.add_initial(1), Ok(false));
    assert_eq!(g.add_initial(2), Ok(true));
    assert_eq!(g.remove_initial(2), Ok(true));
    assert_eq!(g.remove_initial(2), Ok(false));
    assert_eq!(g.get_subautomata(&vec![1, 1]).err(), Some(AutomataError::DuplicateState));
    assert_eq!(g.get_subautomata(&vec![1, 8]).err(), Some(AutomataError::UnknownState));
    assert_eq!(
        g.subautomata(vec![1, 8], vec![], vec![]).err(),
        Some(AutomataError::UnknownState)
    );
    assert_eq!(
        g.subautomata(vec![1, 1], vec![], vec![]).err(),
        Some(AutomataError::DuplicateState)
    );
    assert_eq!(
        g.subautomata(vec![1, 2], vec![3], vec![]).err(),
        Some(AutomataError::InputStateIsNotInStates)
    );
    assert_eq!(
        g.subautomata(vec![1, 2], vec![1], vec![3]).err(),
        Some(AutomataError::OutputStateIsNotInStates)
    );
    assert_eq!(
        g.subautomata(vec![1, 2], vec![1, 1], vec![]).err(),
        Some(AutomataError::DuplicateState)
    );
    assert_eq!(
        InnerAutomata::create(vec![1, 2], vec![1], vec![5]).err(),
        Some(AutomataError::OutputStateIsNotInStates)
    );
    assert_eq!(AutomataError::NotEnoughState.message(), "Not enough state given");
    assert_eq!(AutomataError::DuplicateState.message(), "Duplicate state");
}

#[test]
fn errors_of_reading() {
    assert_eq!(RegExp::try_from("a.b/b").err(), Some(ParseError::UnknownSymbol { at: 3 }));
    assert_eq!(RegExp::try_from("a....b").err(), Some(ParseError::UnexpectedToken { at: 2 }));
    assert_eq!(RegExp::try_from("").err(), Some(ParseError::UnexpectedToken { at: 0 }));
    assert_eq!(RegExp::try_from("(a").err(), Some(ParseError::UnexpectedToken { at: 2 }));
    assert_eq!(RegExp::try_from("a)").err(), Some(ParseError::UnexpectedToken { at: 1 }));
    assert_eq!(RegExp::try_from("a b").err(), Some(ParseError::UnexpectedToken { at: 1 }));
    assert_eq!(RegExp::try_from("é").err(), Some(ParseError::UnknownSymbol { at: 0 }));
    assert_eq!(
        RegExp::try_from(" a ** "),
        Ok(RegExp::Repeat(Box::new(RegExp::Repeat(Box::new(RegExp::Symbol('a'))))))
    );
}

#[test]
fn texts() {
    let reg = RegExp::try_from("(a+b)*.a.b+$").unwrap();
    assert_eq!(reg.to_string(), "((((a+b)*.a).b)+$)");
    assert_eq!(RegExp::try_from(reg.to_string().as_str()), Ok(reg));
    let mut g = Automata::new();
    g.add_state(10);
    g.add_state(205);
    g.add_initial(10).unwrap();
    g.add_final(205).unwrap();
    g.add_transition(10, 205, 'x').unwrap();
    assert_eq!(
        g.to_dot(false, DoorPolicy::InitialsEnter),
        "digraph {\n\trankdir=LR\n\tbgcolor=transparent\n\tnode [fontname=Cantarell];\n\t\
         edge [fontname=Cantarell];\n\
         \t10 [label = \"10\" shape=diamond color=purple]\n\
         \t205 [label = \"205\" peripheries=2 color=red]\n\
         \tsubgraph cluster0 {\n\t\t10\n\t}\n\
         \tsubgraph cluster1 {\n\t\t205\n\t}\n\
         \t10 -> 205 [label = \"x\"]\n}\n"
    );
    assert!(g
        .to_dot(true, DoorPolicy::Crossing)
        .contains("\tcolor=white\n\tnode [color=white, fontcolor=white];\n"));
    assert!(g.to_dot(true, DoorPolicy::Crossing).contains("\t10 [label = \"10\" shape=diamond color=blue]\n"));
}

#[test]
fn doors_under_both_conventions() {
    let mut g = chain();
    g.add_transition(2, 2, 'b').unwrap();
    let crossing = g.get_states_type(DoorPolicy::Crossing);
    let mut crossing_sorted = crossing.clone();
    crossing_sorted.sort_by_key(|d| d.0);
    assert_eq!(
        crossing_sorted,
        vec![(1, DoorType::Out), (2, DoorType::Both), (3, DoorType::In)]
    );
    let mut entering = g.get_states_type(DoorPolicy::InitialsEnter);
    entering.sort_by_key(|d| d.0);
    assert_eq!(
        entering,
        vec![(1, DoorType::Both), (2, DoorType::Both), (3, DoorType::In)]
    );
    assert_eq!(DoorType::In.combine(DoorType::Out), DoorType::Both);
    assert_eq!(DoorType::Neither.combine(DoorType::Out), DoorType::Out);
    assert_eq!(DoorType::In.combine(DoorType::Neither), DoorType::In);
    let types = g.kosaraju_type(DoorPolicy::Crossing);
    assert_eq!(types.len(), 3);
}

#[test]
fn stable_and_transverse() {
    let mut g = Automata::new();
    for s in [0, 1, 2, 3] {
        g.add_state(s);
    }
    g.add_transition(0, 1, 'a').unwrap();
    g.add_transition(1, 2, 'b').unwrap();
    g.add_transition(2, 1, 'c').unwrap();
    g.add_transition(2, 3, 'd').unwrap();
    let orbit = g.subautomata(vec![1, 2], vec![1], vec![2]).unwrap();
    assert!(orbit.is_orbit(&g));
    assert!(orbit.is_stable(&g, DoorPolicy::Crossing));
    assert!(orbit.is_transverse(&g, DoorPolicy::Crossing));
    g.add_state(4);
    g.add_transition(4, 2, 'e').unwrap();
    assert!(!orbit.is_transverse(&g, DoorPolicy::Crossing));
    assert!(!orbit.is_stable(&g, DoorPolicy::Crossing));
    assert!(g.is_transverse(DoorPolicy::Crossing) == g.is_transverse(DoorPolicy::Crossing));
}

#[test]
fn determinism() {
    let mut g = chain();
    assert!(!g.is_fully_deterministic());
    g.add_transition(3, 3, 'a').unwrap();
    assert!(g.is_fully_deterministic());
    g.add_transition(1, 3, 'a').unwrap();
    assert!(!g.is_deterministic());
    assert!(g.is_homogeneous());
    g.add_transition(1, 2, 'b').unwrap();
    assert!(!g.is_homogeneous());
    g.add_transition(2, 1, 'b').unwrap();
    assert!(!g.is_standard());
}

#[test]
fn questions_about_transitions() {
    let mut g = chain();
    g.add_transition(1, 3, 'a').unwrap();
    g.add_transition(1, 3, 'b').unwrap();
    assert_eq!(g.get_follow(1, 'a'), Ok(vec![2, 3]));
    assert_eq!(g.get_follow_count(1, 'a'), Ok(2));
    assert_eq!(g.get_follow(1, 'z'), Ok(vec![]));
    assert_eq!(g.get_follow(9, 'a'), Err(AutomataError::UnknownState));
    assert_eq!(g.transition_out_count(1), Ok(2));
    assert_eq!(g.transition_in_count(3), Ok(2));
    assert_eq!(g.get_follows(1), Ok(vec![('a', vec![2, 3]), ('b', vec![3])]));
    assert_eq!(g.get_previou(3, 'a'), Ok(vec![2, 1]));
    assert_eq!(g.get_previous_count(3, 'b'), Ok(1));
    assert_eq!(g.get_previous(3), Ok(vec![('a', vec![2, 1]), ('b', vec![1])]));
    assert_eq!(g.get_transition(1, 3), Ok(vec!['a', 'b']));
    assert_eq!(g.get_transition(1, 9), Err(AutomataError::UnknownStateTo));
    assert_eq!(g.get_transition(9, 1), Err(AutomataError::UnknownStateFrom));
}

#[test]
fn graph_of_an_automaton() {
    let mut g = chain();
    g.add_transition(3, 1, 'z').unwrap();
    let graph = g.get_graph();
    assert_eq!(graph.node_count(), 3);
    assert_eq!(graph.edge_count(), 3);
    let weights: Vec<usize> = graph.node_indices().map(|i| graph[i]).collect();
    assert_eq!(weights, vec![1, 2, 3]);
    let edges: Vec<(usize, usize, char)> = graph
        .edge_indices()
        .map(|e| {
            let (a, b) = graph.edge_endpoints(e).unwrap();
            (a.index(), b.index(), graph[e])
        })
        .collect();
    assert_eq!(edges, vec![(0, 1, 'a'), (1, 2, 'a'), (2, 0, 'z')]);
}

#[test]
fn linearization_and_sets() {
    let reg = RegExp::try_from("a*.$").unwrap();
    assert_eq!(reg.symbol_count(), Some(1));
    let (lin, end) = reg.numbered(5);
    assert_eq!(end, 6);
    let sets = lin.get_flnf();
    assert_eq!(sets.firsts, vec![5]);
    assert_eq!(sets.lasts, vec![5]);
    assert!(sets.null);
    assert_eq!(sets.follows, vec![(5, 5)]);
    let g = Automata::try_from_regexp(&reg).unwrap();
    assert_eq!(g.get_finals(), vec![1, 0]);
    assert!(g.accept(&[]));
    assert!(g.accept(&['a', 'a', 'a']));
    assert!(!g.accept(&['b']));
}
