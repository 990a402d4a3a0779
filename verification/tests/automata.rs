use glushkovizer::automata::Automata;
use glushkovizer::error::AutomataError;

#[test]
fn handmade() -> Result<(), AutomataError> {
    let mut g = Automata::new();
    g.add_state(1);
    g.add_state(2);
    g.add_state(3);
    g.add_state(4);
    g.add_initial(1)?;
    g.add_final(3)?;
    g.add_transition(1, 2, 'a')?;
    g.add_transition(2, 3, 'a')?;
    g.add_transition(3, 4, 'z')?;
    g.remove_state(4)?;
    assert_eq!(g.get_nb_states(), 3);
    assert!(g.accept(&['a', 'a']));
    Ok(())
}

#[test]
fn automata_handmade() -> Result<(), AutomataError> {
    let mut g = Automata::new();
    g.add_state(1);
    g.add_state(2);
    g.add_state(3);
    g.add_initial(1)?;
    g.add_final(3)?;
    g.add_transition(1, 2, 'a')?;
    g.add_transition(2, 3, 'a')?;
    assert_eq!(g.get_nb_states(), 3);
    assert!(g.accept(&['a', 'a']));
    Ok(())
}

#[test]
fn inverse() -> Result<(), AutomataError> {
    let mut g = Automata::new();
    g.add_state(1);
    g.add_state(2);
    g.add_state(3);
    g.add_initial(1)?;
    g.add_final(3)?;
    g.add_transition(1, 2, 'a')?;
    g.add_transition(2, 3, 'b')?;
    let g = g.get_inverse();
    assert_eq!(g.get_nb_states(), 3);
    assert!(g.accept(&['b', 'a']));
    Ok(())
}

#[test]
fn subautomata() -> Result<(), AutomataError> {
    let mut g = Automata::new();
    g.add_state(1);
    g.add_state(2);
    g.add_state(3);
    g.add_initial(1)?;
    g.add_final(3)?;
    g.add_transition(1, 2, 'a')?;
    g.add_transition(2, 3, 'a')?;
    let g2 = g.get_subautomata(&vec![1, 2]);
    assert!(g2.is_ok());
    let mut g2 = g2.unwrap();
    g2.add_initial(1)?;
    g2.add_final(2)?;
    assert_eq!(g2.get_nb_states(), 2);
    assert!(g2.accept(&['a']));
    Ok(())
}

#[test]
fn dfs() -> Result<(), AutomataError> {
    let mut g = Automata::new();
    g.add_state(0);
    g.add_state(1);
    g.add_state(2);
    g.add_state(3);
    g.add_transition(0, 1, 'a')?;
    g.add_transition(0, 2, 'a')?;
    g.add_transition(1, 0, 'b')?;
    g.add_transition(1, 2, 'b')?;
    g.add_transition(2, 0, 'c')?;
    g.add_transition(2, 1, 'c')?;
    g.add_transition(0, 3, 'd')?;
    let i = g.get_dfs(vec![0, 1, 2, 3]);
    assert!(i.is_ok());
    let i = i.unwrap();
    assert_eq!(i.prefix, vec![0, 1, 2, 3]);
    assert_eq!(i.suffix, vec![2, 1, 3, 0]);
    assert_eq!(i.predecessor, vec![None, Some(0), Some(1), Some(0)]);
    Ok(())
}
