use glushkovizer::automata::{Automata, SubAutomata};
use glushkovizer::door::DoorPolicy;
use glushkovizer::regexp::RegExp;

#[test]
fn auto_regexp() {
    let r = RegExp::try_from("a.a");
    assert!(r.is_ok());
    let r = r.unwrap();
    let g = Automata::from(r);
    assert_eq!(g.get_nb_states(), 3);
    assert!(g.accept(&['a', 'a']));
}

#[test]
fn orbit() {
    let r = RegExp::try_from("(a+b).a*.b*.(a+b)*");
    assert!(r.is_ok());
    let r = r.unwrap();
    let mut a = Automata::from(r);
    let scc: Vec<SubAutomata> = a.extract_scc(DoorPolicy::InitialsEnter);
    assert!(scc[3].is_orbit(&a));
    assert!(scc[4].is_orbit(&a));
    assert!(scc[5].is_orbit(&a));
}

#[test]
fn maximal_orbit() {
    let r = RegExp::try_from("(a+b).a*.b*.(a+b)*");
    assert!(r.is_ok());
    let r = r.unwrap();
    let mut a = Automata::from(r);
    let scc: Vec<SubAutomata> = a.extract_scc(DoorPolicy::InitialsEnter);
    assert!(scc[3].is_maximal_orbit(&a));
    assert!(scc[4].is_maximal_orbit(&a));
    assert!(scc[5].is_maximal_orbit(&a));
}
