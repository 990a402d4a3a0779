use glushkovizer::automata::Automata;
use glushkovizer::utils::{Couple, Epsilon, Union};
use rand::rngs::StdRng;
use rand::{Rng, SeedableRng};

fn crossing() -> Automata {
    let mut g = Automata::new();
    g.add_state(1);
    g.add_state(2);
    g.add_state(3);
    g.add_initial(1).unwrap();
    g.add_final(3).unwrap();
    g.add_final(2).unwrap();
    g.add_transition(1, 2, 'a').unwrap();
    g.add_transition(3, 2, 'b').unwrap();
    g.add_transition(2, 3, 'a').unwrap();
    g
}

#[test]
fn union_holds_one_of_two() {
    let l: Union<char, usize> = Union::left('x');
    let r: Union<char, usize> = Union::right(7);
    assert_eq!(l, Union::T('x'));
    assert_eq!(r, Union::V(7));
    assert!(l.is_left());
    assert!(!l.is_right());
    assert!(r.is_right());
    assert!(!r.is_left());
    assert_eq!(l.get_left(), Some(&'x'));
    assert_eq!(l.get_right(), None);
    assert_eq!(r.get_left(), None);
    assert_eq!(r.get_right(), Some(&7));
    assert_eq!(Couple(l, 3).0, l);
    assert_eq!(Couple(l, 3).1, 3);
}

#[test]
fn homogenize_splits_the_states_by_symbol() {
    let g = crossing();
    assert!(!g.is_homogeneous());
    let (h, couples) = g.homogenize();
    assert_eq!(
        couples,
        vec![
            Couple(Union::V(Epsilon), 1),
            Couple(Union::T('a'), 2),
            Couple(Union::T('b'), 2),
            Couple(Union::T('a'), 3),
        ]
    );
    assert_eq!(h.get_states(), vec![0, 1, 2, 3]);
    assert_eq!(h.get_initials(), vec![0]);
    assert_eq!(h.get_finals(), vec![1, 2, 3]);
    let mut arrows = h.transitions().clone();
    arrows.sort();
    assert_eq!(arrows, vec![(0, 'a', 1), (1, 'a', 3), (2, 'a', 3), (3, 'b', 2)]);
    assert!(h.is_homogeneous());
}

#[test]
fn homogenize_keeps_the_words() {
    let g = crossing();
    let (h, _) = g.inner().homogenize(g.transitions());
    let words: Vec<Vec<char>> = vec![
        vec![],
        vec!['a'],
        vec!['b'],
        vec!['a', 'a'],
        vec!['a', 'a', 'b'],
        vec!['a', 'a', 'b', 'a'],
        vec!['a', 'b'],
        vec!['a', 'a', 'a'],
    ];
    for w in words.iter() {
        assert_eq!(h.accept(w), g.accept(w));
    }
    assert!(h.accept(&['a', 'a', 'b', 'a']));
    assert!(!h.accept(&['a', 'b']));
}

#[test]
fn homogenize_of_an_automaton_without_states() {
    let g = Automata::new();
    let (h, couples) = g.inner().homogenize(g.transitions());
    assert!(couples.is_empty());
    assert_eq!(h.get_nb_states(), 0);
    assert!(h.is_homogeneous());
}

#[test]
fn homogenize_random_automata() {
    let mut rng = StdRng::seed_from_u64(3);
    let letters = ['a', 'b', 'c'];
    for _ in 0..200 {
        let n: usize = rng.gen_range(1..6);
        let mut g = Automata::new();
        for label in 0..n {
            g.add_state(label + 10);
        }
        let edges: usize = rng.gen_range(0..(3 * n));
        for _ in 0..edges {
            let from = rng.gen_range(0..n) + 10;
            let to = rng.gen_range(0..n) + 10;
            let c = letters[rng.gen_range(0..3)];
            g.add_transition(from, to, c).unwrap();
        }
        g.add_initial(rng.gen_range(0..n) + 10).unwrap();
        g.add_final(rng.gen_range(0..n) + 10).unwrap();
        let (h, couples) = g.inner().homogenize(g.transitions());
        assert!(h.is_homogeneous());
        assert_eq!(h.get_nb_states(), couples.len());
        for state in g.get_states() {
            assert!(couples.iter().any(|c| c.1 == state));
        }
        for _ in 0..20 {
            let len: usize = rng.gen_range(0..6);
            let word: Vec<char> = (0..len).map(|_| letters[rng.gen_range(0..3)]).collect();
            assert_eq!(h.accept(&word), g.accept(&word));
        }
    }
}

#[test]
fn finite_automaton_is_the_automaton() {
    let mut g = glushkovizer::automata::FinitAutomata::new();
    g.add_state(4);
    g.add_initial(4).unwrap();
    g.add_final(4).unwrap();
    g.add_transition(4, 4, 'x').unwrap();
    assert!(g.accept(&['x', 'x']));
    assert!(g.is_orbit());
}

#[test]
fn homogenize_a_part() {
    let mut g = crossing();
    let part = g.subautomata(vec![2, 3], vec![2], vec![3]).unwrap();
    let (h, couples) = part.homogenize(&g);
    assert_eq!(
        couples,
        vec![Couple(Union::T('b'), 2), Couple(Union::T('a'), 3)]
    );
    assert_eq!(h.get_initials(), vec![0]);
    assert_eq!(h.get_finals(), vec![1]);
    let mut arrows = h.transitions().clone();
    arrows.sort();
    assert_eq!(arrows, vec![(0, 'a', 1), (1, 'b', 0)]);
    assert!(h.accept(&['a']));
    assert!(h.accept(&['a', 'b', 'a']));
    assert!(!h.accept(&['b']));
    assert_eq!(part.accept(&g, &['a', 'b', 'a']), h.accept(&['a', 'b', 'a']));
}
