use glushkovizer::automata::Automata;
use rand::rngs::StdRng;
use rand::{Rng, SeedableRng};

/// For every pair of states, whether a walk leads from the first to the
/// second, by closing the transitions under composition.
fn closure(g: &Automata) -> Vec<Vec<bool>> {
    let states = g.get_states();
    let n = states.len();
    let at = |label: usize| states.iter().position(|s| *s == label).unwrap();
    let mut reach = vec![vec![false; n]; n];
    for i in 0..n {
        reach[i][i] = true;
    }
    for (from, _, to) in g.transitions().iter() {
        reach[at(*from)][at(*to)] = true;
    }
    for k in 0..n {
        for i in 0..n {
            for j in 0..n {
                if reach[i][k] && reach[k][j] {
                    reach[i][j] = true;
                }
            }
        }
    }
    reach
}

fn part_of(parts: &[Vec<usize>], label: usize) -> usize {
    parts.iter().position(|p| p.contains(&label)).unwrap()
}

fn check_classes(g: &Automata) {
    let states = g.get_states();
    let reach = closure(g);
    let parts = g.kosaraju();
    for (i, s) in states.iter().enumerate() {
        for (j, t) in states.iter().enumerate() {
            let together = reach[i][j] && reach[j][i];
            assert_eq!(part_of(&parts, *s) == part_of(&parts, *t), together);
        }
    }
}

fn two_rings() -> Automata {
    let mut g = Automata::new();
    for label in [10, 20, 30, 40, 50, 60] {
        g.add_state(label);
    }
    g.add_transition(10, 20, 'a').unwrap();
    g.add_transition(20, 30, 'b').unwrap();
    g.add_transition(30, 10, 'c').unwrap();
    g.add_transition(30, 40, 'd').unwrap();
    g.add_transition(40, 50, 'e').unwrap();
    g.add_transition(50, 40, 'f').unwrap();
    g.add_transition(60, 50, 'g').unwrap();
    g
}

#[test]
fn components_are_the_classes_of_mutual_reach() {
    let g = two_rings();
    let mut parts = g.kosaraju();
    parts.iter_mut().for_each(|p| p.sort());
    parts.sort();
    assert_eq!(parts, vec![vec![10, 20, 30], vec![40, 50], vec![60]]);
    check_classes(&g);
}

#[test]
fn components_of_random_automata_are_classes() {
    let mut rng = StdRng::seed_from_u64(7);
    for _ in 0..300 {
        let n: usize = rng.gen_range(0..9);
        let mut g = Automata::new();
        for label in 0..n {
            g.add_state(label * 3 + 1);
        }
        let edges: usize = rng.gen_range(0..(2 * n + 1));
        for _ in 0..edges {
            let from = rng.gen_range(0..n) * 3 + 1;
            let to = rng.gen_range(0..n) * 3 + 1;
            g.add_transition(from, to, 'a').unwrap();
        }
        check_classes(&g);
        let reach = closure(&g);
        let all = reach.iter().all(|row| row.iter().all(|r| *r));
        assert_eq!(g.is_strongly_connected(), all);
        assert_eq!(g.is_strongly_connected(), g.kosaraju().len() <= 1);
    }
}

#[test]
fn accessible_is_reached_from_the_first_input() {
    let mut g = two_rings();
    g.add_initial(60).unwrap();
    assert!(!g.is_accessible());
    g.add_transition(60, 10, 'h').unwrap();
    assert!(g.is_accessible());
    g.add_initial(10).unwrap();
    assert!(g.is_accessible());
    g.remove_initial(60).unwrap();
    assert!(!g.is_accessible());
    let mut h = Automata::new();
    h.add_state(1);
    h.add_state(2);
    h.add_transition(2, 1, 'a').unwrap();
    assert!(!h.is_accessible());
    h.add_initial(2).unwrap();
    assert!(h.is_accessible());
    h.add_initial(1).unwrap();
    assert!(h.is_accessible());
    h.remove_initial(2).unwrap();
    assert!(!h.is_accessible());
}

#[test]
fn coaccessible_reaches_the_first_output() {
    let mut g = two_rings();
    assert!(!g.is_coaccessible());
    g.add_final(40).unwrap();
    assert!(g.is_coaccessible());
    g.remove_final(40).unwrap();
    g.add_final(10).unwrap();
    assert!(!g.is_coaccessible());
}

#[test]
fn accessible_in_random_automata() {
    let mut rng = StdRng::seed_from_u64(11);
    for _ in 0..300 {
        let n: usize = rng.gen_range(1..8);
        let mut g = Automata::new();
        for label in 0..n {
            g.add_state(label + 5);
        }
        let edges: usize = rng.gen_range(0..(2 * n + 1));
        for _ in 0..edges {
            let from = rng.gen_range(0..n) + 5;
            let to = rng.gen_range(0..n) + 5;
            g.add_transition(from, to, 'a').unwrap();
        }
        let first = rng.gen_range(0..n);
        g.add_initial(first + 5).unwrap();
        let last = rng.gen_range(0..n);
        g.add_final(last + 5).unwrap();
        let reach = closure(&g);
        assert_eq!(g.is_accessible(), (0..n).all(|j| reach[first][j]));
        assert_eq!(g.is_coaccessible(), (0..n).all(|j| reach[j][last]));
    }
}

#[test]
fn predecessors_are_joined_by_transitions() {
    let g = two_rings();
    let states = g.get_states();
    let found = g.dfs(vec![30, 60, 10, 50, 20, 40], false).unwrap();
    for (i, p) in found.predecessor.iter().enumerate() {
        if let Some(p) = p {
            assert!(g.transitions().iter().any(|t| t.0 == *p && t.2 == states[i]));
        }
    }
    assert_eq!(found.prefix, vec![30, 10, 20, 40, 50, 60]);
    assert_eq!(
        found.predecessor,
        vec![Some(30), Some(10), None, Some(30), Some(40), None]
    );
    let back = g.dfs(vec![30, 60, 10, 50, 20, 40], true).unwrap();
    for (i, p) in back.predecessor.iter().enumerate() {
        if let Some(p) = p {
            assert!(g.transitions().iter().any(|t| t.2 == *p && t.0 == states[i]));
        }
    }
    assert_eq!(back.prefix, vec![30, 20, 10, 60, 50, 40]);
}
