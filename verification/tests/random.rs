use glushkovizer::automata::Automata;
use glushkovizer::door::DoorPolicy;
use glushkovizer::regexp::RegExp;
use petgraph::algo::kosaraju_scc;
use rand::Rng;
use std::array;

const MAX_DEPTH: usize = 7;
const NB_TEST: usize = 10_000;
const NB_REGEX: usize = 10_000;
const WORD_DEPTH: usize = 4;
const NB_WORD: usize = 100;
const NB_WORD_TEST: usize = 10;
const NB_REPEAT: usize = 10;

/// A random regular expression of height at most `d`.
fn gen_regex(d: usize) -> RegExp<char> {
    let mut rng = rand::thread_rng();
    match d {
        0 => {
            if rng.gen_bool(0.5) {
                RegExp::Epsilon
            } else {
                RegExp::Symbol(rng.gen_range('a'..'z'))
            }
        }
        _ => match rng.gen_range(0..12) {
            0..=1 => RegExp::Repeat(Box::new(gen_regex(d - 1))),
            2..=7 => RegExp::Or(Box::new(gen_regex(d - 1)), Box::new(gen_regex(d - 1))),
            _ => RegExp::Concat(Box::new(gen_regex(d - 1)), Box::new(gen_regex(d - 1))),
        },
    }
}

/// `NB` words that the regular expression recognizes.
fn gen_words<const NB: usize>(reg: &RegExp<char>) -> [String; NB] {
    let mut rng = rand::thread_rng();
    match reg {
        &RegExp::Epsilon => array::from_fn(|_| String::new()),
        &RegExp::Symbol(s) => array::from_fn(|_| String::from(s)),
        &RegExp::Repeat(ref s) => {
            gen_words(s.as_ref()).map(|w: String| w.repeat(rng.gen_range(0..NB_REPEAT)))
        }
        &RegExp::Concat(ref l, ref r) => {
            let mut l: [String; NB] = gen_words(l.as_ref());
            let r: [String; NB] = gen_words(r.as_ref());
            for (a, b) in l.iter_mut().zip(r) {
                *a += &b;
            }
            l
        }
        &RegExp::Or(ref l, ref r) => {
            let mut l: [String; NB] = gen_words(l.as_ref());
            let r: [String; NB] = gen_words(r.as_ref());
            for (a, b) in l.iter_mut().zip(r) {
                if rng.gen_bool(0.5) {
                    *a = b;
                }
            }
            l
        }
    }
}

#[test]
fn automata() {
    for i in 0..NB_WORD_TEST {
        let r = gen_regex(WORD_DEPTH);
        let w: [String; NB_WORD] = gen_words(&r);
        let a = Automata::from(r);
        for word in w {
            if !a.accept(&word.chars().collect::<Vec<char>>()) {
                panic!(
                    "Error on {}:\n{}\n{}",
                    i,
                    word,
                    a.to_dot(false, DoorPolicy::Crossing)
                );
            }
        }
    }
}

#[test]
fn kosaraju() {
    for _ in 0..NB_TEST {
        let r = gen_regex(MAX_DEPTH);
        let a = Automata::from(r);
        let mut ka = a.kosaraju();
        let g = a.get_graph();
        let mut kp: Vec<Vec<usize>> = kosaraju_scc(&g)
            .into_iter()
            .map(|v| {
                v.into_iter()
                    .map(|i| *g.node_weight(i).unwrap())
                    .collect::<Vec<usize>>()
            })
            .collect();
        ka.iter_mut().for_each(|v| v.sort());
        ka.sort_by_key(|inner_vec| inner_vec[0]);
        kp.iter_mut().for_each(|v| v.sort());
        kp.sort_by_key(|inner_vec| inner_vec[0]);
        assert_eq!(ka, kp);
    }
}

#[test]
fn regex() {
    for i in 0..NB_REGEX {
        let r = gen_regex(MAX_DEPTH);
        let r2 = RegExp::try_from(r.to_string().as_str());
        if let Err(s) = r2 {
            panic!("Error on {}:\n{:?}\n{}", i, s, r.to_string());
        }
        let r2 = r2.unwrap();
        assert_eq!(r, r2);
    }
    println!("Success on {} tests !", NB_REGEX);
}
