use glushkovizer::automata::Automata;
use glushkovizer::regexp::RegExp;
use rand::rngs::StdRng;
use rand::{Rng, SeedableRng};

/// Whether `word` is a word of `reg`, by trying every cut.
fn is_word(reg: &RegExp<char>, word: &[char]) -> bool {
    match reg {
        RegExp::Epsilon => word.is_empty(),
        RegExp::Symbol(s) => word.len() == 1 && word[0] == *s,
        RegExp::Or(l, r) => is_word(l, word) || is_word(r, word),
        RegExp::Concat(l, r) => {
            (0..=word.len()).any(|k| is_word(l, &word[..k]) && is_word(r, &word[k..]))
        }
        RegExp::Repeat(c) => {
            word.is_empty()
                || (1..=word.len()).any(|k| is_word(c, &word[..k]) && is_word(reg, &word[k..]))
        }
    }
}

fn random_regex(rng: &mut StdRng, depth: usize) -> RegExp<char> {
    if depth == 0 {
        return match rng.gen_range(0..4) {
            0 => RegExp::Epsilon,
            1 => RegExp::Symbol('a'),
            2 => RegExp::Symbol('b'),
            _ => RegExp::Symbol('c'),
        };
    }
    match rng.gen_range(0..4) {
        0 => RegExp::Repeat(Box::new(random_regex(rng, depth - 1))),
        1 => RegExp::Or(
            Box::new(random_regex(rng, depth - 1)),
            Box::new(random_regex(rng, depth - 1)),
        ),
        2 => RegExp::Concat(
            Box::new(random_regex(rng, depth - 1)),
            Box::new(random_regex(rng, depth - 1)),
        ),
        _ => random_regex(rng, depth - 1),
    }
}

#[test]
fn glushkov_recognizes_the_words_of_the_expression() {
    let reg = RegExp::try_from("(a+b).a*.b*.(a+b)*").unwrap();
    let g = Automata::from(RegExp::try_from("(a+b).a*.b*.(a+b)*").unwrap());
    let letters = ['a', 'b', 'c'];
    let mut words: Vec<Vec<char>> = vec![vec![]];
    let mut at = 0;
    while words.len() < 200 {
        for c in letters {
            let mut w = words[at].clone();
            w.push(c);
            words.push(w);
        }
        at += 1;
    }
    for w in words.iter() {
        assert_eq!(g.accept(w), is_word(&reg, w));
    }
    assert!(!g.accept(&[]));
    assert!(g.accept(&['a']));
    assert!(g.accept(&['b', 'a', 'b', 'a']));
    assert!(!g.accept(&['a', 'c']));
}

#[test]
fn glushkov_of_random_expressions() {
    let mut rng = StdRng::seed_from_u64(5);
    let letters = ['a', 'b', 'c'];
    for _ in 0..300 {
        let reg = random_regex(&mut rng, 4);
        let text = reg.to_string();
        let g = Automata::from(RegExp::try_from(text.as_str()).unwrap());
        assert!(g.is_standard());
        assert!(g.is_homogeneous());
        for _ in 0..30 {
            let len: usize = rng.gen_range(0..6);
            let word: Vec<char> = (0..len).map(|_| letters[rng.gen_range(0..3)]).collect();
            assert_eq!(g.accept(&word), is_word(&reg, &word), "{} on {:?}", text, word);
        }
    }
}

#[test]
fn glushkov_of_the_empty_word() {
    let g = Automata::from(RegExp::try_from("$").unwrap());
    assert!(g.accept(&[]));
    assert!(!g.accept(&['a']));
    let h = Automata::from(RegExp::try_from("$*.a").unwrap());
    assert!(h.accept(&['a']));
    assert!(!h.accept(&[]));
}

#[test]
fn text_spells_the_expression() {
    let reg = RegExp::Or(
        Box::new(RegExp::Concat(
            Box::new(RegExp::Repeat(Box::new(RegExp::Repeat(Box::new(RegExp::Symbol('Z')))))),
            Box::new(RegExp::Epsilon),
        )),
        Box::new(RegExp::Repeat(Box::new(RegExp::Or(
            Box::new(RegExp::Symbol('a')),
            Box::new(RegExp::Symbol('q')),
        )))),
    );
    let text = reg.to_string();
    assert_eq!(text, "((Z**.$)+(a+q)*)");
    assert_eq!(RegExp::try_from(text.as_str()), Ok(reg));
    let mut rng = StdRng::seed_from_u64(9);
    for _ in 0..300 {
        let reg = random_regex(&mut rng, 5);
        let text = reg.to_string();
        assert_eq!(RegExp::try_from(text.as_str()), Ok(reg));
    }
}
