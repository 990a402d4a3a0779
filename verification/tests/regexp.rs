use glushkovizer::regexp::RegExp;

#[test]
fn regexp_epsilon() {
    let a = RegExp::try_from("$");
    assert_eq!("Ok(Epsilon)", format!("{:?}", a));
}

#[test]
fn regexp_symbol() {
    let a = RegExp::try_from("a");
    assert_eq!("Ok(Symbol('a'))", format!("{:?}", a));
}

#[test]
fn regexp_regex1() {
    let a = RegExp::try_from("(a+b)*.a.b+$");
    assert_eq!(
        "Ok(Or(Concat(Concat(Repeat(Or(Symbol('a'), Symbol('b'))), \
            Symbol('a')), Symbol('b')), Epsilon))",
        format!("{:?}", a)
    );
}

#[test]
fn regexp_regex2() {
    let a = RegExp::try_from("(a + b) . ( a* . b)");
    assert_eq!(
        "Ok(Concat(Or(Symbol('a'), Symbol('b')), \
            Concat(Repeat(Symbol('a')), Symbol('b'))))",
        format!("{:?}", a)
    );
}

#[test]
fn regexp_error_syn() {
    let a = RegExp::try_from("a....b");
    assert!(a.is_err())
}

#[test]
fn regexp_error_token() {
    let a = RegExp::try_from("a.b/b");
    assert!(a.is_err())
}

#[test]
fn regexp_numbered() {
    let a = RegExp::try_from("(a+b).(a*.b)");
    assert!(a.is_ok());
    let (a, n) = a.unwrap().linearization(1);
    let info = a.get_info();
    assert_eq!(
        "Concat(Or(Symbol(Numbered('a', 1)), Symbol(Numbered('b', 2))), \
            Concat(Repeat(Symbol(Numbered('a', 3))), Symbol(Numbered('b', 4))))",
        format!("{:?}", a)
    );
    assert_eq!(5, n);
    let mut firsts = info.firsts.clone();
    firsts.sort();
    let mut lasts = info.lasts.clone();
    lasts.sort();
    let mut follows = info.follows.clone();
    follows.sort();
    assert_eq!(firsts, vec![1, 2]);
    assert_eq!(lasts, vec![4]);
    assert!(!info.null);
    assert_eq!(follows, vec![(1, 3), (1, 4), (2, 3), (2, 4), (3, 3), (3, 4)]);
}

#[test]
fn mod_epsilon() {
    let a = RegExp::try_from("$");
    assert_eq!("Ok(Epsilon)", format!("{:?}", a));
}

#[test]
fn mod_symbol() {
    let a = RegExp::try_from("a");
    assert_eq!("Ok(Symbol('a'))", format!("{:?}", a));
}

#[test]
fn mod_regex1() {
    let a = RegExp::try_from("(a+b)*.a.b+$");
    assert_eq!(
        "Ok(Or(Concat(Concat(Repeat(Or(Symbol('a'), Symbol('b'))), \
            Symbol('a')), Symbol('b')), Epsilon))",
        format!("{:?}", a)
    );
}

#[test]
fn mod_regex2() {
    let a = RegExp::try_from("(a + b) . ( a* . b)");
    assert_eq!(
        "Ok(Concat(Or(Symbol('a'), Symbol('b')), \
            Concat(Repeat(Symbol('a')), Symbol('b'))))",
        format!("{:?}", a)
    );
}

#[test]
fn mod_error_syn() {
    let a = RegExp::try_from("a....b");
    assert!(a.is_err())
}

#[test]
fn mod_error_token() {
    let a = RegExp::try_from("a.b/b");
    assert!(a.is_err())
}

#[test]
fn mod_numbered() {
    let a = RegExp::try_from("(a+b).(a*.b)");
    assert!(a.is_ok());
    let (a, n) = a.unwrap().linearization_start(1);
    let _ = a.get_flnf();
    assert_eq!(
        "Concat(Or(Symbol(Numbered('a', 1)), Symbol(Numbered('b', 2))), \
            Concat(Repeat(Symbol(Numbered('a', 3))), Symbol(Numbered('b', 4))))",
        format!("{:?}", a)
    );
    assert_eq!(5, n);
}
