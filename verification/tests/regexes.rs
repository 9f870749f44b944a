use lrgen::lexer::{post_process, Position, RegexPos, Regexpr, Term, DFA};

fn ch(c: char) -> Regexpr {
    Regexpr::Match(Term::Char(c))
}

fn sample() -> Vec<Vec<Regexpr>> {
    vec![vec![
        Regexpr::Match(Term::Pattern(vec![ch('a')])),
        Regexpr::Any(Term::Or(vec![ch('b')], vec![ch('c')])),
        Regexpr::Maybe(Term::Char('d')),
    ]]
}

fn plain() -> Vec<Vec<Regexpr>> {
    vec![vec![ch('x')], vec![Regexpr::Any(Term::Group(vec!['a', 'b']))]]
}

#[test]
fn post_process_lifts_patterns() {
    let out = post_process(sample());
    let mut expected = sample();
    expected.push(vec![ch('a')]);
    expected.push(vec![ch('b')]);
    expected.push(vec![ch('c')]);
    assert_eq!(out, expected);
}

#[test]
fn post_process_keeps_plain_expressions() {
    assert_eq!(post_process(plain()), plain());
}

#[test]
fn opaque_expressions() {
    assert!(ch('a').opaque());
    assert!(Regexpr::More(Term::Char('a')).opaque());
    assert!(!Regexpr::Any(Term::Char('a')).opaque());
    assert!(!Regexpr::Maybe(Term::Char('a')).opaque());
}

#[test]
fn regex_positions() {
    let from = vec![vec![ch('a'), ch('b')], vec![ch('c')]];
    let mut p = RegexPos { stack: vec![Position { regex: 1, index: 0 }, Position { regex: 0, index: 0 }] };
    assert_eq!(p.get(&from).ok().unwrap(), Some(&ch('a')));
    p.next(&from);
    assert_eq!(p.stack, vec![Position { regex: 1, index: 0 }, Position { regex: 0, index: 1 }]);
    assert_eq!(p.get(&from).ok().unwrap(), Some(&ch('b')));
    // the inner expression ends, and so does the outer one
    p.next(&from);
    assert!(p.stack.is_empty());
    assert_eq!(p.get(&from).ok().unwrap(), None);
    let bad = RegexPos { stack: vec![Position { regex: 7, index: 0 }] };
    match bad.get(&from) {
        Err(lrgen::lr::Error::Error(m)) => assert_eq!(m, "Regex 7 is out of range"),
        _ => panic!("expected an error"),
    }
}

#[test]
fn dfa_starts_unbuilt() {
    assert!(DFA::new(vec![vec![ch('a')]]).is_ok());
    let d = lrgen::regex::DFA::new(vec!["a".to_string(), "b".to_string()]).ok().unwrap();
    assert_eq!(format!("{:?}", d), "DFA { states: [State { result: 0, next: [] }], quirks: [], out_count: 0 }");
    let e = lrgen::regex::DFA::new(vec![]).ok().unwrap();
    assert_eq!(format!("{:?}", e), "DFA { states: [], quirks: [], out_count: 0 }");
}
