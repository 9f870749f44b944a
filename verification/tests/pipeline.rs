use lrgen::automaton::{Action, Automaton};
use lrgen::closure::{build_table, normalize_head};
use lrgen::collection::start_head;
use lrgen::lr::{Error, Position, Positions, ReductendPosition, Token, LR};
use lrgen::parser::{Component, Component0, Components, Reductend, Reductends, Rule};
use lrgen::reverseparse::{export_cpp, export_rust, exportable};

fn comp(handle: Component0, var: Option<&str>) -> Component {
    Component { handle, var: var.map(|v| v.to_string()) }
}

fn red(components: Vec<Component>, code: Option<&str>) -> Reductend {
    Reductend { components: Components { components }, code: code.map(|c| c.to_string()) }
}

fn rule(name: &str, reductends: Vec<Reductend>, export: Option<&str>) -> Rule {
    Rule { identifier: name.to_string(), reductends: Reductends { reductends }, export: export.map(|e| e.to_string()) }
}

/// start: list ;  list: "a" | list "a" ;
fn list_grammar() -> Vec<Rule> {
    vec![
        rule("start", vec![red(vec![comp(Component0::Rule("list".to_string()), Some("l"))], Some("l"))], Some("usize")),
        rule(
            "list",
            vec![
                red(vec![comp(Component0::Terminal("\"a\"".to_string()), None)], Some("1")),
                red(
                    vec![
                        comp(Component0::Rule("list".to_string()), Some("l")),
                        comp(Component0::Terminal("\"a\"".to_string()), None),
                    ],
                    Some("l + 1"),
                ),
            ],
            Some("usize"),
        ),
    ]
}

fn pos(rule: usize, reductend: usize, component: usize) -> Position {
    Position { rule, reductend, component }
}

#[test]
fn position_new_finds_rule() {
    let rules = list_grammar();
    let p = Position::new(&rules, "list", 1).ok().unwrap();
    assert_eq!(p, pos(1, 1, 0));
    assert_eq!(Position::rule_index(&rules, "start").ok().unwrap(), 0);
}

#[test]
fn position_new_missing_rule() {
    let rules = list_grammar();
    match Position::new(&rules, "nothing", 0) {
        Err(Error::Error(m)) => assert_eq!(m, "Rule nothing does not found!"),
        _ => panic!("expected an error"),
    }
}

#[test]
fn position_next_and_get() {
    let rules = list_grammar();
    let p = pos(1, 1, 0);
    let q = p.next();
    assert_eq!(q, pos(1, 1, 1));
    match &q.get(&rules).unwrap().handle {
        Component0::Terminal(t) => assert_eq!(t, "\"a\""),
        _ => panic!("expected a terminal"),
    }
    assert!(q.next().get(&rules).is_none());
    assert!(pos(5, 0, 0).get_rr(&rules).is_none());
    assert_eq!(ReductendPosition { rule: 1, reductend: 0 }.component(3), pos(1, 0, 3));
}

#[test]
fn position_text() {
    let rules = list_grammar();
    assert_eq!(pos(1, 1, 0).get_string(&rules), "list -> • list \"a\"");
    assert_eq!(pos(1, 1, 1).get_string(&rules), "list -> list • \"a\"");
    assert_eq!(pos(1, 1, 2).get_string(&rules), "list -> list \"a\"• ");
}

#[test]
fn positions_add_sorts_and_dedups() {
    let mut s = Positions::new();
    s.add(pos(1, 0, 0));
    s.add(pos(0, 1, 2));
    s.add(pos(0, 1, 2));
    s.add(pos(0, 1, 1));
    assert_eq!(s.iter().clone(), vec![pos(0, 1, 1), pos(0, 1, 2), pos(1, 0, 0)]);
    assert!(s.contains(&pos(0, 1, 2)));
    assert!(!s.contains(&pos(0, 0, 0)));
}

#[test]
fn positions_add_order_does_not_matter() {
    let mut a = Positions::new();
    a.add(pos(2, 0, 1));
    a.add(pos(0, 3, 0));
    let mut b = Positions::new();
    b.add(pos(0, 3, 0));
    b.add(pos(2, 0, 1));
    assert_eq!(a.iter().clone(), b.iter().clone());
    let mut c = Positions::single(pos(2, 0, 1));
    c.add(pos(2, 0, 1));
    assert_eq!(c.into_iter(), vec![pos(2, 0, 1)]);
}

#[test]
fn positions_merge_keeps_items() {
    let mut a = Positions::single(pos(0, 0, 0));
    a.merge(Positions::single(pos(1, 0, 0)));
    assert_eq!(a.iter().clone(), vec![pos(0, 0, 0)]);
}

#[test]
fn positions_from_rule_and_text() {
    let rules = list_grammar();
    let s = Positions::from(&rules, "list").ok().unwrap();
    assert_eq!(s.iter().clone(), vec![pos(1, 0, 0), pos(1, 1, 0)]);
    assert_eq!(s.get_string(&rules), "[list -> • \"a\" | list -> • list \"a\"]");
    assert!(Positions::from(&rules, "x").is_err());
}

#[test]
fn lr_needs_start_rule() {
    let rules = vec![rule("list", vec![red(vec![comp(Component0::Terminal("\"a\"".to_string()), None)], None)], None)];
    match LR::new(&rules) {
        Err(Error::Error(m)) => assert_eq!(m, "Rule start does not found!"),
        _ => panic!("expected an error"),
    }
}

fn term(t: &str) -> Component {
    comp(Component0::Terminal(t.to_string()), None)
}

fn call(r: &str) -> Component {
    comp(Component0::Rule(r.to_string()), None)
}

fn expect_error(r: Result<LR, Error>, message: &str) {
    match r {
        Err(Error::Error(m)) => assert_eq!(m, message),
        Err(_) => panic!("expected the error {}", message),
        Ok(_) => panic!("expected the error {}", message),
    }
}

#[test]
fn lr_unreached_wildcard_builds() {
    // start: "a" ;  other: * ;
    let rules = vec![
        rule("start", vec![red(vec![term("\"a\"")], None)], None),
        rule("other", vec![red(vec![comp(Component0::Token, None)], None)], None),
    ];
    let lr = LR::new(&rules).ok().unwrap();
    assert_eq!(lr.states.len(), 2);
    assert!(lr.can_bake());
    let a = Automaton::new(&lr).ok().unwrap();
    assert_eq!(a.states.len(), 2);
    assert_eq!(a.terminals.len(), 2);
}

#[test]
fn lr_reached_wildcard_fails() {
    // start: "a" * ;
    let rules = vec![rule("start", vec![red(vec![term("\"a\""), comp(Component0::Token, None)], None)], None)];
    expect_error(LR::new(&rules), "Not implemented!");
    // start: * ;
    let rules = vec![rule("start", vec![red(vec![comp(Component0::Token, None)], None)], None)];
    expect_error(LR::new(&rules), "Not implemented!");
    // start: x "b" ;  x: * ;  (met in the closure of the initial state)
    let rules = vec![
        rule("start", vec![red(vec![call("x"), term("\"b\"")], None)], None),
        rule("x", vec![red(vec![comp(Component0::Token, None)], None)], None),
    ];
    expect_error(LR::new(&rules), "Not implemented!");
    // start: x y ;  x: "a" ;  y: * ;  (met in the first tokens of what follows x)
    let rules = vec![
        rule("start", vec![red(vec![call("x"), call("y")], None)], None),
        rule("x", vec![red(vec![term("\"a\"")], None)], None),
        rule("y", vec![red(vec![comp(Component0::Token, None)], None)], None),
    ];
    expect_error(LR::new(&rules), "Not implemented!");
}

#[test]
fn lr_wildcard_without_start_reports_start() {
    let rules = vec![rule("other", vec![red(vec![comp(Component0::Token, None)], None)], None)];
    expect_error(LR::new(&rules), "Rule start does not found!");
}

#[test]
fn lr_undefined_rule_only_where_reached() {
    // start: "a" ;  other: missing ;
    let rules = vec![
        rule("start", vec![red(vec![term("\"a\"")], None)], None),
        rule("other", vec![red(vec![call("missing")], None)], None),
    ];
    assert_eq!(LR::new(&rules).ok().unwrap().states.len(), 2);
    // start: "a" missing ;
    let rules = vec![rule("start", vec![red(vec![term("\"a\""), call("missing")], None)], None)];
    expect_error(LR::new(&rules), "Rule missing does not found!");
}

#[test]
fn lr_states_of_list_grammar() {
    let rules = list_grammar();
    let lr = LR::new(&rules).ok().unwrap();
    assert_eq!(lr.states.len(), 4);
    assert_eq!(lr.start, 0);
    assert_eq!(lr.export, Some("usize".to_string()));
}

#[test]
fn automaton_of_list_grammar() {
    let rules = list_grammar();
    let lr = LR::new(&rules).ok().unwrap();
    assert!(lr.can_bake());
    let a = Automaton::new(&lr).ok().unwrap();
    assert_eq!(a.states.len(), 4);
    assert_eq!(a.terminals.len(), 2);
    assert!(matches!(a.terminals[0], Token::EOF));
    assert!(matches!(&a.terminals[1], Token::Terminal(t) if t == "\"a\""));
    assert_eq!(a.reductions.len(), 3);
    for st in &a.states {
        for (k, act) in &st.lookahead {
            assert!(*k < a.terminals.len());
            match act {
                Action::Shift(t) => assert!(*t < a.states.len()),
                Action::Reduce(r) => assert!(*r < a.reductions.len()),
                Action::Halt => assert_eq!(*k, 0),
            }
        }
    }
}

#[test]
fn ambiguous_grammar_is_refused() {
    // start: e ; e: e e | "a" ;
    let rules = vec![
        rule("start", vec![red(vec![comp(Component0::Rule("e".to_string()), None)], None)], None),
        rule(
            "e",
            vec![
                red(
                    vec![comp(Component0::Rule("e".to_string()), None), comp(Component0::Rule("e".to_string()), None)],
                    None,
                ),
                red(vec![comp(Component0::Terminal("\"a\"".to_string()), None)], None),
            ],
            None,
        ),
    ];
    let lr = LR::new(&rules).ok().unwrap();
    assert!(lr.can_bake());
    match Automaton::new(&lr) {
        Err(Error::Error(m)) => assert_eq!(m, "Ambiguous grammar! Not LR"),
        _ => panic!("expected the ambiguity error"),
    }
}

#[test]
fn export_writes_tables() {
    let rules = list_grammar();
    let lr = LR::new(&rules).ok().unwrap();
    let a = Automaton::new(&lr).ok().unwrap();
    assert!(exportable(&a));
    let rust = export_rust(&a);
    assert!(rust.contains("\tconst ACTION: [ [isize; 2]; 4] = [\n"));
    assert!(rust.contains("\tconst GOTO: [ [usize; 3]; 4] = [\n"));
    let cpp = export_cpp(&a);
    assert!(!cpp.is_empty());
}

fn action_code(a: &Action) -> i64 {
    match a {
        Action::Halt => 0,
        Action::Reduce(i) => -(*i as i64) - 1,
        Action::Shift(i) => *i as i64 + 1,
    }
}

#[test]
fn written_tables_hold_the_automaton() {
    let rules = list_grammar();
    let lr = LR::new(&rules).ok().unwrap();
    let a = Automaton::new(&lr).ok().unwrap();
    let rust = export_rust(&a);
    for st in &a.states {
        let row: Vec<String> = (0..a.terminals.len())
            .map(|k| match st.lookahead.iter().find(|(t, _)| *t == k) {
                Some((_, act)) => action_code(act).to_string(),
                None => "0".to_string(),
            })
            .collect();
        let line = format!("\t\t[{}], \n", row.join(", "));
        assert!(rust.contains(&line), "missing action row {:?}", line);
        let gs: Vec<String> = (0..a.reductions.len())
            .map(|r| match st.goto.iter().find(|(x, _)| *x == r) {
                Some((_, s)) => s.to_string(),
                None => "0".to_string(),
            })
            .collect();
        let gline = format!("\t\t[{}], \n", gs.join(", "));
        assert!(rust.contains(&gline), "missing return row {:?}", gline);
    }
    // reading a code back gives its action
    for code in [-3i64, -1, 0, 1, 4] {
        let back = if code > 0 {
            Action::Shift((code - 1) as usize)
        } else if code < 0 {
            Action::Reduce((-code - 1) as usize)
        } else {
            Action::Halt
        };
        assert_eq!(action_code(&back), code);
    }
}

#[test]
fn positions_get_string_of_empty_set() {
    let rules = list_grammar();
    assert_eq!(Positions::new().get_string(&rules), "[]");
}

#[test]
fn lr_reports_missing_rule() {
    // start: "a" nowhere ;
    let rules = vec![rule(
        "start",
        vec![red(
            vec![comp(Component0::Terminal("\"a\"".to_string()), None), comp(Component0::Rule("nowhere".to_string()), None)],
            None,
        )],
        None,
    )];
    match LR::new(&rules) {
        Err(Error::Error(m)) => assert_eq!(m, "Rule nowhere does not found!"),
        _ => panic!("expected the missing rule error"),
    }
}

#[test]
fn error_text() {
    let e = Error::Error("Rule x does not found!".to_string());
    assert_eq!(e.to_debug_string(), "Generic Error!Rule x does not found!");
    assert_eq!(Error::GrammarErrors(vec![]).to_debug_string(), "");
}

#[test]
fn closing_a_closure_again_changes_nothing() {
    let rules = list_grammar();
    let tab = build_table(&rules).unwrap();
    let k = start_head(&rules, &tab, 0);
    let h = normalize_head(&rules, &tab, &k).ok().unwrap();
    assert!(!h.same(&k));
    let h2 = normalize_head(&rules, &tab, &h).ok().unwrap();
    assert!(h2.same(&h));
}

#[test]
fn one_reduction_per_reductend() {
    let rules = list_grammar();
    let lr = LR::new(&rules).ok().unwrap();
    let a = Automaton::new(&lr).ok().unwrap();
    let mut used = vec![false; a.reductions.len()];
    for st in &a.states {
        for (_, act) in &st.lookahead {
            if let Action::Reduce(r) = act {
                used[*r] = true;
            }
        }
        for (r, _) in &st.goto {
            used[*r] = true;
        }
    }
    assert!(used.iter().all(|u| *u));
    let texts: Vec<String> = a.reductions.iter().map(|r| format!("{:?}", r)).collect();
    for i in 0..texts.len() {
        for j in i + 1..texts.len() {
            assert_ne!(texts[i], texts[j]);
        }
    }
    assert_eq!(texts.len(), 3);
}

#[test]
fn automaton_terminals_only_from_reached_states() {
    // start: "a" ;  other: "b" ;  ("b" belongs to no state)
    let rules = vec![
        rule("start", vec![red(vec![term("\"a\"")], None)], None),
        rule("other", vec![red(vec![term("\"b\"")], None)], None),
    ];
    let lr = LR::new(&rules).ok().unwrap();
    assert!(lr.can_bake());
    let a = Automaton::new(&lr).ok().unwrap();
    assert_eq!(a.terminals.len(), 2);
    assert!(matches!(a.terminals[0], Token::EOF));
    assert!(matches!(&a.terminals[1], Token::Terminal(t) if t == "\"a\""));
    assert_eq!(a.reductions.len(), 1);
}
