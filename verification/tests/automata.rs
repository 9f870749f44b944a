use lrgen::nda::{Task, Terminal, NDA};
use lrgen::nda_collapse::StateMaschine;
use lrgen::parser::{Component, Component0, Components, Reductend, Reductends, Rule};

fn comp(handle: Component0) -> Component {
    Component { handle, var: None }
}

fn rule(name: &str, reductends: Vec<(Vec<Component>, Option<&str>)>, export: Option<&str>) -> Rule {
    Rule {
        identifier: name.to_string(),
        reductends: Reductends {
            reductends: reductends
                .into_iter()
                .map(|(components, code)| Reductend {
                    components: Components { components },
                    code: code.map(|c| c.to_string()),
                })
                .collect(),
        },
        export: export.map(|e| e.to_string()),
    }
}

/// start: "x" item {c1} -> T ;  item: "y" {c2} -> U ;
fn call_grammar() -> Vec<Rule> {
    vec![
        rule(
            "start",
            vec![(vec![comp(Component0::Terminal("x".to_string())), comp(Component0::Rule("item".to_string()))], Some("c1"))],
            Some("T"),
        ),
        rule("item", vec![(vec![comp(Component0::Terminal("y".to_string()))], Some("c2"))], Some("U")),
    ]
}

fn tasks(n: &NDA) -> Vec<Vec<Task>> {
    n.states.iter().map(|s| s.tasks.clone()).collect()
}

#[test]
fn nda_of_call_grammar() {
    let n = NDA::new(call_grammar());
    assert_eq!(n.start, 0);
    assert_eq!(n.terminals.len(), 2);
    assert!(matches!(&n.terminals[0], Terminal::Terminal(t) if t == "x"));
    assert!(matches!(&n.terminals[1], Terminal::Terminal(t) if t == "y"));
    assert_eq!(n.reductions.len(), 2);
    assert_eq!(
        tasks(&n),
        vec![
            vec![Task::Match(0, 1)],
            vec![Task::Push(3, 2)],
            vec![Task::Jump(4)],
            vec![Task::Pop(1)],
            vec![Task::Match(1, 5)],
            vec![Task::Pop(0)],
        ]
    );
}

#[test]
fn nda_merge_collapses_jumps() {
    let mut n = NDA::new(call_grammar());
    n.merge();
    assert_eq!(
        tasks(&n),
        vec![
            vec![Task::Match(0, 1)],
            vec![Task::Push(2, 3)],
            vec![Task::Pop(1)],
            vec![Task::Match(1, 4)],
            vec![Task::Pop(0)],
        ]
    );
}

#[test]
fn nda_merge_joins_equal_states() {
    let mut n = NDA {
        terminals: vec![Terminal::Terminal("a".to_string())],
        states: vec![
            lrgen::nda::State { tasks: vec![Task::Match(0, 1), Task::Match(0, 2)] },
            lrgen::nda::State { tasks: vec![Task::Pop(0)] },
            lrgen::nda::State { tasks: vec![Task::Pop(0)] },
        ],
        start: 0,
        reductions: vec![],
    };
    n.merge();
    assert_eq!(tasks(&n), vec![vec![Task::Match(0, 1), Task::Match(0, 1)], vec![Task::Pop(0)]]);
}

#[test]
fn nda_terminals_are_shared() {
    // start: "a" "a" {c} -> T ;
    let rules = vec![rule(
        "start",
        vec![(vec![comp(Component0::Terminal("a".to_string())), comp(Component0::Terminal("a".to_string()))], Some("c"))],
        Some("T"),
    )];
    let n = NDA::new(rules);
    assert_eq!(n.terminals.len(), 1);
    assert_eq!(tasks(&n), vec![vec![Task::Match(0, 1)], vec![Task::Match(0, 2)], vec![Task::Pop(0)]]);
}

#[test]
fn nda_refuses_what_it_cannot_build() {
    let missing = vec![rule("start", vec![(vec![comp(Component0::Rule("none".to_string()))], Some("c"))], Some("T"))];
    assert!(NDA::try_new(missing).is_none());
    let wildcard = vec![rule("start", vec![(vec![comp(Component0::Token)], Some("c"))], Some("T"))];
    assert!(NDA::try_new(wildcard).is_none());
    let no_code = vec![rule("start", vec![(vec![comp(Component0::Terminal("a".to_string()))], None)], Some("T"))];
    assert!(NDA::try_new(no_code).is_none());
    let no_export = vec![rule("start", vec![(vec![comp(Component0::Terminal("a".to_string()))], Some("c"))], None)];
    assert!(NDA::try_new(no_export).is_none());
    assert!(NDA::try_new(vec![]).unwrap().states.is_empty());
}

#[test]
fn state_maschine_of_call_grammar() {
    let m = StateMaschine::new(call_grammar());
    assert_eq!(m.terminals.len(), 2);
    assert_eq!(m.states.len(), 7);
    let states: Vec<String> = m.states.iter().map(|s| format!("{:?}", s)).collect();
    assert_eq!(states[1], "State { task: Push(3, 2), index: None }");
    assert_eq!(states[2], "State { task: Reduce(6, Reduction { reduction_code: 1, reduction_type: 1 }), index: None }");
    assert_eq!(states[4], "State { task: Reduce(5, Reduction { reduction_code: 0, reduction_type: 0 }), index: None }");
    assert_eq!(states[5], "State { task: Pop, index: None }");
    assert_eq!(states[6], "State { task: Pop, index: None }");
}

#[test]
fn state_maschine_matches_once_per_terminal() {
    // start: "a" {c} | "a" "b" {d} -> T ;
    let rules = vec![rule(
        "start",
        vec![
            (vec![comp(Component0::Terminal("a".to_string()))], Some("c")),
            (vec![comp(Component0::Terminal("a".to_string())), comp(Component0::Terminal("b".to_string()))], Some("d")),
        ],
        Some("T"),
    )];
    let m = StateMaschine::new(rules);
    // every match records its terminal, the entry state keeps its first target
    assert_eq!(m.terminals.len(), 3);
    let s0 = format!("{:?}", m.states[0]);
    assert_eq!(s0, "State { task: Match([(Terminal(\"a\"), 1)]), index: None }");
    assert!(StateMaschine::try_new(vec![rule("start", vec![(vec![comp(Component0::Token)], Some("c"))], Some("T"))]).is_none());
}

#[test]
fn nda_merge_follows_jump_chains() {
    // 0 jumps to 1, which jumps to 2; 2 matches into 3, which pops.
    let mut n = NDA {
        terminals: vec![Terminal::Terminal("a".to_string())],
        states: vec![
            lrgen::nda::State { tasks: vec![Task::Jump(1), Task::Pop(0)] },
            lrgen::nda::State { tasks: vec![Task::Jump(2)] },
            lrgen::nda::State { tasks: vec![Task::Match(0, 3)] },
            lrgen::nda::State { tasks: vec![Task::Pop(1)] },
        ],
        start: 0,
        reductions: vec![],
    };
    n.merge();
    assert_eq!(tasks(&n), vec![vec![Task::Match(0, 1), Task::Pop(0)], vec![Task::Pop(1)]]);
}
