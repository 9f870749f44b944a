use lrgen::machine::{Lexeme, Lexemes};
use lrgen::parser::{gTokens, parse, try_parse, Component0};

/// Lexemes of `source` from (kind, start, end) triples.
fn lexemes(source: &str, spans: &[(Option<gTokens>, usize, usize)]) -> Lexemes {
    let tokens = spans
        .iter()
        .map(|&(kind, start, end)| Lexeme { kind, text: source[start..end].to_string(), start, end })
        .collect();
    Lexemes { source: source.to_string(), tokens, eof: source.len() }
}

#[test]
fn parses_member() {
    let src = "var x: T;";
    let lx = lexemes(
        src,
        &[
            (Some(gTokens::Var), 0, 3),
            (Some(gTokens::WhiteSpace), 3, 4),
            (Some(gTokens::Identifier), 4, 5),
            (Some(gTokens::Colon), 5, 6),
            (Some(gTokens::WhiteSpace), 6, 7),
            (Some(gTokens::Identifier), 7, 8),
            (Some(gTokens::Semicolon), 8, 9),
        ],
    );
    assert!(lx.well_formed());
    let ast = parse(&lx).ok().unwrap();
    assert_eq!(ast.members.len(), 1);
    assert_eq!(ast.members[0].name, "x");
    assert_eq!(ast.members[0].member_type, "T");
    assert!(ast.rules.is_empty());
}

#[test]
fn parses_rule() {
    let src = "start: list;";
    let lx = lexemes(
        src,
        &[
            (Some(gTokens::Identifier), 0, 5),
            (Some(gTokens::Colon), 5, 6),
            (Some(gTokens::WhiteSpace), 6, 7),
            (Some(gTokens::Identifier), 7, 11),
            (Some(gTokens::Semicolon), 11, 12),
        ],
    );
    let ast = parse(&lx).ok().unwrap();
    assert!(ast.members.is_empty());
    assert_eq!(ast.rules.len(), 1);
    let r = &ast.rules[0];
    assert_eq!(r.identifier, "start");
    assert_eq!(r.export, None);
    assert_eq!(r.reductends.reductends.len(), 1);
    let red = &r.reductends.reductends[0];
    assert_eq!(red.code, None);
    assert_eq!(red.components.components.len(), 1);
    assert!(matches!(&red.components.components[0].handle, Component0::Rule(n) if n == "list"));
    assert_eq!(red.components.components[0].var, None);
}

#[test]
fn parses_alternatives_code_and_export() {
    let src = "e: \"a\"=x {x} | e -> T;";
    let lx = lexemes(
        src,
        &[
            (Some(gTokens::Identifier), 0, 1),
            (Some(gTokens::Colon), 1, 2),
            (Some(gTokens::WhiteSpace), 2, 3),
            (Some(gTokens::Terminal), 3, 6),
            (Some(gTokens::Assign), 6, 7),
            (Some(gTokens::Identifier), 7, 8),
            (Some(gTokens::WhiteSpace), 8, 9),
            (Some(gTokens::CurleyOpen), 9, 10),
            (Some(gTokens::Identifier), 10, 11),
            (Some(gTokens::CurleyClose), 11, 12),
            (Some(gTokens::WhiteSpace), 12, 13),
            (Some(gTokens::Or), 13, 14),
            (Some(gTokens::WhiteSpace), 14, 15),
            (Some(gTokens::Identifier), 15, 16),
            (Some(gTokens::WhiteSpace), 16, 17),
            (Some(gTokens::Arrow), 17, 19),
            (Some(gTokens::WhiteSpace), 19, 20),
            (Some(gTokens::Identifier), 20, 21),
            (Some(gTokens::Semicolon), 21, 22),
        ],
    );
    let ast = parse(&lx).ok().unwrap();
    let r = &ast.rules[0];
    assert_eq!(r.identifier, "e");
    assert_eq!(r.export, Some("T".to_string()));
    let reds = &r.reductends.reductends;
    assert_eq!(reds.len(), 2);
    assert!(matches!(&reds[0].components.components[0].handle, Component0::Terminal(t) if t == "\"a\""));
    assert_eq!(reds[0].components.components[0].var, Some("x".to_string()));
    assert_eq!(reds[0].code, Some("{x}".to_string()));
    assert!(matches!(&reds[1].components.components[0].handle, Component0::Rule(n) if n == "e"));
    assert_eq!(reds[1].code, None);
}

#[test]
fn reports_syntax_error() {
    let src = "ok: a;\nvar x T;";
    let lx = lexemes(
        src,
        &[
            (Some(gTokens::Identifier), 0, 2),
            (Some(gTokens::Colon), 2, 3),
            (Some(gTokens::WhiteSpace), 3, 4),
            (Some(gTokens::Identifier), 4, 5),
            (Some(gTokens::Semicolon), 5, 6),
            (Some(gTokens::WhiteSpace), 6, 7),
            (Some(gTokens::Var), 7, 10),
            (Some(gTokens::WhiteSpace), 10, 11),
            (Some(gTokens::Identifier), 11, 12),
            (Some(gTokens::WhiteSpace), 12, 13),
            (Some(gTokens::Identifier), 13, 14),
            (Some(gTokens::Semicolon), 14, 15),
        ],
    );
    let e = parse(&lx).err().unwrap();
    assert_eq!(e.expected, vec![gTokens::Colon]);
    assert_eq!(e.found, Some(Ok(gTokens::Identifier)));
    assert_eq!(e.text, "var x T");
    assert_eq!(e.line, 2);
    assert_eq!(e.offset, 6);
    assert_eq!(e.len, 1);
}

#[test]
fn reports_unknown_lexeme_and_end() {
    let src = "x ?";
    let lx = lexemes(src, &[(Some(gTokens::Identifier), 0, 1), (Some(gTokens::WhiteSpace), 1, 2), (None, 2, 3)]);
    let e = parse(&lx).err().unwrap();
    assert_eq!(e.expected, vec![gTokens::Colon]);
    assert_eq!(e.found, Some(Err(())));
    assert_eq!(e.text, "x ?");
    let src2 = "var";
    let lx2 = lexemes(src2, &[(Some(gTokens::Var), 0, 3)]);
    let e2 = parse(&lx2).err().unwrap();
    assert_eq!(e2.expected, vec![gTokens::Identifier]);
    assert_eq!(e2.found, None);
    assert_eq!(e2.offset, 3);
    assert_eq!(e2.len, 0);
}

#[test]
fn empty_input_has_no_tree() {
    let lx = lexemes("  ", &[(Some(gTokens::WhiteSpace), 0, 2)]);
    assert!(try_parse(&lx).is_none());
}

#[test]
fn badly_placed_spans_are_refused() {
    let mut lx = lexemes("ab", &[(Some(gTokens::Identifier), 0, 2)]);
    lx.tokens[0].end = 5;
    assert!(!lx.well_formed());
    let lx2 = Lexemes {
        source: "é".to_string(),
        tokens: vec![Lexeme { kind: Some(gTokens::Identifier), text: "é".to_string(), start: 0, end: 1 }],
        eof: 2,
    };
    assert!(!lx2.well_formed());
}

#[test]
fn whitespace_between_lexemes_is_skipped() {
    let tight = lexemes(
        "start:list;",
        &[
            (Some(gTokens::Identifier), 0, 5),
            (Some(gTokens::Colon), 5, 6),
            (Some(gTokens::Identifier), 6, 10),
            (Some(gTokens::Semicolon), 10, 11),
        ],
    );
    let loose = lexemes(
        "start  :\n list ;",
        &[
            (Some(gTokens::Identifier), 0, 5),
            (Some(gTokens::WhiteSpace), 5, 7),
            (Some(gTokens::Colon), 7, 8),
            (Some(gTokens::WhiteSpace), 8, 10),
            (Some(gTokens::Identifier), 10, 14),
            (Some(gTokens::WhiteSpace), 14, 15),
            (Some(gTokens::Semicolon), 15, 16),
        ],
    );
    let a = parse(&tight).ok().unwrap();
    let b = parse(&loose).ok().unwrap();
    assert_eq!(format!("{:?}", a), format!("{:?}", b));
    assert_eq!(a.rules.len(), 1);
    assert_eq!(a.rules[0].identifier, "start");
}
