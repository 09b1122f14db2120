use logo::lexer::{lex, LexemeKind, Position};

fn kinds(input: &str) -> Vec<LexemeKind> {
    lex(input).unwrap().iter().map(|l| l.kind).collect()
}

#[test]
fn lexes_a_command() {
    let lx = lex("forward 100").unwrap();
    assert_eq!(lx.len(), 2);
    assert_eq!(lx[0].kind, LexemeKind::Forward);
    assert_eq!(lx[0].raw, "forward");
    assert_eq!(lx[0].position, Position { line: 1, column: 1 });
    assert_eq!(lx[1].kind, LexemeKind::Number);
    assert_eq!(lx[1].raw, "100");
    assert_eq!(lx[1].position, Position { line: 1, column: 9 });
}

#[test]
fn lexes_without_white_space_between_lexemes() {
    assert_eq!(kinds("forward100left5"), vec![
        LexemeKind::Forward,
        LexemeKind::Number,
        LexemeKind::Left,
        LexemeKind::Number,
    ]);
    let lx = lex("right007").unwrap();
    assert_eq!(lx[1].raw, "007");
}

#[test]
fn counts_lines_and_columns() {
    let lx = lex("  left 90\n\tright   45").unwrap();
    assert_eq!(lx[0].position, Position { line: 1, column: 3 });
    assert_eq!(lx[1].position, Position { line: 1, column: 8 });
    assert_eq!(lx[2].position, Position { line: 2, column: 2 });
    assert_eq!(lx[3].position, Position { line: 2, column: 10 });
}

#[test]
fn skips_unicode_white_space() {
    assert_eq!(kinds("forward\u{a0}10\u{3000}backward\u{2028}2"), vec![
        LexemeKind::Forward,
        LexemeKind::Number,
        LexemeKind::Backward,
        LexemeKind::Number,
    ]);
}

#[test]
fn empty_and_blank_inputs_have_no_lexemes() {
    assert!(lex("").unwrap().is_empty());
    assert!(lex(" \n\t ").unwrap().is_empty());
}

#[test]
fn reports_an_unknown_word_where_it_starts() {
    let e = lex("forward 50 jump 10").unwrap_err();
    assert_eq!(e.position, Position { line: 1, column: 12 });
    let e = lex("forward 1\nforwarx 2").unwrap_err();
    assert_eq!(e.position, Position { line: 2, column: 1 });
    let e = lex("é").unwrap_err();
    assert_eq!(e.position, Position { line: 1, column: 1 });
}

#[test]
fn kind_names() {
    assert_eq!(LexemeKind::Forward.name(), "FORWARD");
    assert_eq!(LexemeKind::Backward.name(), "BACKWARD");
    assert_eq!(LexemeKind::Left.name(), "LEFT");
    assert_eq!(LexemeKind::Right.name(), "RIGHT");
    assert_eq!(LexemeKind::Number.name(), "NUMBER");
}

#[test]
fn text_of_commands_lexes_back_to_their_lexemes() {
    let lx = lex("forward 10 left 90 backward 0 right 2147483648 ").unwrap();
    let raws: Vec<&str> = lx.iter().map(|l| l.raw.as_str()).collect();
    assert_eq!(raws, vec!["forward", "10", "left", "90", "backward", "0", "right", "2147483648"]);
}

#[test]
fn lexemes_are_keywords_or_digit_runs() {
    let lx = lex(" 12left\n0forward  right99 backward\t3 ").unwrap();
    for l in &lx {
        match l.kind {
            LexemeKind::Number => assert!(!l.raw.is_empty() && l.raw.chars().all(|c| c.is_ascii_digit())),
            LexemeKind::Forward => assert_eq!(l.raw, "forward"),
            LexemeKind::Backward => assert_eq!(l.raw, "backward"),
            LexemeKind::Left => assert_eq!(l.raw, "left"),
            LexemeKind::Right => assert_eq!(l.raw, "right"),
        }
    }
    assert_eq!(lx.len(), 8);
}
