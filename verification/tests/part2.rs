use logo::lexer::lex;
use logo::part2::{eval, lex_error_text, lexeme_text, parse, parse_error_text, Direction, AST};

fn tree(input: &str) -> AST {
    parse(&lex(input).unwrap()).unwrap()
}

#[test]
fn parses_with_directions() {
    let ast = tree("forward 100 left 90");
    assert_eq!(
        format!("{:?}", ast),
        "Program(Command(Order(Forward), Number(100)), Program(Command(Order(Left), Number(90)), Empty))"
    );
}

#[test]
fn too_large_numbers_read_as_zero() {
    assert_eq!(
        format!("{:?}", tree("right 2147483648")),
        "Program(Command(Order(Right), Number(0)), Empty)"
    );
}

#[test]
fn evaluates_the_square_without_stop() {
    let lines = eval(&tree("forward 100 right 90 forward 100 right 90"));
    assert_eq!(lines, vec![
        "Avance de 100 unités",
        "Tourne à droite de 90 degrés",
        "Avance de 100 unités",
        "Tourne à droite de 90 degrés",
    ]);
    assert!(eval(&tree("")).is_empty());
}

#[test]
fn evaluates_hand_built_command() {
    let ast = AST::Command(Box::new(AST::Order(Direction::Backward)), Box::new(AST::Empty));
    assert_eq!(eval(&ast), vec!["Recule de 0 unités"]);
}

#[test]
fn lexeme_texts() {
    let lx = lex("forward\n  12").unwrap();
    assert_eq!(lexeme_text(&lx[0]), "FORWARD \"forward\" (1, 1)");
    assert_eq!(lexeme_text(&lx[1]), "NUMBER \"12\" (2, 3)");
}

#[test]
fn lexer_error_report() {
    let e = lex("forward 50 jump 10").unwrap_err();
    assert_eq!(
        lex_error_text(&e),
        "Error: Expecting one of the following 6 lexemes: \"FORWARD\", \"BACKWARD\", \"LEFT\", \"RIGHT\", \"NUMBER\", \"WS\"\nAt: (1, 12)\nWith states stack: [\"DEFAULT\"]"
    );
}

#[test]
fn parse_error_location() {
    let lx = lex("forward").unwrap();
    let e = parse(&lx).unwrap_err();
    assert_eq!(parse_error_text(&e, &lx), "At: FORWARD \"forward\" (1, 1)");
    let lx = lex("100 forward").unwrap();
    let e = parse(&lx).unwrap_err();
    assert_eq!(parse_error_text(&e, &lx), "At start of the input");
}
