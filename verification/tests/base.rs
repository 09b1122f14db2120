use logo::base::{eval, parse, AST};
use logo::grammar::ParseError;
use logo::lexer::lex;

fn tree(input: &str) -> Result<AST, ParseError> {
    parse(&lex(input).unwrap())
}

#[test]
fn parses_a_single_command() {
    let ast = tree("forward 100").unwrap();
    assert_eq!(format!("{:?}", ast), "Program(Command(Order(Forward), Number(100)), Empty)");
}

#[test]
fn empty_program_is_empty() {
    assert_eq!(format!("{:?}", tree("").unwrap()), "Empty");
    assert_eq!(eval(&tree("").unwrap()), vec!["Stop".to_string()]);
}

#[test]
fn evaluates_a_single_command() {
    let lines = eval(&tree("forward 100").unwrap());
    assert_eq!(lines, vec!["Avance de 100 unités".to_string(), "Stop".to_string()]);
}

#[test]
fn evaluates_every_order() {
    let lines = eval(&tree("forward 1 backward 2 left 3 right 4").unwrap());
    assert_eq!(lines, vec![
        "Avance de 1 unités",
        "Recule de 2 unités",
        "Tourne à gauche de 3 degrés",
        "Tourne à droite de 4 degrés",
        "Stop",
    ]);
}

#[test]
fn evaluates_hand_built_trees() {
    let odd = AST::Program(
        Box::new(AST::Command(Box::new(AST::Order(Box::new(AST::Left))), Box::new(AST::Forward))),
        Box::new(AST::Program(Box::new(AST::Empty), Box::new(AST::Number(3)))),
    );
    assert_eq!(eval(&odd), vec!["Tourne à gauche de 0 degrés", "Stop"]);
    let negative = AST::Command(Box::new(AST::Order(Box::new(AST::Backward))), Box::new(AST::Number(-5)));
    assert_eq!(eval(&negative), vec!["Recule de -5 unités"]);
    let not_an_order = AST::Command(Box::new(AST::Forward), Box::new(AST::Number(5)));
    assert!(eval(&not_an_order).is_empty());
}

#[test]
fn parse_errors_say_where_they_stop() {
    assert_eq!(tree("forward").unwrap_err(), ParseError { at: Some(0) });
    assert_eq!(tree("100 forward").unwrap_err(), ParseError { at: None });
    assert_eq!(tree("forward 1 left right").unwrap_err(), ParseError { at: Some(2) });
    assert_eq!(tree("forward 1 2").unwrap_err(), ParseError { at: Some(1) });
}

#[test]
fn largest_number_fits() {
    let ast = tree("right 2147483647").unwrap();
    assert_eq!(format!("{:?}", ast), "Program(Command(Order(Right), Number(2147483647)), Empty)");
}

#[test]
fn clone_keeps_the_tree() {
    let ast = tree("forward 1 left 2").unwrap();
    assert_eq!(format!("{:?}", ast.clone()), format!("{:?}", ast));
}

#[test]
fn text_of_commands_parses_back() {
    let ast = tree("forward 10 left 20 backward 0 ").unwrap();
    assert_eq!(
        format!("{:?}", ast),
        "Program(Command(Order(Forward), Number(10)), Program(Command(Order(Left), Number(20)), \
         Program(Command(Order(Backward), Number(0)), Empty)))"
    );
}

#[test]
fn commands_joined_by_single_spaces_parse_back() {
    let ast = tree("left 1 right 2").unwrap();
    assert_eq!(
        format!("{:?}", ast),
        "Program(Command(Order(Left), Number(1)), Program(Command(Order(Right), Number(2)), Empty))"
    );
}
