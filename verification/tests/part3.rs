use logo::lexer::lex;
use logo::part3::{close_svg, eval, holds_end_tag, parse, steps, Direction, Step, AST};

fn tree(input: &str) -> AST {
    parse(&lex(input).unwrap()).unwrap()
}

#[test]
fn steps_of_the_square() {
    let s = steps(&tree("forward 100 right 90 forward 100 right 90 forward 100 right 90 forward 100"));
    assert_eq!(s, vec![
        Step::Forward(100),
        Step::Right(90),
        Step::Forward(100),
        Step::Right(90),
        Step::Forward(100),
        Step::Right(90),
        Step::Forward(100),
        Step::Close,
    ]);
}

#[test]
fn steps_of_every_order() {
    let s = steps(&tree("backward 5 left 7"));
    assert_eq!(s, vec![Step::Backward(5), Step::Left(7), Step::Close]);
    assert_eq!(steps(&tree("")), vec![Step::Close]);
}

#[test]
fn steps_of_hand_built_trees() {
    let ast = AST::Program(
        Box::new(AST::Command(Box::new(AST::Order(Direction::Left)), Box::new(AST::Empty))),
        Box::new(AST::Program(Box::new(AST::Empty), Box::new(AST::Empty))),
    );
    assert_eq!(steps(&ast), vec![Step::Left(0), Step::Close, Step::Close]);
    let not_an_order = AST::Command(Box::new(AST::Number(1)), Box::new(AST::Number(1)));
    assert!(steps(&not_an_order).is_empty());
}

#[test]
fn closing_adds_the_end_tag_once() {
    let mut svg = String::from("<svg>\n");
    close_svg(&mut svg);
    assert_eq!(svg, "<svg>\n</svg>\n");
    close_svg(&mut svg);
    assert_eq!(svg, "<svg>\n</svg>\n");
}

#[test]
fn end_tag_is_found_anywhere() {
    assert!(holds_end_tag("a</svg>b"));
    assert!(holds_end_tag("</svg>"));
    assert!(!holds_end_tag("</svg"));
    assert!(!holds_end_tag(""));
    assert!(!holds_end_tag("</SVG>"));
}

#[test]
fn part3_evaluates_like_part2() {
    assert_eq!(eval(&tree("left 3")), vec!["Tourne à gauche de 3 degrés"]);
}

#[test]
fn text_of_commands_parses_back_in_part3() {
    let ast = tree("right 5 forward 99999999999 ");
    assert_eq!(
        format!("{:?}", ast),
        "Program(Command(Order(Right), Number(5)), Program(Command(Order(Forward), Number(0)), Empty))"
    );
}
