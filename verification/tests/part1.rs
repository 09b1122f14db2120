use logo::part1::{lex, motion, Command, Motion, Parser, Token};

fn order(s: &str) -> Token {
    Token::Order(s.to_string())
}

fn program(source: &str) -> Result<Vec<Command>, String> {
    Parser::new(lex(source)?).parse_program()
}

#[test]
fn lexes_the_square() {
    let tokens = lex("forward 100 right 90 forward 100 right 90 forward 100 right 90 forward 100 right 90").unwrap();
    assert_eq!(tokens.len(), 16);
    assert_eq!(tokens[0], order("forward"));
    assert_eq!(tokens[1], Token::Number(100));
    assert_eq!(tokens[2], order("right"));
    assert_eq!(tokens[3], Token::Number(90));
    assert_eq!(
        format!("{:?}", &tokens[..4]),
        "[Order(\"forward\"), Number(100), Order(\"right\"), Number(90)]"
    );
}

#[test]
fn lexer_rejects_an_unknown_word() {
    assert_eq!(lex("forward 50 jump 10"), Err("Lexer error: mot inconnu 'jump'".to_string()));
    assert_eq!(lex("Forward 1"), Err("Lexer error: mot inconnu 'Forward'".to_string()));
    assert_eq!(lex("left -5"), Err("Lexer error: mot inconnu '-5'".to_string()));
    assert_eq!(lex("left 4294967296"), Err("Lexer error: mot inconnu '4294967296'".to_string()));
}

#[test]
fn lexer_reads_numbers_as_u32() {
    assert_eq!(lex("007 4294967295"), Ok(vec![Token::Number(7), Token::Number(4294967295)]));
    assert_eq!(lex("forward +5"), Err("Lexer error: mot inconnu '+5'".to_string()));
    assert_eq!(lex(" \t\n "), Ok(vec![]));
    assert_eq!(lex("left\u{2003}30"), Ok(vec![order("left"), Token::Number(30)]));
}

#[test]
fn lexer_needs_white_space_between_words() {
    assert_eq!(lex("forward100"), Err("Lexer error: mot inconnu 'forward100'".to_string()));
}

#[test]
fn parses_the_square() {
    let cmds = program("forward 100 right 90 forward 100 right 90").unwrap();
    assert_eq!(cmds.len(), 4);
    assert_eq!(cmds[1].order, "right");
    assert_eq!(cmds[1].value, 90);
    assert_eq!(
        format!("{:?}", cmds[0]),
        "Command { order: \"forward\", value: 100 }"
    );
}

#[test]
fn parses_the_empty_program() {
    assert_eq!(program("").unwrap().len(), 0);
}

#[test]
fn missing_number_at_end_of_input() {
    assert_eq!(program("forward").unwrap_err(), "Parser error: nombre attendu, fin de fichier");
}

#[test]
fn number_where_an_order_is_expected() {
    assert_eq!(program("100 forward").unwrap_err(), "Parser error: ordre attendu, trouvé Number(100)");
}

#[test]
fn order_where_a_number_is_expected() {
    assert_eq!(
        program("forward left 5").unwrap_err(),
        "Parser error: nombre attendu, trouvé Order(\"left\")"
    );
}

#[test]
fn order_words_are_written_as_debug_strings() {
    let mut p = Parser::new(vec![order("say \"hi\"\n")]);
    assert_eq!(
        p.parse_number().unwrap_err(),
        "Parser error: nombre attendu, trouvé Order(\"say \\\"hi\\\"\\n\")"
    );
}

#[test]
fn parser_steps_token_by_token() {
    let mut p = Parser::new(vec![order("left"), Token::Number(3)]);
    assert_eq!(p.peek(), Some(&order("left")));
    assert_eq!(p.advance(), Some(order("left")));
    assert_eq!(p.peek(), Some(&Token::Number(3)));
    assert_eq!(p.advance(), Some(Token::Number(3)));
    assert_eq!(p.peek(), None);
    assert_eq!(p.advance(), None);
    assert_eq!(p.advance(), None);
}

#[test]
fn parse_order_and_number_consume_what_they_read() {
    let mut p = Parser::new(vec![Token::Number(1), order("right")]);
    assert_eq!(p.parse_order().unwrap_err(), "Parser error: ordre attendu, trouvé Number(1)");
    assert_eq!(p.parse_order(), Ok("right".to_string()));
    assert_eq!(p.parse_order().unwrap_err(), "Parser error: ordre attendu, fin de fichier");
    let mut q = Parser::new(vec![order("left"), Token::Number(8)]);
    let c = q.parse_command().unwrap();
    assert_eq!((c.order.as_str(), c.value), ("left", 8));
    assert_eq!(q.parse_command().unwrap_err(), "Parser error: ordre attendu, fin de fichier");
}

#[test]
fn parse_stops_at_the_first_error() {
    let mut p = Parser::new(vec![order("left"), Token::Number(8), Token::Number(9), order("left")]);
    assert_eq!(p.parse_program().unwrap_err(), "Parser error: ordre attendu, trouvé Number(9)");
    assert_eq!(p.peek(), Some(&order("left")));
}

#[test]
fn turtle_motions() {
    let c = |o: &str, v: u32| Command { order: o.to_string(), value: v };
    assert_eq!(motion(&c("forward", 10)), Motion::Forward(10));
    assert_eq!(motion(&c("backward", 0)), Motion::Backward(0));
    assert_eq!(motion(&c("left", 90)), Motion::TurnLeft(90));
    assert_eq!(motion(&c("right", 45)), Motion::TurnRight(45));
    assert_eq!(motion(&c("jump", 45)), Motion::Unknown);
    assert_eq!(motion(&c("forwards", 1)), Motion::Unknown);
}

#[test]
fn text_of_commands_reads_back() {
    let cmds = program("forward 10 left 90 backward 0 right 4294967295 ").unwrap();
    let pairs: Vec<(&str, u32)> = cmds.iter().map(|c| (c.order.as_str(), c.value)).collect();
    assert_eq!(pairs, vec![("forward", 10), ("left", 90), ("backward", 0), ("right", 4294967295)]);
}

#[test]
fn lexing_joined_texts_concatenates_tokens() {
    let pairs = [
        ("forward 1", "left 2"),
        ("", "right 3"),
        ("backward 4", ""),
        ("forward 5 jump", "left 6"),
        ("left 7", "leap 8"),
        ("bad", "worse"),
    ];
    for (a, b) in pairs {
        let joined = lex(&format!("{} {}", a, b));
        let expected = match (lex(a), lex(b)) {
            (Ok(x), Ok(y)) => Ok([x, y].concat()),
            (Err(e), _) => Err(e),
            (Ok(_), Err(e)) => Err(e),
        };
        assert_eq!(joined, expected, "{:?} {:?}", a, b);
    }
}

#[test]
fn commands_joined_by_single_spaces_read_back() {
    let cmds = [("forward", 100u32), ("right", 90), ("backward", 0), ("left", 4294967295)];
    let s = cmds.iter().map(|(o, v)| format!("{} {}", o, v)).collect::<Vec<_>>().join(" ");
    let out = program(&s).unwrap();
    assert_eq!(out.len(), cmds.len());
    for (c, (o, v)) in out.iter().zip(cmds.iter()) {
        assert_eq!((c.order.as_str(), c.value), (*o, *v));
    }
}
