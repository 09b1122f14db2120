//! The second front end: the grammar of [`crate::grammar`] builds a tree in
//! which an order holds its [`Direction`], a numeral that does not fit in
//! an `i32` reads as 0, and the interpreter describes each command in words.

use vstd::prelude::*;
use vstd::string::*;
use crate::chars::{str_debug, debug_text};
use crate::lexer::{Lexeme, LexemeKind, LexemeView, LexError, views, kind_name, lex_spec, render, orders_only, lexemes_match, law_lex_render, lemma_orders_only_rest};
use crate::grammar::{grammatical, parse_error_of, ParseError, check_program, lemma_match_grammatical};
use crate::numeral::{parse_i32_spec, parse_i32, dec_nat, dec_int, lemma_parse_i32_dec, lemma_parse_i32_dec_too_big, push_decimal, law_parse_i32_dec_int};
use crate::base::{forward_line, backward_line, left_line, right_line, texts, numbered_line, command_line};

verus! {

/// The syntax tree of a program.
#[derive(Debug)]
pub enum AST {
    Program(Box<AST>, Box<AST>),
    Command(Box<AST>, Box<AST>),
    Order(Direction),
    Number(i32),
    Empty,
}

/// The direction of an order.
#[derive(Debug, Clone, Copy, PartialEq, Eq, Structural)]
pub enum Direction {
    Forward,
    Backward,
    Left,
    Right,
}

impl Clone for AST {
    fn clone(&self) -> (r: Self)
        ensures
            r == *self,
        decreases self,
    {
        match self {
            AST::Program(a, b) => AST::Program(Box::new((**a).clone()), Box::new((**b).clone())),
            AST::Command(a, b) => AST::Command(Box::new((**a).clone()), Box::new((**b).clone())),
            AST::Order(d) => AST::Order(*d),
            AST::Number(v) => AST::Number(*v),
            AST::Empty => AST::Empty,
        }
    }
}

/// The direction that a lexeme of kind `k` stands for.
pub open spec fn direction_of(k: LexemeKind) -> Direction {
    match k {
        LexemeKind::Backward => Direction::Backward,
        LexemeKind::Left => Direction::Left,
        LexemeKind::Right => Direction::Right,
        _ => Direction::Forward,
    }
}

/// The value of a numeral: the numeral read as an `i32`, or 0.
pub open spec fn number_or_zero(raw: Seq<char>) -> i32 {
    match parse_i32_spec(raw) {
        Some(v) => v,
        None => 0,
    }
}

/// The tree of the program `lx[i..]`.
pub open spec fn program_from(lx: Seq<LexemeView>, i: int) -> AST
    decreases lx.len() - i,
{
    if 0 <= i && i + 2 <= lx.len() {
        AST::Program(
            Box::new(
                AST::Command(
                    Box::new(AST::Order(direction_of(lx[i].kind))),
                    Box::new(AST::Number(number_or_zero(lx[i + 1].raw))),
                ),
            ),
            Box::new(program_from(lx, i + 2)),
        )
    } else {
        AST::Empty
    }
}

/// The tree of the program `lx`.
pub open spec fn program_tree(lx: Seq<LexemeView>) -> AST {
    program_from(lx, 0)
}

fn direction(k: LexemeKind) -> (d: Direction)
    ensures
        d == direction_of(k),
{
    match k {
        LexemeKind::Backward => Direction::Backward,
        LexemeKind::Left => Direction::Left,
        LexemeKind::Right => Direction::Right,
        _ => Direction::Forward,
    }
}

/// Parses `lexemes` as a program.  It succeeds exactly when the lexemes
/// are a program, and then gives back its tree; otherwise it reports where
/// the parse stopped.
pub fn parse(lexemes: &Vec<Lexeme>) -> (r: Result<AST, ParseError>)
    ensures
        match r {
            Ok(t) => grammatical(views(lexemes@)) && t == program_tree(views(lexemes@)),
            Err(e) => !grammatical(views(lexemes@)) && e == parse_error_of(views(lexemes@)),
        },
{
    let ghost s = views(lexemes@);
    match check_program(lexemes) {
        Err(e) => { return Err(e); },
        Ok(()) => {},
    }
    let mut tree = AST::Empty;
    let mut i: usize = lexemes.len();
    while i > 0
        invariant
            s == views(lexemes@),
            i <= lexemes.len(),
            lexemes.len() % 2 == 0,
            i % 2 == 0,
            tree == program_from(s, i as int),
        decreases i,
    {
        i = i - 2;
        assert(s[i + 1].raw == lexemes@[i + 1].raw@);
        let v = match parse_i32(lexemes[i + 1].raw.as_str()) {
            Some(v) => v,
            None => 0,
        };
        let command = AST::Command(
            Box::new(AST::Order(direction(lexemes[i].kind))),
            Box::new(AST::Number(v)),
        );
        tree = AST::Program(Box::new(command), Box::new(tree));
    }
    Ok(tree)
}

/// The value of a number node, and 0 for any other node.
pub open spec fn number_of(node: AST) -> int {
    match node {
        AST::Number(v) => v as int,
        _ => 0,
    }
}

/// The lines that describe a command whose order node is `order` and
/// whose number is `n`.
pub open spec fn command_lines(order: AST, n: int) -> Seq<Seq<char>> {
    match order {
        AST::Order(Direction::Forward) => seq![forward_line(n)],
        AST::Order(Direction::Backward) => seq![backward_line(n)],
        AST::Order(Direction::Left) => seq![left_line(n)],
        AST::Order(Direction::Right) => seq![right_line(n)],
        _ => Seq::empty(),
    }
}

/// The lines that the interpreter writes for `ast`, in order: one per
/// command with an order.
pub open spec fn eval_spec(ast: AST) -> Seq<Seq<char>>
    decreases ast,
{
    match ast {
        AST::Program(a, b) => eval_spec(*a) + eval_spec(*b),
        AST::Command(o, n) => command_lines(*o, number_of(*n)),
        _ => Seq::empty(),
    }
}

/// The lines that the interpreter writes for `ast`.
pub fn eval(ast: &AST) -> (lines: Vec<String>)
    ensures
        texts(lines@) == eval_spec(*ast),
    decreases ast,
{
    match ast {
        AST::Program(cmd, next) => {
            let mut first = eval(cmd);
            let mut rest = eval(next);
            let ghost a = first@;
            let ghost b = rest@;
            first.append(&mut rest);
            assert(texts(first@) =~= texts(a) + texts(b));
            first
        },
        AST::Command(order, number) => {
            let n: i32 = match **number {
                AST::Number(val) => val,
                _ => 0,
            };
            let mut v: Vec<String> = Vec::new();
            match **order {
                AST::Order(Direction::Forward) => v.push(numbered_line("Avance de ", n, " unités")),
                AST::Order(Direction::Backward) => v.push(numbered_line("Recule de ", n, " unités")),
                AST::Order(Direction::Left) => v.push(
                    numbered_line("Tourne à gauche de ", n, " degrés"),
                ),
                AST::Order(Direction::Right) => v.push(
                    numbered_line("Tourne à droite de ", n, " degrés"),
                ),
                _ => {},
            }
            assert(texts(v@) =~= command_lines(**order, number_of(**number)));
            v
        },
        _ => {
            let v: Vec<String> = Vec::new();
            assert(texts(v@) =~= Seq::<Seq<char>>::empty());
            v
        },
    }
}

/// The report of a lexer error at position `p`, as the lexer rules of this
/// front end (`FORWARD`, `BACKWARD`, `LEFT`, `RIGHT`, `NUMBER`, `WS`, in
/// that order) describe it.
pub open spec fn lex_error_text_spec(p: (nat, nat)) -> Seq<char> {
    "Error: Expecting one of the following 6 lexemes: \"FORWARD\", \"BACKWARD\", \"LEFT\", \"RIGHT\", \"NUMBER\", \"WS\"\nAt: ("@
        + dec_nat(p.0) + ", "@ + dec_nat(p.1) + ")\nWith states stack: [\"DEFAULT\"]"@
}

/// The report of the lexer error `e`.
pub fn lex_error_text(e: &LexError) -> (s: String)
    ensures
        s@ == lex_error_text_spec(e.position.pair()),
{
    let mut s = String::from_str(
        "Error: Expecting one of the following 6 lexemes: \"FORWARD\", \"BACKWARD\", \"LEFT\", \"RIGHT\", \"NUMBER\", \"WS\"\nAt: (",
    );
    push_decimal(&mut s, e.position.line as u64);
    s.append(", ");
    push_decimal(&mut s, e.position.column as u64);
    s.append(")\nWith states stack: [\"DEFAULT\"]");
    s
}

/// The text of a lexeme: its kind, its text between quotes and its position.
pub open spec fn lexeme_text_spec(l: LexemeView) -> Seq<char> {
    kind_name(l.kind) + " "@ + str_debug(l.raw) + " ("@ + dec_nat(l.position.0) + ", "@
        + dec_nat(l.position.1) + ")"@
}

/// The text of the lexeme `l`.
pub fn lexeme_text(l: &Lexeme) -> (s: String)
    ensures
        s@ == lexeme_text_spec(l@),
{
    let mut s = String::from_str(l.kind.name());
    s.append(" ");
    let q = debug_text(l.raw.as_str());
    s.append(q.as_str());
    s.append(" (");
    push_decimal(&mut s, l.position.line as u64);
    s.append(", ");
    push_decimal(&mut s, l.position.column as u64);
    s.append(")");
    s
}

/// Where the parse error `e` of `lx` stands: the lexeme where the parse
/// stopped, or the start of the input.
pub open spec fn parse_error_text_spec(e: ParseError, lx: Seq<LexemeView>) -> Seq<char> {
    match e.at {
        Some(i) => if i < lx.len() {
            "At: "@ + lexeme_text_spec(lx[i as int])
        } else {
            "At start of the input"@
        },
        None => "At start of the input"@,
    }
}

/// The line that locates the parse error `e` of `lexemes`.
pub fn parse_error_text(e: &ParseError, lexemes: &Vec<Lexeme>) -> (s: String)
    ensures
        s@ == parse_error_text_spec(*e, views(lexemes@)),
{
    match e.at {
        Some(i) => {
            if i < lexemes.len() {
                let mut s = String::from_str("At: ");
                let t = lexeme_text(&lexemes[i]);
                s.append(t.as_str());
                s
            } else {
                String::from_str("At start of the input")
            }
        },
        None => String::from_str("At start of the input"),
    }
}

// ───────────────────────────── laws ─────────────────────────────

/// The number that a program written with `v` holds: `v`, or 0 when `v`
/// does not fit in an `i32`.
pub open spec fn stored_value(v: nat) -> i32 {
    if v <= i32::MAX {
        v as i32
    } else {
        0
    }
}

/// The tree of the command with order `k` and number `v`.
pub open spec fn command_tree(k: LexemeKind, v: nat) -> AST {
    AST::Command(Box::new(AST::Order(direction_of(k))), Box::new(AST::Number(stored_value(v))))
}

/// The tree of the program made of `cmds`.
pub open spec fn tree_of(cmds: Seq<(LexemeKind, nat)>) -> AST
    decreases cmds.len(),
{
    if cmds.len() == 0 {
        AST::Empty
    } else {
        AST::Program(
            Box::new(command_tree(cmds[0].0, cmds[0].1)),
            Box::new(tree_of(cmds.drop_first())),
        )
    }
}

proof fn lemma_program_from_skip(lx: Seq<LexemeView>, i: int)
    requires
        0 <= i,
        lx.len() >= 2,
    ensures
        program_from(lx, i + 2) == program_from(lx.skip(2), i),
    decreases lx.len() - i,
{
    if i + 4 <= lx.len() {
        lemma_program_from_skip(lx, i + 2);
        assert(lx[i + 2] == lx.skip(2)[i]);
        assert(lx[i + 3] == lx.skip(2)[i + 1]);
    }
}

proof fn lemma_tree_of_match(lx: Seq<LexemeView>, cmds: Seq<(LexemeKind, nat)>)
    requires
        lexemes_match(lx, cmds),
    ensures
        program_from(lx, 0) == tree_of(cmds),
    decreases cmds.len(),
{
    if cmds.len() > 0 {
        lemma_tree_of_match(lx.skip(2), cmds.drop_first());
        lemma_program_from_skip(lx, 0);
        if cmds[0].1 <= i32::MAX {
            lemma_parse_i32_dec(cmds[0].1);
        } else {
            lemma_parse_i32_dec_too_big(cmds[0].1);
        }
    }
}

/// Writing a program as text, its commands joined by single spaces, and reading
/// the text back gives the program; a number too large for an `i32` comes
/// back as 0.
pub proof fn law_parse_render(cmds: Seq<(LexemeKind, nat)>)
    requires
        orders_only(cmds),
    ensures
        lex_spec(render(cmds)) matches Ok(lx) && grammatical(lx) && program_tree(lx) == tree_of(cmds),
{
    law_lex_render(cmds, (1, 1));
    let lx = lex_spec(render(cmds))->Ok_0;
    lemma_match_grammatical(lx, cmds);
    lemma_tree_of_match(lx, cmds);
}

/// The lines that describe `cmds`, one per command.
pub open spec fn lines_of(cmds: Seq<(LexemeKind, nat)>) -> Seq<Seq<char>>
    decreases cmds.len(),
{
    if cmds.len() == 0 {
        Seq::empty()
    } else {
        seq![command_line(cmds[0].0, stored_value(cmds[0].1) as int)] + lines_of(cmds.drop_first())
    }
}

/// The interpreter describes a program command by command, in order.
pub proof fn law_eval_program(cmds: Seq<(LexemeKind, nat)>)
    requires
        orders_only(cmds),
    ensures
        eval_spec(tree_of(cmds)) == lines_of(cmds),
    decreases cmds.len(),
{
    if cmds.len() > 0 {
        lemma_orders_only_rest(cmds);
        law_eval_program(cmds.drop_first());
        let head = seq![command_line(cmds[0].0, stored_value(cmds[0].1) as int)];
        assert(eval_spec(command_tree(cmds[0].0, cmds[0].1)) == head);
    } else {
        assert(eval_spec(tree_of(cmds)) =~= lines_of(cmds));
    }
}

/// The line that the interpreter writes for a command is the description
/// of its order with the decimal rendering of the command's own number, a
/// rendering that reads back as that number.
pub proof fn law_eval_command(n: i32)
    ensures
        parse_i32_spec(dec_int(n as int)) == Some(n),
        eval_spec(AST::Command(Box::new(AST::Order(Direction::Forward)), Box::new(AST::Number(n))))
            == seq!["Avance de "@ + dec_int(n as int) + " unités"@],
        eval_spec(AST::Command(Box::new(AST::Order(Direction::Backward)), Box::new(AST::Number(n))))
            == seq!["Recule de "@ + dec_int(n as int) + " unités"@],
        eval_spec(AST::Command(Box::new(AST::Order(Direction::Left)), Box::new(AST::Number(n))))
            == seq!["Tourne à gauche de "@ + dec_int(n as int) + " degrés"@],
        eval_spec(AST::Command(Box::new(AST::Order(Direction::Right)), Box::new(AST::Number(n))))
            == seq!["Tourne à droite de "@ + dec_int(n as int) + " degrés"@],
{
    law_parse_i32_dec_int(n);
}

/// Written as text and read back, a one-command program keeps its order's
/// direction and its number when that fits in an `i32`, and holds 0 when it
/// does not.
pub proof fn law_single_command_tree(k: LexemeKind, v: nat)
    requires
        k != LexemeKind::Number,
    ensures
        lex_spec(render(seq![(k, v)])) matches Ok(lx) && grammatical(lx) && program_tree(lx) == AST::Program(
            Box::new(
                AST::Command(
                    Box::new(AST::Order(
                        if k == LexemeKind::Forward {
                            Direction::Forward
                        } else if k == LexemeKind::Backward {
                            Direction::Backward
                        } else if k == LexemeKind::Left {
                            Direction::Left
                        } else {
                            Direction::Right
                        },
                    )),
                    Box::new(AST::Number(if v <= 0x7fff_ffff { v as i32 } else { 0i32 })),
                ),
            ),
            Box::new(AST::Empty),
        ),
{
    let cmds = seq![(k, v)];
    assert(orders_only(cmds));
    law_parse_render(cmds);
    assert(cmds.drop_first() =~= Seq::<(LexemeKind, nat)>::empty());
    assert(tree_of(cmds.drop_first()) == AST::Empty);
}

} // verus!
