//! The first front end: the grammar of [`crate::grammar`] builds a tree in
//! which an order holds its direction as a node of its own, and the
//! interpreter describes each command in words.

use vstd::prelude::*;
use vstd::string::*;
use crate::lexer::{Lexeme, LexemeKind, LexemeView, views, lex_spec, render, orders_only, lexemes_match, law_lex_render, lemma_orders_only_rest};
use crate::grammar::{grammatical, parse_error_of, ParseError, check_program, lemma_match_grammatical};
use crate::numeral::{parse_i32_spec, parse_i32, dec_int, push_signed_decimal, lemma_parse_i32_dec, law_parse_i32_dec_int};

verus! {

/// The syntax tree of a program.
#[derive(Debug)]
pub enum AST {
    Program(Box<AST>, Box<AST>),
    Empty,
    Command(Box<AST>, Box<AST>),
    Order(Box<AST>),
    Forward,
    Backward,
    Left,
    Right,
    Number(i32),
}

impl Clone for AST {
    fn clone(&self) -> (r: Self)
        ensures
            r == *self,
        decreases self,
    {
        match self {
            AST::Program(a, b) => AST::Program(Box::new((**a).clone()), Box::new((**b).clone())),
            AST::Empty => AST::Empty,
            AST::Command(a, b) => AST::Command(Box::new((**a).clone()), Box::new((**b).clone())),
            AST::Order(a) => AST::Order(Box::new((**a).clone())),
            AST::Forward => AST::Forward,
            AST::Backward => AST::Backward,
            AST::Left => AST::Left,
            AST::Right => AST::Right,
            AST::Number(v) => AST::Number(*v),
        }
    }
}

/// The tree of the order that a lexeme of kind `k` stands for.
pub open spec fn order_node(k: LexemeKind) -> AST {
    match k {
        LexemeKind::Forward => AST::Order(Box::new(AST::Forward)),
        LexemeKind::Backward => AST::Order(Box::new(AST::Backward)),
        LexemeKind::Left => AST::Order(Box::new(AST::Left)),
        LexemeKind::Right => AST::Order(Box::new(AST::Right)),
        LexemeKind::Number => AST::Empty,
    }
}

/// The value of a numeral lexeme: the numeral read as an `i32`.
pub open spec fn number_value(raw: Seq<char>) -> i32 {
    parse_i32_spec(raw).unwrap()
}

/// Every numeral of `lx` (at an odd index) reads as an `i32`.
pub open spec fn numbers_fit(lx: Seq<LexemeView>) -> bool {
    forall|j: int| 0 <= j < lx.len() && j % 2 == 1 ==> (#[trigger] parse_i32_spec(lx[j].raw)) is Some
}

/// The tree of the program `lx[i..]`.
pub open spec fn program_from(lx: Seq<LexemeView>, i: int) -> AST
    decreases lx.len() - i,
{
    if 0 <= i && i + 2 <= lx.len() {
        AST::Program(
            Box::new(
                AST::Command(
                    Box::new(order_node(lx[i].kind)),
                    Box::new(AST::Number(number_value(lx[i + 1].raw))),
                ),
            ),
            Box::new(program_from(lx, i + 2)),
        )
    } else {
        AST::Empty
    }
}

/// The tree of the program `lx`.
pub open spec fn program_tree(lx: Seq<LexemeView>) -> AST {
    program_from(lx, 0)
}

/// The tree of the order of kind `k`.
fn order_tree(k: LexemeKind) -> (t: AST)
    ensures
        t == order_node(k),
{
    match k {
        LexemeKind::Forward => AST::Order(Box::new(AST::Forward)),
        LexemeKind::Backward => AST::Order(Box::new(AST::Backward)),
        LexemeKind::Left => AST::Order(Box::new(AST::Left)),
        LexemeKind::Right => AST::Order(Box::new(AST::Right)),
        LexemeKind::Number => AST::Empty,
    }
}

/// Parses `lexemes` as a program.  It succeeds exactly when the lexemes
/// are a program, and then gives back its tree; otherwise it reports where
/// the parse stopped.  A numeral that does not fit in an `i32` is left out
/// by `requires`: building its tree panics.
pub fn parse(lexemes: &Vec<Lexeme>) -> (r: Result<AST, ParseError>)
    requires
        grammatical(views(lexemes@)) ==> numbers_fit(views(lexemes@)),
    ensures
        match r {
            Ok(t) => grammatical(views(lexemes@)) && t == program_tree(views(lexemes@)),
            Err(e) => !grammatical(views(lexemes@)) && e == parse_error_of(views(lexemes@)),
        },
{
    let ghost s = views(lexemes@);
    match check_program(lexemes) {
        Err(e) => { return Err(e); },
        Ok(()) => {},
    }
    let mut tree = AST::Empty;
    let mut i: usize = lexemes.len();
    while i > 0
        invariant
            s == views(lexemes@),
            grammatical(s),
            numbers_fit(s),
            i <= lexemes.len(),
            lexemes.len() % 2 == 0,
            i % 2 == 0,
            tree == program_from(s, i as int),
        decreases i,
    {
        i = i - 2;
        assert(s[i + 1].raw == lexemes@[i + 1].raw@);
        assert(parse_i32_spec(s[i + 1].raw) is Some);
        let v = match parse_i32(lexemes[i + 1].raw.as_str()) {
            Some(v) => v,
            None => 0,
        };
        let command = AST::Command(Box::new(order_tree(lexemes[i].kind)), Box::new(AST::Number(v)));
        tree = AST::Program(Box::new(command), Box::new(tree));
    }
    Ok(tree)
}

/// The line that describes moving forward by `n`.
pub open spec fn forward_line(n: int) -> Seq<char> {
    "Avance de "@ + dec_int(n) + " unités"@
}

/// The line that describes moving backward by `n`.
pub open spec fn backward_line(n: int) -> Seq<char> {
    "Recule de "@ + dec_int(n) + " unités"@
}

/// The line that describes turning left by `n` degrees.
pub open spec fn left_line(n: int) -> Seq<char> {
    "Tourne à gauche de "@ + dec_int(n) + " degrés"@
}

/// The line that describes turning right by `n` degrees.
pub open spec fn right_line(n: int) -> Seq<char> {
    "Tourne à droite de "@ + dec_int(n) + " degrés"@
}

/// The value of a number node, and 0 for any other node.
pub open spec fn number_of(node: AST) -> int {
    match node {
        AST::Number(v) => v as int,
        _ => 0,
    }
}

/// The lines that describe a command whose order node is `order` and
/// whose number is `n`.
pub open spec fn command_lines(order: AST, n: int) -> Seq<Seq<char>> {
    match order {
        AST::Order(d) => match *d {
            AST::Forward => seq![forward_line(n)],
            AST::Backward => seq![backward_line(n)],
            AST::Left => seq![left_line(n)],
            AST::Right => seq![right_line(n)],
            _ => Seq::empty(),
        },
        _ => Seq::empty(),
    }
}

/// The lines that the interpreter writes for `ast`, in order: one per
/// command with an order, and `Stop` at each end of a program.
pub open spec fn eval_spec(ast: AST) -> Seq<Seq<char>>
    decreases ast,
{
    match ast {
        AST::Program(a, b) => eval_spec(*a) + eval_spec(*b),
        AST::Empty => seq!["Stop"@],
        AST::Command(o, n) => command_lines(*o, number_of(*n)),
        _ => Seq::empty(),
    }
}

/// The views of a vector of lines.
pub open spec fn texts(v: Seq<String>) -> Seq<Seq<char>> {
    v.map_values(|s: String| s@)
}

/// A line made of `prefix`, the number `n` and `suffix`.
pub(crate) fn numbered_line(prefix: &str, n: i32, suffix: &str) -> (s: String)
    ensures
        s@ == prefix@ + dec_int(n as int) + suffix@,
{
    let mut s = String::from_str(prefix);
    push_signed_decimal(&mut s, n as i64);
    s.append(suffix);
    s
}

/// The lines that the interpreter writes for `ast`.
pub fn eval(ast: &AST) -> (lines: Vec<String>)
    ensures
        texts(lines@) == eval_spec(*ast),
    decreases ast,
{
    match ast {
        AST::Program(command, next_program) => {
            let mut first = eval(command);
            let mut rest = eval(next_program);
            let ghost a = first@;
            let ghost b = rest@;
            first.append(&mut rest);
            assert(texts(first@) =~= texts(a) + texts(b));
            first
        },
        AST::Empty => {
            let mut v: Vec<String> = Vec::new();
            v.push(String::from_str("Stop"));
            assert(texts(v@) =~= seq!["Stop"@]);
            v
        },
        AST::Command(order_node, number_node) => {
            let val: i32 = match **number_node {
                AST::Number(v) => v,
                _ => 0,
            };
            let mut v: Vec<String> = Vec::new();
            match &**order_node {
                AST::Order(direction) => {
                    match **direction {
                        AST::Forward => v.push(numbered_line("Avance de ", val, " unités")),
                        AST::Backward => v.push(numbered_line("Recule de ", val, " unités")),
                        AST::Left => v.push(numbered_line("Tourne à gauche de ", val, " degrés")),
                        AST::Right => v.push(numbered_line("Tourne à droite de ", val, " degrés")),
                        _ => {},
                    }
                },
                _ => {},
            }
            assert(texts(v@) =~= command_lines(**order_node, number_of(**number_node)));
            v
        },
        _ => {
            let v: Vec<String> = Vec::new();
            assert(texts(v@) =~= Seq::<Seq<char>>::empty());
            v
        },
    }
}

// ───────────────────────────── laws ─────────────────────────────

/// The tree of the command with order `k` and number `v`.
pub open spec fn command_tree(k: LexemeKind, v: nat) -> AST {
    AST::Command(Box::new(order_node(k)), Box::new(AST::Number(v as i32)))
}

/// The tree of the program made of `cmds`.
pub open spec fn tree_of(cmds: Seq<(LexemeKind, nat)>) -> AST
    decreases cmds.len(),
{
    if cmds.len() == 0 {
        AST::Empty
    } else {
        AST::Program(
            Box::new(command_tree(cmds[0].0, cmds[0].1)),
            Box::new(tree_of(cmds.drop_first())),
        )
    }
}

/// Each number of `cmds` fits in an `i32`.
pub open spec fn values_fit(cmds: Seq<(LexemeKind, nat)>) -> bool {
    forall|k: int| 0 <= k < cmds.len() ==> (#[trigger] cmds[k]).1 <= i32::MAX
}

proof fn lemma_program_from_skip(lx: Seq<LexemeView>, i: int)
    requires
        0 <= i,
        lx.len() >= 2,
    ensures
        program_from(lx, i + 2) == program_from(lx.skip(2), i),
    decreases lx.len() - i,
{
    if i + 4 <= lx.len() {
        lemma_program_from_skip(lx, i + 2);
        assert(lx[i + 2] == lx.skip(2)[i]);
        assert(lx[i + 3] == lx.skip(2)[i + 1]);
    }
}

proof fn lemma_tree_of_match(lx: Seq<LexemeView>, cmds: Seq<(LexemeKind, nat)>)
    requires
        lexemes_match(lx, cmds),
        values_fit(cmds),
    ensures
        program_from(lx, 0) == tree_of(cmds),
        numbers_fit(lx),
    decreases cmds.len(),
{
    if cmds.len() > 0 {
        let rest = cmds.drop_first();
        assert(values_fit(rest)) by {
            assert forall|k: int| 0 <= k < rest.len() implies (#[trigger] rest[k]).1 <= i32::MAX by {
                assert(rest[k] == cmds[k + 1]);
            }
        }
        assert(cmds[0].1 <= i32::MAX);
        lemma_tree_of_match(lx.skip(2), rest);
        lemma_program_from_skip(lx, 0);
        lemma_parse_i32_dec(cmds[0].1);
        assert forall|j: int| 0 <= j < lx.len() && j % 2 == 1 implies (#[trigger] parse_i32_spec(lx[j].raw)) is Some by {
            if j >= 2 {
                assert(lx[j] == lx.skip(2)[j - 2]);
            }
        }
    }
}

/// Writing a program as text, its commands joined by single spaces, and reading
/// the text back gives the program: the text lexes into a program whose
/// tree is the tree of the commands.
pub proof fn law_parse_render(cmds: Seq<(LexemeKind, nat)>)
    requires
        orders_only(cmds),
        values_fit(cmds),
    ensures
        lex_spec(render(cmds)) matches Ok(lx) && grammatical(lx) && numbers_fit(lx)
            && program_tree(lx) == tree_of(cmds),
{
    law_lex_render(cmds, (1, 1));
    let lx = lex_spec(render(cmds))->Ok_0;
    lemma_match_grammatical(lx, cmds);
    lemma_tree_of_match(lx, cmds);
}

/// The line that describes the command with order `k` and number `v`.
pub open spec fn command_line(k: LexemeKind, v: int) -> Seq<char> {
    match k {
        LexemeKind::Forward => forward_line(v),
        LexemeKind::Backward => backward_line(v),
        LexemeKind::Left => left_line(v),
        _ => right_line(v),
    }
}

/// The lines that describe `cmds`, one per command.
pub open spec fn lines_of(cmds: Seq<(LexemeKind, nat)>) -> Seq<Seq<char>>
    decreases cmds.len(),
{
    if cmds.len() == 0 {
        Seq::empty()
    } else {
        seq![command_line(cmds[0].0, cmds[0].1 as i32 as int)] + lines_of(cmds.drop_first())
    }
}

/// The interpreter describes a program command by command, in order, and
/// then writes `Stop`.
pub proof fn law_eval_program(cmds: Seq<(LexemeKind, nat)>)
    requires
        orders_only(cmds),
    ensures
        eval_spec(tree_of(cmds)) == lines_of(cmds) + seq!["Stop"@],
    decreases cmds.len(),
{
    if cmds.len() > 0 {
        lemma_orders_only_rest(cmds);
        law_eval_program(cmds.drop_first());
        let head = seq![command_line(cmds[0].0, cmds[0].1 as i32 as int)];
        assert(eval_spec(command_tree(cmds[0].0, cmds[0].1)) == head);
        assert(head + (lines_of(cmds.drop_first()) + seq!["Stop"@]) =~= (head + lines_of(
            cmds.drop_first(),
        )) + seq!["Stop"@]);
    } else {
        assert(lines_of(cmds) + seq!["Stop"@] =~= seq!["Stop"@]);
    }
}

/// The line that the interpreter writes for a command is the description
/// of its order with the decimal rendering of the command's own number, a
/// rendering that reads back as that number.
pub proof fn law_eval_command(n: i32)
    ensures
        parse_i32_spec(dec_int(n as int)) == Some(n),
        eval_spec(AST::Command(Box::new(AST::Order(Box::new(AST::Forward))), Box::new(AST::Number(n))))
            == seq!["Avance de "@ + dec_int(n as int) + " unités"@],
        eval_spec(AST::Command(Box::new(AST::Order(Box::new(AST::Backward))), Box::new(AST::Number(n))))
            == seq!["Recule de "@ + dec_int(n as int) + " unités"@],
        eval_spec(AST::Command(Box::new(AST::Order(Box::new(AST::Left))), Box::new(AST::Number(n))))
            == seq!["Tourne à gauche de "@ + dec_int(n as int) + " degrés"@],
        eval_spec(AST::Command(Box::new(AST::Order(Box::new(AST::Right))), Box::new(AST::Number(n))))
            == seq!["Tourne à droite de "@ + dec_int(n as int) + " degrés"@],
{
    law_parse_i32_dec_int(n);
}

} // verus!
