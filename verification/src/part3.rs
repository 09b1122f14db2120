//! The drawing front end.  Its programs have the grammar and the tree of
//! the second front end ([`crate::part2`]); here they are turned into the
//! steps that draw them as SVG, beside the rule that closes the document.

pub use crate::part2::{AST, Direction, parse, eval};

use vstd::prelude::*;
use vstd::string::*;
use crate::chars::chars_of;
use crate::lexer::{LexemeKind, starts_with};
use crate::part2::{direction_of, stored_value, command_tree, tree_of};

verus! {

/// One step of a drawing: move forward or backward along the heading by
/// a distance, turn left or right by a number of degrees, or close the
/// document.
#[derive(Clone, Copy, Debug, PartialEq, Eq, Structural)]
pub enum Step {
    Forward(i32),
    Backward(i32),
    Left(i32),
    Right(i32),
    Close,
}

/// The step of an order in direction `d` with the number `n`.
pub open spec fn direction_step(d: Direction, n: i32) -> Step {
    match d {
        Direction::Forward => Step::Forward(n),
        Direction::Backward => Step::Backward(n),
        Direction::Left => Step::Left(n),
        Direction::Right => Step::Right(n),
    }
}

/// The value of a number node as an `i32`, and 0 for any other node.
pub open spec fn number_value_of(node: AST) -> i32 {
    match node {
        AST::Number(v) => v,
        _ => 0,
    }
}

/// The steps that draw `ast`, in order: one per command with an order,
/// and a closing step at each end of a program.
pub open spec fn steps_spec(ast: AST) -> Seq<Step>
    decreases ast,
{
    match ast {
        AST::Program(a, b) => steps_spec(*a) + steps_spec(*b),
        AST::Empty => seq![Step::Close],
        AST::Command(o, n) => match *o {
            AST::Order(d) => seq![direction_step(d, number_value_of(*n))],
            _ => Seq::empty(),
        },
        _ => Seq::empty(),
    }
}

/// The steps that draw `ast`.
pub fn steps(ast: &AST) -> (r: Vec<Step>)
    ensures
        r@ == steps_spec(*ast),
    decreases ast,
{
    match ast {
        AST::Program(command, next_program) => {
            let mut first = steps(command);
            let mut rest = steps(next_program);
            first.append(&mut rest);
            first
        },
        AST::Empty => {
            let mut v: Vec<Step> = Vec::new();
            v.push(Step::Close);
            assert(v@ =~= seq![Step::Close]);
            v
        },
        AST::Command(order_node, number_node) => {
            let val: i32 = match **number_node {
                AST::Number(v) => v,
                _ => 0,
            };
            let mut v: Vec<Step> = Vec::new();
            match **order_node {
                AST::Order(Direction::Forward) => v.push(Step::Forward(val)),
                AST::Order(Direction::Backward) => v.push(Step::Backward(val)),
                AST::Order(Direction::Left) => v.push(Step::Left(val)),
                AST::Order(Direction::Right) => v.push(Step::Right(val)),
                _ => {},
            }
            assert(v@ =~= steps_spec(*ast));
            v
        },
        _ => {
            let v: Vec<Step> = Vec::new();
            assert(v@ =~= Seq::<Step>::empty());
            v
        },
    }
}

/// The closing tag of an SVG document, `</svg>`.
pub open spec fn end_tag() -> Seq<char> {
    seq!['<', '/', 's', 'v', 'g', '>']
}

/// `s` holds `t` somewhere.
pub open spec fn holds(s: Seq<char>, t: Seq<char>) -> bool {
    exists|i: int| 0 <= i && i + t.len() <= s.len() && #[trigger] s.subrange(i, i + t.len()) == t
}

/// The document `s` once closed: unchanged when it already holds the
/// closing tag, else with the closing tag and a newline added at its end.
pub open spec fn closed_document(s: Seq<char>) -> Seq<char> {
    if holds(s, end_tag()) {
        s
    } else {
        s + end_tag() + seq!['\n']
    }
}

/// Writes `svg_fmt::EndSvg` through `format!("{}")`.  The contract claims
/// that the text is the closing tag `</svg>`, which is what the `Display`
/// impl of `EndSvg` writes.
#[verifier::external_body]
fn end_svg_tag() -> (s: String)
    ensures
        s@ == end_tag(),
{
    format!("{}", svg_fmt::EndSvg)
}

/// Whether `s` holds the closing tag `</svg>`.
pub fn holds_end_tag(s: &str) -> (r: bool)
    ensures
        r == holds(s@, end_tag()),
{
    let v = chars_of(s);
    let tag = vec!['<', '/', 's', 'v', 'g', '>'];
    assert(tag@ =~= end_tag());
    let mut i: usize = 0;
    while i < v.len()
        invariant
            i <= v.len(),
            v@ == s@,
            tag@ == end_tag(),
            forall|j: int| 0 <= j < i ==> !(j + 6 <= v@.len() && #[trigger] v@.subrange(j, j + 6) == end_tag()),
        decreases v.len() - i,
    {
        if starts_with(&v, i, &tag) {
            return true;
        }
        i = i + 1;
    }
    proof {
        if holds(s@, end_tag()) {
            let j = choose|j: int| 0 <= j && j + end_tag().len() <= s@.len() && #[trigger] s@.subrange(j, j + end_tag().len()) == end_tag();
            assert(v@.subrange(j, j + 6) == end_tag());
        }
    }
    false
}

/// Closes the SVG document `content`: adds the closing tag and a newline
/// at its end, unless it already holds the closing tag.
pub fn close_svg(content: &mut String)
    ensures
        final(content)@ == closed_document(old(content)@),
{
    if !holds_end_tag(content.as_str()) {
        let tag = end_svg_tag();
        content.append(tag.as_str());
        proof { reveal_strlit("\n"); }
        content.append("\n");
    }
}

/// Closing a document that is already closed leaves it as it is.
pub proof fn law_close_idempotent(s: Seq<char>)
    ensures
        closed_document(closed_document(s)) == closed_document(s),
{
    if !holds(s, end_tag()) {
        let c = s + end_tag() + seq!['\n'];
        assert(c.subrange(s.len() as int, s.len() as int + 6) =~= end_tag());
    }
}

// ───────────────────────────── laws ─────────────────────────────

/// The step of the command with order `k` and number `v`.
pub open spec fn command_step(k: LexemeKind, v: nat) -> Step {
    direction_step(direction_of(k), stored_value(v))
}

/// The steps of `cmds`, one per command.
pub open spec fn steps_of(cmds: Seq<(LexemeKind, nat)>) -> Seq<Step>
    decreases cmds.len(),
{
    if cmds.len() == 0 {
        Seq::empty()
    } else {
        seq![command_step(cmds[0].0, cmds[0].1)] + steps_of(cmds.drop_first())
    }
}

/// A program draws its commands one by one, in order, and then closes the
/// document, once.
pub proof fn law_steps_program(cmds: Seq<(LexemeKind, nat)>)
    ensures
        steps_spec(tree_of(cmds)) == steps_of(cmds) + seq![Step::Close],
    decreases cmds.len(),
{
    if cmds.len() > 0 {
        law_steps_program(cmds.drop_first());
        let head = seq![command_step(cmds[0].0, cmds[0].1)];
        assert(steps_spec(command_tree(cmds[0].0, cmds[0].1)) == head);
        assert(head + (steps_of(cmds.drop_first()) + seq![Step::Close]) =~= (head + steps_of(
            cmds.drop_first(),
        )) + seq![Step::Close]);
    } else {
        assert(steps_of(cmds) + seq![Step::Close] =~= seq![Step::Close]);
    }
}

/// The step of a command moves or turns, in the command's own direction,
/// by the command's own number, unchanged.
pub proof fn law_command_step(d: Direction, n: i32)
    ensures
        d == Direction::Forward ==> steps_spec(AST::Command(Box::new(AST::Order(d)), Box::new(AST::Number(n))))
            == seq![Step::Forward(n)],
        d == Direction::Backward ==> steps_spec(AST::Command(Box::new(AST::Order(d)), Box::new(AST::Number(n))))
            == seq![Step::Backward(n)],
        d == Direction::Left ==> steps_spec(AST::Command(Box::new(AST::Order(d)), Box::new(AST::Number(n))))
            == seq![Step::Left(n)],
        d == Direction::Right ==> steps_spec(AST::Command(Box::new(AST::Order(d)), Box::new(AST::Number(n))))
            == seq![Step::Right(n)],
{
}

/// A program of one command whose number fits in an `i32` draws one step by
/// that number, in its direction, and then closes the document.
pub proof fn law_single_command_steps(k: LexemeKind, v: nat)
    requires
        v <= i32::MAX,
    ensures
        ({
            let s = steps_spec(tree_of(seq![(k, v)]));
            let n = v as i32;
            &&& k == LexemeKind::Forward ==> s == seq![Step::Forward(n), Step::Close]
            &&& k == LexemeKind::Backward ==> s == seq![Step::Backward(n), Step::Close]
            &&& k == LexemeKind::Left ==> s == seq![Step::Left(n), Step::Close]
            &&& k == LexemeKind::Right ==> s == seq![Step::Right(n), Step::Close]
        }),
{
    let cmds = seq![(k, v)];
    law_steps_program(cmds);
    assert(cmds.drop_first() =~= Seq::<(LexemeKind, nat)>::empty());
    assert(steps_of(cmds.drop_first()) =~= Seq::<Step>::empty());
    assert(steps_of(cmds) =~= seq![command_step(k, v)]);
}

/// A closed document holds the closing tag `</svg>` and starts with the
/// document before closing; a document without the tag is closed by adding
/// the tag and a newline at its end, and one with it is left as it is.
pub proof fn law_close_result(s: Seq<char>)
    ensures
        holds(closed_document(s), seq!['<', '/', 's', 'v', 'g', '>']),
        closed_document(s).subrange(0, s.len() as int) == s,
        !holds(s, seq!['<', '/', 's', 'v', 'g', '>']) ==> closed_document(s) == s + seq!['<', '/', 's', 'v', 'g', '>', '\n'],
        holds(s, seq!['<', '/', 's', 'v', 'g', '>']) ==> closed_document(s) == s,
{
    let tag = seq!['<', '/', 's', 'v', 'g', '>'];
    assert(end_tag() =~= tag);
    let c = closed_document(s);
    if !holds(s, tag) {
        assert(s + end_tag() + seq!['\n'] =~= s + seq!['<', '/', 's', 'v', 'g', '>', '\n']);
        assert(c.subrange(s.len() as int, s.len() as int + 6) =~= tag);
        assert(c.subrange(0, s.len() as int) =~= s);
    } else {
        assert(c.subrange(0, s.len() as int) =~= s);
    }
}

} // verus!
