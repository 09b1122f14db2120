//! The grammar shared by the grammar-based front ends:
//!
//! ```text
//! program := command program | (empty)
//! command := order number
//! order   := FORWARD | BACKWARD | LEFT | RIGHT
//! number  := NUMBER
//! ```
//!
//! A sequence of lexemes is a program when its kinds alternate between an
//! order and a number, starting with an order and ending with a number.

use vstd::prelude::*;
use crate::lexer::{Lexeme, LexemeKind, LexemeView, views, lexemes_match, orders_only, lemma_orders_only_rest};

verus! {

/// The kind `k` can stand at index `i` of a program: an order at an even
/// index, a number at an odd one.
pub open spec fn fits(k: LexemeKind, i: int) -> bool {
    if i % 2 == 0 {
        k != LexemeKind::Number
    } else {
        k == LexemeKind::Number
    }
}

/// The index of the first lexeme of `lx[i..]` that cannot stand where it
/// stands, or the length of `lx` when there is none.
pub open spec fn viable_from(lx: Seq<LexemeView>, i: int) -> nat
    decreases lx.len() - i,
{
    if i < 0 {
        0
    } else if i < lx.len() && fits(lx[i].kind, i) {
        viable_from(lx, i + 1)
    } else {
        i as nat
    }
}

/// The length of the longest prefix of `lx` that some program extends.
pub open spec fn viable_len(lx: Seq<LexemeView>) -> nat {
    viable_from(lx, 0)
}

/// `lx` is a program.
pub open spec fn grammatical(lx: Seq<LexemeView>) -> bool {
    viable_len(lx) == lx.len() && lx.len() % 2 == 0
}

/// Where a parse of `lx` that fails reports the failure: the last lexeme
/// of the longest prefix that some program extends, or the start of the
/// input when that prefix is empty.
pub open spec fn failure_at(lx: Seq<LexemeView>) -> Option<nat> {
    if viable_len(lx) == 0 {
        None
    } else {
        Some((viable_len(lx) - 1) as nat)
    }
}

/// A failed parse: the index of the lexeme where the parser stopped, or
/// `None` at the start of the input.
#[derive(Clone, Copy, Debug, PartialEq, Eq, Structural)]
pub struct ParseError {
    pub at: Option<usize>,
}

/// The error that a parse of `lx` that fails gives back.
pub open spec fn parse_error_of(lx: Seq<LexemeView>) -> ParseError {
    ParseError {
        at: match failure_at(lx) {
            Some(n) => Some(n as usize),
            None => None,
        },
    }
}

pub proof fn lemma_viable_from_bounds(lx: Seq<LexemeView>, i: int)
    requires
        0 <= i <= lx.len(),
    ensures
        i <= viable_from(lx, i) <= lx.len(),
        forall|j: int| i <= j < viable_from(lx, i) ==> fits(#[trigger] lx[j].kind, j),
        viable_from(lx, i) < lx.len() ==> !fits(lx[viable_from(lx, i) as int].kind, viable_from(lx, i) as int),
    decreases lx.len() - i,
{
    if i < lx.len() && fits(lx[i].kind, i) {
        lemma_viable_from_bounds(lx, i + 1);
    }
}

/// Every lexeme of a program stands where its kind fits.
pub proof fn lemma_grammatical_fits(lx: Seq<LexemeView>)
    requires
        grammatical(lx),
    ensures
        forall|j: int| 0 <= j < lx.len() ==> fits(#[trigger] lx[j].kind, j),
{
    lemma_viable_from_bounds(lx, 0);
}

/// A sequence whose lexemes all stand where their kinds fit, of even
/// length, is a program.
pub proof fn lemma_fits_grammatical(lx: Seq<LexemeView>)
    requires
        lx.len() % 2 == 0,
        forall|j: int| 0 <= j < lx.len() ==> fits(#[trigger] lx[j].kind, j),
    ensures
        grammatical(lx),
{
    lemma_viable_from_bounds(lx, 0);
}

/// The lexemes of a list of commands are a program, of two lexemes per command.
pub proof fn lemma_match_grammatical(lx: Seq<LexemeView>, cmds: Seq<(LexemeKind, nat)>)
    requires
        orders_only(cmds),
        lexemes_match(lx, cmds),
    ensures
        grammatical(lx),
        lx.len() == 2 * cmds.len(),
    decreases cmds.len(),
{
    if cmds.len() == 0 {
        lemma_fits_grammatical(lx);
    } else {
        lemma_orders_only_rest(cmds);
        let rest = lx.skip(2);
        lemma_match_grammatical(rest, cmds.drop_first());
        lemma_grammatical_fits(rest);
        assert forall|j: int| 0 <= j < lx.len() implies fits(#[trigger] lx[j].kind, j) by {
            if j >= 2 {
                assert(lx[j] == rest[j - 2]);
                assert(fits(rest[j - 2].kind, j - 2));
            }
        }
        lemma_fits_grammatical(lx);
    }
}

/// The length of the longest prefix of `lx` that some program extends.
pub fn viable_length(lx: &Vec<Lexeme>) -> (c: usize)
    ensures
        c == viable_len(views(lx@)),
{
    let ghost s = views(lx@);
    let mut i: usize = 0;
    while i < lx.len()
        invariant
            i <= lx.len(),
            s == views(lx@),
            viable_from(s, 0) == viable_from(s, i as int),
        decreases lx.len() - i,
    {
        let k = lx[i].kind;
        let fit = if i % 2 == 0 {
            match k {
                LexemeKind::Number => false,
                _ => true,
            }
        } else {
            match k {
                LexemeKind::Number => true,
                _ => false,
            }
        };
        assert(s[i as int].kind == k);
        if !fit {
            return i;
        }
        i = i + 1;
    }
    i
}

/// Decides whether `lx` is a program; when it is not, gives back the error
/// that reports it.
pub fn check_program(lx: &Vec<Lexeme>) -> (r: Result<(), ParseError>)
    ensures
        r is Ok <==> grammatical(views(lx@)),
        r matches Err(e) ==> e == parse_error_of(views(lx@)),
{
    let c = viable_length(lx);
    if c == lx.len() && c % 2 == 0 {
        Ok(())
    } else if c == 0 {
        Err(ParseError { at: None })
    } else {
        Err(ParseError { at: Some(c - 1) })
    }
}

} // verus!
