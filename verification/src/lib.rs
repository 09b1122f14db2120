//! A small Logo front end: lexers, parsers and interpreters for a turtle
//! language whose programs are lists of commands such as `forward 100`
//! or `right 90`.
//!
//! - [`chars`] and [`numeral`]: character classes, decimal numerals.
//! - [`lexer`] and [`grammar`]: the lexer and the grammar that the
//!   grammar-based front ends share.
//! - [`base`], [`part2`], [`part3`]: those front ends, their syntax trees
//!   and interpreters; [`part3`] also plans SVG drawings.
//! - [`part1`]: the hand-written lexer and recursive-descent parser, and the
//!   decisions of its turtle.

pub mod chars;
pub mod numeral;
pub mod lexer;
pub mod grammar;
pub mod base;
pub mod part1;
pub mod part2;
pub mod part3;
