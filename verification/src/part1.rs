//! The hand-written front end: a lexer that splits the source at white
//! space and a recursive-descent parser for
//!
//! ```text
//! <program> ::= <command>*
//! <command> ::= <order> <number>
//! ```
//!
//! together with the decisions of the turtle that runs the program.

use vstd::prelude::*;
use vstd::string::*;
use crate::chars::{is_white_space, white_space, chars_of, str_debug, debug_text};
use crate::lexer::{LexemeKind, keyword, starts_with, keyword_chars, render, render_command, render_tail, lemma_render_split, orders_only, lemma_orders_only_rest};
use crate::numeral::{digits_u32_spec, digits_u32, dec_nat, push_decimal, lemma_dec_nat_digits, lemma_digits_u32_dec};
use crate::chars::is_digit;

verus! {

/// A token: an order, kept as the word that names it, or a number.
#[derive(Debug, PartialEq, Eq)]
pub enum Token {
    Order(String),
    Number(u32),
}

/// A token as a mathematical value.
pub enum TokenView {
    Order(Seq<char>),
    Number(u32),
}

impl View for Token {
    type V = TokenView;

    open spec fn view(&self) -> TokenView {
        match self {
            Token::Order(s) => TokenView::Order(s@),
            Token::Number(n) => TokenView::Number(*n),
        }
    }
}

impl Clone for Token {
    fn clone(&self) -> (r: Self)
        ensures
            r@ == self@,
    {
        match self {
            Token::Order(s) => Token::Order(s.clone()),
            Token::Number(n) => Token::Number(*n),
        }
    }
}

/// A command: an order and how far to go or turn.
#[derive(Debug)]
pub struct Command {
    pub order: String,
    pub value: u32,
}

/// A command as a mathematical value.
pub struct CommandView {
    pub order: Seq<char>,
    pub value: u32,
}

impl View for Command {
    type V = CommandView;

    open spec fn view(&self) -> CommandView {
        CommandView { order: self.order@, value: self.value }
    }
}

/// A program: its commands, in order.
pub type Program = Vec<Command>;

/// The views of a vector of tokens.
pub open spec fn token_views(v: Seq<Token>) -> Seq<TokenView> {
    v.map_values(|t: Token| t@)
}

/// The views of a vector of commands.
pub open spec fn command_views(v: Seq<Command>) -> Seq<CommandView> {
    v.map_values(|c: Command| c@)
}

// ───────────────────────────── lexer ─────────────────────────────

/// `w` is one of the four orders.
pub open spec fn is_order_word(w: Seq<char>) -> bool {
    ||| w == keyword(LexemeKind::Forward)
    ||| w == keyword(LexemeKind::Backward)
    ||| w == keyword(LexemeKind::Left)
    ||| w == keyword(LexemeKind::Right)
}

/// The number of characters other than white space that `s[i..]` starts with.
pub open spec fn word_run(s: Seq<char>, i: int) -> nat
    decreases s.len() - i,
{
    if 0 <= i < s.len() && !is_white_space(s[i]) {
        1 + word_run(s, i + 1)
    } else {
        0
    }
}

/// The words of `s[i..]`: its maximal runs of characters other than white
/// space, in order.
pub open spec fn words_from(s: Seq<char>, i: int) -> Seq<Seq<char>>
    decreases s.len() - i,
{
    if i < 0 || i >= s.len() {
        Seq::empty()
    } else if is_white_space(s[i]) {
        words_from(s, i + 1)
    } else {
        let n = word_run(s, i);
        if 0 < n && i + n <= s.len() {
            seq![s.subrange(i, i + n)] + words_from(s, i + n)
        } else {
            Seq::empty()
        }
    }
}

/// The words of `s`, as `str::split_whitespace` gives them.
pub open spec fn words(s: Seq<char>) -> Seq<Seq<char>> {
    words_from(s, 0)
}

/// The error for a word that is neither an order nor a number.
pub open spec fn unknown_word_message(w: Seq<char>) -> Seq<char> {
    "Lexer error: mot inconnu '"@ + w + "'"@
}

/// The token of the word `w`: an order, else a numeral `[0-9]+` that fits in
/// a `u32`, else an error.
pub open spec fn word_token(w: Seq<char>) -> Result<TokenView, Seq<char>> {
    if is_order_word(w) {
        Ok(TokenView::Order(w))
    } else {
        match digits_u32_spec(w) {
            Some(n) => Ok(TokenView::Number(n)),
            None => Err(unknown_word_message(w)),
        }
    }
}

/// The tokens of the words `ws`, or the error of the first word that has none.
pub open spec fn lex_words(ws: Seq<Seq<char>>) -> Result<Seq<TokenView>, Seq<char>>
    decreases ws.len(),
{
    if ws.len() == 0 {
        Ok(Seq::empty())
    } else {
        match word_token(ws[0]) {
            Err(e) => Err(e),
            Ok(t) => match lex_words(ws.drop_first()) {
                Ok(rest) => Ok(seq![t] + rest),
                Err(e) => Err(e),
            },
        }
    }
}

/// The tokens of the source `s`.
pub open spec fn lex_spec(s: Seq<char>) -> Result<Seq<TokenView>, Seq<char>> {
    lex_words(words(s))
}

/// `pre` before the tokens of `r`, or the error of `r`.
pub open spec fn tokens_after(pre: Seq<TokenView>, r: Result<Seq<TokenView>, Seq<char>>) -> Result<
    Seq<TokenView>,
    Seq<char>,
> {
    match r {
        Ok(t) => Ok(pre + t),
        Err(e) => Err(e),
    }
}

/// Whether `v[i..e]` is one of the four orders.
fn is_order_text(v: &Vec<char>, i: usize, e: usize) -> (r: bool)
    requires
        i <= e <= v.len(),
    ensures
        r == is_order_word(v@.subrange(i as int, e as int)),
{
    let ghost w = v@.subrange(i as int, e as int);
    let n = e - i;
    let f = keyword_chars(LexemeKind::Forward);
    let b = keyword_chars(LexemeKind::Backward);
    let l = keyword_chars(LexemeKind::Left);
    let r = keyword_chars(LexemeKind::Right);
    let r = (n == f.len() && starts_with(v, i, &f)) || (n == b.len() && starts_with(v, i, &b))
        || (n == l.len() && starts_with(v, i, &l)) || (n == r.len() && starts_with(v, i, &r));
    proof {
        assert(w.len() == n);
    }
    r
}

proof fn lemma_word_run_bound(s: Seq<char>, i: int)
    requires
        0 <= i <= s.len(),
    ensures
        i + word_run(s, i) <= s.len(),
    decreases s.len() - i,
{
    if i < s.len() {
        lemma_word_run_bound(s, i + 1);
    }
}

/// Splits `source` into tokens, word by word.  A word that is neither an
/// order nor a numeral `[0-9]+` that fits in a `u32` stops the lexer with an
/// error that names it.
pub fn lex(source: &str) -> (r: Result<Vec<Token>, String>)
    ensures
        match r {
            Ok(v) => lex_spec(source@) == Ok::<Seq<TokenView>, Seq<char>>(token_views(v@)),
            Err(e) => lex_spec(source@) == Err::<Seq<TokenView>, Seq<char>>(e@),
        },
{
    let v = chars_of(source);
    let ghost s = v@;
    let mut tokens: Vec<Token> = Vec::new();
    let mut i: usize = 0;
    assert(token_views(tokens@) =~= Seq::<TokenView>::empty());
    while i < v.len()
        invariant
            s == v@,
            s == source@,
            i <= v.len(),
            lex_spec(s) == tokens_after(token_views(tokens@), lex_words(words_from(s, i as int))),
        decreases v.len() - i,
    {
        if white_space(v[i]) {
            i = i + 1;
        } else {
            let mut e = i;
            while e < v.len() && !white_space(v[e])
                invariant
                    i <= e <= v.len(),
                    word_run(s, i as int) == (e - i) + word_run(s, e as int),
                    s == v@,
                decreases v.len() - e,
            {
                e = e + 1;
            }
            proof { lemma_word_run_bound(s, i as int); }
            let ghost w = s.subrange(i as int, e as int);
            let ghost rest = words_from(s, e as int);
            assert((seq![w] + rest).drop_first() =~= rest);
            assert((seq![w] + rest)[0] == w);
            let word = source.substring_char(i, e);
            let ghost before = token_views(tokens@);
            if is_order_text(&v, i, e) {
                let t = Token::Order(String::from_str(word));
                tokens.push(t);
                assert(token_views(tokens@) =~= before + seq![TokenView::Order(w)]);
            } else {
                match digits_u32(word) {
                    Some(n) => {
                        tokens.push(Token::Number(n));
                        assert(token_views(tokens@) =~= before + seq![TokenView::Number(n)]);
                    },
                    None => {
                        let mut msg = String::from_str("Lexer error: mot inconnu '");
                        msg.append(word);
                        msg.append("'");
                        return Err(msg);
                    },
                }
            }
            proof {
                match lex_words(rest) {
                    Ok(t) => {
                        assert(before + (seq![token_views(tokens@).last()] + t) =~= token_views(tokens@) + t);
                    },
                    Err(_) => {},
                }
            }
            i = e;
        }
    }
    assert(token_views(tokens@) + Seq::<TokenView>::empty() =~= token_views(tokens@));
    Ok(tokens)
}

// ───────────────────────────── parser ─────────────────────────────

/// The text that `{:?}` writes for a token.
pub open spec fn token_debug(t: TokenView) -> Seq<char> {
    match t {
        TokenView::Number(n) => "Number("@ + dec_nat(n as nat) + ")"@,
        TokenView::Order(o) => "Order("@ + str_debug(o) + ")"@,
    }
}

/// The error when an order is expected and `found` (a token, or the end
/// of the input) stands there.
pub open spec fn order_expected(found: Option<TokenView>) -> Seq<char> {
    match found {
        Some(t) => "Parser error: ordre attendu, trouvé "@ + token_debug(t),
        None => "Parser error: ordre attendu, fin de fichier"@,
    }
}

/// The error when a number is expected and `found` stands there.
pub open spec fn number_expected(found: Option<TokenView>) -> Seq<char> {
    match found {
        Some(t) => "Parser error: nombre attendu, trouvé "@ + token_debug(t),
        None => "Parser error: nombre attendu, fin de fichier"@,
    }
}

/// Reading an order at cursor `i` of `toks`: its word or the error, and the
/// cursor after.  The token is consumed even when it is not an order.
pub open spec fn order_at(toks: Seq<TokenView>, i: nat) -> (Result<Seq<char>, Seq<char>>, nat) {
    if i < toks.len() {
        match toks[i as int] {
            TokenView::Order(o) => (Ok(o), i + 1),
            t => (Err(order_expected(Some(t))), i + 1),
        }
    } else {
        (Err(order_expected(None)), i)
    }
}

/// Reading a number at cursor `i` of `toks`: its value or the error, and
/// the cursor after.
pub open spec fn number_at(toks: Seq<TokenView>, i: nat) -> (Result<u32, Seq<char>>, nat) {
    if i < toks.len() {
        match toks[i as int] {
            TokenView::Number(n) => (Ok(n), i + 1),
            t => (Err(number_expected(Some(t))), i + 1),
        }
    } else {
        (Err(number_expected(None)), i)
    }
}

/// Reading a command at cursor `i`: an order, then a number.
pub open spec fn command_at(toks: Seq<TokenView>, i: nat) -> (Result<CommandView, Seq<char>>, nat) {
    let o = order_at(toks, i);
    match o.0 {
        Err(e) => (Err(e), o.1),
        Ok(order) => {
            let n = number_at(toks, o.1);
            match n.0 {
                Err(e) => (Err(e), n.1),
                Ok(value) => (Ok(CommandView { order, value }), n.1),
            }
        },
    }
}

/// Reading commands from cursor `i` up to the end of `toks`: the commands
/// or the first error, and the cursor after.
pub open spec fn program_at(toks: Seq<TokenView>, i: nat) -> (Result<Seq<CommandView>, Seq<char>>, nat)
    decreases toks.len() - i,
{
    if i >= toks.len() {
        (Ok(Seq::empty()), i)
    } else {
        let c = command_at(toks, i);
        match c.0 {
            Err(e) => (Err(e), c.1),
            Ok(cmd) => {
                if i < c.1 <= toks.len() {
                    let rest = program_at(toks, c.1);
                    match rest.0 {
                        Ok(cs) => (Ok(seq![cmd] + cs), rest.1),
                        Err(e) => (Err(e), rest.1),
                    }
                } else {
                    (Err(Seq::empty()), c.1)
                }
            },
        }
    }
}

/// `pre` before the commands of `r`, or the error of `r`; the cursor of `r`.
pub open spec fn commands_after(
    pre: Seq<CommandView>,
    r: (Result<Seq<CommandView>, Seq<char>>, nat),
) -> (Result<Seq<CommandView>, Seq<char>>, nat) {
    (
        match r.0 {
            Ok(cs) => Ok(pre + cs),
            Err(e) => Err(e),
        },
        r.1,
    )
}

/// The text that `{:?}` writes for `t`.
fn token_text(t: &Token) -> (s: String)
    ensures
        s@ == token_debug(t@),
{
    match t {
        Token::Number(n) => {
            let mut s = String::from_str("Number(");
            push_decimal(&mut s, *n as u64);
            s.append(")");
            s
        },
        Token::Order(o) => {
            let mut s = String::from_str("Order(");
            let q = debug_text(o.as_str());
            s.append(q.as_str());
            s.append(")");
            s
        },
    }
}

/// A parser: the tokens and a cursor into them.
pub struct Parser {
    tokens: Vec<Token>,
    cursor: usize,
}

impl Parser {
    /// The tokens, as values.
    pub closed spec fn tokens_view(&self) -> Seq<TokenView> {
        token_views(self.tokens@)
    }

    /// The cursor.
    pub closed spec fn cursor_view(&self) -> nat {
        self.cursor as nat
    }

    /// A parser at the first of `tokens`.
    pub fn new(tokens: Vec<Token>) -> (p: Self)
        ensures
            p.tokens_view() == token_views(tokens@),
            p.cursor_view() == 0,
    {
        Parser { tokens, cursor: 0 }
    }

    /// The token under the cursor, without moving it.
    pub fn peek(&self) -> (r: Option<&Token>)
        ensures
            match r {
                Some(t) => self.cursor_view() < self.tokens_view().len() && t@ == self.tokens_view()[self.cursor_view() as int],
                None => self.cursor_view() >= self.tokens_view().len(),
            },
    {
        if self.cursor < self.tokens.len() {
            Some(&self.tokens[self.cursor])
        } else {
            None
        }
    }

    /// Consumes and gives back the token under the cursor; at the end of
    /// the tokens, gives back `None` and stays there.
    pub fn advance(&mut self) -> (r: Option<Token>)
        ensures
            final(self).tokens_view() == old(self).tokens_view(),
            old(self).cursor_view() < old(self).tokens_view().len() ==> {
                &&& r matches Some(t)
                &&& t@ == old(self).tokens_view()[old(self).cursor_view() as int]
                &&& final(self).cursor_view() == old(self).cursor_view() + 1
            },
            old(self).cursor_view() >= old(self).tokens_view().len() ==> {
                &&& r is None
                &&& final(self).cursor_view() == old(self).cursor_view()
            },
    {
        if self.cursor < self.tokens.len() {
            let tok = self.tokens[self.cursor].clone();
            self.cursor += 1;
            Some(tok)
        } else {
            None
        }
    }

    /// `<program> ::= <command>*`: reads commands up to the end of the
    /// tokens, and stops at the first error.
    pub fn parse_program(&mut self) -> (r: Result<Program, String>)
        ensures
            final(self).tokens_view() == old(self).tokens_view(),
            ({
                let expected = program_at(old(self).tokens_view(), old(self).cursor_view());
                &&& final(self).cursor_view() == expected.1
                &&& match r {
                    Ok(cs) => expected.0 == Ok::<Seq<CommandView>, Seq<char>>(command_views(cs@)),
                    Err(e) => expected.0 == Err::<Seq<CommandView>, Seq<char>>(e@),
                }
            }),
    {
        let ghost toks = self.tokens_view();
        let ghost start = self.cursor_view();
        let mut commands: Vec<Command> = Vec::new();
        assert(command_views(commands@) =~= Seq::<CommandView>::empty());
        assert(commands_after(Seq::empty(), program_at(toks, start)) =~= program_at(toks, start));
        while self.peek().is_some()
            invariant
                self.tokens_view() == toks,
                toks == old(self).tokens_view(),
                start == old(self).cursor_view(),
                program_at(toks, start) == commands_after(command_views(commands@), program_at(toks, self.cursor_view())),
            decreases toks.len() - self.cursor_view(),
        {
            let ghost i = self.cursor_view();
            let ghost before = command_views(commands@);
            let cmd = self.parse_command()?;
            commands.push(cmd);
            proof {
                assert(command_views(commands@) =~= before + seq![cmd@]);
                let rest = program_at(toks, self.cursor_view());
                match rest.0 {
                    Ok(cs) => { assert(before + (seq![cmd@] + cs) =~= command_views(commands@) + cs); },
                    Err(_) => {},
                }
            }
        }
        assert(command_views(commands@) + Seq::<CommandView>::empty() =~= command_views(commands@));
        Ok(commands)
    }

    /// `<command> ::= <order> <number>`.
    pub fn parse_command(&mut self) -> (r: Result<Command, String>)
        ensures
            final(self).tokens_view() == old(self).tokens_view(),
            ({
                let expected = command_at(old(self).tokens_view(), old(self).cursor_view());
                &&& final(self).cursor_view() == expected.1
                &&& match r {
                    Ok(c) => expected.0 == Ok::<CommandView, Seq<char>>(c@),
                    Err(e) => expected.0 == Err::<CommandView, Seq<char>>(e@),
                }
            }),
    {
        let order = self.parse_order()?;
        let value = self.parse_number()?;
        Ok(Command { order, value })
    }

    /// `<order>`: the word of an order token.
    pub fn parse_order(&mut self) -> (r: Result<String, String>)
        ensures
            final(self).tokens_view() == old(self).tokens_view(),
            ({
                let expected = order_at(old(self).tokens_view(), old(self).cursor_view());
                &&& final(self).cursor_view() == expected.1
                &&& match r {
                    Ok(o) => expected.0 == Ok::<Seq<char>, Seq<char>>(o@),
                    Err(e) => expected.0 == Err::<Seq<char>, Seq<char>>(e@),
                }
            }),
    {
        match self.advance() {
            Some(Token::Order(o)) => Ok(o),
            Some(other) => {
                let mut msg = String::from_str("Parser error: ordre attendu, trouvé ");
                let t = token_text(&other);
                msg.append(t.as_str());
                Err(msg)
            },
            None => Err(String::from_str("Parser error: ordre attendu, fin de fichier")),
        }
    }

    /// `<number> ::= [0-9]+`: the value of a number token.
    pub fn parse_number(&mut self) -> (r: Result<u32, String>)
        ensures
            final(self).tokens_view() == old(self).tokens_view(),
            ({
                let expected = number_at(old(self).tokens_view(), old(self).cursor_view());
                &&& final(self).cursor_view() == expected.1
                &&& match r {
                    Ok(n) => expected.0 == Ok::<u32, Seq<char>>(n),
                    Err(e) => expected.0 == Err::<u32, Seq<char>>(e@),
                }
            }),
    {
        match self.advance() {
            Some(Token::Number(n)) => Ok(n),
            Some(other) => {
                let mut msg = String::from_str("Parser error: nombre attendu, trouvé ");
                let t = token_text(&other);
                msg.append(t.as_str());
                Err(msg)
            },
            None => Err(String::from_str("Parser error: nombre attendu, fin de fichier")),
        }
    }
}

// ───────────────────────────── turtle ─────────────────────────────

/// What the turtle does for one command: move along its heading, turn, or
/// report an order it does not know.
#[derive(Clone, Copy, Debug, PartialEq, Eq, Structural)]
pub enum Motion {
    Forward(u32),
    Backward(u32),
    TurnLeft(u32),
    TurnRight(u32),
    Unknown,
}

/// The motion of the command `c`, chosen by its order.
pub open spec fn motion_of(c: CommandView) -> Motion {
    if c.order == keyword(LexemeKind::Forward) {
        Motion::Forward(c.value)
    } else if c.order == keyword(LexemeKind::Backward) {
        Motion::Backward(c.value)
    } else if c.order == keyword(LexemeKind::Left) {
        Motion::TurnLeft(c.value)
    } else if c.order == keyword(LexemeKind::Right) {
        Motion::TurnRight(c.value)
    } else {
        Motion::Unknown
    }
}

/// Whether `v` is exactly the keyword of `k`.
fn is_keyword(v: &Vec<char>, k: LexemeKind) -> (r: bool)
    ensures
        r == (v@ == keyword(k)),
{
    let w = keyword_chars(k);
    if v.len() != w.len() {
        return false;
    }
    let r = starts_with(v, 0, &w);
    assert(v@.subrange(0, v@.len() as int) =~= v@);
    r
}

/// The motion that the turtle makes for `cmd`.
pub fn motion(cmd: &Command) -> (m: Motion)
    ensures
        m == motion_of(cmd@),
{
    let v = chars_of(cmd.order.as_str());
    if is_keyword(&v, LexemeKind::Forward) {
        Motion::Forward(cmd.value)
    } else if is_keyword(&v, LexemeKind::Backward) {
        Motion::Backward(cmd.value)
    } else if is_keyword(&v, LexemeKind::Left) {
        Motion::TurnLeft(cmd.value)
    } else if is_keyword(&v, LexemeKind::Right) {
        Motion::TurnRight(cmd.value)
    } else {
        Motion::Unknown
    }
}

// ───────────────────────────── laws ─────────────────────────────

/// Each number of `cmds` fits in a `u32`.
pub open spec fn values_fit_u32(cmds: Seq<(LexemeKind, nat)>) -> bool {
    forall|k: int| 0 <= k < cmds.len() ==> (#[trigger] cmds[k]).1 <= u32::MAX
}

/// The tokens of `cmds`: for each command, its order and its number.
pub open spec fn tokens_of(cmds: Seq<(LexemeKind, nat)>) -> Seq<TokenView>
    decreases cmds.len(),
{
    if cmds.len() == 0 {
        Seq::empty()
    } else {
        seq![TokenView::Order(keyword(cmds[0].0)), TokenView::Number(cmds[0].1 as u32)] + tokens_of(
            cmds.drop_first(),
        )
    }
}

/// The commands of `cmds`, as the parser gives them back.
pub open spec fn commands_of(cmds: Seq<(LexemeKind, nat)>) -> Seq<CommandView>
    decreases cmds.len(),
{
    if cmds.len() == 0 {
        Seq::empty()
    } else {
        seq![CommandView { order: keyword(cmds[0].0), value: cmds[0].1 as u32 }] + commands_of(
            cmds.drop_first(),
        )
    }
}

proof fn lemma_word_run_shift(a: Seq<char>, b: Seq<char>, j: int)
    requires
        0 <= j <= b.len(),
    ensures
        word_run(a + b, a.len() + j) == word_run(b, j),
    decreases b.len() - j,
{
    if j < b.len() {
        lemma_word_run_shift(a, b, j + 1);
    }
}

/// What follows a prefix `a` splits into words as if `a` were not there.
proof fn lemma_words_shift(a: Seq<char>, b: Seq<char>, j: int)
    requires
        0 <= j <= b.len(),
    ensures
        words_from(a + b, a.len() + j) == words_from(b, j),
    decreases b.len() - j,
{
    let s = a + b;
    let i = a.len() + j;
    if j < b.len() {
        assert(s[i] == b[j]);
        lemma_word_run_shift(a, b, j);
        if is_white_space(b[j]) {
            lemma_words_shift(a, b, j + 1);
        } else {
            let n = word_run(b, j);
            if 0 < n && j + n <= b.len() {
                assert(s.subrange(i, i + n) =~= b.subrange(j, j + n));
                lemma_words_shift(a, b, j + n);
            }
        }
    }
}

proof fn lemma_word_run_of(s: Seq<char>, i: int, n: int)
    requires
        0 <= i,
        0 <= n,
        i + n <= s.len(),
        forall|m: int| i <= m < i + n ==> !is_white_space(#[trigger] s[m]),
        i + n == s.len() || is_white_space(s[i + n]),
    ensures
        word_run(s, i) == n,
    decreases n,
{
    if n > 0 {
        lemma_word_run_of(s, i + 1, n - 1);
    }
}

/// The text of a command splits into the word of its order and the word
/// of its number, when what follows it is empty or starts with white space.
#[verifier::spinoff_prover]
proof fn lemma_words_command(k: LexemeKind, v: nat, rest: Seq<char>)
    requires
        k != LexemeKind::Number,
        rest.len() == 0 || is_white_space(rest[0]),
    ensures
        words_from(render_command(k, v) + rest, 0) == seq![keyword(k), dec_nat(v)] + words_from(rest, 0),
{
    let w = keyword(k);
    let d = dec_nat(v);
    let piece = render_command(k, v);
    let s = piece + rest;
    lemma_dec_nat_digits(v);
    let wl = w.len() as int;
    let dl = d.len() as int;
    let e = wl + 1 + dl;
    assert(piece.len() == e);
    assert forall|m: int| 0 <= m < wl implies !is_white_space(#[trigger] s[m]) by {
        assert(s[m] == w[m]);
    }
    assert(s[wl] == ' ');
    lemma_word_run_of(s, 0, wl);
    assert(s.subrange(0, wl) =~= w);
    assert forall|m: int| wl + 1 <= m < e implies !is_white_space(#[trigger] s[m]) by {
        assert(s[m] == d[m - wl - 1]);
        assert(is_digit(d[m - wl - 1]));
    }
    if rest.len() > 0 {
        assert(s[e] == rest[0]);
    }
    lemma_word_run_of(s, wl + 1, dl);
    assert(s.subrange(wl + 1, e) =~= d);
    lemma_words_shift(piece, rest, 0);
    assert(words_from(s, e) == words_from(rest, 0));
    assert(words_from(s, wl + 1) == seq![d] + words_from(rest, 0));
    assert(words_from(s, wl) == seq![d] + words_from(rest, 0));
    assert(words_from(s, 0) == seq![w] + (seq![d] + words_from(rest, 0)));
    assert(seq![w] + (seq![d] + words_from(rest, 0)) =~= seq![w, d] + words_from(rest, 0));
}

/// The words of the text of `cmds`: for each command, its order, then its number.
proof fn lemma_words_render(cmds: Seq<(LexemeKind, nat)>)
    requires
        orders_only(cmds),
    ensures
        words(render(cmds)).len() == 2 * cmds.len(),
        forall|k: int| 0 <= k < cmds.len() ==> words(render(cmds))[2 * k] == keyword(#[trigger] cmds[k].0)
            && words(render(cmds))[2 * k + 1] == dec_nat(cmds[k].1),
    decreases cmds.len(),
{
    if cmds.len() > 0 {
        lemma_orders_only_rest(cmds);
        let c1 = cmds.drop_first();
        let tail = render_tail(c1);
        lemma_render_split(cmds);
        if c1.len() > 0 {
            assert(tail == seq![' '] + render(c1));
            lemma_words_shift(seq![' '], render(c1), 0);
            assert(words_from(tail, 0) == words_from(tail, 1));
            assert(words_from(tail, 0) == words(render(c1)));
            lemma_words_render(c1);
        } else {
            assert(words_from(tail, 0) =~= Seq::<Seq<char>>::empty());
        }
        lemma_words_command(cmds[0].0, cmds[0].1, tail);
        let ws = words(render(cmds));
        let wr = words_from(tail, 0);
        assert(ws == seq![keyword(cmds[0].0), dec_nat(cmds[0].1)] + wr);
        assert forall|k: int| 0 <= k < cmds.len() implies ws[2 * k] == keyword(#[trigger] cmds[k].0)
            && ws[2 * k + 1] == dec_nat(cmds[k].1) by {
            if k > 0 {
                assert(cmds[k] == c1[k - 1]);
                assert(ws[2 * k] == wr[2 * (k - 1)]);
                assert(ws[2 * k + 1] == wr[2 * (k - 1) + 1]);
            }
        }
    }
}

/// A run of characters other than white space stops at a white-space
/// character that follows `a`.
proof fn lemma_word_run_before_space(a: Seq<char>, c: char, b: Seq<char>, i: int)
    requires
        0 <= i <= a.len(),
        is_white_space(c),
    ensures
        word_run(a + seq![c] + b, i) == word_run(a, i),
    decreases a.len() - i,
{
    let s = a + seq![c] + b;
    if i < a.len() {
        assert(s[i] == a[i]);
        lemma_word_run_before_space(a, c, b, i + 1);
    } else {
        assert(s[i] == c);
    }
}

/// Words of `a`, then a white-space character, then `b`: the words of `a`
/// followed by the words of `b`.
proof fn lemma_words_concat(a: Seq<char>, c: char, b: Seq<char>, i: int)
    requires
        0 <= i <= a.len(),
        is_white_space(c),
    ensures
        words_from(a + seq![c] + b, i) == words_from(a, i) + words(b),
    decreases a.len() - i,
{
    let s = a + seq![c] + b;
    if i == a.len() {
        assert(s[i] == c);
        lemma_words_shift(a + seq![c], b, 0);
        assert(words_from(a, i) + words(b) =~= words(b));
    } else {
        assert(s[i] == a[i]);
        if is_white_space(a[i]) {
            lemma_words_concat(a, c, b, i + 1);
        } else {
            lemma_word_run_before_space(a, c, b, i);
            lemma_word_run_bound(a, i);
            let n = word_run(a, i);
            assert(s.subrange(i, i + n) =~= a.subrange(i, i + n));
            lemma_words_concat(a, c, b, i + n);
            let w = a.subrange(i, i + n);
            assert(seq![w] + (words_from(a, i + n) + words(b)) =~= (seq![w] + words_from(a, i + n)) + words(b));
        }
    }
}

/// The tokens of the words `w1 + w2`: those of `w1`, then those of `w2`,
/// or the first error.
proof fn lemma_lex_words_concat(w1: Seq<Seq<char>>, w2: Seq<Seq<char>>)
    ensures
        lex_words(w1 + w2) == match lex_words(w1) {
            Err(e) => Err(e),
            Ok(x) => tokens_after(x, lex_words(w2)),
        },
    decreases w1.len(),
{
    if w1.len() == 0 {
        assert(w1 + w2 =~= w2);
        match lex_words(w2) {
            Ok(y) => { assert(Seq::<TokenView>::empty() + y =~= y); },
            Err(_) => {},
        }
    } else {
        assert((w1 + w2).drop_first() =~= w1.drop_first() + w2);
        assert((w1 + w2)[0] == w1[0]);
        lemma_lex_words_concat(w1.drop_first(), w2);
        match word_token(w1[0]) {
            Ok(t) => {
                match lex_words(w1.drop_first()) {
                    Ok(x) => {
                        match lex_words(w2) {
                            Ok(y) => { assert(seq![t] + (x + y) =~= (seq![t] + x) + y); },
                            Err(_) => {},
                        }
                    },
                    Err(_) => {},
                }
            },
            Err(_) => {},
        }
    }
}

/// Lexing two texts joined by a white-space character gives the tokens of
/// the first and then those of the second; when one of them fails, the
/// error of the first that fails.
pub proof fn law_lex_concat(a: Seq<char>, c: char, b: Seq<char>)
    requires
        is_white_space(c),
    ensures
        lex_spec(a + seq![c] + b) == match lex_spec(a) {
            Err(e) => Err(e),
            Ok(x) => tokens_after(x, lex_spec(b)),
        },
{
    lemma_words_concat(a, c, b, 0);
    lemma_lex_words_concat(words(a), words(b));
}

/// The tokens of words that alternate between orders and `u32` numerals.
proof fn lemma_lex_words_render(ws: Seq<Seq<char>>, cmds: Seq<(LexemeKind, nat)>)
    requires
        orders_only(cmds),
        values_fit_u32(cmds),
        ws.len() == 2 * cmds.len(),
        forall|k: int| 0 <= k < cmds.len() ==> ws[2 * k] == keyword(#[trigger] cmds[k].0)
            && ws[2 * k + 1] == dec_nat(cmds[k].1),
    ensures
        lex_words(ws) == Ok::<Seq<TokenView>, Seq<char>>(tokens_of(cmds)),
    decreases cmds.len(),
{
    if cmds.len() > 0 {
        lemma_orders_only_rest(cmds);
        let c1 = cmds.drop_first();
        let w1 = ws.drop_first().drop_first();
        assert(values_fit_u32(c1)) by {
            assert forall|k: int| 0 <= k < c1.len() implies (#[trigger] c1[k]).1 <= u32::MAX by {
                assert(c1[k] == cmds[k + 1]);
            }
        }
        assert forall|k: int| 0 <= k < c1.len() implies w1[2 * k] == keyword(#[trigger] c1[k].0)
            && w1[2 * k + 1] == dec_nat(c1[k].1) by {
            assert(c1[k] == cmds[k + 1]);
            assert(w1[2 * k] == ws[2 * (k + 1)]);
            assert(w1[2 * k + 1] == ws[2 * (k + 1) + 1]);
        }
        lemma_lex_words_render(w1, c1);
        let k0 = cmds[0].0;
        let v0 = cmds[0].1;
        assert(ws[0] == keyword(k0));
        assert(ws[1] == dec_nat(v0));
        assert(is_order_word(keyword(k0)));
        assert(word_token(ws[0]) == Ok::<TokenView, Seq<char>>(TokenView::Order(keyword(k0))));
        lemma_dec_nat_digits(v0);
        lemma_digits_u32_dec(v0 as u32);
        assert(!is_order_word(dec_nat(v0))) by {
            assert(is_digit(dec_nat(v0)[0]));
        }
        assert(ws.drop_first()[0] == ws[1]);
        assert(ws.drop_first().drop_first() == w1);
        assert(word_token(ws.drop_first()[0]) == Ok::<TokenView, Seq<char>>(TokenView::Number(v0 as u32)));
        assert(lex_words(ws.drop_first()) == Ok::<Seq<TokenView>, Seq<char>>(
            seq![TokenView::Number(v0 as u32)] + tokens_of(c1),
        ));
        assert(lex_words(ws) == Ok::<Seq<TokenView>, Seq<char>>(
            seq![TokenView::Order(keyword(k0))] + (seq![TokenView::Number(v0 as u32)] + tokens_of(c1)),
        ));
        assert(seq![TokenView::Order(keyword(k0))] + (seq![TokenView::Number(v0 as u32)] + tokens_of(c1))
            =~= tokens_of(cmds));
    } else {
        assert(tokens_of(cmds) =~= Seq::<TokenView>::empty());
    }
}

/// Writing commands as text, joined by single spaces, and lexing the text
/// gives, for each command, the token of its order and the token of its
/// number.
pub proof fn law_lex_render(cmds: Seq<(LexemeKind, nat)>)
    requires
        orders_only(cmds),
        values_fit_u32(cmds),
    ensures
        lex_spec(render(cmds)) == Ok::<Seq<TokenView>, Seq<char>>(tokens_of(cmds)),
{
    lemma_words_render(cmds);
    lemma_lex_words_render(words(render(cmds)), cmds);
}

/// The parser reads the tokens of commands back as those commands, and
/// consumes all of them.
pub proof fn law_parse_tokens(cmds: Seq<(LexemeKind, nat)>)
    ensures
        program_at(tokens_of(cmds), 0) == (
            Ok::<Seq<CommandView>, Seq<char>>(commands_of(cmds)),
            2 * cmds.len(),
        ),
{
    lemma_tokens_of_len(cmds);
    let toks = tokens_of(cmds);
    assert(toks.subrange(0, toks.len() as int) =~= toks);
    lemma_program_at_tokens(toks, 0, cmds);
}

proof fn lemma_tokens_of_len(cmds: Seq<(LexemeKind, nat)>)
    ensures
        tokens_of(cmds).len() == 2 * cmds.len(),
    decreases cmds.len(),
{
    if cmds.len() > 0 {
        lemma_tokens_of_len(cmds.drop_first());
    }
}

/// Parsing `toks` from a cursor after which the tokens of `cmds` stand.
proof fn lemma_program_at_tokens(toks: Seq<TokenView>, i: nat, cmds: Seq<(LexemeKind, nat)>)
    requires
        i <= toks.len(),
        toks.subrange(i as int, toks.len() as int) == tokens_of(cmds),
    ensures
        program_at(toks, i) == (
            Ok::<Seq<CommandView>, Seq<char>>(commands_of(cmds)),
            i + 2 * cmds.len(),
        ),
    decreases cmds.len(),
{
    lemma_tokens_of_len(cmds);
    if cmds.len() > 0 {
        let c1 = cmds.drop_first();
        let t0 = TokenView::Order(keyword(cmds[0].0));
        let t1 = TokenView::Number(cmds[0].1 as u32);
        let tail = toks.subrange(i as int, toks.len() as int);
        assert(tail == seq![t0, t1] + tokens_of(c1));
        assert(toks[i as int] == tail[0]);
        assert(toks[i as int + 1] == tail[1]);
        assert(toks.subrange(i as int + 2, toks.len() as int) =~= tail.subrange(2, tail.len() as int));
        assert(tail.subrange(2, tail.len() as int) =~= tokens_of(c1));
        lemma_program_at_tokens(toks, i + 2, c1);
        assert(command_at(toks, i) == (
            Ok::<CommandView, Seq<char>>(CommandView { order: keyword(cmds[0].0), value: cmds[0].1 as u32 }),
            i + 2,
        ));
    } else {
        assert(commands_of(cmds) =~= Seq::<CommandView>::empty());
    }
}

/// Writing commands as text and reading the text back, through the lexer
/// and then the parser, gives back the commands.
pub proof fn law_front_end_roundtrip(cmds: Seq<(LexemeKind, nat)>)
    requires
        orders_only(cmds),
        values_fit_u32(cmds),
    ensures
        lex_spec(render(cmds)) matches Ok(toks) && program_at(toks, 0) == (
            Ok::<Seq<CommandView>, Seq<char>>(commands_of(cmds)),
            toks.len(),
        ),
{
    law_lex_render(cmds);
    law_parse_tokens(cmds);
    lemma_tokens_of_len(cmds);
}

/// From index `i` on, the tokens alternate: an order, then a number, and
/// so on, ending with a number.
pub open spec fn alternates(toks: Seq<TokenView>, i: nat) -> bool {
    &&& (toks.len() - i) % 2 == 0
    &&& forall|j: int| i <= j < toks.len() ==> (if (j - i) % 2 == 0 {
        #[trigger] toks[j] is Order
    } else {
        toks[j] is Number
    })
}

/// Parsing from cursor `i` succeeds exactly when the tokens from `i` on
/// alternate between orders and numbers; when it succeeds it has consumed
/// every token.
pub proof fn law_program_succeeds_iff(toks: Seq<TokenView>, i: nat)
    requires
        i <= toks.len(),
    ensures
        program_at(toks, i).0 is Ok <==> alternates(toks, i),
        program_at(toks, i).0 is Ok ==> program_at(toks, i).1 == toks.len(),
    decreases toks.len() - i,
{
    if i < toks.len() {
        if toks[i as int] is Number {
            assert(!alternates(toks, i)) by {
                assert((i - i) % 2 == 0);
            }
        } else if i + 1 == toks.len() {
            assert(!alternates(toks, i));
        } else if toks[i as int + 1] is Order {
            assert(!alternates(toks, i)) by {
                assert(((i + 1) - i) % 2 == 1);
            }
        } else {
            law_program_succeeds_iff(toks, i + 2);
            if alternates(toks, i + 2) {
                assert forall|j: int| i <= j < toks.len() implies (if (j - i) % 2 == 0 {
                    #[trigger] toks[j] is Order
                } else {
                    toks[j] is Number
                }) by {
                    if j >= i + 2 {
                        assert((j - i) % 2 == (j - (i + 2)) % 2);
                    }
                }
            }
            if alternates(toks, i) {
                assert forall|j: int| i + 2 <= j < toks.len() implies (if (j - (i + 2)) % 2 == 0 {
                    #[trigger] toks[j] is Order
                } else {
                    toks[j] is Number
                }) by {
                    assert((j - i) % 2 == (j - (i + 2)) % 2);
                }
            }
        }
    }
}

/// A token is an order word or a number.
pub open spec fn lexed_token(t: TokenView) -> bool {
    match t {
        TokenView::Order(o) => is_order_word(o),
        TokenView::Number(_) => true,
    }
}

/// Every order token that the lexer gives back names one of the four
/// orders.
pub proof fn law_lexed_orders_are_keywords(ws: Seq<Seq<char>>)
    ensures
        lex_words(ws) matches Ok(toks) ==> forall|j: int| 0 <= j < toks.len() ==> lexed_token(#[trigger] toks[j]),
    decreases ws.len(),
{
    if ws.len() > 0 {
        law_lexed_orders_are_keywords(ws.drop_first());
        match word_token(ws[0]) {
            Ok(t) => {
                match lex_words(ws.drop_first()) {
                    Ok(rest) => {
                        let toks = seq![t] + rest;
                        assert(lexed_token(t));
                        assert forall|j: int| 0 <= j < toks.len() implies lexed_token(#[trigger] toks[j]) by {
                            if j > 0 {
                                assert(toks[j] == rest[j - 1]);
                            }
                        }
                    },
                    Err(_) => {},
                }
            },
            Err(_) => {},
        }
    }
}

/// The turtle's motion for a command is the move or turn that its order
/// word names, by exactly the command's value; any other word is unknown.
pub proof fn law_motion_by_value(c: CommandView)
    ensures
        c.order == seq!['f', 'o', 'r', 'w', 'a', 'r', 'd'] ==> motion_of(c) == Motion::Forward(c.value),
        c.order == seq!['b', 'a', 'c', 'k', 'w', 'a', 'r', 'd'] ==> motion_of(c) == Motion::Backward(c.value),
        c.order == seq!['l', 'e', 'f', 't'] ==> motion_of(c) == Motion::TurnLeft(c.value),
        c.order == seq!['r', 'i', 'g', 'h', 't'] ==> motion_of(c) == Motion::TurnRight(c.value),
        !is_order_word(c.order) ==> motion_of(c) == Motion::Unknown,
        is_order_word(c.order) <==> (c.order == seq!['f', 'o', 'r', 'w', 'a', 'r', 'd']
            || c.order == seq!['b', 'a', 'c', 'k', 'w', 'a', 'r', 'd']
            || c.order == seq!['l', 'e', 'f', 't'] || c.order == seq!['r', 'i', 'g', 'h', 't']),
{
    assert(keyword(LexemeKind::Forward) =~= seq!['f', 'o', 'r', 'w', 'a', 'r', 'd']);
    assert(keyword(LexemeKind::Backward) =~= seq!['b', 'a', 'c', 'k', 'w', 'a', 'r', 'd']);
    assert(keyword(LexemeKind::Left) =~= seq!['l', 'e', 'f', 't']);
    assert(keyword(LexemeKind::Right) =~= seq!['r', 'i', 'g', 'h', 't']);
}

} // verus!
