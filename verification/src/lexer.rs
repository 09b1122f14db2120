//! The lexer of the grammar-based front ends: white space is skipped, the
//! four orders `forward`, `backward`, `left` and `right` and the numerals
//! `[0-9]+` become lexemes, each tagged with the line and column where it
//! starts, and any other character is an error.  At each point the longest
//! match wins; here at most one rule can match, since the rules differ in
//! their first character.

use vstd::prelude::*;
use vstd::string::*;
use crate::chars::{is_white_space, is_digit, white_space, digit, chars_of};
use crate::numeral::{dec_nat, lemma_dec_nat_digits, all_digits};

verus! {

/// The kind of a lexeme: the name of the rule that matched it.
#[derive(Clone, Copy, Debug, PartialEq, Eq, Structural)]
pub enum LexemeKind {
    Forward,
    Backward,
    Left,
    Right,
    Number,
}

/// A line and a column, both counted from 1; a column counts characters.
#[derive(Clone, Copy, Debug, PartialEq, Eq, Structural)]
pub struct Position {
    pub line: usize,
    pub column: usize,
}

/// A lexeme: its kind, the text it matched and where that text starts.
#[derive(Clone, Debug)]
pub struct Lexeme {
    pub kind: LexemeKind,
    pub raw: String,
    pub position: Position,
}

/// A lexeme as a mathematical value.
pub struct LexemeView {
    pub kind: LexemeKind,
    pub raw: Seq<char>,
    pub position: (nat, nat),
}

impl Position {
    pub open spec fn pair(self) -> (nat, nat) {
        (self.line as nat, self.column as nat)
    }
}

impl View for Lexeme {
    type V = LexemeView;

    open spec fn view(&self) -> LexemeView {
        LexemeView { kind: self.kind, raw: self.raw@, position: self.position.pair() }
    }
}

/// The input holds a character that no rule matches, at `position`.
#[derive(Clone, Copy, Debug, PartialEq, Eq, Structural)]
pub struct LexError {
    pub position: Position,
}

/// The text that the rule of an order matches.
pub open spec fn keyword(k: LexemeKind) -> Seq<char> {
    match k {
        LexemeKind::Forward => seq!['f', 'o', 'r', 'w', 'a', 'r', 'd'],
        LexemeKind::Backward => seq!['b', 'a', 'c', 'k', 'w', 'a', 'r', 'd'],
        LexemeKind::Left => seq!['l', 'e', 'f', 't'],
        LexemeKind::Right => seq!['r', 'i', 'g', 'h', 't'],
        LexemeKind::Number => Seq::empty(),
    }
}

/// The name of the rule that produces lexemes of kind `k`.
pub open spec fn kind_name(k: LexemeKind) -> Seq<char> {
    match k {
        LexemeKind::Forward => seq!['F', 'O', 'R', 'W', 'A', 'R', 'D'],
        LexemeKind::Backward => seq!['B', 'A', 'C', 'K', 'W', 'A', 'R', 'D'],
        LexemeKind::Left => seq!['L', 'E', 'F', 'T'],
        LexemeKind::Right => seq!['R', 'I', 'G', 'H', 'T'],
        LexemeKind::Number => seq!['N', 'U', 'M', 'B', 'E', 'R'],
    }
}

/// `s[i..]` starts with `w`.
pub open spec fn starts_with_at(s: Seq<char>, i: int, w: Seq<char>) -> bool {
    0 <= i && i + w.len() <= s.len() && s.subrange(i, i + w.len()) == w
}

/// The number of white-space characters that `s[i..]` starts with.
pub open spec fn white_run(s: Seq<char>, i: int) -> nat
    decreases s.len() - i,
{
    if 0 <= i < s.len() && is_white_space(s[i]) {
        1 + white_run(s, i + 1)
    } else {
        0
    }
}

/// The number of digits that `s[i..]` starts with.
pub open spec fn digit_run(s: Seq<char>, i: int) -> nat
    decreases s.len() - i,
{
    if 0 <= i < s.len() && is_digit(s[i]) {
        1 + digit_run(s, i + 1)
    } else {
        0
    }
}

/// The lexeme that starts at `s[i]`, if any rule but white space matches
/// there: its kind and its length.
pub open spec fn lexeme_at(s: Seq<char>, i: int) -> Option<(LexemeKind, nat)> {
    if starts_with_at(s, i, keyword(LexemeKind::Forward)) {
        Some((LexemeKind::Forward, 7))
    } else if starts_with_at(s, i, keyword(LexemeKind::Backward)) {
        Some((LexemeKind::Backward, 8))
    } else if starts_with_at(s, i, keyword(LexemeKind::Left)) {
        Some((LexemeKind::Left, 4))
    } else if starts_with_at(s, i, keyword(LexemeKind::Right)) {
        Some((LexemeKind::Right, 5))
    } else if 0 <= i < s.len() && is_digit(s[i]) {
        Some((LexemeKind::Number, digit_run(s, i)))
    } else {
        None
    }
}

/// The position after `c`, from position `p`.
pub open spec fn step_position(p: (nat, nat), c: char) -> (nat, nat) {
    if c == '\n' {
        (p.0 + 1, 1)
    } else {
        (p.0, p.1 + 1)
    }
}

/// The position after the text `t`, from position `p`.
pub open spec fn advance(p: (nat, nat), t: Seq<char>) -> (nat, nat)
    decreases t.len(),
{
    if t.len() == 0 {
        p
    } else {
        step_position(advance(p, t.drop_last()), t.last())
    }
}

/// The lexemes of `s[i..]`, which starts at position `p`, or the position
/// of the first character that no rule matches.
pub open spec fn lex_from(s: Seq<char>, i: int, p: (nat, nat)) -> Result<
    Seq<LexemeView>,
    (nat, nat),
>
    decreases s.len() - i,
{
    if i < 0 || i >= s.len() {
        Ok(Seq::empty())
    } else if is_white_space(s[i]) {
        let n = white_run(s, i);
        if 0 < n && i + n <= s.len() {
            lex_from(s, i + n, advance(p, s.subrange(i, i + n)))
        } else {
            Err(p)
        }
    } else {
        match lexeme_at(s, i) {
            Some((k, n)) => {
                if 0 < n && i + n <= s.len() {
                    let here = LexemeView { kind: k, raw: s.subrange(i, i + n), position: p };
                    match lex_from(s, i + n, advance(p, s.subrange(i, i + n))) {
                        Ok(rest) => Ok(seq![here] + rest),
                        Err(e) => Err(e),
                    }
                } else {
                    Err(p)
                }
            },
            None => Err(p),
        }
    }
}

/// The lexemes of `s`, from line 1 and column 1.
pub open spec fn lex_spec(s: Seq<char>) -> Result<Seq<LexemeView>, (nat, nat)> {
    lex_from(s, 0, (1, 1))
}

/// `pre` before the lexemes of `r`, or the error of `r`.
pub open spec fn after(pre: Seq<LexemeView>, r: Result<Seq<LexemeView>, (nat, nat)>) -> Result<
    Seq<LexemeView>,
    (nat, nat),
> {
    match r {
        Ok(t) => Ok(pre + t),
        Err(e) => Err(e),
    }
}

/// The views of a vector of lexemes.
pub open spec fn views(v: Seq<Lexeme>) -> Seq<LexemeView> {
    v.map_values(|l: Lexeme| l@)
}

proof fn lemma_white_run_bound(s: Seq<char>, i: int)
    requires
        0 <= i <= s.len(),
    ensures
        i + white_run(s, i) <= s.len(),
    decreases s.len() - i,
{
    if i < s.len() {
        lemma_white_run_bound(s, i + 1);
    }
}

proof fn lemma_digit_run_bound(s: Seq<char>, i: int)
    requires
        0 <= i <= s.len(),
    ensures
        i + digit_run(s, i) <= s.len(),
    decreases s.len() - i,
{
    if i < s.len() {
        lemma_digit_run_bound(s, i + 1);
    }
}

/// Whether `c` is white space (when `white`) or a digit.
fn in_class(c: char, white: bool) -> (r: bool)
    ensures
        r == if white { is_white_space(c) } else { is_digit(c) },
{
    if white {
        white_space(c)
    } else {
        digit(c)
    }
}

/// The end of the run of white space (when `white`) or of digits that
/// starts at `v[from]`.
fn run_end(v: &Vec<char>, from: usize, white: bool) -> (end: usize)
    requires
        from <= v.len(),
    ensures
        white ==> end == from + white_run(v@, from as int),
        !white ==> end == from + digit_run(v@, from as int),
{
    let mut j = from;
    while j < v.len() && in_class(v[j], white)
        invariant
            from <= j <= v.len(),
            white ==> white_run(v@, from as int) == (j - from) + white_run(v@, j as int),
            !white ==> digit_run(v@, from as int) == (j - from) + digit_run(v@, j as int),
        decreases v.len() - j,
    {
        j = j + 1;
    }
    j
}

/// The position after `v[from..to]`, from position `(line, column)`.
fn advance_over(v: &Vec<char>, from: usize, to: usize, line: usize, column: usize) -> (r: (
    usize,
    usize,
))
    requires
        from <= to <= v.len(),
        1 <= line <= from + 1,
        1 <= column <= from + 1,
        v.len() < usize::MAX,
    ensures
        (r.0 as nat, r.1 as nat) == advance((line as nat, column as nat), v@.subrange(
            from as int,
            to as int,
        )),
        1 <= r.0 <= to + 1,
        1 <= r.1 <= to + 1,
{
    let mut l = line;
    let mut c = column;
    let mut j = from;
    assert(v@.subrange(from as int, from as int) =~= Seq::<char>::empty());
    while j < to
        invariant
            from <= j <= to <= v.len(),
            v.len() < usize::MAX,
            (l as nat, c as nat) == advance((line as nat, column as nat), v@.subrange(
                from as int,
                j as int,
            )),
            1 <= l <= j + 1,
            1 <= c <= j + 1,
        decreases to - j,
    {
        assert(v@.subrange(from as int, j + 1).drop_last() =~= v@.subrange(from as int, j as int));
        if v[j] == '\n' {
            l = l + 1;
            c = 1;
        } else {
            c = c + 1;
        }
        j = j + 1;
    }
    (l, c)
}

/// Whether `v[i..]` starts with `w`.
pub fn starts_with(v: &Vec<char>, i: usize, w: &Vec<char>) -> (r: bool)
    requires
        i <= v.len(),
    ensures
        r == starts_with_at(v@, i as int, w@),
{
    if v.len() - i < w.len() {
        return false;
    }
    let mut k: usize = 0;
    while k < w.len()
        invariant
            i + w.len() <= v.len(),
            k <= w.len(),
            forall|m: int| 0 <= m < k ==> v@[i + m] == w@[m],
        decreases w.len() - k,
    {
        if v[i + k] != w[k] {
            assert(v@.subrange(i as int, i + w.len())[k as int] != w@[k as int]);
            return false;
        }
        k = k + 1;
    }
    assert(v@.subrange(i as int, i + w.len()) =~= w@);
    true
}

/// The characters of the keyword of `k`.
pub fn keyword_chars(k: LexemeKind) -> (w: Vec<char>)
    ensures
        w@ == keyword(k),
{
    let w = match k {
        LexemeKind::Forward => vec!['f', 'o', 'r', 'w', 'a', 'r', 'd'],
        LexemeKind::Backward => vec!['b', 'a', 'c', 'k', 'w', 'a', 'r', 'd'],
        LexemeKind::Left => vec!['l', 'e', 'f', 't'],
        LexemeKind::Right => vec!['r', 'i', 'g', 'h', 't'],
        LexemeKind::Number => Vec::new(),
    };
    assert(w@ =~= keyword(k));
    w
}

/// The lexeme that starts at `v[i]`, as [`lexeme_at`] says.
fn find_lexeme(v: &Vec<char>, i: usize) -> (r: Option<(LexemeKind, usize)>)
    requires
        i < v.len(),
    ensures
        match r {
            Some((k, n)) => lexeme_at(v@, i as int) == Some((k, n as nat)),
            None => lexeme_at(v@, i as int) is None,
        },
{
    if starts_with(v, i, &keyword_chars(LexemeKind::Forward)) {
        Some((LexemeKind::Forward, 7))
    } else if starts_with(v, i, &keyword_chars(LexemeKind::Backward)) {
        Some((LexemeKind::Backward, 8))
    } else if starts_with(v, i, &keyword_chars(LexemeKind::Left)) {
        Some((LexemeKind::Left, 4))
    } else if starts_with(v, i, &keyword_chars(LexemeKind::Right)) {
        Some((LexemeKind::Right, 5))
    } else if digit(v[i]) {
        let end = run_end(v, i, false);
        Some((LexemeKind::Number, end - i))
    } else {
        None
    }
}

/// Splits `input` into lexemes.  It fails, with the position of the
/// character, where no rule matches.
pub fn lex(input: &str) -> (r: Result<Vec<Lexeme>, LexError>)
    requires
        input@.len() < usize::MAX,
    ensures
        match r {
            Ok(v) => lex_spec(input@) == Ok::<Seq<LexemeView>, (nat, nat)>(views(v@)),
            Err(e) => lex_spec(input@) == Err::<Seq<LexemeView>, (nat, nat)>(e.position.pair()),
        },
{
    let v = chars_of(input);
    let ghost s = v@;
    let mut out: Vec<Lexeme> = Vec::new();
    let mut i: usize = 0;
    let mut line: usize = 1;
    let mut column: usize = 1;
    assert(views(out@) =~= Seq::<LexemeView>::empty());
    while i < v.len()
        invariant
            s == v@,
            s == input@,
            v.len() < usize::MAX,
            i <= v.len(),
            1 <= line <= i + 1,
            1 <= column <= i + 1,
            lex_spec(s) == after(views(out@), lex_from(s, i as int, (line as nat, column as nat))),
        decreases v.len() - i,
    {
        let ghost p = (line as nat, column as nat);
        let ghost before = views(out@);
        if white_space(v[i]) {
            let end = run_end(&v, i, true);
            proof {
                lemma_white_run_bound(s, i as int);
                assert(white_run(s, i as int) > 0);
            }
            let (l, c) = advance_over(&v, i, end, line, column);
            line = l;
            column = c;
            i = end;
        } else {
            match find_lexeme(&v, i) {
                Some((k, n)) => {
                    proof {
                        if k == LexemeKind::Number {
                            lemma_digit_run_bound(s, i as int);
                        }
                    }
                    if n == 0 {
                        return Err(LexError { position: Position { line, column } });
                    }
                    let end = i + n;
                    let raw = String::from_str(input.substring_char(i, end));
                    let here = Lexeme { kind: k, raw, position: Position { line, column } };
                    out.push(here);
                    assert(views(out@) =~= before + seq![here@]);
                    let (l, c) = advance_over(&v, i, end, line, column);
                    line = l;
                    column = c;
                    i = end;
                    proof {
                        let rest = lex_from(s, i as int, (line as nat, column as nat));
                        match rest {
                            Ok(t) => { assert(before + (seq![here@] + t) =~= (before + seq![here@]) + t); },
                            Err(_) => {},
                        }
                    }
                },
                None => {
                    return Err(LexError { position: Position { line, column } });
                },
            }
        }
    }
    assert(views(out@) + Seq::<LexemeView>::empty() =~= views(out@));
    Ok(out)
}

impl LexemeKind {
    /// The name of the rule that produces lexemes of this kind.
    pub fn name(&self) -> (s: &'static str)
        ensures
            s@ == kind_name(*self),
    {
        match self {
            LexemeKind::Forward => { proof { reveal_strlit("FORWARD"); } "FORWARD" },
            LexemeKind::Backward => { proof { reveal_strlit("BACKWARD"); } "BACKWARD" },
            LexemeKind::Left => { proof { reveal_strlit("LEFT"); } "LEFT" },
            LexemeKind::Right => { proof { reveal_strlit("RIGHT"); } "RIGHT" },
            LexemeKind::Number => { proof { reveal_strlit("NUMBER"); } "NUMBER" },
        }
    }
}

// ───────────────────────── laws of the lexer ─────────────────────────

/// The text of the command with order `k` and number `v`: the order, a
/// space, the number.
pub open spec fn render_command(k: LexemeKind, v: nat) -> Seq<char> {
    keyword(k) + seq![' '] + dec_nat(v)
}

/// The text of the commands `cmds`, joined by single spaces.
pub open spec fn render(cmds: Seq<(LexemeKind, nat)>) -> Seq<char>
    decreases cmds.len(),
{
    if cmds.len() == 0 {
        Seq::empty()
    } else if cmds.len() == 1 {
        render_command(cmds[0].0, cmds[0].1)
    } else {
        render_command(cmds[0].0, cmds[0].1) + seq![' '] + render(cmds.drop_first())
    }
}

/// What follows the first command in the text of a program whose other
/// commands are `rest`: nothing, or a space and their text.
pub open spec fn render_tail(rest: Seq<(LexemeKind, nat)>) -> Seq<char> {
    if rest.len() == 0 {
        Seq::empty()
    } else {
        seq![' '] + render(rest)
    }
}

/// The text of a program is the text of its first command, then the rest.
pub proof fn lemma_render_split(cmds: Seq<(LexemeKind, nat)>)
    requires
        cmds.len() > 0,
    ensures
        render(cmds) == render_command(cmds[0].0, cmds[0].1) + render_tail(cmds.drop_first()),
{
    if cmds.len() == 1 {
        assert(render_command(cmds[0].0, cmds[0].1) + Seq::<char>::empty() =~= render_command(cmds[0].0, cmds[0].1));
    } else {
        assert(render_command(cmds[0].0, cmds[0].1) + seq![' '] + render(cmds.drop_first()) =~= render_command(cmds[0].0, cmds[0].1) + (seq![' '] + render(cmds.drop_first())));
    }
}

/// Each of `cmds` has an order, not a number, as its kind.
pub open spec fn orders_only(cmds: Seq<(LexemeKind, nat)>) -> bool {
    forall|k: int| 0 <= k < cmds.len() ==> (#[trigger] cmds[k]).0 != LexemeKind::Number
}

/// The commands after the first of a list of orders are orders.
pub proof fn lemma_orders_only_rest(cmds: Seq<(LexemeKind, nat)>)
    requires
        orders_only(cmds),
        cmds.len() > 0,
    ensures
        orders_only(cmds.drop_first()),
        cmds[0].0 != LexemeKind::Number,
{
    assert forall|m: int| 0 <= m < cmds.drop_first().len() implies (#[trigger] cmds.drop_first()[m]).0
        != LexemeKind::Number by {
        assert(cmds.drop_first()[m] == cmds[m + 1]);
    }
    assert(cmds[0].0 != LexemeKind::Number);
}

/// `lx` holds, for each of `cmds` in turn, the lexeme of its order and
/// the lexeme of its number.
pub open spec fn lexemes_match(lx: Seq<LexemeView>, cmds: Seq<(LexemeKind, nat)>) -> bool
    decreases cmds.len(),
{
    if cmds.len() == 0 {
        lx.len() == 0
    } else {
        &&& lx.len() >= 2
        &&& lx[0].kind == cmds[0].0
        &&& lx[0].raw == keyword(cmds[0].0)
        &&& lx[1].kind == LexemeKind::Number
        &&& lx[1].raw == dec_nat(cmds[0].1)
        &&& lexemes_match(lx.skip(2), cmds.drop_first())
    }
}

proof fn lemma_white_run_shift(a: Seq<char>, b: Seq<char>, j: int)
    requires
        0 <= j <= b.len(),
    ensures
        white_run(a + b, a.len() + j) == white_run(b, j),
    decreases b.len() - j,
{
    if j < b.len() {
        lemma_white_run_shift(a, b, j + 1);
    }
}

proof fn lemma_digit_run_shift(a: Seq<char>, b: Seq<char>, j: int)
    requires
        0 <= j <= b.len(),
    ensures
        digit_run(a + b, a.len() + j) == digit_run(b, j),
    decreases b.len() - j,
{
    if j < b.len() {
        lemma_digit_run_shift(a, b, j + 1);
    }
}

proof fn lemma_starts_with_shift(a: Seq<char>, b: Seq<char>, j: int, w: Seq<char>)
    requires
        0 <= j <= b.len(),
    ensures
        starts_with_at(a + b, a.len() + j, w) == starts_with_at(b, j, w),
{
    if j + w.len() <= b.len() {
        assert((a + b).subrange(a.len() + j, a.len() + j + w.len()) =~= b.subrange(j, j + w.len()));
    }
}

/// What follows a prefix `a` lexes as if `a` were not there.
pub proof fn lemma_lex_shift(a: Seq<char>, b: Seq<char>, j: int, p: (nat, nat))
    requires
        0 <= j <= b.len(),
    ensures
        lex_from(a + b, a.len() + j, p) == lex_from(b, j, p),
    decreases b.len() - j,
{
    let s = a + b;
    let i = a.len() + j;
    if j < b.len() {
        assert(s[i] == b[j]);
        lemma_white_run_shift(a, b, j);
        lemma_digit_run_shift(a, b, j);
        lemma_starts_with_shift(a, b, j, keyword(LexemeKind::Forward));
        lemma_starts_with_shift(a, b, j, keyword(LexemeKind::Backward));
        lemma_starts_with_shift(a, b, j, keyword(LexemeKind::Left));
        lemma_starts_with_shift(a, b, j, keyword(LexemeKind::Right));
        assert(lexeme_at(s, i) == lexeme_at(b, j));
        if is_white_space(b[j]) {
            let n = white_run(b, j);
            if 0 < n && j + n <= b.len() {
                assert(s.subrange(i, i + n) =~= b.subrange(j, j + n));
                lemma_lex_shift(a, b, j + n, advance(p, b.subrange(j, j + n)));
            }
        } else {
            match lexeme_at(b, j) {
                Some((k, n)) => {
                    if 0 < n && j + n <= b.len() {
                        assert(s.subrange(i, i + n) =~= b.subrange(j, j + n));
                        lemma_lex_shift(a, b, j + n, advance(p, b.subrange(j, j + n)));
                    }
                },
                None => {},
            }
        }
    }
}

proof fn lemma_digit_run_of(s: Seq<char>, i: int, n: int)
    requires
        0 <= i,
        0 <= n,
        i + n <= s.len(),
        forall|m: int| i <= m < i + n ==> is_digit(#[trigger] s[m]),
        i + n == s.len() || !is_digit(s[i + n]),
    ensures
        digit_run(s, i) == n,
    decreases n,
{
    if n > 0 {
        lemma_digit_run_of(s, i + 1, n - 1);
    }
}

proof fn lemma_white_run_one(s: Seq<char>, i: int)
    requires
        0 <= i < s.len(),
        is_white_space(s[i]),
        i + 1 == s.len() || !is_white_space(s[i + 1]),
    ensures
        white_run(s, i) == 1,
{
    assert(white_run(s, i + 1) == 0);
}

/// At a keyword, the rule of its order matches, and no other.
proof fn lemma_keyword_at(s: Seq<char>, i: int, k: LexemeKind)
    requires
        k != LexemeKind::Number,
        starts_with_at(s, i, keyword(k)),
    ensures
        lexeme_at(s, i) == Some((k, keyword(k).len())),
        !is_white_space(s[i]),
{
    let w = keyword(k);
    assert(s.subrange(i, i + w.len())[0] == s[i]);
    assert(s[i] == w[0]);
    if starts_with_at(s, i, keyword(LexemeKind::Forward)) {
        assert(s.subrange(i, i + 7)[0] == s[i]);
    }
    if starts_with_at(s, i, keyword(LexemeKind::Backward)) {
        assert(s.subrange(i, i + 8)[0] == s[i]);
    }
    if starts_with_at(s, i, keyword(LexemeKind::Left)) {
        assert(s.subrange(i, i + 4)[0] == s[i]);
    }
    if starts_with_at(s, i, keyword(LexemeKind::Right)) {
        assert(s.subrange(i, i + 5)[0] == s[i]);
    }
}

/// A keyword lexes as the lexeme of its order.
proof fn lemma_order_step(s: Seq<char>, i: int, k: LexemeKind, p: (nat, nat))
    requires
        k != LexemeKind::Number,
        starts_with_at(s, i, keyword(k)),
    ensures
        lex_from(s, i, p) == after(
            seq![LexemeView { kind: k, raw: keyword(k), position: p }],
            lex_from(s, i + keyword(k).len(), advance(p, keyword(k))),
        ),
{
    lemma_keyword_at(s, i, k);
}

/// A lone space is skipped.
proof fn lemma_space_step(s: Seq<char>, i: int, p: (nat, nat))
    requires
        0 <= i < s.len(),
        s[i] == ' ',
        i + 1 == s.len() || !is_white_space(s[i + 1]),
    ensures
        lex_from(s, i, p) == lex_from(s, i + 1, advance(p, seq![' '])),
{
    lemma_white_run_one(s, i);
    assert(s.subrange(i, i + 1) =~= seq![' ']);
}

/// A run of digits that nothing extends lexes as a numeral.
proof fn lemma_number_step(s: Seq<char>, i: int, d: Seq<char>, p: (nat, nat))
    requires
        0 <= i,
        i + d.len() <= s.len(),
        d.len() > 0,
        s.subrange(i, i + d.len()) == d,
        forall|m: int| 0 <= m < d.len() ==> is_digit(#[trigger] d[m]),
        i + d.len() == s.len() || !is_digit(s[i + d.len()]),
    ensures
        lex_from(s, i, p) == after(
            seq![LexemeView { kind: LexemeKind::Number, raw: d, position: p }],
            lex_from(s, i + d.len(), advance(p, d)),
        ),
{
    let n = d.len() as int;
    assert forall|m: int| i <= m < i + n implies is_digit(#[trigger] s[m]) by {
        assert(s[m] == s.subrange(i, i + n)[m - i]);
    }
    assert(s[i] == d[0]) by {
        assert(s[i] == s.subrange(i, i + n)[0]);
    }
    lemma_digit_run_of(s, i, n);
    assert(!starts_with_at(s, i, keyword(LexemeKind::Forward))) by {
        if starts_with_at(s, i, keyword(LexemeKind::Forward)) {
            assert(s.subrange(i, i + 7)[0] == s[i]);
        }
    }
    assert(!starts_with_at(s, i, keyword(LexemeKind::Backward))) by {
        if starts_with_at(s, i, keyword(LexemeKind::Backward)) {
            assert(s.subrange(i, i + 8)[0] == s[i]);
        }
    }
    assert(!starts_with_at(s, i, keyword(LexemeKind::Left))) by {
        if starts_with_at(s, i, keyword(LexemeKind::Left)) {
            assert(s.subrange(i, i + 4)[0] == s[i]);
        }
    }
    assert(!starts_with_at(s, i, keyword(LexemeKind::Right))) by {
        if starts_with_at(s, i, keyword(LexemeKind::Right)) {
            assert(s.subrange(i, i + 5)[0] == s[i]);
        }
    }
    assert(lexeme_at(s, i) == Some((LexemeKind::Number, n as nat)));
}

/// The text of a command: its order lexeme, then its number lexeme, and
/// then what follows, when that does not start with a digit.
#[verifier::spinoff_prover]
#[verifier::rlimit(40)]
proof fn lemma_lex_command(k: LexemeKind, v: nat, rest: Seq<char>, p: (nat, nat))
    requires
        k != LexemeKind::Number,
        rest.len() == 0 || !is_digit(rest[0]),
    ensures
        ({
            let s = render_command(k, v) + rest;
            let w = keyword(k);
            let d = dec_nat(v);
            let p2 = advance(advance(p, w), seq![' ']);
            let p3 = advance(p2, d);
            lex_from(s, 0, p) == after(
                seq![
                    LexemeView { kind: k, raw: w, position: p },
                    LexemeView { kind: LexemeKind::Number, raw: d, position: p2 },
                ],
                lex_from(rest, 0, p3),
            )
        }),
{
    let w = keyword(k);
    let d = dec_nat(v);
    let piece = render_command(k, v);
    let s = piece + rest;
    let p1 = advance(p, w);
    let p2 = advance(p1, seq![' ']);
    let p3 = advance(p2, d);
    lemma_dec_nat_digits(v);
    let wl = w.len() as int;
    let dl = d.len() as int;
    let e = wl + 1 + dl;
    assert(piece.len() == e);
    assert(s.subrange(0, wl) =~= w);
    assert(s[wl] == ' ');
    assert(s.subrange(wl + 1, e) =~= d);
    assert(is_digit(d[0]));
    assert(s[wl + 1] == d[0]);
    if rest.len() > 0 {
        assert(s[e] == rest[0]);
    }
    lemma_order_step(s, 0, k, p);
    lemma_space_step(s, wl, p1);
    lemma_number_step(s, wl + 1, d, p2);
    lemma_lex_shift(piece, rest, 0, p3);
    let tail = lex_from(rest, 0, p3);
    let here = LexemeView { kind: k, raw: w, position: p };
    let num = LexemeView { kind: LexemeKind::Number, raw: d, position: p2 };
    match tail {
        Ok(t) => {
            assert(seq![here] + (seq![num] + t) =~= seq![here, num] + t);
        },
        Err(_) => {},
    }
}

/// The text of a program that has commands starts with the first letter of
/// its first order.
pub proof fn lemma_render_first(cmds: Seq<(LexemeKind, nat)>)
    requires
        cmds.len() > 0,
        cmds[0].0 != LexemeKind::Number,
    ensures
        render(cmds).len() > 0,
        render(cmds)[0] == keyword(cmds[0].0)[0],
        !is_white_space(render(cmds)[0]),
        !is_digit(render(cmds)[0]),
{
    let k = cmds[0].0;
    lemma_render_split(cmds);
    assert(render(cmds)[0] == keyword(k)[0]);
}

/// A space before text that does not start with white space is skipped.
proof fn lemma_lex_gap(b: Seq<char>, p: (nat, nat))
    requires
        b.len() == 0 || !is_white_space(b[0]),
    ensures
        lex_from(seq![' '] + b, 0, p) == lex_from(b, 0, advance(p, seq![' '])),
{
    let s = seq![' '] + b;
    if b.len() > 0 {
        assert(s[1] == b[0]);
    }
    lemma_space_step(s, 0, p);
    lemma_lex_shift(seq![' '], b, 0, advance(p, seq![' ']));
}

/// Lexing the text of commands joined by single spaces gives back, command
/// by command, the lexeme of the order and the lexeme of the number.
pub proof fn law_lex_render(cmds: Seq<(LexemeKind, nat)>, p: (nat, nat))
    requires
        orders_only(cmds),
    ensures
        lex_from(render(cmds), 0, p) matches Ok(lx) && lexemes_match(lx, cmds),
    decreases cmds.len(),
{
    if cmds.len() > 0 {
        let k = cmds[0].0;
        let v = cmds[0].1;
        let c1 = cmds.drop_first();
        lemma_orders_only_rest(cmds);
        let tail = render_tail(c1);
        lemma_render_split(cmds);
        let w = keyword(k);
        let p2 = advance(advance(p, w), seq![' ']);
        let p3 = advance(p2, dec_nat(v));
        let here = LexemeView { kind: k, raw: w, position: p };
        let num = LexemeView { kind: LexemeKind::Number, raw: dec_nat(v), position: p2 };
        if c1.len() == 0 {
            assert(tail.len() == 0);
            lemma_lex_command(k, v, tail, p);
            assert(lex_from(tail, 0, p3) == Ok::<Seq<LexemeView>, (nat, nat)>(Seq::empty()));
            let lx = seq![here, num] + Seq::<LexemeView>::empty();
            assert(lx.skip(2) =~= Seq::<LexemeView>::empty());
            assert(lexemes_match(lx.skip(2), c1));
            assert(lex_from(render(cmds), 0, p) == Ok::<Seq<LexemeView>, (nat, nat)>(lx));
            assert(lexemes_match(lx, cmds));
        } else {
            assert(tail == seq![' '] + render(c1));
            assert(tail[0] == ' ');
            lemma_lex_command(k, v, tail, p);
            lemma_render_first(c1);
            lemma_lex_gap(render(c1), p3);
            let p4 = advance(p3, seq![' ']);
            law_lex_render(c1, p4);
            let lx_rest = lex_from(render(c1), 0, p4)->Ok_0;
            let lx = seq![here, num] + lx_rest;
            assert(lx.skip(2) =~= lx_rest);
            assert(lex_from(tail, 0, p3) == Ok::<Seq<LexemeView>, (nat, nat)>(lx_rest));
            assert(lex_from(render(cmds), 0, p) == Ok::<Seq<LexemeView>, (nat, nat)>(lx));
            assert(lexemes_match(lx, cmds));
        }
    } else {
        assert(lexemes_match(Seq::<LexemeView>::empty(), cmds));
    }
}

/// The text of a lexeme is the keyword of its order, or a nonempty run of
/// digits for a numeral.
pub open spec fn well_shaped(l: LexemeView) -> bool {
    if l.kind == LexemeKind::Number {
        l.raw.len() > 0 && all_digits(l.raw)
    } else {
        l.raw == keyword(l.kind)
    }
}

proof fn lemma_digit_run_digits(s: Seq<char>, i: int)
    requires
        0 <= i,
    ensures
        forall|m: int| i <= m < i + digit_run(s, i) ==> is_digit(#[trigger] s[m]),
    decreases s.len() - i,
{
    if 0 <= i < s.len() && is_digit(s[i]) {
        lemma_digit_run_digits(s, i + 1);
    }
}

/// Every lexeme that the lexer gives back is well shaped: an order is
/// exactly its keyword, a numeral a nonempty run of digits.
pub proof fn law_lexemes_well_shaped(s: Seq<char>, i: int, p: (nat, nat))
    ensures
        lex_from(s, i, p) matches Ok(lx) ==> forall|j: int| 0 <= j < lx.len() ==> well_shaped(#[trigger] lx[j]),
    decreases s.len() - i,
{
    if 0 <= i < s.len() {
        if is_white_space(s[i]) {
            let n = white_run(s, i);
            if 0 < n && i + n <= s.len() {
                law_lexemes_well_shaped(s, i + n, advance(p, s.subrange(i, i + n)));
            }
        } else {
            match lexeme_at(s, i) {
                Some((k, n)) => {
                    if 0 < n && i + n <= s.len() {
                        let q = advance(p, s.subrange(i, i + n));
                        law_lexemes_well_shaped(s, i + n, q);
                        let here = LexemeView { kind: k, raw: s.subrange(i, i + n), position: p };
                        if k == LexemeKind::Number {
                            lemma_digit_run_digits(s, i);
                            assert(all_digits(here.raw)) by {
                                assert forall|m: int| 0 <= m < here.raw.len() implies is_digit(#[trigger] here.raw[m]) by {
                                    assert(here.raw[m] == s[i + m]);
                                }
                            }
                        }
                        assert(well_shaped(here));
                        match lex_from(s, i + n, q) {
                            Ok(rest) => {
                                let lx = seq![here] + rest;
                                assert forall|j: int| 0 <= j < lx.len() implies well_shaped(#[trigger] lx[j]) by {
                                    if j > 0 {
                                        assert(lx[j] == rest[j - 1]);
                                    }
                                }
                            },
                            Err(_) => {},
                        }
                    }
                },
                None => {},
            }
        }
    }
}

/// The number of newline characters in `t`.
pub open spec fn newlines(t: Seq<char>) -> nat
    decreases t.len(),
{
    if t.len() == 0 {
        0
    } else {
        newlines(t.drop_last()) + if t.last() == '\n' { 1nat } else { 0nat }
    }
}

/// The number of characters of `t` after its last newline (all of them
/// when it has none).
pub open spec fn since_newline(t: Seq<char>) -> nat
    decreases t.len(),
{
    if t.len() == 0 || t.last() == '\n' {
        0
    } else {
        1 + since_newline(t.drop_last())
    }
}

/// The line and column just after the text `t`, read from the start of an
/// input: the line is 1 plus the number of newlines in `t`, the column 1
/// plus the number of characters since the last newline.
pub open spec fn position_after(t: Seq<char>) -> (nat, nat) {
    (1 + newlines(t), 1 + since_newline(t))
}

/// Reading `t` from position `p` adds a line per newline; the column then
/// counts the characters since the last newline, or adds the length of `t`
/// when `t` has none.
pub proof fn law_advance_counts(p: (nat, nat), t: Seq<char>)
    ensures
        advance(p, t).0 == p.0 + newlines(t),
        newlines(t) > 0 ==> advance(p, t).1 == 1 + since_newline(t),
        newlines(t) == 0 ==> advance(p, t).1 == p.1 + t.len(),
        newlines(t) == 0 ==> since_newline(t) == t.len(),
    decreases t.len(),
{
    if t.len() > 0 {
        law_advance_counts(p, t.drop_last());
    }
}

/// Reading `a + b` is reading `a`, then `b`.
pub proof fn lemma_advance_append(p: (nat, nat), a: Seq<char>, b: Seq<char>)
    ensures
        advance(p, a + b) == advance(advance(p, a), b),
    decreases b.len(),
{
    if b.len() == 0 {
        assert(a + b =~= a);
    } else {
        lemma_advance_append(p, a, b.drop_last());
        assert((a + b).drop_last() =~= a + b.drop_last());
        assert((a + b).last() == b.last());
    }
}

/// The lexeme `l` stands in `s`: its text is found at some index of `s`,
/// and its position is the line and column of that index.
pub open spec fn sits_in(s: Seq<char>, l: LexemeView) -> bool {
    exists|k: int|
        0 <= k && k + l.raw.len() <= s.len() && #[trigger] s.subrange(k, k + l.raw.len()) == l.raw
            && l.position == position_after(s.take(k))
}

proof fn lemma_lex_from_positions(s: Seq<char>, i: int)
    requires
        0 <= i <= s.len(),
    ensures
        lex_from(s, i, advance((1, 1), s.take(i))) matches Ok(lx) ==> forall|j: int|
            0 <= j < lx.len() ==> sits_in(s, #[trigger] lx[j]),
    decreases s.len() - i,
{
    let p = advance((1, 1), s.take(i));
    if i < s.len() {
        if is_white_space(s[i]) {
            let n = white_run(s, i);
            if 0 < n && i + n <= s.len() {
                assert(s.take(i + n) =~= s.take(i) + s.subrange(i, i + n));
                lemma_advance_append((1, 1), s.take(i), s.subrange(i, i + n));
                lemma_lex_from_positions(s, i + n);
            }
        } else {
            match lexeme_at(s, i) {
                Some((k, n)) => {
                    if 0 < n && i + n <= s.len() {
                        assert(s.take(i + n) =~= s.take(i) + s.subrange(i, i + n));
                        lemma_advance_append((1, 1), s.take(i), s.subrange(i, i + n));
                        lemma_lex_from_positions(s, i + n);
                        let here = LexemeView { kind: k, raw: s.subrange(i, i + n), position: p };
                        law_advance_counts((1, 1), s.take(i));
                        assert(p == position_after(s.take(i)));
                        assert(here.raw.len() == n);
                        assert(sits_in(s, here)) by {
                            assert(s.subrange(i, i + here.raw.len()) == here.raw);
                        }
                        match lex_from(s, i + n, advance(p, s.subrange(i, i + n))) {
                            Ok(rest) => {
                                let lx = seq![here] + rest;
                                assert forall|j: int| 0 <= j < lx.len() implies sits_in(s, #[trigger] lx[j]) by {
                                    if j > 0 {
                                        assert(lx[j] == rest[j - 1]);
                                    }
                                }
                            },
                            Err(_) => {},
                        }
                    }
                },
                None => {},
            }
        }
    }
}

/// Every lexeme that the lexer gives back stands in the input at its
/// position: its text is found at an index of the input whose line is 1
/// plus the newlines before it, and whose column is 1 plus the characters
/// since the last of them.
pub proof fn law_lexeme_positions(s: Seq<char>)
    ensures
        lex_spec(s) matches Ok(lx) ==> forall|j: int| 0 <= j < lx.len() ==> sits_in(s, #[trigger] lx[j]),
{
    assert(s.take(0) =~= Seq::<char>::empty());
    lemma_lex_from_positions(s, 0);
}

/// A lexer error stands at the line and column of an index of the input.
pub proof fn law_error_position(s: Seq<char>)
    ensures
        lex_spec(s) matches Err(e) ==> exists|k: int| 0 <= k <= s.len() && e == #[trigger] position_after(s.take(k)),
{
    assert(s.take(0) =~= Seq::<char>::empty());
    lemma_error_positions(s, 0);
}

proof fn lemma_error_positions(s: Seq<char>, i: int)
    requires
        0 <= i <= s.len(),
    ensures
        lex_from(s, i, advance((1, 1), s.take(i))) matches Err(e) ==> exists|k: int|
            0 <= k <= s.len() && e == #[trigger] position_after(s.take(k)),
    decreases s.len() - i,
{
    let p = advance((1, 1), s.take(i));
    law_advance_counts((1, 1), s.take(i));
    assert(p == position_after(s.take(i)));
    if i < s.len() {
        if is_white_space(s[i]) {
            let n = white_run(s, i);
            if 0 < n && i + n <= s.len() {
                assert(s.take(i + n) =~= s.take(i) + s.subrange(i, i + n));
                lemma_advance_append((1, 1), s.take(i), s.subrange(i, i + n));
                lemma_error_positions(s, i + n);
            }
        } else {
            match lexeme_at(s, i) {
                Some((k, n)) => {
                    if 0 < n && i + n <= s.len() {
                        assert(s.take(i + n) =~= s.take(i) + s.subrange(i, i + n));
                        lemma_advance_append((1, 1), s.take(i), s.subrange(i, i + n));
                        lemma_error_positions(s, i + n);
                    }
                },
                None => {},
            }
        }
    }
}

} // verus!
