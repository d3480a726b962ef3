//! The lexer of the Stratum modelling language.
//!
//! The language ignores case; statements end at a line feed or `;`, so a line
//! feed is a token of its own.

use vstd::prelude::*;
use crate::numtext::{decimal, push_decimal};
use crate::stdx::{
    alphabetic, alphanumeric, char_debug, char_is_alphabetic, char_is_alphanumeric, debug_of_char,
    string_push,
};
use crate::text::chars_of;

verus! {

/// A token. Numbers and handles keep the text they were written with; the
/// value is that of the decimal literal.
#[derive(Debug, Clone, PartialEq)]
pub enum Tok {
    /// An identifier as written; compare it without regard to case.
    Ident(String),
    Number(String),
    Str(String),
    /// A handle literal: `#0`, `#175` (the digits after `#`).
    Handle(String),
    Op(&'static str),
    /// End of a statement: line feed or `;`.
    Eol,
    Eof,
}

pub enum TokView {
    Ident(Seq<char>),
    Number(Seq<char>),
    Str(Seq<char>),
    Handle(Seq<char>),
    Op(Seq<char>),
    Eol,
    Eof,
}

impl View for Tok {
    type V = TokView;

    open spec fn view(&self) -> TokView {
        match self {
            Tok::Ident(s) => TokView::Ident(s@),
            Tok::Number(s) => TokView::Number(s@),
            Tok::Str(s) => TokView::Str(s@),
            Tok::Handle(s) => TokView::Handle(s@),
            Tok::Op(o) => TokView::Op(o@),
            Tok::Eol => TokView::Eol,
            Tok::Eof => TokView::Eof,
        }
    }
}

#[derive(Debug, Clone, PartialEq)]
pub struct Token {
    pub tok: Tok,
    pub line: u32,
    pub column: u32,
}

pub struct TokenView {
    pub tok: TokView,
    pub line: int,
    pub column: int,
}

impl View for Token {
    type V = TokenView;

    open spec fn view(&self) -> TokenView {
        TokenView { tok: self.tok@, line: self.line as int, column: self.column as int }
    }
}

#[derive(Debug, Clone)]
pub struct LexError {
    pub message: String,
    pub line: u32,
    pub column: u32,
}

pub struct LexErrorView {
    pub message: Seq<char>,
    pub line: int,
    pub column: int,
}

impl View for LexError {
    type V = LexErrorView;

    open spec fn view(&self) -> LexErrorView {
        LexErrorView { message: self.message@, line: self.line as int, column: self.column as int }
    }
}

/// `строка L, позиция C: message`, as the error is shown.
pub open spec fn lex_error_text(e: LexErrorView) -> Seq<char> {
    "строка "@ + decimal(e.line as nat) + ", позиция "@ + decimal(e.column as nat) + ": "@
        + e.message
}

impl LexError {
    /// The error as one line of text.
    pub fn to_text(&self) -> (s: String)
        ensures
            s@ == lex_error_text(self@),
    {
        let mut s = String::new();
        s.append("строка ");
        push_decimal(&mut s, self.line as u64);
        s.append(", позиция ");
        push_decimal(&mut s, self.column as u64);
        s.append(": ");
        s.append(self.message.as_str());
        s
    }
}

/// A decimal digit.
pub open spec fn is_digit(c: char) -> bool {
    '0' <= c <= '9'
}

/// Where an identifier may start: an underscore or a letter of any script.
/// Among ASCII characters the letters are the Latin ones.
pub open spec fn ident_start(c: char) -> bool {
    c == '_' || if (c as u32) < 128 {
        'a' <= c <= 'z' || 'A' <= c <= 'Z'
    } else {
        alphabetic(c)
    }
}

/// What an identifier goes on with: an underscore, a letter or a digit.
pub open spec fn ident_char(c: char) -> bool {
    c == '_' || if (c as u32) < 128 {
        'a' <= c <= 'z' || 'A' <= c <= 'Z' || '0' <= c <= '9'
    } else {
        alphanumeric(c)
    }
}

/// Line and column after one character: a line feed starts a new line.
pub open spec fn bump1(c: char, lc: (int, int)) -> (int, int) {
    if c == '\n' {
        (lc.0 + 1, 1)
    } else {
        (lc.0, lc.1 + 1)
    }
}

/// Line and column after the characters `i..j` from `lc`.
pub open spec fn adv(s: Seq<char>, i: int, j: int, lc: (int, int)) -> (int, int)
    decreases j - i,
{
    if j <= i {
        lc
    } else {
        bump1(s[j - 1], adv(s, i, j - 1, lc))
    }
}

/// The first line feed at or after `k`, or the end.
pub open spec fn line_end(s: Seq<char>, k: int) -> int
    decreases s.len() - k,
{
    if k >= s.len() || k < 0 || s[k] == '\n' {
        k
    } else {
        line_end(s, k + 1)
    }
}

/// The end of a block comment whose text starts at `k`: just after the
/// first `*/`; `None` when it is not closed.
pub open spec fn block_end(s: Seq<char>, k: int) -> Option<int>
    decreases s.len() - k,
{
    if k < 0 || k + 1 >= s.len() {
        None
    } else if s[k] == '*' && s[k + 1] == '/' {
        Some(k + 2)
    } else {
        block_end(s, k + 1)
    }
}

/// The text of a string literal from `k` (just after its opening quote
/// `q`), appended to `acc`, and where the literal ends; a doubled quote
/// stands for one. `None` when a line feed or the end comes first.
pub open spec fn string_lit(s: Seq<char>, k: int, q: char, acc: Seq<char>) -> Option<
    (Seq<char>, int),
>
    decreases s.len() - k,
{
    if k < 0 || k >= s.len() || s[k] == '\n' {
        None
    } else if s[k] == q {
        if k + 1 < s.len() && s[k + 1] == q {
            string_lit(s, k + 2, q, acc.push(q))
        } else {
            Some((acc, k + 1))
        }
    } else {
        string_lit(s, k + 1, q, acc.push(s[k]))
    }
}

/// The end of the digits from `k`.
pub open spec fn digits_end(s: Seq<char>, k: int) -> int
    decreases s.len() - k,
{
    if k < 0 || k >= s.len() || !is_digit(s[k]) {
        k
    } else {
        digits_end(s, k + 1)
    }
}

/// The end of the identifier characters from `k`.
pub open spec fn ident_end(s: Seq<char>, k: int) -> int
    decreases s.len() - k,
{
    if k < 0 || k >= s.len() || !ident_char(s[k]) {
        k
    } else {
        ident_end(s, k + 1)
    }
}

/// The end of the exponent that may follow a number ending at `j`; `j`
/// itself when no digit comes after `e`, `E` and a sign.
pub open spec fn exponent_end(s: Seq<char>, j: int) -> int {
    if 0 <= j < s.len() && (s[j] == 'e' || s[j] == 'E') {
        let k = if j + 1 < s.len() && (s[j + 1] == '+' || s[j + 1] == '-') {
            j + 2
        } else {
            j + 1
        };
        if k < s.len() && is_digit(s[k]) {
            digits_end(s, k)
        } else {
            j
        }
    } else {
        j
    }
}

/// The end of a number from `i`: digits, a fraction, an exponent.
pub open spec fn number_end(s: Seq<char>, i: int) -> int {
    let j1 = digits_end(s, i);
    let j2 = if j1 < s.len() && s[j1] == '.' {
        digits_end(s, j1 + 1)
    } else {
        j1
    };
    exponent_end(s, j2)
}

/// The operators, the longer before those they start with.
pub open spec fn operators() -> Seq<&'static str> {
    seq![
        "::=", ":=", "==", "!=", ">=", "<=", "&&", "||", "<<", ">>", "++", "=", ">", "<", "+", "-",
        "*", "/", "%", "^", "&", "|", "!", "~", "(", ")", ",", "?", "[", "]",
    ]
}

/// Whether the text at `i` starts with `op`.
pub open spec fn starts_with_at(s: Seq<char>, i: int, op: Seq<char>) -> bool {
    0 <= i && i + op.len() <= s.len() && s.subrange(i, i + op.len()) == op
}

/// The first operator, from the `k`-th on, that the text at `i` starts
/// with.
pub open spec fn op_from(s: Seq<char>, i: int, k: int) -> Option<&'static str>
    decreases operators().len() - k,
{
    if k < 0 || k >= operators().len() {
        None
    } else if starts_with_at(s, i, operators()[k]@) {
        Some(operators()[k])
    } else {
        op_from(s, i, k + 1)
    }
}

/// What the lexer does at `i`: skip to a position, give a token and go on
/// from a position, or fail.
pub enum Step {
    Skip(int),
    Emit(TokenView, int),
    Fail(LexErrorView),
}

/// One step of the lexer at `i < s.len()` with line and column `lc`.
pub open spec fn lex_step(s: Seq<char>, i: int, lc: (int, int)) -> Step {
    let c = s[i];
    let n = s.len();
    if c == '\r' || c == ' ' || c == '\t' {
        Step::Skip(i + 1)
    } else if c == '\n' || c == ';' {
        Step::Emit(TokenView { tok: TokView::Eol, line: lc.0, column: lc.1 }, i + 1)
    } else if c == '/' && i + 1 < n && s[i + 1] == '/' {
        Step::Skip(line_end(s, i))
    } else if c == '/' && i + 1 < n && s[i + 1] == '*' {
        match block_end(s, i + 2) {
            Some(j) => Step::Skip(j),
            None => Step::Fail(
                LexErrorView { message: "комментарий /* не закрыт"@, line: lc.0, column: lc.1 },
            ),
        }
    } else if c == '"' || c == '\'' {
        match string_lit(s, i + 1, c, Seq::empty()) {
            Some((text, j)) => Step::Emit(
                TokenView { tok: TokView::Str(text), line: lc.0, column: lc.1 },
                j,
            ),
            None => Step::Fail(
                LexErrorView { message: "строковый литерал не закрыт"@, line: lc.0, column: lc.1 },
            ),
        }
    } else if c == '#' && i + 1 < n && is_digit(s[i + 1]) {
        let j = digits_end(s, i + 1);
        Step::Emit(
            TokenView { tok: TokView::Handle(s.subrange(i + 1, j)), line: lc.0, column: lc.1 },
            j,
        )
    } else if is_digit(c) || (c == '.' && i + 1 < n && is_digit(s[i + 1])) {
        let j = number_end(s, i);
        Step::Emit(
            TokenView { tok: TokView::Number(s.subrange(i, j)), line: lc.0, column: lc.1 },
            j,
        )
    } else if ident_start(c) {
        let j = ident_end(s, i + 1);
        Step::Emit(
            TokenView { tok: TokView::Ident(s.subrange(i, j)), line: lc.0, column: lc.1 },
            j,
        )
    } else {
        match op_from(s, i, 0) {
            Some(op) => Step::Emit(
                TokenView { tok: TokView::Op(op@), line: lc.0, column: lc.1 },
                i + op@.len(),
            ),
            None => Step::Fail(
                LexErrorView {
                    message: "неизвестный символ "@ + debug_of_char(c),
                    line: lc.0,
                    column: lc.1,
                },
            ),
        }
    }
}

pub proof fn lemma_line_end(s: Seq<char>, k: int)
    requires
        0 <= k <= s.len(),
    ensures
        k <= line_end(s, k) <= s.len(),
    decreases s.len() - k,
{
    if k < s.len() && s[k] != '\n' {
        lemma_line_end(s, k + 1);
    }
}

pub proof fn lemma_block_end(s: Seq<char>, k: int)
    requires
        0 <= k,
    ensures
        block_end(s, k) matches Some(j) ==> k + 2 <= j <= s.len(),
    decreases s.len() - k,
{
    if k + 1 < s.len() && !(s[k] == '*' && s[k + 1] == '/') {
        lemma_block_end(s, k + 1);
    }
}

pub proof fn lemma_string_lit(s: Seq<char>, k: int, q: char, acc: Seq<char>)
    requires
        0 <= k,
    ensures
        string_lit(s, k, q, acc) matches Some((t, j)) ==> k < j <= s.len(),
    decreases s.len() - k,
{
    if 0 <= k < s.len() && s[k] != '\n' {
        if s[k] == q {
            if k + 1 < s.len() && s[k + 1] == q {
                lemma_string_lit(s, k + 2, q, acc.push(q));
            }
        } else {
            lemma_string_lit(s, k + 1, q, acc.push(s[k]));
        }
    }
}

pub proof fn lemma_digits_end(s: Seq<char>, k: int)
    requires
        0 <= k <= s.len(),
    ensures
        k <= digits_end(s, k) <= s.len(),
        k < s.len() && is_digit(s[k]) ==> k < digits_end(s, k),
    decreases s.len() - k,
{
    if k < s.len() && is_digit(s[k]) {
        lemma_digits_end(s, k + 1);
    }
}

pub proof fn lemma_ident_end(s: Seq<char>, k: int)
    requires
        0 <= k <= s.len(),
    ensures
        k <= ident_end(s, k) <= s.len(),
    decreases s.len() - k,
{
    if k < s.len() && ident_char(s[k]) {
        lemma_ident_end(s, k + 1);
    }
}

pub proof fn lemma_number_end(s: Seq<char>, i: int)
    requires
        0 <= i < s.len(),
        is_digit(s[i]) || (s[i] == '.' && i + 1 < s.len() && is_digit(s[i + 1])),
    ensures
        i < number_end(s, i) <= s.len(),
{
    lemma_digits_end(s, i);
    let j1 = digits_end(s, i);
    if j1 < s.len() && s[j1] == '.' {
        lemma_digits_end(s, j1 + 1);
    }
    let j2 = if j1 < s.len() && s[j1] == '.' {
        digits_end(s, j1 + 1)
    } else {
        j1
    };
    if 0 <= j2 < s.len() && (s[j2] == 'e' || s[j2] == 'E') {
        let k = if j2 + 1 < s.len() && (s[j2 + 1] == '+' || s[j2 + 1] == '-') {
            j2 + 2
        } else {
            j2 + 1
        };
        if k < s.len() && is_digit(s[k]) {
            lemma_digits_end(s, k);
        }
    }
}

/// No operator is empty.
pub proof fn lemma_operators()
    ensures
        forall|k: int| 0 <= k < operators().len() ==> 1 <= #[trigger] operators()[k]@.len() <= 3,
{
    reveal_strlit("::=");
    reveal_strlit(":=");
    reveal_strlit("==");
    reveal_strlit("!=");
    reveal_strlit(">=");
    reveal_strlit("<=");
    reveal_strlit("&&");
    reveal_strlit("||");
    reveal_strlit("<<");
    reveal_strlit(">>");
    reveal_strlit("++");
    reveal_strlit("=");
    reveal_strlit(">");
    reveal_strlit("<");
    reveal_strlit("+");
    reveal_strlit("-");
    reveal_strlit("*");
    reveal_strlit("/");
    reveal_strlit("%");
    reveal_strlit("^");
    reveal_strlit("&");
    reveal_strlit("|");
    reveal_strlit("!");
    reveal_strlit("~");
    reveal_strlit("(");
    reveal_strlit(")");
    reveal_strlit(",");
    reveal_strlit("?");
    reveal_strlit("[");
    reveal_strlit("]");
}

pub proof fn lemma_op_from(s: Seq<char>, i: int, k: int)
    requires
        0 <= i,
        0 <= k,
    ensures
        op_from(s, i, k) matches Some(op) ==> 1 <= op@.len() && i + op@.len() <= s.len(),
    decreases operators().len() - k,
{
    lemma_operators();
    if k < operators().len() && !starts_with_at(s, i, operators()[k]@) {
        lemma_op_from(s, i, k + 1);
    }
}

/// Every step that does not fail moves forward.
pub proof fn lemma_step_advances(s: Seq<char>, i: int, lc: (int, int))
    requires
        0 <= i < s.len(),
    ensures
        match lex_step(s, i, lc) {
            Step::Skip(j) => i < j <= s.len(),
            Step::Emit(t, j) => i < j <= s.len(),
            Step::Fail(e) => true,
        },
{
    let c = s[i];
    if c == '/' && i + 1 < s.len() && s[i + 1] == '/' {
        lemma_line_end(s, i + 1);
    }
    lemma_block_end(s, i + 2);
    lemma_string_lit(s, i + 1, c, Seq::empty());
    if i + 1 < s.len() {
        lemma_digits_end(s, i + 1);
        lemma_ident_end(s, i + 1);
    }
    if is_digit(c) || (c == '.' && i + 1 < s.len() && is_digit(s[i + 1])) {
        lemma_number_end(s, i);
    }
    lemma_op_from(s, i, 0);
}

/// The tokens of the text from `i` on, with line and column `lc` there,
/// ending with `Eof`; or the first error.
pub open spec fn lex(s: Seq<char>, i: int, lc: (int, int)) -> Result<Seq<TokenView>, LexErrorView>
    decreases s.len() - i,
{
    if i < 0 || i >= s.len() {
        Ok(seq![TokenView { tok: TokView::Eof, line: lc.0, column: lc.1 }])
    } else {
        proof {
            lemma_step_advances(s, i, lc);
        }
        match lex_step(s, i, lc) {
            Step::Skip(j) => lex(s, j, adv(s, i, j, lc)),
            Step::Emit(t, j) => match lex(s, j, adv(s, i, j, lc)) {
                Ok(ts) => Ok(seq![t] + ts),
                Err(e) => Err(e),
            },
            Step::Fail(e) => Err(e),
        }
    }
}

fn is_digit_char(c: char) -> (b: bool)
    ensures
        b == is_digit(c),
{
    '0' <= c && c <= '9'
}

fn is_ident_start(c: char) -> (b: bool)
    ensures
        b == ident_start(c),
{
    c == '_' || char_is_alphabetic(c)
}

fn is_ident_char(c: char) -> (b: bool)
    ensures
        b == ident_char(c),
{
    c == '_' || char_is_alphanumeric(c)
}

/// Line and column after the characters `i..j`.
fn advance(chars: &Vec<char>, i: usize, j: usize, line: u32, col: u32) -> (r: (u32, u32))
    requires
        i <= j <= chars@.len(),
        chars@.len() < u32::MAX,
        1 <= line,
        1 <= col,
        line + col <= i + 2,
    ensures
        (r.0 as int, r.1 as int) == adv(chars@, i as int, j as int, (line as int, col as int)),
        1 <= r.0,
        1 <= r.1,
        r.0 + r.1 <= j + 2,
{
    let mut k = i;
    let mut l = line;
    let mut c = col;
    while k < j
        invariant
            i <= k <= j,
            j <= chars@.len() < u32::MAX,
            (l as int, c as int) == adv(chars@, i as int, k as int, (line as int, col as int)),
            1 <= l,
            1 <= c,
            l + c <= k + 2,
        decreases j - k,
    {
        if chars[k] == '\n' {
            l = l + 1;
            c = 1;
        } else {
            c = c + 1;
        }
        k = k + 1;
    }
    (l, c)
}

fn line_end_at(chars: &Vec<char>, k: usize) -> (r: usize)
    requires
        k <= chars@.len(),
    ensures
        r == line_end(chars@, k as int),
{
    let mut j = k;
    while j < chars.len() && chars[j] != '\n'
        invariant
            k <= j <= chars@.len(),
            line_end(chars@, k as int) == line_end(chars@, j as int),
        decreases chars.len() - j,
    {
        j = j + 1;
    }
    j
}

fn block_end_at(chars: &Vec<char>, k: usize) -> (r: Option<usize>)
    requires
        k <= chars@.len(),
    ensures
        match r {
            Some(j) => block_end(chars@, k as int) == Some(j as int),
            None => block_end(chars@, k as int) is None,
        },
{
    let mut j = k;
    loop
        invariant
            k <= j <= chars@.len(),
            block_end(chars@, k as int) == block_end(chars@, j as int),
        decreases chars.len() - j,
    {
        if chars.len() - j <= 1 {
            return None;
        }
        if chars[j] == '*' && chars[j + 1] == '/' {
            return Some(j + 2);
        }
        j = j + 1;
    }
}

fn string_lit_at(chars: &Vec<char>, k: usize, q: char) -> (r: Option<(String, usize)>)
    requires
        k <= chars@.len(),
    ensures
        match r {
            Some((t, j)) => string_lit(chars@, k as int, q, Seq::empty()) == Some((t@, j as int)),
            None => string_lit(chars@, k as int, q, Seq::empty()) is None,
        },
{
    let mut j = k;
    let mut text = String::new();
    let ghost target = string_lit(chars@, k as int, q, Seq::empty());
    loop
        invariant
            k <= j <= chars@.len(),
            target == string_lit(chars@, k as int, q, Seq::empty()),
            target == string_lit(chars@, j as int, q, text@),
        decreases chars.len() - j,
    {
        if j >= chars.len() || chars[j] == '\n' {
            return None;
        }
        if chars[j] == q {
            if j + 1 < chars.len() && chars[j + 1] == q {
                string_push(&mut text, q);
                j = j + 2;
            } else {
                return Some((text, j + 1));
            }
        } else {
            string_push(&mut text, chars[j]);
            j = j + 1;
        }
    }
}

fn digits_end_at(chars: &Vec<char>, k: usize) -> (r: usize)
    requires
        k <= chars@.len(),
    ensures
        r == digits_end(chars@, k as int),
        k <= r <= chars@.len(),
{
    let mut j = k;
    while j < chars.len() && is_digit_char(chars[j])
        invariant
            k <= j <= chars@.len(),
            digits_end(chars@, k as int) == digits_end(chars@, j as int),
        decreases chars.len() - j,
    {
        j = j + 1;
    }
    j
}

fn ident_end_at(chars: &Vec<char>, k: usize) -> (r: usize)
    requires
        k <= chars@.len(),
    ensures
        r == ident_end(chars@, k as int),
{
    let mut j = k;
    while j < chars.len() && is_ident_char(chars[j])
        invariant
            k <= j <= chars@.len(),
            ident_end(chars@, k as int) == ident_end(chars@, j as int),
        decreases chars.len() - j,
    {
        j = j + 1;
    }
    j
}

fn number_end_at(chars: &Vec<char>, i: usize) -> (r: usize)
    requires
        i <= chars@.len(),
    ensures
        r == number_end(chars@, i as int),
{
    let mut j = digits_end_at(chars, i);
    if j < chars.len() && chars[j] == '.' {
        j = digits_end_at(chars, j + 1);
    }
    if j < chars.len() && (chars[j] == 'e' || chars[j] == 'E') {
        let mut k = j + 1;
        if k < chars.len() && (chars[k] == '+' || chars[k] == '-') {
            k = k + 1;
        }
        if k < chars.len() && is_digit_char(chars[k]) {
            j = digits_end_at(chars, k);
        }
    }
    j
}

/// The characters `a..b` as a string.
fn text_of(chars: &Vec<char>, a: usize, b: usize) -> (t: String)
    requires
        a <= b <= chars@.len(),
    ensures
        t@ == chars@.subrange(a as int, b as int),
{
    let mut t = String::new();
    let mut k = a;
    while k < b
        invariant
            a <= k <= b <= chars@.len(),
            t@ == chars@.subrange(a as int, k as int),
        decreases b - k,
    {
        string_push(&mut t, chars[k]);
        assert(chars@.subrange(a as int, k + 1) =~= chars@.subrange(a as int, k as int).push(chars@[k as int]));
        k = k + 1;
    }
    t
}

/// Whether `chars` has `op` at `i`.
fn op_here(chars: &Vec<char>, i: usize, op: &Vec<char>) -> (b: bool)
    requires
        i <= chars@.len(),
    ensures
        b == starts_with_at(chars@, i as int, op@),
{
    if op.len() > chars.len() - i {
        return false;
    }
    let mut k: usize = 0;
    while k < op.len()
        invariant
            k <= op@.len(),
            i + op@.len() <= chars@.len(),
            i + op.len() <= chars.len(),
            forall|m: int| 0 <= m < k ==> chars@[i + m] == op@[m],
        decreases op.len() - k,
    {
        if chars[i + k] != op[k] {
            assert(chars@.subrange(i as int, i + op@.len())[k as int] != op@[k as int]);
            return false;
        }
        k = k + 1;
    }
    assert(chars@.subrange(i as int, i + op@.len()) =~= op@);
    true
}

/// The operator at `i`: the first of the list that the text there starts
/// with.
fn op_at(chars: &Vec<char>, i: usize) -> (r: Option<&'static str>)
    requires
        i <= chars@.len(),
    ensures
        r == op_from(chars@, i as int, 0),
{
    let mut ops: Vec<&'static str> = Vec::new();
    ops.push("::=");
    ops.push(":=");
    ops.push("==");
    ops.push("!=");
    ops.push(">=");
    ops.push("<=");
    ops.push("&&");
    ops.push("||");
    ops.push("<<");
    ops.push(">>");
    ops.push("++");
    ops.push("=");
    ops.push(">");
    ops.push("<");
    ops.push("+");
    ops.push("-");
    ops.push("*");
    ops.push("/");
    ops.push("%");
    ops.push("^");
    ops.push("&");
    ops.push("|");
    ops.push("!");
    ops.push("~");
    ops.push("(");
    ops.push(")");
    ops.push(",");
    ops.push("?");
    ops.push("[");
    ops.push("]");
    assert(ops@ =~= operators());
    let mut k: usize = 0;
    while k < ops.len()
        invariant
            ops@ == operators(),
            k <= ops@.len(),
            i <= chars@.len(),
            op_from(chars@, i as int, 0) == op_from(chars@, i as int, k as int),
        decreases ops.len() - k,
    {
        let op = ops[k];
        let oc = chars_of(op);
        if op_here(chars, i, &oc) {
            return Some(op);
        }
        k = k + 1;
    }
    None
}

/// One step of the lexer, as done.
enum Lexed {
    Skip(usize),
    Emit(Token, usize),
    Fail(LexError),
}

spec fn lexed_is(r: Lexed, st: Step) -> bool {
    match r {
        Lexed::Skip(j) => st == Step::Skip(j as int),
        Lexed::Emit(t, j) => st == Step::Emit(t@, j as int),
        Lexed::Fail(e) => st == Step::Fail(e@),
    }
}

#[verifier::spinoff_prover]
#[verifier::rlimit(40)]
fn step(chars: &Vec<char>, i: usize, line: u32, col: u32) -> (r: Lexed)
    requires
        i < chars@.len(),
    ensures
        lexed_is(r, lex_step(chars@, i as int, (line as int, col as int))),
{
    let c = chars[i];
    let n = chars.len();
    if c == '\r' || c == ' ' || c == '\t' {
        return Lexed::Skip(i + 1);
    }
    if c == '\n' || c == ';' {
        return Lexed::Emit(Token { tok: Tok::Eol, line, column: col }, i + 1);
    }
    if c == '/' && i + 1 < n && chars[i + 1] == '/' {
        return Lexed::Skip(line_end_at(chars, i));
    }
    if c == '/' && i + 1 < n && chars[i + 1] == '*' {
        return match block_end_at(chars, i + 2) {
            Some(j) => Lexed::Skip(j),
            None => Lexed::Fail(
                LexError { message: "комментарий /* не закрыт".to_string(), line, column: col },
            ),
        };
    }
    if c == '"' || c == '\'' {
        return match string_lit_at(chars, i + 1, c) {
            Some((text, j)) => Lexed::Emit(Token { tok: Tok::Str(text), line, column: col }, j),
            None => Lexed::Fail(
                LexError { message: "строковый литерал не закрыт".to_string(), line, column: col },
            ),
        };
    }
    if c == '#' && i + 1 < n && is_digit_char(chars[i + 1]) {
        let j = digits_end_at(chars, i + 1);
        let text = text_of(chars, i + 1, j);
        return Lexed::Emit(Token { tok: Tok::Handle(text), line, column: col }, j);
    }
    if is_digit_char(c) || (c == '.' && i + 1 < n && is_digit_char(chars[i + 1])) {
        proof {
            lemma_number_end(chars@, i as int);
        }
        let j = number_end_at(chars, i);
        let text = text_of(chars, i, j);
        return Lexed::Emit(Token { tok: Tok::Number(text), line, column: col }, j);
    }
    if is_ident_start(c) {
        proof {
            lemma_ident_end(chars@, i + 1);
        }
        let j = ident_end_at(chars, i + 1);
        let text = text_of(chars, i, j);
        return Lexed::Emit(Token { tok: Tok::Ident(text), line, column: col }, j);
    }
    proof {
        lemma_op_from(chars@, i as int, 0);
    }
    match op_at(chars, i) {
        Some(op) => {
            let len = chars_of(op).len();
            Lexed::Emit(Token { tok: Tok::Op(op), line, column: col }, i + len)
        },
        None => {
            let mut m = "неизвестный символ ".to_string();
            let d = char_debug(c);
            m.append(d.as_str());
            Lexed::Fail(LexError { message: m, line, column: col })
        },
    }
}

pub open spec fn tokens_view(v: Seq<Token>) -> Seq<TokenView> {
    v.map_values(|t: Token| t@)
}

/// The tokens `pre`, then what the lexer gives from some point on.
pub open spec fn after_tokens(pre: Seq<TokenView>, r: Result<Seq<TokenView>, LexErrorView>) -> Result<
    Seq<TokenView>,
    LexErrorView,
> {
    match r {
        Ok(ts) => Ok(pre + ts),
        Err(e) => Err(e),
    }
}

/// From `k` on, the digits run up to `digits_end(s, k)`, and the character
/// there, if any, is no digit.
proof fn lemma_digits_run(s: Seq<char>, k: int)
    requires
        0 <= k <= s.len(),
    ensures
        forall|j: int| k <= j < digits_end(s, k) ==> is_digit(#[trigger] s[j]),
        digits_end(s, k) == s.len() || !is_digit(s[digits_end(s, k)]),
    decreases s.len() - k,
{
    if k < s.len() && is_digit(s[k]) {
        lemma_digits_run(s, k + 1);
    }
}

/// A handle literal takes every digit after its `#`: at a `#` followed by a
/// digit the lexer emits one handle token whose text is the whole run of
/// digits, and goes on right after the last of them, where no digit stands.
pub proof fn law_handle_takes_all_digits(s: Seq<char>, i: int, lc: (int, int))
    requires
        0 <= i,
        i + 1 < s.len(),
        s[i] == '#',
        is_digit(s[i + 1]),
    ensures
        lex_step(s, i, lc) matches Step::Emit(t, end) && {
            &&& i + 2 <= end <= s.len()
            &&& t == TokenView { tok: TokView::Handle(s.subrange(i + 1, end)), line: lc.0, column: lc.1 }
            &&& forall|j: int| i + 1 <= j < end ==> is_digit(#[trigger] s[j])
            &&& (end == s.len() || !is_digit(s[end]))
        },
{
    lemma_digits_end(s, i + 1);
    lemma_digits_run(s, i + 1);
}

/// From `k` on, the identifier characters run up to `ident_end(s, k)`, and
/// the character there, if any, is none.
proof fn lemma_ident_run(s: Seq<char>, k: int)
    requires
        0 <= k <= s.len(),
    ensures
        forall|j: int| k <= j < ident_end(s, k) ==> ident_char(#[trigger] s[j]),
        ident_end(s, k) == s.len() || !ident_char(s[ident_end(s, k)]),
    decreases s.len() - k,
{
    if k < s.len() && ident_char(s[k]) {
        lemma_ident_run(s, k + 1);
    }
}

/// An identifier takes every identifier character after its first: at a
/// letter or underscore the lexer emits one identifier whose text runs to
/// the first character that cannot go on an identifier, and goes on there.
pub proof fn law_identifier_is_longest(s: Seq<char>, i: int, lc: (int, int))
    requires
        0 <= i < s.len(),
        ident_start(s[i]),
    ensures
        lex_step(s, i, lc) matches Step::Emit(t, end) && {
            &&& i + 1 <= end <= s.len()
            &&& t == TokenView { tok: TokView::Ident(s.subrange(i, end)), line: lc.0, column: lc.1 }
            &&& forall|j: int| i + 1 <= j < end ==> ident_char(#[trigger] s[j])
            &&& (end == s.len() || !ident_char(s[end]))
        },
{
    lemma_ident_end(s, i + 1);
    lemma_ident_run(s, i + 1);
    assert(!is_digit(s[i]));
}

/// A number takes all its digits: at a digit the lexer emits one number
/// token that starts with the whole run of digits there, holds only digits,
/// a point, an exponent mark and its sign, and is not followed by a digit.
pub proof fn law_number_takes_all_digits(s: Seq<char>, i: int, lc: (int, int))
    requires
        0 <= i < s.len(),
        is_digit(s[i]),
    ensures
        lex_step(s, i, lc) matches Step::Emit(t, end) && {
            &&& digits_end(s, i) <= end <= s.len()
            &&& t == TokenView { tok: TokView::Number(s.subrange(i, end)), line: lc.0, column: lc.1 }
            &&& forall|j: int| i <= j < digits_end(s, i) ==> is_digit(#[trigger] s[j])
            &&& forall|j: int|
                i <= j < end ==> is_digit(#[trigger] s[j]) || s[j] == '.' || s[j] == 'e' || s[j] == 'E' || s[j] == '+'
                    || s[j] == '-'
            &&& (end == s.len() || !is_digit(s[end]))
        },
{
    lemma_number_end(s, i);
    lemma_digits_end(s, i);
    lemma_digits_run(s, i);
    let j1 = digits_end(s, i);
    if j1 < s.len() && s[j1] == '.' {
        lemma_digits_end(s, j1 + 1);
        lemma_digits_run(s, j1 + 1);
    }
    let j2 = if j1 < s.len() && s[j1] == '.' {
        digits_end(s, j1 + 1)
    } else {
        j1
    };
    if 0 <= j2 < s.len() && (s[j2] == 'e' || s[j2] == 'E') {
        let k = if j2 + 1 < s.len() && (s[j2 + 1] == '+' || s[j2 + 1] == '-') {
            j2 + 2
        } else {
            j2 + 1
        };
        if k < s.len() && is_digit(s[k]) {
            lemma_digits_end(s, k);
            lemma_digits_run(s, k);
        }
    }
}

/// The length of the `k`-th operator of the list: the longer come first.
pub open spec fn operator_len(k: int) -> int {
    if k == 0 {
        3
    } else if k <= 10 {
        2
    } else {
        1
    }
}

proof fn lemma_operator_lengths()
    ensures
        forall|k: int| 0 <= k < operators().len() ==> (#[trigger] operators()[k])@.len() == operator_len(k),
        operators().len() == 30,
{
    reveal_strlit("::=");
    reveal_strlit(":=");
    reveal_strlit("==");
    reveal_strlit("!=");
    reveal_strlit(">=");
    reveal_strlit("<=");
    reveal_strlit("&&");
    reveal_strlit("||");
    reveal_strlit("<<");
    reveal_strlit(">>");
    reveal_strlit("++");
    reveal_strlit("=");
    reveal_strlit(">");
    reveal_strlit("<");
    reveal_strlit("+");
    reveal_strlit("-");
    reveal_strlit("*");
    reveal_strlit("/");
    reveal_strlit("%");
    reveal_strlit("^");
    reveal_strlit("&");
    reveal_strlit("|");
    reveal_strlit("!");
    reveal_strlit("~");
    reveal_strlit("(");
    reveal_strlit(")");
    reveal_strlit(",");
    reveal_strlit("?");
    reveal_strlit("[");
    reveal_strlit("]");
    assert forall|k: int| 0 <= k < operators().len() implies (#[trigger] operators()[k])@.len() == operator_len(k) by {
        if k == 0 {
            assert(operators()[0]@.len() == 3);
        } else if k == 1 {
            assert(operators()[1]@.len() == 2);
        } else if k == 2 {
            assert(operators()[2]@.len() == 2);
        } else if k == 3 {
            assert(operators()[3]@.len() == 2);
        } else if k == 4 {
            assert(operators()[4]@.len() == 2);
        } else if k == 5 {
            assert(operators()[5]@.len() == 2);
        } else if k == 6 {
            assert(operators()[6]@.len() == 2);
        } else if k == 7 {
            assert(operators()[7]@.len() == 2);
        } else if k == 8 {
            assert(operators()[8]@.len() == 2);
        } else if k == 9 {
            assert(operators()[9]@.len() == 2);
        } else if k == 10 {
            assert(operators()[10]@.len() == 2);
        } else if k == 11 {
            assert(operators()[11]@.len() == 1);
        } else if k == 12 {
            assert(operators()[12]@.len() == 1);
        } else if k == 13 {
            assert(operators()[13]@.len() == 1);
        } else if k == 14 {
            assert(operators()[14]@.len() == 1);
        } else if k == 15 {
            assert(operators()[15]@.len() == 1);
        } else if k == 16 {
            assert(operators()[16]@.len() == 1);
        } else if k == 17 {
            assert(operators()[17]@.len() == 1);
        } else if k == 18 {
            assert(operators()[18]@.len() == 1);
        } else if k == 19 {
            assert(operators()[19]@.len() == 1);
        } else if k == 20 {
            assert(operators()[20]@.len() == 1);
        } else if k == 21 {
            assert(operators()[21]@.len() == 1);
        } else if k == 22 {
            assert(operators()[22]@.len() == 1);
        } else if k == 23 {
            assert(operators()[23]@.len() == 1);
        } else if k == 24 {
            assert(operators()[24]@.len() == 1);
        } else if k == 25 {
            assert(operators()[25]@.len() == 1);
        } else if k == 26 {
            assert(operators()[26]@.len() == 1);
        } else if k == 27 {
            assert(operators()[27]@.len() == 1);
        } else if k == 28 {
            assert(operators()[28]@.len() == 1);
        } else if k == 29 {
            assert(operators()[29]@.len() == 1);
        }
    }
}

/// The operator found from the `k`-th on is at least as long as any later
/// one that the text starts with.
proof fn lemma_op_from_longest(s: Seq<char>, i: int, k: int)
    requires
        0 <= k,
    ensures
        op_from(s, i, k) matches Some(op) ==> {
            &&& starts_with_at(s, i, op@)
            &&& forall|q: int| k <= q < operators().len() && starts_with_at(s, i, (#[trigger] operators()[q])@) ==> operators()[q]@.len() <= op@.len()
        },
    decreases operators().len() - k,
{
    lemma_operator_lengths();
    if k < operators().len() && !starts_with_at(s, i, operators()[k]@) {
        lemma_op_from_longest(s, i, k + 1);
    }
}

/// An operator is read as the longest one the text starts with: when the
/// lexer gives an operator at `i`, its text is the text there, and no
/// operator of the language that the text also starts with is longer (so
/// `::=` is never read as `:` and `:=`, nor `>=` as `>` and `=`).
pub proof fn law_operator_is_longest(s: Seq<char>, i: int, lc: (int, int))
    requires
        0 <= i < s.len(),
        lex_step(s, i, lc) matches Step::Emit(t, _) && t.tok is Op,
    ensures
        lex_step(s, i, lc) matches Step::Emit(t, end) && {
            &&& t.tok == TokView::Op(s.subrange(i, end))
            &&& forall|q: int|
                0 <= q < operators().len() && starts_with_at(s, i, (#[trigger] operators()[q])@) ==> operators()[q]@.len()
                    <= end - i
        },
{
    lemma_op_from_longest(s, i, 0);
}

/// Splits a text into tokens: identifiers, numbers, strings, handles,
/// operators and ends of statements, each with the line and column (from 1)
/// where it starts, then `Eof`; or the first error.
#[verifier::spinoff_prover]
pub fn tokenize(src: &str) -> (r: Result<Vec<Token>, LexError>)
    requires
        src@.len() < u32::MAX,
    ensures
        match lex(src@, 0, (1, 1)) {
            Ok(ts) => r matches Ok(v) && tokens_view(v@) == ts,
            Err(e) => r matches Err(x) && x@ == e,
        },
{
    let chars = chars_of(src);
    let mut out: Vec<Token> = Vec::new();
    let mut i: usize = 0;
    let mut line: u32 = 1;
    let mut col: u32 = 1;
    let ghost target = lex(src@, 0, (1, 1));
    assert(tokens_view(out@) =~= Seq::<TokenView>::empty());
    assert(after_tokens(tokens_view(out@), lex(src@, 0, (1, 1))) == target);
    while i < chars.len()
        invariant
            chars@ == src@,
            i <= chars@.len(),
            chars@.len() < u32::MAX,
            1 <= line,
            1 <= col,
            line + col <= i + 2,
            target == lex(src@, 0, (1, 1)),
            target == after_tokens(tokens_view(out@), lex(src@, i as int, (line as int, col as int))),
        decreases chars.len() - i,
    {
        let ghost lc = (line as int, col as int);
        proof {
            lemma_step_advances(chars@, i as int, lc);
        }
        match step(&chars, i, line, col) {
            Lexed::Skip(j) => {
                let (l, c) = advance(&chars, i, j, line, col);
                i = j;
                line = l;
                col = c;
            },
            Lexed::Emit(t, j) => {
                let (l, c) = advance(&chars, i, j, line, col);
                let ghost pre = tokens_view(out@);
                let ghost tv = t@;
                out.push(t);
                proof {
                    assert(tokens_view(out@) =~= pre.push(tv));
                    match lex(src@, j as int, (l as int, c as int)) {
                        Ok(ts) => {
                            assert(pre + (seq![tv] + ts) =~= pre.push(tv) + ts);
                        },
                        Err(e) => {},
                    }
                }
                i = j;
                line = l;
                col = c;
            },
            Lexed::Fail(e) => {
                return Err(e);
            },
        }
    }
    let ghost pre = tokens_view(out@);
    out.push(Token { tok: Tok::Eof, line, column: col });
    assert(tokens_view(out@) =~= pre + seq![TokenView { tok: TokView::Eof, line: line as int, column: col as int }]);
    Ok(out)
}

} // verus!
