//! The grammar of an image's text, as functions on its tokens.
//!
//! Each function reads the tokens `t` from position `p` and gives what it
//! recognised with the position after it, or the error of the text. The
//! tokens end with `Eof`. Where a function would go on from a position no
//! later than where it started, it gives `stuck()`; that never happens on
//! such tokens (each step reads a token) and only bounds the recursion.

use vstd::prelude::*;
use crate::lang::ast::{ArmView, DeclView, ExprView, StmtView, UnOp};
use crate::lang::lexer::{adv, lemma_step_advances, lex, lex_step, Step, TokView, TokenView};
use crate::lang::parser::binop_of;
use crate::text::eq_ignore_ascii_case;

verus! {

pub struct ParseErrorView {
    pub message: Seq<char>,
    pub line: int,
    pub column: int,
}

/// Tokens as the lexer gives them: at least one, the last `Eof`.
pub open spec fn well_formed(t: Seq<TokenView>) -> bool {
    t.len() > 0 && t[t.len() - 1].tok == TokView::Eof
}

/// The lexer's tokens end with `Eof`.
pub proof fn lemma_lex_well_formed(s: Seq<char>, i: int, lc: (int, int))
    ensures
        lex(s, i, lc) matches Ok(ts) ==> well_formed(ts),
    decreases s.len() - i,
{
    if 0 <= i < s.len() {
        lemma_step_advances(s, i, lc);
        match lex_step(s, i, lc) {
            Step::Skip(j) => lemma_lex_well_formed(s, j, adv(s, i, j, lc)),
            Step::Emit(t, j) => {
                lemma_lex_well_formed(s, j, adv(s, i, j, lc));
                match lex(s, j, adv(s, i, j, lc)) {
                    Ok(ts) => {
                        assert((seq![t] + ts)[(seq![t] + ts).len() - 1] == ts[ts.len() - 1]);
                    },
                    Err(e) => {},
                }
            },
            Step::Fail(e) => {},
        }
    }
}

/// A token as the parser's messages show it.
pub open spec fn tok_text(t: TokView) -> Seq<char> {
    match t {
        TokView::Ident(s) => s,
        TokView::Number(n) => n,
        TokView::Str(s) => "\""@ + s + "\""@,
        TokView::Handle(h) => "#"@ + h,
        TokView::Op(o) => o,
        TokView::Eol => "конец строки"@,
        TokView::Eof => "конец текста"@,
    }
}

pub open spec fn err_at(t: Seq<TokenView>, p: int, message: Seq<char>) -> ParseErrorView {
    ParseErrorView { message, line: t[p].line, column: t[p].column }
}

/// The result of a parser that would not move on.
pub open spec fn stuck() -> ParseErrorView {
    ParseErrorView { message: Seq::empty(), line: 0, column: 0 }
}

pub open spec fn msg_expected(op: Seq<char>, found: TokView) -> Seq<char> {
    "ожидалось \""@ + op + "\", встречено "@ + tok_text(found)
}

pub open spec fn msg_expression(found: TokView) -> Seq<char> {
    "ожидалось выражение, встречено "@ + tok_text(found)
}

pub open spec fn msg_name(found: TokView) -> Seq<char> {
    "ожидалось имя переменной, встречено "@ + tok_text(found)
}

pub open spec fn msg_statement(found: TokView) -> Seq<char> {
    "не удалось разобрать оператор: "@ + tok_text(found)
}

pub open spec fn msg_in_switch(found: TokView) -> Seq<char> {
    "внутри switch ожидались case/default/endswitch, встречено "@ + tok_text(found)
}

pub open spec fn msg_keyword(word: Seq<char>) -> Seq<char> {
    "неожиданное ключевое слово "@ + word
}

pub open spec fn msg_excess(found: TokView) -> Seq<char> {
    "лишний текст: "@ + tok_text(found)
}

/// The position after the token at `p`; the last token is never passed.
pub open spec fn next(t: Seq<TokenView>, p: int) -> int {
    if p + 1 < t.len() {
        p + 1
    } else {
        p
    }
}

pub open spec fn back(p: int) -> int {
    if p > 0 {
        p - 1
    } else {
        0
    }
}

pub open spec fn is_op(t: Seq<TokenView>, p: int, op: Seq<char>) -> bool {
    t[p].tok == TokView::Op(op)
}

/// The token at `p` is the word `w`, whatever the case of its ASCII letters.
pub open spec fn word_is(t: Seq<TokenView>, p: int, w: Seq<char>) -> bool {
    match t[p].tok {
        TokView::Ident(s) => eq_ignore_ascii_case(s, w),
        _ => false,
    }
}

pub open spec fn any_word(t: Seq<TokenView>, p: int, ws: Seq<Seq<char>>) -> bool {
    exists|i: int| 0 <= i < ws.len() && word_is(t, p, #[trigger] ws[i])
}

/// The first position from `p` on that is not a line end.
pub open spec fn skip_eol(t: Seq<TokenView>, p: int) -> int
    decreases t.len() - p,
{
    if 0 <= p && p + 1 < t.len() && t[p].tok == TokView::Eol {
        skip_eol(t, p + 1)
    } else {
        p
    }
}

pub proof fn lemma_skip_eol(t: Seq<TokenView>, p: int)
    requires
        0 <= p < t.len(),
    ensures
        p <= skip_eol(t, p) < t.len(),
    decreases t.len() - p,
{
    if p + 1 < t.len() && t[p].tok == TokView::Eol {
        lemma_skip_eol(t, p + 1);
    }
}

/// Binary operators from level `min` up, left-associative, after the
/// operand at `p`.
pub open spec fn binary(t: Seq<TokenView>, p: int, min: int) -> Result<(ExprView, int), ParseErrorView>
    decreases t.len() - p, 4int,
{
    if !(0 <= p < t.len()) {
        Err(stuck())
    } else {
        match unary(t, p) {
            Err(e) => Err(e),
            Ok((left, q)) => if p <= q < t.len() {
                binary_tail(t, left, q, min)
            } else {
                Err(stuck())
            },
        }
    }
}

/// The operators that follow the operand `left`, from `p` on.
pub open spec fn binary_tail(t: Seq<TokenView>, left: ExprView, p: int, min: int) -> Result<
    (ExprView, int),
    ParseErrorView,
>
    decreases t.len() - p, 3int,
{
    if !(0 <= p < t.len()) {
        Err(stuck())
    } else {
        match t[p].tok {
            TokView::Op(o) => match binop_of(o) {
                Some((op, level)) => if level < min {
                    Ok((left, p))
                } else if p + 1 < t.len() {
                    match binary(t, p + 1, level + 1) {
                        Err(e) => Err(e),
                        Ok((right, q)) => if p < q < t.len() {
                            binary_tail(t, ExprView::Binary(op, Box::new(left), Box::new(right)), q, min)
                        } else {
                            Err(stuck())
                        },
                    }
                } else {
                    Err(stuck())
                },
                None => Ok((left, p)),
            },
            _ => Ok((left, p)),
        }
    }
}

/// `-x`, `+x`, `!x`, `~x`, or a primary expression.
pub open spec fn unary(t: Seq<TokenView>, p: int) -> Result<(ExprView, int), ParseErrorView>
    decreases t.len() - p, 2int,
{
    if !(0 <= p < t.len()) {
        Err(stuck())
    } else if p + 1 < t.len() && is_op(t, p, "-"@) {
        match unary(t, p + 1) {
            Ok((e, q)) => Ok((ExprView::Unary(UnOp::Neg, Box::new(e)), q)),
            Err(e) => Err(e),
        }
    } else if p + 1 < t.len() && is_op(t, p, "+"@) {
        unary(t, p + 1)
    } else if p + 1 < t.len() && is_op(t, p, "!"@) {
        match unary(t, p + 1) {
            Ok((e, q)) => Ok((ExprView::Unary(UnOp::Not, Box::new(e)), q)),
            Err(e) => Err(e),
        }
    } else if p + 1 < t.len() && is_op(t, p, "~"@) {
        match unary(t, p + 1) {
            Ok((e, q)) => Ok((ExprView::Unary(UnOp::Old, Box::new(e)), q)),
            Err(e) => Err(e),
        }
    } else {
        primary(t, p)
    }
}

/// A literal, a variable, a call `f(a, b)` or an expression in brackets.
pub open spec fn primary(t: Seq<TokenView>, p: int) -> Result<(ExprView, int), ParseErrorView>
    decreases t.len() - p, 1int,
{
    if !(0 <= p < t.len()) {
        Err(stuck())
    } else {
        let q = next(t, p);
        match t[p].tok {
            TokView::Number(n) => Ok((ExprView::Number(n), q)),
            TokView::Str(s) => Ok((ExprView::Str(s), q)),
            TokView::Handle(h) => Ok((ExprView::Handle(h), q)),
            TokView::Ident(name) => if p < q && q + 1 < t.len() && is_op(t, q, "("@) {
                if q + 2 < t.len() && is_op(t, q + 1, ")"@) {
                    Ok((ExprView::Call(name, Seq::empty()), q + 2))
                } else {
                    match args(t, q + 1, Seq::empty()) {
                        Ok((a, r)) => Ok((ExprView::Call(name, a), r)),
                        Err(e) => Err(e),
                    }
                }
            } else {
                Ok((ExprView::Var(name), q))
            },
            TokView::Op(o) => if o == "("@ && p < q {
                match binary(t, q, 0) {
                    Err(e) => Err(e),
                    Ok((e, r)) => if 0 <= r && r + 1 < t.len() && is_op(t, r, ")"@) {
                        Ok((e, r + 1))
                    } else {
                        Err(err_at(t, r, msg_expected(")"@, t[r].tok)))
                    },
                }
            } else {
                Err(err_at(t, back(q), msg_expression(t[p].tok)))
            },
            _ => Err(err_at(t, back(q), msg_expression(t[p].tok))),
        }
    }
}

/// The arguments of a call from `p` on, after those in `acc`, up to and
/// with the closing bracket; line ends may stand around each.
pub open spec fn args(t: Seq<TokenView>, p: int, acc: Seq<ExprView>) -> Result<
    (Seq<ExprView>, int),
    ParseErrorView,
>
    decreases t.len() - p, 5int,
{
    if !(0 <= p < t.len()) {
        Err(stuck())
    } else {
        let a = skip_eol(t, p);
        proof {
            lemma_skip_eol(t, p);
        }
        match binary(t, a, 0) {
            Err(e) => Err(e),
            Ok((e, r)) => if p <= r < t.len() {
                let b = skip_eol(t, r);
                proof {
                    lemma_skip_eol(t, r);
                }
                if b + 1 < t.len() && is_op(t, b, ","@) {
                    args(t, b + 1, acc.push(e))
                } else if b + 1 < t.len() && is_op(t, b, ")"@) {
                    Ok((acc.push(e), b + 1))
                } else {
                    Err(err_at(t, b, msg_expected(")"@, t[b].tok)))
                }
            } else {
                Err(stuck())
            },
        }
    }
}

/// An expression.
pub open spec fn expression(t: Seq<TokenView>, p: int) -> Result<(ExprView, int), ParseErrorView> {
    binary(t, p, 0)
}

/// `( expression )`.
pub open spec fn parenthesized(t: Seq<TokenView>, p: int) -> Result<(ExprView, int), ParseErrorView> {
    if 0 <= p && p + 1 < t.len() && is_op(t, p, "("@) {
        match expression(t, p + 1) {
            Err(e) => Err(e),
            Ok((e, r)) => if 0 <= r && r + 1 < t.len() && is_op(t, r, ")"@) {
                Ok((e, r + 1))
            } else {
                Err(err_at(t, r, msg_expected(")"@, t[r].tok)))
            },
        }
    } else {
        Err(err_at(t, p, msg_expected("("@, t[p].tok)))
    }
}

/// The type named by a word at the start of a declaration, in capitals.
pub open spec fn type_name_of(w: Seq<char>) -> Option<Seq<char>> {
    if eq_ignore_ascii_case(w, "FLOAT"@) {
        Some("FLOAT"@)
    } else if eq_ignore_ascii_case(w, "STRING"@) {
        Some("STRING"@)
    } else if eq_ignore_ascii_case(w, "HANDLE"@) {
        Some("HANDLE"@)
    } else if eq_ignore_ascii_case(w, "COLORREF"@) {
        Some("COLORREF"@)
    } else if eq_ignore_ascii_case(w, "INTEGER"@) {
        Some("INTEGER"@)
    } else if eq_ignore_ascii_case(w, "WORD"@) {
        Some("WORD"@)
    } else if eq_ignore_ascii_case(w, "BYTE"@) {
        Some("BYTE"@)
    } else if eq_ignore_ascii_case(w, "POINTER"@) {
        Some("POINTER"@)
    } else {
        None
    }
}

/// Words that cannot start a statement as a variable's name.
pub open spec fn is_keyword(w: Seq<char>) -> bool {
    ||| eq_ignore_ascii_case(w, "if"@)
    ||| eq_ignore_ascii_case(w, "else"@)
    ||| eq_ignore_ascii_case(w, "endif"@)
    ||| eq_ignore_ascii_case(w, "while"@)
    ||| eq_ignore_ascii_case(w, "endwhile"@)
    ||| eq_ignore_ascii_case(w, "do"@)
    ||| eq_ignore_ascii_case(w, "until"@)
    ||| eq_ignore_ascii_case(w, "switch"@)
    ||| eq_ignore_ascii_case(w, "case"@)
    ||| eq_ignore_ascii_case(w, "default"@)
    ||| eq_ignore_ascii_case(w, "endswitch"@)
    ||| eq_ignore_ascii_case(w, "break"@)
    ||| eq_ignore_ascii_case(w, "function"@)
    ||| eq_ignore_ascii_case(w, "return"@)
    ||| eq_ignore_ascii_case(w, "local"@)
}

/// The words that may follow the type of a declaration.
pub open spec fn is_modifier(w: Seq<char>) -> bool {
    ||| eq_ignore_ascii_case(w, "local"@)
    ||| eq_ignore_ascii_case(w, "parameter"@)
    ||| eq_ignore_ascii_case(w, "nosave"@)
}

/// `FLOAT x` declares; `FLOAT(h)` converts and `FLOAT := 1` assigns.
pub open spec fn looks_like_declaration(t: Seq<TokenView>, p: int) -> bool {
    match t[p + 1].tok {
        TokView::Ident(nx) => !(is_op(t, p + 2, ":="@) || is_op(t, p + 2, "::="@)) || is_modifier(nx),
        _ => false,
    }
}

/// The modifiers `local`, `parameter` and `nosave` from `p` on.
pub open spec fn modifiers(t: Seq<TokenView>, p: int, local: bool, parameter: bool) -> (bool, bool, int)
    decreases t.len() - p,
{
    if !(0 <= p && p + 1 < t.len()) {
        (local, parameter, p)
    } else if word_is(t, p, "local"@) {
        modifiers(t, p + 1, true, parameter)
    } else if word_is(t, p, "parameter"@) {
        modifiers(t, p + 1, local, true)
    } else if word_is(t, p, "nosave"@) {
        modifiers(t, p + 1, local, parameter)
    } else {
        (local, parameter, p)
    }
}

/// Names separated by commas, after those in `acc`.
pub open spec fn names(t: Seq<TokenView>, p: int, acc: Seq<Seq<char>>) -> Result<
    (Seq<Seq<char>>, int),
    ParseErrorView,
>
    decreases t.len() - p,
{
    if !(0 <= p < t.len()) {
        Err(stuck())
    } else {
        let q = next(t, p);
        match t[p].tok {
            TokView::Ident(n) => if p < q && q + 1 < t.len() && is_op(t, q, ","@) {
                names(t, q + 1, acc.push(n))
            } else {
                Ok((acc.push(n), q))
            },
            _ => Err(err_at(t, q, msg_name(t[p].tok))),
        }
    }
}

/// The rest of a chain `s := r := value`: the targets and the value.
pub open spec fn chain(t: Seq<TokenView>, p: int, targets: Seq<Seq<char>>, value: ExprView) -> Result<
    (Seq<Seq<char>>, ExprView, int),
    ParseErrorView,
>
    decreases t.len() - p,
{
    if 0 <= p && p + 1 < t.len() && is_op(t, p, ":="@) {
        match expression(t, p + 1) {
            Err(e) => Err(e),
            Ok((nx, r)) => match value {
                ExprView::Var(n) => if p < r < t.len() {
                    chain(t, r, targets.push(n), nx)
                } else {
                    Err(stuck())
                },
                _ => Err(err_at(t, r - 1, "слева от := должна быть переменная"@)),
            },
        }
    } else {
        Ok((targets, value, p))
    }
}

/// One assignment of `value` to each target.
pub open spec fn assignments(targets: Seq<Seq<char>>, value: ExprView, deferred: bool) -> Seq<StmtView> {
    Seq::new(
        targets.len(),
        |i: int|
            if deferred {
                StmtView::AssignDeferred { target: targets[i], value }
            } else {
                StmtView::Assign { target: targets[i], value }
            },
    )
}

/// A statement that starts with an expression: assignments, an equation or
/// the expression alone.
pub open spec fn expr_statement(t: Seq<TokenView>, p: int) -> Result<(Seq<StmtView>, int), ParseErrorView> {
    match expression(t, p) {
        Err(e) => Err(e),
        Ok((first, q)) => if 0 <= q && q + 1 < t.len() && (is_op(t, q, ":="@) || is_op(t, q, "::="@)) {
            match first {
                ExprView::Var(target) => match expression(t, q + 1) {
                    Err(e) => Err(e),
                    Ok((v, r)) => match chain(t, r, seq![target], v) {
                        Err(e) => Err(e),
                        Ok((targets, value, u)) => Ok((assignments(targets, value, is_op(t, q, "::="@)), u)),
                    },
                },
                _ => Err(err_at(t, q, "слева от := должна быть переменная"@)),
            }
        } else if 0 <= q && q + 1 < t.len() && is_op(t, q, "="@) {
            match expression(t, q + 1) {
                Err(e) => Err(e),
                Ok((right, r)) => Ok((seq![StmtView::Equation { left: first, right }], r)),
            }
        } else {
            Ok((seq![StmtView::Expr(first)], q))
        },
    }
}

/// What follows `if (c) then_body [else else_body]` at `u`.
pub open spec fn if_end(
    t: Seq<TokenView>,
    u: int,
    c: ExprView,
    tb: Seq<StmtView>,
    eb: Seq<StmtView>,
    isf: bool,
) -> Result<(Seq<StmtView>, int, bool), ParseErrorView> {
    if word_is(t, u, "endif"@) {
        Ok((seq![StmtView::If { condition: c, then_body: tb, else_body: eb }], u + 1, isf))
    } else {
        Err(err_at(t, u, "не найден endif"@))
    }
}

/// Statements from `p` on, after those in `acc`, up to (not with) `Eof` or
/// one of the words `terms`; each statement's own statements are preceded
/// by the line it starts on. `isf` tells whether `function` was seen.
pub open spec fn block(
    t: Seq<TokenView>,
    p: int,
    terms: Seq<Seq<char>>,
    acc: Seq<StmtView>,
    isf: bool,
) -> Result<(Seq<StmtView>, int, bool), ParseErrorView>
    decreases t.len() - p, 3int,
{
    if !(0 <= p < t.len()) {
        Err(stuck())
    } else {
        let a = skip_eol(t, p);
        proof {
            lemma_skip_eol(t, p);
        }
        if t[a].tok == TokView::Eof || any_word(t, a, terms) {
            Ok((acc, a, isf))
        } else {
            match statement(t, a, isf) {
                Err(e) => Err(e),
                Ok((out, b, isf2)) => if b == a {
                    Err(err_at(t, b, msg_statement(t[b].tok)))
                } else if a < b < t.len() {
                    block(
                        t,
                        b,
                        terms,
                        if out.len() > 0 {
                            acc.push(StmtView::At(t[a].line)) + out
                        } else {
                            acc
                        },
                        isf2,
                    )
                } else {
                    Err(stuck())
                },
            }
        }
    }
}

/// One statement at `p`: the statements it stands for, the position after
/// it, and whether `function` has been seen.
pub open spec fn statement(t: Seq<TokenView>, p: int, isf: bool) -> Result<
    (Seq<StmtView>, int, bool),
    ParseErrorView,
>
    decreases t.len() - p, 2int,
{
    if !(0 <= p < t.len()) {
        Err(stuck())
    } else if word_is(t, p, "if"@) {
        match parenthesized(t, p + 1) {
            Err(e) => Err(e),
            Ok((c, r)) => if p < r < t.len() {
                match block(t, r, seq!["else"@, "endif"@], Seq::empty(), isf) {
                    Err(e) => Err(e),
                    Ok((tb, s, isf1)) => if p < s < t.len() {
                        if word_is(t, s, "else"@) {
                            match block(t, s + 1, seq!["endif"@], Seq::empty(), isf1) {
                                Err(e) => Err(e),
                                Ok((eb, u, isf2)) => if_end(t, u, c, tb, eb, isf2),
                            }
                        } else {
                            if_end(t, s, c, tb, Seq::empty(), isf1)
                        }
                    } else {
                        Err(stuck())
                    },
                }
            } else {
                Err(stuck())
            },
        }
    } else if word_is(t, p, "while"@) {
        match parenthesized(t, p + 1) {
            Err(e) => Err(e),
            Ok((c, r)) => if p < r < t.len() {
                match block(t, r, seq!["endwhile"@], Seq::empty(), isf) {
                    Err(e) => Err(e),
                    Ok((b, s, isf1)) => if word_is(t, s, "endwhile"@) {
                        Ok((seq![StmtView::While { condition: c, body: b }], s + 1, isf1))
                    } else {
                        Err(err_at(t, s, "не найден endwhile"@))
                    },
                }
            } else {
                Err(stuck())
            },
        }
    } else if word_is(t, p, "do"@) {
        match block(t, p + 1, seq!["until"@], Seq::empty(), isf) {
            Err(e) => Err(e),
            Ok((b, s, isf1)) => if word_is(t, s, "until"@) {
                match parenthesized(t, s + 1) {
                    Err(e) => Err(e),
                    Ok((c, u)) => Ok((seq![StmtView::DoUntil { body: b, condition: c }], u, isf1)),
                }
            } else {
                Err(err_at(t, s, "не найден until"@))
            },
        }
    } else if word_is(t, p, "switch"@) {
        switch_arms(t, p + 1, Seq::empty(), Seq::empty(), isf)
    } else if word_is(t, p, "break"@) {
        Ok((seq![StmtView::Break], p + 1, isf))
    } else if word_is(t, p, "return"@) {
        if t[p + 1].tok == TokView::Eol || t[p + 1].tok == TokView::Eof {
            Ok((seq![StmtView::Return(None)], p + 1, isf))
        } else {
            match expression(t, p + 1) {
                Err(e) => Err(e),
                Ok((e, r)) => Ok((seq![StmtView::Return(Some(e))], r, isf)),
            }
        }
    } else if word_is(t, p, "function"@) {
        Ok((Seq::empty(), p + 1, true))
    } else if p + 1 < t.len() && is_op(t, p, "?"@) {
        match names(t, p + 1, Seq::empty()) {
            Err(e) => Err(e),
            Ok((ns, r)) => Ok((seq![StmtView::Unknowns(ns)], r, isf)),
        }
    } else {
        match t[p].tok {
            TokView::Ident(w) => if type_name_of(w) is Some && looks_like_declaration(t, p) {
                let (local, parameter, q) = modifiers(t, p + 1, false, false);
                match names(t, q, Seq::empty()) {
                    Err(e) => Err(e),
                    Ok((ns, r)) => Ok((
                        seq![StmtView::Declare(DeclView {
                            var_type: type_name_of(w)->0,
                            local,
                            parameter,
                            names: ns,
                        })],
                        r,
                        isf,
                    )),
                }
            } else if is_keyword(w) {
                Err(err_at(t, p, msg_keyword(w)))
            } else {
                match expr_statement(t, p) {
                    Err(e) => Err(e),
                    Ok((out, r)) => Ok((out, r, isf)),
                }
            },
            _ => match expr_statement(t, p) {
                Err(e) => Err(e),
                Ok((out, r)) => Ok((out, r, isf)),
            },
        }
    }
}

/// The `case` and `default` parts of a `switch` from `p` on, up to and with
/// `endswitch`.
pub open spec fn switch_arms(
    t: Seq<TokenView>,
    p: int,
    arms: Seq<ArmView>,
    dflt: Seq<StmtView>,
    isf: bool,
) -> Result<(Seq<StmtView>, int, bool), ParseErrorView>
    decreases t.len() - p, 1int,
{
    if !(0 <= p < t.len()) {
        Err(stuck())
    } else {
        let a = skip_eol(t, p);
        proof {
            lemma_skip_eol(t, p);
        }
        if word_is(t, a, "case"@) {
            match parenthesized(t, a + 1) {
                Err(e) => Err(e),
                Ok((c, r)) => if a < r < t.len() {
                    match block(t, r, seq!["case"@, "default"@, "endswitch"@], Seq::empty(), isf) {
                        Err(e) => Err(e),
                        Ok((b, s, isf1)) => if p < s < t.len() {
                            switch_arms(t, s, arms.push(ArmView { condition: c, body: b }), dflt, isf1)
                        } else {
                            Err(stuck())
                        },
                    }
                } else {
                    Err(stuck())
                },
            }
        } else if word_is(t, a, "default"@) {
            match block(t, a + 1, seq!["case"@, "endswitch"@], Seq::empty(), isf) {
                Err(e) => Err(e),
                Ok((d, s, isf1)) => if p < s < t.len() {
                    switch_arms(t, s, arms, d, isf1)
                } else {
                    Err(stuck())
                },
            }
        } else if word_is(t, a, "endswitch"@) {
            Ok((seq![StmtView::Switch { arms, default: dflt }], a + 1, isf))
        } else if t[a].tok == TokView::Eof {
            Err(err_at(t, a, "не найден endswitch"@))
        } else {
            Err(err_at(t, a, msg_in_switch(t[a].tok)))
        }
    }
}

/// The whole text: its statements and whether it is a function.
pub open spec fn parse_tokens(t: Seq<TokenView>) -> Result<(Seq<StmtView>, bool), ParseErrorView> {
    match block(t, 0, Seq::empty(), Seq::empty(), false) {
        Err(e) => Err(e),
        Ok((body, p, isf)) => if t[p].tok == TokView::Eof {
            Ok((body, isf))
        } else {
            Err(err_at(t, p, msg_excess(t[p].tok)))
        },
    }
}

/// A text: its statements and whether it is a function; or the first
/// error of its lexer or of its grammar.
pub open spec fn parsed(src: Seq<char>) -> Result<(Seq<StmtView>, bool), ParseErrorView> {
    match lex(src, 0, (1, 1)) {
        Err(e) => Err(ParseErrorView { message: e.message, line: e.line, column: e.column }),
        Ok(ts) => parse_tokens(ts),
    }
}

/// The declarations among statements, in the order they stand, those
/// inside `if`, `while`, `do` and `switch` included.
pub open spec fn decls_of(s: Seq<StmtView>) -> Seq<DeclView>
    decreases s,
{
    if s.len() == 0 {
        Seq::empty()
    } else {
        decls_of(s.subrange(0, s.len() - 1)) + decls_in(s[s.len() - 1])
    }
}

pub open spec fn decls_in(st: StmtView) -> Seq<DeclView>
    decreases st,
{
    match st {
        StmtView::Declare(d) => seq![d],
        StmtView::If { then_body, else_body, .. } => decls_of(then_body) + decls_of(else_body),
        StmtView::While { body, .. } => decls_of(body),
        StmtView::DoUntil { body, .. } => decls_of(body),
        StmtView::Switch { arms, default } => arm_decls(arms) + decls_of(default),
        _ => Seq::empty(),
    }
}

pub open spec fn arm_decls(arms: Seq<ArmView>) -> Seq<DeclView>
    decreases arms,
{
    if arms.len() == 0 {
        Seq::empty()
    } else {
        arm_decls(arms.subrange(0, arms.len() - 1)) + decls_of(arms[arms.len() - 1].body)
    }
}

pub proof fn lemma_decls_step(s: Seq<StmtView>, x: StmtView)
    ensures
        decls_of(s.push(x)) == decls_of(s) + decls_in(x),
{
    assert(s.push(x).subrange(0, s.len() as int) =~= s);
}

pub proof fn lemma_arm_decls_step(s: Seq<ArmView>, x: ArmView)
    ensures
        arm_decls(s.push(x)) == arm_decls(s) + decls_of(x.body),
{
    assert(s.push(x).subrange(0, s.len() as int) =~= s);
}

} // verus!
