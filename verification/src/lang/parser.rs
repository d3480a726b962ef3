//! The parser of an image's text.
//!
//! Operator levels follow the help section on operators and the compiler's
//! table of operators.

use vstd::prelude::*;
use crate::lang::ast::{
    arm_view, decl_view, decls_view, lemma_exprs_push, DeclView, Model,
    arms_view, expr_view, exprs_view, lemma_arms_push, lemma_names_push, lemma_stmts_concat,
    lemma_stmts_len, lemma_stmts_push, names_view, stmt_view, stmts_view, ArmView, BinOp, CaseArm,
    Declaration, Expr, ExprView, Stmt, StmtView, UnOp,
};
use crate::lang::lexer::{tokenize, tokens_view, LexError, LexErrorView, Tok, TokView, Token, TokenView};
use crate::lang::syntax::{
    args, back, binary, binary_tail, err_at, is_op, msg_expected, msg_expression, next, primary,
    skip_eol, tok_text, unary, well_formed, word_is, any_word, lemma_skip_eol, ParseErrorView, expression,
    assignments, block, chain, expr_statement, is_keyword, is_modifier, looks_like_declaration,
    modifiers, names, parenthesized, statement, switch_arms, type_name_of,
    arm_decls, decls_of, lemma_arm_decls_step, lemma_decls_step, lemma_lex_well_formed, msg_excess,
    parse_tokens, parsed,
};
use crate::numtext::{decimal, push_decimal};
use crate::text::{chars_of, str_eq_ignore_ascii_case};

verus! {

#[derive(Debug, Clone)]
pub struct ParseError {
    pub message: String,
    pub line: u32,
    pub column: u32,
}

impl View for ParseError {
    type V = ParseErrorView;

    open spec fn view(&self) -> ParseErrorView {
        ParseErrorView { message: self.message@, line: self.line as int, column: self.column as int }
    }
}

/// `строка L, позиция C: message`, as the error is shown.
pub open spec fn parse_error_text(e: ParseErrorView) -> Seq<char> {
    "строка "@ + decimal(e.line as nat) + ", позиция "@ + decimal(e.column as nat) + ": "@
        + e.message
}

impl ParseError {
    /// The error as one line of text.
    pub fn to_text(&self) -> (s: String)
        ensures
            s@ == parse_error_text(self@),
    {
        let mut s = String::new();
        s.append("строка ");
        push_decimal(&mut s, self.line as u64);
        s.append(", позиция ");
        push_decimal(&mut s, self.column as u64);
        s.append(": ");
        s.append(self.message.as_str());
        s
    }

    /// The error of the lexer as an error of the parser.
    pub fn from_lex(e: LexError) -> (p: ParseError)
        ensures
            p.message@ == e.message@,
            p.line == e.line,
            p.column == e.column,
    {
        ParseError { message: e.message, line: e.line, column: e.column }
    }
}

/// A binary operator and how strongly it binds (more binds stronger).
pub open spec fn binop_of(op: Seq<char>) -> Option<(BinOp, u8)> {
    if op == "^"@ {
        Some((BinOp::Pow, 9))
    } else if op == "*"@ {
        Some((BinOp::Mul, 8))
    } else if op == "/"@ {
        Some((BinOp::Div, 8))
    } else if op == "%"@ {
        Some((BinOp::Mod, 8))
    } else if op == "+"@ {
        Some((BinOp::Add, 7))
    } else if op == "-"@ {
        Some((BinOp::Sub, 7))
    } else if op == ">"@ {
        Some((BinOp::Gt, 6))
    } else if op == ">="@ {
        Some((BinOp::Ge, 6))
    } else if op == "<"@ {
        Some((BinOp::Lt, 6))
    } else if op == "<="@ {
        Some((BinOp::Le, 6))
    } else if op == "=="@ {
        Some((BinOp::Eq, 5))
    } else if op == "!="@ {
        Some((BinOp::Ne, 5))
    } else if op == "&"@ {
        Some((BinOp::AndBit, 4))
    } else if op == "|"@ {
        Some((BinOp::OrBit, 3))
    } else if op == "&&"@ {
        Some((BinOp::AndLogic, 2))
    } else if op == "<<"@ {
        Some((BinOp::Shl, 2))
    } else if op == "||"@ {
        Some((BinOp::OrLogic, 1))
    } else if op == ">>"@ {
        Some((BinOp::Shr, 1))
    } else {
        None
    }
}

/// How each binary operator is written.
pub open spec fn binop_text(k: BinOp) -> Seq<char> {
    match k {
        BinOp::Pow => "^"@,
        BinOp::Mul => "*"@,
        BinOp::Div => "/"@,
        BinOp::Mod => "%"@,
        BinOp::Add => "+"@,
        BinOp::Sub => "-"@,
        BinOp::Gt => ">"@,
        BinOp::Ge => ">="@,
        BinOp::Lt => "<"@,
        BinOp::Le => "<="@,
        BinOp::Eq => "=="@,
        BinOp::Ne => "!="@,
        BinOp::AndBit => "&"@,
        BinOp::OrBit => "|"@,
        BinOp::AndLogic => "&&"@,
        BinOp::Shl => "<<"@,
        BinOp::OrLogic => "||"@,
        BinOp::Shr => ">>"@,
    }
}

/// An operator read from a text is the operator that text is written as.
proof fn lemma_binop_text(op: Seq<char>)
    ensures
        binop_of(op) matches Some((k, _)) ==> op == binop_text(k),
{
    if op == "^"@ {
    } else if op == "*"@ {
    } else if op == "/"@ {
    } else if op == "%"@ {
    } else if op == "+"@ {
    } else if op == "-"@ {
    } else if op == ">"@ {
    } else if op == ">="@ {
    } else if op == "<"@ {
    } else if op == "<="@ {
    } else if op == "=="@ {
    } else if op == "!="@ {
    } else if op == "&"@ {
    } else if op == "|"@ {
    } else if op == "&&"@ {
    } else if op == "<<"@ {
    } else if op == "||"@ {
    } else if op == ">>"@ {
    }
}

/// The operators as the table of the language lists them.
proof fn lemma_binop_table()
    ensures
        binop_of("^"@) == Some((BinOp::Pow, 9u8)),
        binop_of("*"@) == Some((BinOp::Mul, 8u8)),
        binop_of("/"@) == Some((BinOp::Div, 8u8)),
        binop_of("%"@) == Some((BinOp::Mod, 8u8)),
        binop_of("+"@) == Some((BinOp::Add, 7u8)),
        binop_of("-"@) == Some((BinOp::Sub, 7u8)),
        binop_of(">"@) == Some((BinOp::Gt, 6u8)),
        binop_of(">="@) == Some((BinOp::Ge, 6u8)),
        binop_of("<"@) == Some((BinOp::Lt, 6u8)),
        binop_of("<="@) == Some((BinOp::Le, 6u8)),
        binop_of("=="@) == Some((BinOp::Eq, 5u8)),
        binop_of("!="@) == Some((BinOp::Ne, 5u8)),
        binop_of("&"@) == Some((BinOp::AndBit, 4u8)),
        binop_of("|"@) == Some((BinOp::OrBit, 3u8)),
        binop_of("&&"@) == Some((BinOp::AndLogic, 2u8)),
        binop_of("<<"@) == Some((BinOp::Shl, 2u8)),
        binop_of("||"@) == Some((BinOp::OrLogic, 1u8)),
        binop_of(">>"@) == Some((BinOp::Shr, 1u8)),
{
    reveal_strlit("^");
    assert("^"@.len() == 1 && "^"@[0] == '^');
    reveal_strlit("*");
    assert("*"@.len() == 1 && "*"@[0] == '*');
    reveal_strlit("/");
    assert("/"@.len() == 1 && "/"@[0] == '/');
    reveal_strlit("%");
    assert("%"@.len() == 1 && "%"@[0] == '%');
    reveal_strlit("+");
    assert("+"@.len() == 1 && "+"@[0] == '+');
    reveal_strlit("-");
    assert("-"@.len() == 1 && "-"@[0] == '-');
    reveal_strlit(">");
    assert(">"@.len() == 1 && ">"@[0] == '>');
    reveal_strlit(">=");
    assert(">="@.len() == 2 && ">="@[0] == '>' && ">="@[1] == '=');
    reveal_strlit("<");
    assert("<"@.len() == 1 && "<"@[0] == '<');
    reveal_strlit("<=");
    assert("<="@.len() == 2 && "<="@[0] == '<' && "<="@[1] == '=');
    reveal_strlit("==");
    assert("=="@.len() == 2 && "=="@[0] == '=' && "=="@[1] == '=');
    reveal_strlit("!=");
    assert("!="@.len() == 2 && "!="@[0] == '!' && "!="@[1] == '=');
    reveal_strlit("&");
    assert("&"@.len() == 1 && "&"@[0] == '&');
    reveal_strlit("|");
    assert("|"@.len() == 1 && "|"@[0] == '|');
    reveal_strlit("&&");
    assert("&&"@.len() == 2 && "&&"@[0] == '&' && "&&"@[1] == '&');
    reveal_strlit("<<");
    assert("<<"@.len() == 2 && "<<"@[0] == '<' && "<<"@[1] == '<');
    reveal_strlit("||");
    assert("||"@.len() == 2 && "||"@[0] == '|' && "||"@[1] == '|');
    reveal_strlit(">>");
    assert(">>"@.len() == 2 && ">>"@[0] == '>' && ">>"@[1] == '>');
}

/// Each operator text names its own operator: a text read as an operator is
/// the text of that operator, so two different texts never give the same
/// operator; and every operator is read from its text, with the levels
/// from `^` (9) down to `||` and `>>` (1).
pub proof fn law_binop_names(op: Seq<char>, other: Seq<char>)
    ensures
        binop_of(op) matches Some((k, _)) ==> op == binop_text(k),
        (binop_of(op) matches Some((k, _)) && binop_of(other) matches Some((k2, _)) && k == k2) ==> op == other,
        binop_of("^"@) == Some((BinOp::Pow, 9u8)),
        binop_of("*"@) == Some((BinOp::Mul, 8u8)),
        binop_of("/"@) == Some((BinOp::Div, 8u8)),
        binop_of("%"@) == Some((BinOp::Mod, 8u8)),
        binop_of("+"@) == Some((BinOp::Add, 7u8)),
        binop_of("-"@) == Some((BinOp::Sub, 7u8)),
        binop_of(">"@) == Some((BinOp::Gt, 6u8)),
        binop_of(">="@) == Some((BinOp::Ge, 6u8)),
        binop_of("<"@) == Some((BinOp::Lt, 6u8)),
        binop_of("<="@) == Some((BinOp::Le, 6u8)),
        binop_of("=="@) == Some((BinOp::Eq, 5u8)),
        binop_of("!="@) == Some((BinOp::Ne, 5u8)),
        binop_of("&"@) == Some((BinOp::AndBit, 4u8)),
        binop_of("|"@) == Some((BinOp::OrBit, 3u8)),
        binop_of("&&"@) == Some((BinOp::AndLogic, 2u8)),
        binop_of("<<"@) == Some((BinOp::Shl, 2u8)),
        binop_of("||"@) == Some((BinOp::OrLogic, 1u8)),
        binop_of(">>"@) == Some((BinOp::Shr, 1u8)),
{
    lemma_binop_text(op);
    lemma_binop_text(other);
    lemma_binop_table();
}

fn is(a: &Vec<char>, b: &str) -> (r: bool)
    ensures
        r == (a@ == b@),
{
    crate::text::chars_eq(a, &chars_of(b))
}

/// The binary operator written `op`, with its level.
pub fn binop(op: &str) -> (r: Option<(BinOp, u8)>)
    ensures
        r == binop_of(op@),
{
    let o = chars_of(op);
    if is(&o, "^") {
        Some((BinOp::Pow, 9))
    } else if is(&o, "*") {
        Some((BinOp::Mul, 8))
    } else if is(&o, "/") {
        Some((BinOp::Div, 8))
    } else if is(&o, "%") {
        Some((BinOp::Mod, 8))
    } else if is(&o, "+") {
        Some((BinOp::Add, 7))
    } else if is(&o, "-") {
        Some((BinOp::Sub, 7))
    } else if is(&o, ">") {
        Some((BinOp::Gt, 6))
    } else if is(&o, ">=") {
        Some((BinOp::Ge, 6))
    } else if is(&o, "<") {
        Some((BinOp::Lt, 6))
    } else if is(&o, "<=") {
        Some((BinOp::Le, 6))
    } else if is(&o, "==") {
        Some((BinOp::Eq, 5))
    } else if is(&o, "!=") {
        Some((BinOp::Ne, 5))
    } else if is(&o, "&") {
        Some((BinOp::AndBit, 4))
    } else if is(&o, "|") {
        Some((BinOp::OrBit, 3))
    } else if is(&o, "&&") {
        Some((BinOp::AndLogic, 2))
    } else if is(&o, "<<") {
        Some((BinOp::Shl, 2))
    } else if is(&o, "||") {
        Some((BinOp::OrLogic, 1))
    } else if is(&o, ">>") {
        Some((BinOp::Shr, 1))
    } else {
        None
    }
}

/// Equal texts.
fn same_str(a: &str, b: &str) -> (r: bool)
    ensures
        r == (a@ == b@),
{
    crate::text::chars_eq(&chars_of(a), &chars_of(b))
}

/// A copy of a token.
fn copy_tok(t: &Tok) -> (r: Tok)
    ensures
        r@ == t@,
{
    match t {
        Tok::Ident(s) => Tok::Ident(s.clone()),
        Tok::Number(s) => Tok::Number(s.clone()),
        Tok::Str(s) => Tok::Str(s.clone()),
        Tok::Handle(s) => Tok::Handle(s.clone()),
        Tok::Op(o) => Tok::Op(*o),
        Tok::Eol => Tok::Eol,
        Tok::Eof => Tok::Eof,
    }
}

/// A token as the parser's messages show it.
pub fn tok_text_of(t: &Tok) -> (s: String)
    ensures
        s@ == tok_text(t@),
{
    match t {
        Tok::Ident(s) => s.clone(),
        Tok::Number(n) => n.clone(),
        Tok::Str(s) => {
            let mut r = String::new();
            r.append("\"");
            r.append(s.as_str());
            r.append("\"");
            r
        },
        Tok::Handle(h) => {
            let mut r = String::new();
            r.append("#");
            r.append(h.as_str());
            r
        },
        Tok::Op(o) => {
            let mut r = String::new();
            r.append(*o);
            r
        },
        Tok::Eol => String::from_str("конец строки"),
        Tok::Eof => String::from_str("конец текста"),
    }
}

/// `prefix`, then the token.
fn with_tok(prefix: &str, t: &Tok) -> (s: String)
    ensures
        s@ == prefix@ + tok_text(t@),
{
    let mut s = String::from_str(prefix);
    let rest = tok_text_of(t);
    s.append(rest.as_str());
    s
}

/// A copy of an expression.
pub fn copy_expr(e: &Expr) -> (r: Expr)
    ensures
        expr_view(r) == expr_view(*e),
    decreases e,
{
    match e {
        Expr::Number(s) => Expr::Number(s.clone()),
        Expr::Str(s) => Expr::Str(s.clone()),
        Expr::Handle(s) => Expr::Handle(s.clone()),
        Expr::Var(s) => Expr::Var(s.clone()),
        Expr::Unary(o, a) => Expr::Unary(*o, Box::new(copy_expr(a))),
        Expr::Binary(o, a, b) => Expr::Binary(*o, Box::new(copy_expr(a)), Box::new(copy_expr(b))),
        Expr::Call(n, xs) => Expr::Call(n.clone(), copy_exprs(xs)),
    }
}

/// A copy of a list of expressions.
pub fn copy_exprs(xs: &Vec<Expr>) -> (r: Vec<Expr>)
    ensures
        exprs_view(r@) == exprs_view(xs@),
    decreases xs,
{
    let mut out: Vec<Expr> = Vec::new();
    let mut i: usize = 0;
    while i < xs.len()
        invariant
            i <= xs.len(),
            exprs_view(out@) == exprs_view(xs@.subrange(0, i as int)),
        decreases xs.len() - i,
    {
        let c = copy_expr(&xs[i]);
        proof {
            lemma_exprs_push(out@, c);
            lemma_exprs_push(xs@.subrange(0, i as int), xs@[i as int]);
            assert(xs@.subrange(0, i as int).push(xs@[i as int]) =~= xs@.subrange(0, i as int + 1));
        }
        out.push(c);
        i = i + 1;
    }
    assert(xs@.subrange(0, xs.len() as int) =~= xs@);
    out
}

pub open spec fn strs_view(ws: Seq<&str>) -> Seq<Seq<char>> {
    ws.map_values(|w: &str| w@)
}

/// What a parser of a statement gives back: the statements added to `out`.
pub open spec fn stmt_result(
    r: Result<(), ParseError>,
    g: Result<(Seq<StmtView>, int, bool), ParseErrorView>,
    before: Seq<Stmt>,
    after: Seq<Stmt>,
    pos: int,
    isf: bool,
) -> bool {
    match g {
        Ok((ss, q, f)) => r is Ok && stmts_view(after) == stmts_view(before) + ss && pos == q && isf == f,
        Err(e) => r matches Err(x) && x@ == e,
    }
}

/// What a parser of a block gives back.
pub open spec fn block_result(
    r: Result<Vec<Stmt>, ParseError>,
    g: Result<(Seq<StmtView>, int, bool), ParseErrorView>,
    pos: int,
    isf: bool,
) -> bool {
    match g {
        Ok((ss, q, f)) => r matches Ok(v) && stmts_view(v@) == ss && pos == q && isf == f,
        Err(e) => r matches Err(x) && x@ == e,
    }
}

fn emit(out: &mut Vec<Stmt>, st: Stmt)
    ensures
        stmts_view(final(out)@) == stmts_view(old(out)@) + seq![stmt_view(st)],
{
    let ghost o = out@;
    let ghost v = stmt_view(st);
    out.push(st);
    proof {
        lemma_stmts_push(o, st);
        assert(stmts_view(o).push(v) =~= stmts_view(o) + seq![v]);
    }
}

fn text(s: &str) -> (r: String)
    ensures
        r@ == s@,
{
    String::from_str(s)
}

/// The type named by `w` at the start of a declaration.
fn declared_type(w: &str) -> (r: Option<&'static str>)
    ensures
        match type_name_of(w@) {
            Some(n) => r matches Some(x) && x@ == n,
            None => r is None,
        },
{
    if str_eq_ignore_ascii_case(w, "FLOAT") {
        Some("FLOAT")
    } else if str_eq_ignore_ascii_case(w, "STRING") {
        Some("STRING")
    } else if str_eq_ignore_ascii_case(w, "HANDLE") {
        Some("HANDLE")
    } else if str_eq_ignore_ascii_case(w, "COLORREF") {
        Some("COLORREF")
    } else if str_eq_ignore_ascii_case(w, "INTEGER") {
        Some("INTEGER")
    } else if str_eq_ignore_ascii_case(w, "WORD") {
        Some("WORD")
    } else if str_eq_ignore_ascii_case(w, "BYTE") {
        Some("BYTE")
    } else if str_eq_ignore_ascii_case(w, "POINTER") {
        Some("POINTER")
    } else {
        None
    }
}

fn keyword(w: &str) -> (b: bool)
    ensures
        b == is_keyword(w@),
{
    str_eq_ignore_ascii_case(w, "if") || str_eq_ignore_ascii_case(w, "else") || str_eq_ignore_ascii_case(
        w,
        "endif",
    ) || str_eq_ignore_ascii_case(w, "while") || str_eq_ignore_ascii_case(w, "endwhile")
        || str_eq_ignore_ascii_case(w, "do") || str_eq_ignore_ascii_case(w, "until")
        || str_eq_ignore_ascii_case(w, "switch") || str_eq_ignore_ascii_case(w, "case")
        || str_eq_ignore_ascii_case(w, "default") || str_eq_ignore_ascii_case(w, "endswitch")
        || str_eq_ignore_ascii_case(w, "break") || str_eq_ignore_ascii_case(w, "function")
        || str_eq_ignore_ascii_case(w, "return") || str_eq_ignore_ascii_case(w, "local")
}

fn modifier(w: &str) -> (b: bool)
    ensures
        b == is_modifier(w@),
{
    str_eq_ignore_ascii_case(w, "local") || str_eq_ignore_ascii_case(w, "parameter")
        || str_eq_ignore_ascii_case(w, "nosave")
}

/// A copy of a list of names.
fn copy_names(ns: &Vec<String>) -> (r: Vec<String>)
    ensures
        names_view(r@) == names_view(ns@),
{
    let mut out: Vec<String> = Vec::new();
    let mut i: usize = 0;
    while i < ns.len()
        invariant
            i <= ns.len(),
            names_view(out@) == names_view(ns@.subrange(0, i as int)),
        decreases ns.len() - i,
    {
        let n = ns[i].clone();
        proof {
            lemma_names_push(out@, n);
            assert(ns@.subrange(0, i as int + 1) =~= ns@.subrange(0, i as int).push(ns@[i as int]));
            lemma_names_push(ns@.subrange(0, i as int), ns@[i as int]);
        }
        out.push(n);
        i = i + 1;
    }
    assert(ns@.subrange(0, ns.len() as int) =~= ns@);
    out
}

/// A copy of a declaration.
pub fn copy_declaration(d: &Declaration) -> (r: Declaration)
    ensures
        decl_view(r) == decl_view(*d),
{
    Declaration {
        var_type: d.var_type.clone(),
        local: d.local,
        parameter: d.parameter,
        names: copy_names(&d.names),
    }
}

/// Parses the text of an image: its statements, each group of them preceded
/// by the line it starts on, its declarations, and whether it is a function;
/// or the first error of its lexer or of its grammar.
pub fn parse(src: &str) -> (r: Result<Model, ParseError>)
    requires
        src@.len() < u32::MAX,
    ensures
        match parsed(src@) {
            Ok((body, isf)) => r matches Ok(m) && stmts_view(m.body@) == body && m.is_function == isf
                && decls_view(m.declarations@) == decls_of(body),
            Err(e) => r matches Err(x) && x@ == e,
        },
{
    let tokens = match tokenize(src) {
        Ok(t) => t,
        Err(e) => return Err(ParseError::from_lex(e)),
    };
    proof {
        lemma_lex_well_formed(src@, 0, (1, 1));
    }
    let mut p = Parser { tokens, pos: 0, is_function: false };
    let none: &[&str] = &[];
    assert(strs_view(none@) =~= Seq::<Seq<char>>::empty());
    let body = match p.block(none) {
        Ok(b) => b,
        Err(e) => return Err(e),
    };
    if !p.at_eof() {
        let m = with_tok("лишний текст: ", p.peek());
        return Err(p.error(m));
    }
    let mut declarations: Vec<Declaration> = Vec::new();
    collect_declarations(&body, &mut declarations);
    assert(decls_view(declarations@) =~= Seq::<DeclView>::empty() + decls_of(stmts_view(body@)));
    Ok(Model { is_function: p.is_function, declarations, body })
}

/// Adds to `out` the declarations among `body`, nested ones included, in
/// the order they stand.
pub fn collect_declarations(body: &Vec<Stmt>, out: &mut Vec<Declaration>)
    ensures
        decls_view(final(out)@) == decls_view(old(out)@) + decls_of(stmts_view(body@)),
    decreases body,
{
    let mut i: usize = 0;
    assert(body@.subrange(0, 0) =~= Seq::<Stmt>::empty());
    assert(decls_view(out@) + decls_of(stmts_view(body@.subrange(0, 0))) =~= decls_view(out@));
    while i < body.len()
        invariant
            i <= body.len(),
            decls_view(out@) == decls_view(old(out)@) + decls_of(stmts_view(body@.subrange(0, i as int))),
        decreases body.len() - i,
    {
        let ghost before = out@;
        match &body[i] {
            Stmt::Declare(d) => {
                let c = copy_declaration(d);
                out.push(c);
                assert(decls_view(out@) =~= decls_view(before) + seq![decl_view(c)]);
            },
            Stmt::If { then_body, else_body, .. } => {
                collect_declarations(then_body, out);
                collect_declarations(else_body, out);
            },
            Stmt::While { body: b, .. } => {
                collect_declarations(b, out);
            },
            Stmt::DoUntil { body: b, .. } => {
                collect_declarations(b, out);
            },
            Stmt::Switch { arms, default } => {
                let mut j: usize = 0;
                assert(arms@.subrange(0, 0) =~= Seq::<CaseArm>::empty());
                assert(decls_view(out@) + arm_decls(arms_view(arms@.subrange(0, 0))) =~= decls_view(out@));
                while j < arms.len()
                    invariant
                        j <= arms.len(),
                        i < body.len(),
                        body@[i as int] matches Stmt::Switch { arms: a, .. } && a == *arms,
                        decls_view(out@) == decls_view(before) + arm_decls(arms_view(arms@.subrange(0, j as int))),
                    decreases arms.len() - j,
                {
                    let ghost mid = out@;
                    collect_declarations(&arms[j].body, out);
                    proof {
                        assert(arms@.subrange(0, j as int + 1) =~= arms@.subrange(0, j as int).push(arms@[j as int]));
                        lemma_arms_push(arms@.subrange(0, j as int), arms@[j as int]);
                        lemma_arm_decls_step(arms_view(arms@.subrange(0, j as int)), arm_view(arms@[j as int]));
                        assert(decls_view(out@) =~= decls_view(before) + arm_decls(arms_view(arms@.subrange(0, j as int + 1))));
                    }
                    j = j + 1;
                }
                assert(arms@.subrange(0, arms.len() as int) =~= arms@);
                collect_declarations(default, out);
                assert(decls_view(out@) =~= decls_view(before) + (arm_decls(arms_view(arms@)) + decls_of(stmts_view(default@))));
            },
            _ => {
                assert(decls_view(out@) =~= decls_view(before) + Seq::<DeclView>::empty());
            },
        }
        proof {
            assert(body@.subrange(0, i as int + 1) =~= body@.subrange(0, i as int).push(body@[i as int]));
            lemma_stmts_push(body@.subrange(0, i as int), body@[i as int]);
            lemma_decls_step(stmts_view(body@.subrange(0, i as int)), stmt_view(body@[i as int]));
            assert(decls_view(out@) =~= decls_view(old(out)@) + decls_of(stmts_view(body@.subrange(0, i as int + 1))));
        }
        i = i + 1;
    }
    assert(body@.subrange(0, body.len() as int) =~= body@);
}

/// A parser over the tokens of a text; `pos` is the token it looks at.
pub struct Parser {
    pub tokens: Vec<Token>,
    pub pos: usize,
    pub is_function: bool,
}

/// What a parser of an expression gives back, against the grammar's result.
pub open spec fn expr_result(
    r: Result<Expr, ParseError>,
    g: Result<(ExprView, int), ParseErrorView>,
    pos: int,
) -> bool {
    match g {
        Ok((e, q)) => r matches Ok(x) && expr_view(x) == e && pos == q,
        Err(e) => r matches Err(x) && x@ == e,
    }
}

impl Parser {
    pub open spec fn toks(&self) -> Seq<TokenView> {
        tokens_view(self.tokens@)
    }

    /// Tokens ending with `Eof`, and a position among them.
    pub open spec fn wf(&self) -> bool {
        well_formed(self.toks()) && self.pos < self.tokens@.len()
    }

    /// Both parsers read the same tokens and agree on `function`.
    pub open spec fn same_text(&self, other: &Parser) -> bool {
        self.tokens@ == other.tokens@ && self.is_function == other.is_function
    }

    fn peek(&self) -> (t: &Tok)
        requires
            self.wf(),
        ensures
            t@ == self.toks()[self.pos as int].tok,
    {
        &self.tokens[self.pos].tok
    }

    fn at_eof(&self) -> (b: bool)
        requires
            self.wf(),
        ensures
            b == (self.toks()[self.pos as int].tok == TokView::Eof),
    {
        match self.peek() {
            Tok::Eof => true,
            _ => false,
        }
    }

    fn at_eol(&self) -> (b: bool)
        requires
            self.wf(),
        ensures
            b == (self.toks()[self.pos as int].tok == TokView::Eol),
    {
        match self.peek() {
            Tok::Eol => true,
            _ => false,
        }
    }

    fn advance(&mut self) -> (t: Tok)
        requires
            old(self).wf(),
        ensures
            final(self).wf(),
            final(self).same_text(old(self)),
            t@ == old(self).toks()[old(self).pos as int].tok,
            final(self).pos == next(old(self).toks(), old(self).pos as int),
    {
        let t = copy_tok(&self.tokens[self.pos].tok);
        if self.pos < self.tokens.len() - 1 {
            self.pos = self.pos + 1;
        }
        t
    }

    /// The error `message` at the token looked at.
    fn error(&self, message: String) -> (e: ParseError)
        requires
            self.wf(),
        ensures
            e@ == err_at(self.toks(), self.pos as int, message@),
    {
        ParseError { message, line: self.tokens[self.pos].line, column: self.tokens[self.pos].column }
    }

    fn skip_eol(&mut self)
        requires
            old(self).wf(),
        ensures
            final(self).wf(),
            final(self).same_text(old(self)),
            final(self).pos == skip_eol(old(self).toks(), old(self).pos as int),
    {
        let ghost t = self.toks();
        let ghost p0 = self.pos as int;
        while self.at_eol()
            invariant
                self.wf(),
                self.same_text(old(self)),
                t == self.toks(),
                skip_eol(t, p0) == skip_eol(t, self.pos as int),
            decreases self.tokens@.len() - self.pos,
        {
            self.advance();
        }
    }

    /// Takes the operator `op` if it is the token looked at.
    fn eat_op(&mut self, op: &str) -> (b: bool)
        requires
            old(self).wf(),
        ensures
            final(self).wf(),
            final(self).same_text(old(self)),
            b == is_op(old(self).toks(), old(self).pos as int, op@),
            final(self).pos == if b { old(self).pos + 1 } else { old(self).pos as int },
    {
        let hit = match self.peek() {
            Tok::Op(o) => same_str(*o, op),
            _ => false,
        };
        if hit {
            self.advance();
        }
        hit
    }

    /// Takes the operator `op` (a bracket) or fails.
    fn expect_op(&mut self, op: &str) -> (r: Result<(), ParseError>)
        requires
            old(self).wf(),
        ensures
            final(self).wf(),
            final(self).same_text(old(self)),
            is_op(old(self).toks(), old(self).pos as int, op@) ==> r is Ok && final(self).pos == old(self).pos + 1,
            !is_op(old(self).toks(), old(self).pos as int, op@) ==> (r matches Err(e) && e@ == err_at(
                old(self).toks(),
                old(self).pos as int,
                msg_expected(op@, old(self).toks()[old(self).pos as int].tok),
            )),
    {
        if self.eat_op(op) {
            Ok(())
        } else {
            let mut m = String::from_str("ожидалось \"");
            m.append(op);
            m.append("\", встречено ");
            let found = tok_text_of(self.peek());
            m.append(found.as_str());
            Err(self.error(m))
        }
    }

    /// The token looked at is the word `w`, whatever the case of its ASCII letters.
    fn word_is(&self, w: &str) -> (b: bool)
        requires
            self.wf(),
        ensures
            b == word_is(self.toks(), self.pos as int, w@),
    {
        match self.peek() {
            Tok::Ident(s) => str_eq_ignore_ascii_case(s.as_str(), w),
            _ => false,
        }
    }

    /// An expression.
    pub fn expression(&mut self) -> (r: Result<Expr, ParseError>)
        requires
            old(self).wf(),
        ensures
            final(self).wf(),
            final(self).same_text(old(self)),
            expr_result(r, binary(old(self).toks(), old(self).pos as int, 0), final(self).pos as int),
            r is Ok ==> old(self).pos < final(self).pos,
        decreases old(self).tokens@.len() - old(self).pos, 5int,
    {
        self.binary(0)
    }

    fn binary(&mut self, min_level: u8) -> (r: Result<Expr, ParseError>)
        requires
            old(self).wf(),
            min_level <= 10,
        ensures
            final(self).wf(),
            final(self).same_text(old(self)),
            expr_result(r, binary(old(self).toks(), old(self).pos as int, min_level as int), final(self).pos as int),
            r is Ok ==> old(self).pos < final(self).pos,
        decreases old(self).tokens@.len() - old(self).pos, 4int,
    {
        let ghost t = self.toks();
        let ghost p0 = self.pos as int;
        let mut left = match self.unary() {
            Ok(e) => e,
            Err(e) => return Err(e),
        };
        loop
            invariant
                self.wf(),
                self.same_text(old(self)),
                t == self.toks(),
                p0 == old(self).pos,
                p0 < self.pos,
                min_level <= 10,
                binary(t, p0, min_level as int) == binary_tail(t, expr_view(left), self.pos as int, min_level as int),
            ensures
                binary(t, p0, min_level as int) == Ok::<(ExprView, int), ParseErrorView>((expr_view(left), self.pos as int)),
            decreases self.tokens@.len() - self.pos,
        {
            let (op, level) = match self.peek() {
                Tok::Op(o) => match binop(*o) {
                    Some(pair) => pair,
                    None => break,
                },
                _ => break,
            };
            if level < min_level {
                break;
            }
            self.advance();
            let right = match self.binary(level + 1) {
                Ok(e) => e,
                Err(e) => return Err(e),
            };
            left = Expr::Binary(op, Box::new(left), Box::new(right));
        }
        Ok(left)
    }

    fn unary(&mut self) -> (r: Result<Expr, ParseError>)
        requires
            old(self).wf(),
        ensures
            final(self).wf(),
            final(self).same_text(old(self)),
            expr_result(r, unary(old(self).toks(), old(self).pos as int), final(self).pos as int),
            r is Ok ==> old(self).pos < final(self).pos,
        decreases old(self).tokens@.len() - old(self).pos, 2int,
    {
        if self.eat_op("-") {
            match self.unary() {
                Ok(e) => Ok(Expr::Unary(UnOp::Neg, Box::new(e))),
                Err(e) => Err(e),
            }
        } else if self.eat_op("+") {
            self.unary()
        } else if self.eat_op("!") {
            match self.unary() {
                Ok(e) => Ok(Expr::Unary(UnOp::Not, Box::new(e))),
                Err(e) => Err(e),
            }
        } else if self.eat_op("~") {
            match self.unary() {
                Ok(e) => Ok(Expr::Unary(UnOp::Old, Box::new(e))),
                Err(e) => Err(e),
            }
        } else {
            self.primary()
        }
    }

    fn primary(&mut self) -> (r: Result<Expr, ParseError>)
        requires
            old(self).wf(),
        ensures
            final(self).wf(),
            final(self).same_text(old(self)),
            expr_result(r, primary(old(self).toks(), old(self).pos as int), final(self).pos as int),
            r is Ok ==> old(self).pos < final(self).pos,
        decreases old(self).tokens@.len() - old(self).pos, 1int,
    {
        let ghost t = self.toks();
        let ghost p0 = self.pos as int;
        let tok = self.advance();
        match tok {
            Tok::Number(n) => Ok(Expr::Number(n)),
            Tok::Str(s) => Ok(Expr::Str(s)),
            Tok::Handle(h) => Ok(Expr::Handle(h)),
            Tok::Ident(name) => {
                if self.eat_op("(") {
                    let mut xs: Vec<Expr> = Vec::new();
                    if !self.eat_op(")") {
                        let ghost target = args(t, self.pos as int, Seq::empty());
                        let ghost whole = primary(t, p0);
                        assert(whole == match target {
                            Ok((a, r)) => Ok((ExprView::Call(name@, a), r)),
                            Err(e) => Err(e),
                        });
                        assert(exprs_view(xs@) =~= Seq::<ExprView>::empty());
                        loop
                            invariant_except_break
                                target == args(t, self.pos as int, exprs_view(xs@)),
                            invariant
                                self.wf(),
                                self.same_text(old(self)),
                                t == self.toks(),
                                p0 == old(self).pos,
                                p0 < self.pos,
                                whole == primary(t, p0),
                                whole == match target {
                                    Ok((a, r)) => Ok((ExprView::Call(name@, a), r)),
                                    Err(e) => Err::<(ExprView, int), ParseErrorView>(e),
                                },
                            ensures
                                target == Ok::<(Seq<ExprView>, int), ParseErrorView>((exprs_view(xs@), self.pos as int)),
                            decreases self.tokens@.len() - self.pos,
                        {
                            let ghost before = self.pos as int;
                            proof {
                                lemma_skip_eol(t, before);
                            }
                            self.skip_eol();
                            let e = match self.expression() {
                                Ok(e) => e,
                                Err(e) => return Err(e),
                            };
                            let ghost ev = expr_view(e);
                            let ghost acc = exprs_view(xs@);
                            proof {
                                lemma_exprs_push(xs@, e);
                                lemma_skip_eol(t, self.pos as int);
                            }
                            xs.push(e);
                            self.skip_eol();
                            if !self.eat_op(",") {
                                match self.expect_op(")") {
                                    Ok(()) => {
                                        break;
                                    },
                                    Err(e) => {
                                        return Err(e);
                                    },
                                }
                            }
                        }
                    }
                    Ok(Expr::Call(name, xs))
                } else {
                    Ok(Expr::Var(name))
                }
            },
            Tok::Op(o) => {
                if same_str(o, "(") {
                    let e = match self.expression() {
                        Ok(e) => e,
                        Err(e) => return Err(e),
                    };
                    match self.expect_op(")") {
                        Ok(()) => Ok(e),
                        Err(e) => Err(e),
                    }
                } else {
                    let m = with_tok("ожидалось выражение, встречено ", &Tok::Op(o));
                    self.pos = if self.pos > 0 { self.pos - 1 } else { 0 };
                    Err(self.error(m))
                }
            },
            other => {
                let m = with_tok("ожидалось выражение, встречено ", &other);
                self.pos = if self.pos > 0 { self.pos - 1 } else { 0 };
                Err(self.error(m))
            },
        }
    }

    fn eat_word(&mut self, w: &str) -> (b: bool)
        requires
            old(self).wf(),
        ensures
            final(self).wf(),
            final(self).same_text(old(self)),
            b == word_is(old(self).toks(), old(self).pos as int, w@),
            final(self).pos == if b { old(self).pos + 1 } else { old(self).pos as int },
    {
        if self.word_is(w) {
            self.advance();
            true
        } else {
            false
        }
    }

    fn at_any_word(&self, words: &[&str]) -> (b: bool)
        requires
            self.wf(),
        ensures
            b == any_word(self.toks(), self.pos as int, strs_view(words@)),
    {
        let ghost ws = strs_view(words@);
        let mut i: usize = 0;
        while i < words.len()
            invariant
                i <= words.len(),
                self.wf(),
                ws == strs_view(words@),
                ws.len() == words@.len(),
                forall|j: int| 0 <= j < i ==> !word_is(self.toks(), self.pos as int, #[trigger] ws[j]),
            decreases words.len() - i,
        {
            if self.word_is(words[i]) {
                assert(ws[i as int] == words@[i as int]@);
                assert(word_is(self.toks(), self.pos as int, ws[i as int]));
                return true;
            }
            assert(ws[i as int] == words@[i as int]@);
            i = i + 1;
        }
        false
    }

    fn parenthesized(&mut self) -> (r: Result<Expr, ParseError>)
        requires
            old(self).wf(),
        ensures
            final(self).wf(),
            final(self).same_text(old(self)),
            expr_result(r, parenthesized(old(self).toks(), old(self).pos as int), final(self).pos as int),
            r is Ok ==> old(self).pos < final(self).pos,
    {
        match self.expect_op("(") {
            Ok(()) => {},
            Err(e) => return Err(e),
        }
        let e = match self.expression() {
            Ok(e) => e,
            Err(e) => return Err(e),
        };
        match self.expect_op(")") {
            Ok(()) => Ok(e),
            Err(x) => Err(x),
        }
    }

    /// Names separated by commas.
    fn names(&mut self) -> (r: Result<Vec<String>, ParseError>)
        requires
            old(self).wf(),
        ensures
            final(self).wf(),
            final(self).same_text(old(self)),
            match names(old(self).toks(), old(self).pos as int, Seq::empty()) {
                Ok((ns, q)) => r matches Ok(v) && names_view(v@) == ns && final(self).pos == q,
                Err(e) => r matches Err(x) && x@ == e,
            },
            r is Ok ==> old(self).pos < final(self).pos,
    {
        let ghost t = self.toks();
        let ghost p0 = self.pos as int;
        let ghost target = names(t, p0, Seq::empty());
        let mut ns: Vec<String> = Vec::new();
        assert(names_view(ns@) =~= Seq::<Seq<char>>::empty());
        loop
            invariant_except_break
                target == names(t, self.pos as int, names_view(ns@)),
            invariant
                self.wf(),
                self.same_text(old(self)),
                t == self.toks(),
                p0 == old(self).pos,
                p0 <= self.pos,
                target == names(t, p0, Seq::empty()),
            ensures
                target == Ok::<(Seq<Seq<char>>, int), ParseErrorView>((names_view(ns@), self.pos as int)),
                p0 < self.pos,
            decreases self.tokens@.len() - self.pos,
        {
            let tok = self.advance();
            match tok {
                Tok::Ident(name) => {
                    proof {
                        lemma_names_push(ns@, name);
                    }
                    ns.push(name);
                },
                other => {
                    let m = with_tok("ожидалось имя переменной, встречено ", &other);
                    return Err(self.error(m));
                },
            }
            if !self.eat_op(",") {
                break;
            }
        }
        Ok(ns)
    }

    /// `FLOAT x` declares; `FLOAT(h)` converts and `FLOAT := 1` assigns.
    fn looks_like_declaration(&self) -> (b: bool)
        requires
            self.wf(),
            self.toks()[self.pos as int].tok is Ident,
        ensures
            b == looks_like_declaration(self.toks(), self.pos as int),
    {
        assert(self.toks()[self.toks().len() - 1].tok == TokView::Eof);
        assert(self.pos + 1 < self.tokens.len());
        match &self.tokens[self.pos + 1].tok {
            Tok::Ident(nx) => {
                assert(self.toks()[self.pos + 1].tok != TokView::Eof);
                assert(self.pos + 2 < self.tokens.len());
                let assigning = match &self.tokens[self.pos + 2].tok {
                    Tok::Op(o) => same_str(*o, ":=") || same_str(*o, "::="),
                    _ => false,
                };
                !assigning || modifier(nx.as_str())
            },
            _ => false,
        }
    }

    /// Statements up to `Eof` or one of the words `terminators`, which is
    /// not taken.
    fn block(&mut self, terminators: &[&str]) -> (r: Result<Vec<Stmt>, ParseError>)
        requires
            old(self).wf(),
        ensures
            final(self).wf(),
            final(self).tokens@ == old(self).tokens@,
            block_result(
                r,
                block(old(self).toks(), old(self).pos as int, strs_view(terminators@), Seq::empty(), old(self).is_function),
                final(self).pos as int,
                final(self).is_function,
            ),
            r is Ok ==> old(self).pos <= final(self).pos,
        decreases old(self).tokens@.len() - old(self).pos, 3int,
    {
        let ghost t = self.toks();
        let ghost p0 = self.pos as int;
        let ghost terms = strs_view(terminators@);
        let ghost target = block(t, p0, terms, Seq::empty(), self.is_function);
        let mut body: Vec<Stmt> = Vec::new();
        assert(stmts_view(body@) =~= Seq::<StmtView>::empty());
        loop
            invariant
                self.wf(),
                self.tokens@ == old(self).tokens@,
                t == self.toks(),
                terms == strs_view(terminators@),
                p0 == old(self).pos,
                p0 <= self.pos,
                target == block(t, p0, terms, Seq::empty(), old(self).is_function),
                target == block(t, self.pos as int, terms, stmts_view(body@), self.is_function),
            decreases self.tokens@.len() - self.pos,
        {
            let ghost start = self.pos as int;
            proof {
                lemma_skip_eol(t, start);
            }
            self.skip_eol();
            if self.at_eof() || self.at_any_word(terminators) {
                return Ok(body);
            }
            let before = self.pos;
            let line = self.tokens[self.pos].line;
            let mut out: Vec<Stmt> = Vec::new();
            proof {
                assert(stmts_view(out@) =~= Seq::<StmtView>::empty());
            }
            match self.statement(&mut out) {
                Ok(()) => {},
                Err(e) => return Err(e),
            }
            proof {
                lemma_stmts_len(out@);
                assert(Seq::<StmtView>::empty() + stmts_view(out@) =~= stmts_view(out@));
            }
            if out.len() > 0 {
                let ghost b0 = body@;
                body.push(Stmt::At(line));
                let ghost b1 = body@;
                let ghost o = out@;
                body.append(&mut out);
                proof {
                    lemma_stmts_push(b0, Stmt::At(line));
                    lemma_stmts_concat(b1, o);
                }
            }
            if self.pos == before {
                let m = with_tok("не удалось разобрать оператор: ", self.peek());
                return Err(self.error(m));
            }
        }
    }

    /// One statement, added to `out`: `function` adds none, a chain of
    /// assignments adds one for each target.
    #[verifier::rlimit(60)]
    fn statement(&mut self, out: &mut Vec<Stmt>) -> (r: Result<(), ParseError>)
        requires
            old(self).wf(),
        ensures
            final(self).wf(),
            final(self).tokens@ == old(self).tokens@,
            stmt_result(
                r,
                statement(old(self).toks(), old(self).pos as int, old(self).is_function),
                old(out)@,
                final(out)@,
                final(self).pos as int,
                final(self).is_function,
            ),
            r is Ok ==> old(self).pos <= final(self).pos,
        decreases old(self).tokens@.len() - old(self).pos, 2int,
    {
        let ghost t = self.toks();
        let ghost p0 = self.pos as int;
        if self.word_is("if") {
            self.advance();
            let condition = match self.parenthesized() {
                Ok(e) => e,
                Err(e) => return Err(e),
            };
            let ws: &[&str] = &["else", "endif"];
            assert(strs_view(ws@) =~= seq!["else"@, "endif"@]);
            let then_body = match self.block(ws) {
                Ok(b) => b,
                Err(e) => return Err(e),
            };
            let else_body = if self.eat_word("else") {
                let we: &[&str] = &["endif"];
                assert(strs_view(we@) =~= seq!["endif"@]);
                match self.block(we) {
                    Ok(b) => b,
                    Err(e) => return Err(e),
                }
            } else {
                let v: Vec<Stmt> = Vec::new();
                assert(stmts_view(v@) =~= Seq::<StmtView>::empty());
                v
            };
            if !self.eat_word("endif") {
                return Err(self.error(text("не найден endif")));
            }
            emit(out, Stmt::If { condition, then_body, else_body });
            return Ok(());
        }
        if self.word_is("while") {
            self.advance();
            let condition = match self.parenthesized() {
                Ok(e) => e,
                Err(e) => return Err(e),
            };
            let ws: &[&str] = &["endwhile"];
            assert(strs_view(ws@) =~= seq!["endwhile"@]);
            let body = match self.block(ws) {
                Ok(b) => b,
                Err(e) => return Err(e),
            };
            if !self.eat_word("endwhile") {
                return Err(self.error(text("не найден endwhile")));
            }
            emit(out, Stmt::While { condition, body });
            return Ok(());
        }
        if self.word_is("do") {
            self.advance();
            let ws: &[&str] = &["until"];
            assert(strs_view(ws@) =~= seq!["until"@]);
            let body = match self.block(ws) {
                Ok(b) => b,
                Err(e) => return Err(e),
            };
            if !self.eat_word("until") {
                return Err(self.error(text("не найден until")));
            }
            let condition = match self.parenthesized() {
                Ok(e) => e,
                Err(e) => return Err(e),
            };
            emit(out, Stmt::DoUntil { body, condition });
            return Ok(());
        }
        if self.word_is("switch") {
            self.advance();
            return self.switch_arms(out);
        }
        if self.word_is("break") {
            self.advance();
            emit(out, Stmt::Break);
            return Ok(());
        }
        if self.word_is("return") {
            self.advance();
            let value = if self.at_eol() || self.at_eof() {
                None
            } else {
                match self.expression() {
                    Ok(e) => Some(e),
                    Err(e) => return Err(e),
                }
            };
            emit(out, Stmt::Return(value));
            return Ok(());
        }
        if self.word_is("function") {
            // `function` at the start of a text: the image is called as a function
            self.advance();
            self.is_function = true;
            assert(stmts_view(out@) + Seq::<StmtView>::empty() =~= stmts_view(out@));
            return Ok(());
        }
        // the unknowns of the equations: ? x, y
        if self.eat_op("?") {
            let ns = match self.names() {
                Ok(v) => v,
                Err(e) => return Err(e),
            };
            emit(out, Stmt::Unknowns(ns));
            return Ok(());
        }
        let word: Option<String> = match self.peek() {
            Tok::Ident(w) => Some(w.clone()),
            _ => None,
        };
        if let Some(w) = word {
            let tn = declared_type(w.as_str());
            if tn.is_some() && self.looks_like_declaration() {
                self.advance();
                // modifiers: local, parameter (an argument of a function), nosave
                let mut local = false;
                let mut parameter = false;
                let ghost mods = modifiers(t, p0 + 1, false, false);
                loop
                    invariant_except_break
                        mods == modifiers(t, self.pos as int, local, parameter),
                    invariant
                        self.wf(),
                        self.same_text(old(self)),
                        t == self.toks(),
                        p0 < self.pos,
                    ensures
                        mods == (local, parameter, self.pos as int),
                    decreases self.tokens@.len() - self.pos,
                {
                    if self.eat_word("local") {
                        local = true;
                    } else if self.eat_word("parameter") {
                        parameter = true;
                    } else if self.eat_word("nosave") {
                    } else {
                        break;
                    }
                }
                let names = match self.names() {
                    Ok(v) => v,
                    Err(e) => return Err(e),
                };
                let var_type = match tn {
                    Some(n) => text(n),
                    None => String::new(),
                };
                emit(out, Stmt::Declare(Declaration { var_type, local, parameter, names }));
                return Ok(());
            }
            if keyword(w.as_str()) {
                let mut m = text("неожиданное ключевое слово ");
                m.append(w.as_str());
                return Err(self.error(m));
            }
        }
        self.expr_statement(out)
    }

    /// The parts of a `switch` after the word, up to and with `endswitch`.
    fn switch_arms(&mut self, out: &mut Vec<Stmt>) -> (r: Result<(), ParseError>)
        requires
            old(self).wf(),
        ensures
            final(self).wf(),
            final(self).tokens@ == old(self).tokens@,
            stmt_result(
                r,
                switch_arms(old(self).toks(), old(self).pos as int, Seq::empty(), Seq::empty(), old(self).is_function),
                old(out)@,
                final(out)@,
                final(self).pos as int,
                final(self).is_function,
            ),
            r is Ok ==> old(self).pos <= final(self).pos,
        decreases old(self).tokens@.len() - old(self).pos, 1int,
    {
        let ghost t = self.toks();
        let ghost p0 = self.pos as int;
        let ghost target = switch_arms(t, p0, Seq::empty(), Seq::empty(), self.is_function);
        let mut arms: Vec<CaseArm> = Vec::new();
        let mut default: Vec<Stmt> = Vec::new();
        assert(arms_view(arms@) =~= Seq::<ArmView>::empty());
        assert(stmts_view(default@) =~= Seq::<StmtView>::empty());
        loop
            invariant_except_break
                target == switch_arms(t, self.pos as int, arms_view(arms@), stmts_view(default@), self.is_function),
            invariant
                self.wf(),
                self.tokens@ == old(self).tokens@,
                t == self.toks(),
                p0 == old(self).pos,
                p0 <= self.pos,
                target == switch_arms(t, p0, Seq::empty(), Seq::empty(), old(self).is_function),
            ensures
                target == Ok::<(Seq<StmtView>, int, bool), ParseErrorView>((
                    seq![StmtView::Switch { arms: arms_view(arms@), default: stmts_view(default@) }],
                    self.pos as int,
                    self.is_function,
                )),
            decreases self.tokens@.len() - self.pos,
        {
            proof {
                lemma_skip_eol(t, self.pos as int);
            }
            self.skip_eol();
            if self.eat_word("case") {
                let condition = match self.parenthesized() {
                    Ok(e) => e,
                    Err(e) => return Err(e),
                };
                let ws: &[&str] = &["case", "default", "endswitch"];
                assert(strs_view(ws@) =~= seq!["case"@, "default"@, "endswitch"@]);
                let body = match self.block(ws) {
                    Ok(b) => b,
                    Err(e) => return Err(e),
                };
                let arm = CaseArm { condition, body };
                proof {
                    lemma_arms_push(arms@, arm);
                }
                arms.push(arm);
            } else if self.eat_word("default") {
                let ws: &[&str] = &["case", "endswitch"];
                assert(strs_view(ws@) =~= seq!["case"@, "endswitch"@]);
                default = match self.block(ws) {
                    Ok(b) => b,
                    Err(e) => return Err(e),
                };
            } else if self.eat_word("endswitch") {
                break;
            } else if self.at_eof() {
                return Err(self.error(text("не найден endswitch")));
            } else {
                let m = with_tok("внутри switch ожидались case/default/endswitch, встречено ", self.peek());
                return Err(self.error(m));
            }
        }
        emit(out, Stmt::Switch { arms, default });
        Ok(())
    }

    /// An assignment, a chain of them, an equation or an expression alone.
    fn expr_statement(&mut self, out: &mut Vec<Stmt>) -> (r: Result<(), ParseError>)
        requires
            old(self).wf(),
        ensures
            final(self).wf(),
            final(self).same_text(old(self)),
            match expr_statement(old(self).toks(), old(self).pos as int) {
                Ok((ss, q)) => r is Ok && stmts_view(final(out)@) == stmts_view(old(out)@) + ss && final(self).pos == q,
                Err(e) => r matches Err(x) && x@ == e,
            },
            r is Ok ==> old(self).pos < final(self).pos,
    {
        let ghost t = self.toks();
        let ghost p0 = self.pos as int;
        let ghost whole = expr_statement(t, p0);
        let first = match self.expression() {
            Ok(e) => e,
            Err(e) => return Err(e),
        };
        let ghost q = self.pos as int;
        assert(":="@ != "::="@) by {
            reveal_strlit(":=");
            reveal_strlit("::=");
            assert(":="@.len() == 2);
            assert("::="@.len() == 3);
        }
        let plain = self.eat_op(":=");
        let deferred = if plain {
            false
        } else {
            self.eat_op("::=")
        };
        if plain || deferred {
            let target = match &first {
                Expr::Var(name) => name.clone(),
                _ => {
                    return Err(
                        ParseError {
                            message: text("слева от := должна быть переменная"),
                            line: self.tokens[self.pos - 1].line,
                            column: self.tokens[self.pos - 1].column,
                        },
                    );
                },
            };
            let mut targets: Vec<String> = Vec::new();
            targets.push(target);
            assert(names_view(targets@) =~= seq![target@]);
            let mut value = match self.expression() {
                Ok(e) => e,
                Err(e) => return Err(e),
            };
            let ghost q0 = self.pos as int;
            let ghost rest = chain(t, q0, names_view(targets@), expr_view(value));
            assert(deferred == is_op(t, q, "::="@));
            loop
                invariant_except_break
                    rest == chain(t, self.pos as int, names_view(targets@), expr_view(value)),
                invariant
                    self.wf(),
                    self.same_text(old(self)),
                    t == self.toks(),
                    old(self).pos < self.pos,
                    whole == expr_statement(t, old(self).pos as int),
                    whole == match rest {
                        Err(e) => Err(e),
                        Ok((tg, v, u)) => Ok((assignments(tg, v, deferred), u)),
                    },
                ensures
                    rest == Ok::<(Seq<Seq<char>>, ExprView, int), ParseErrorView>((
                        names_view(targets@),
                        expr_view(value),
                        self.pos as int,
                    )),
                decreases self.tokens@.len() - self.pos,
            {
                if !self.eat_op(":=") {
                    break;
                }
                let next = match self.expression() {
                    Ok(e) => e,
                    Err(e) => return Err(e),
                };
                let name = match &value {
                    Expr::Var(n) => n.clone(),
                    _ => {
                        return Err(
                            ParseError {
                                message: text("слева от := должна быть переменная"),
                                line: self.tokens[self.pos - 1].line,
                                column: self.tokens[self.pos - 1].column,
                            },
                        );
                    },
                };
                proof {
                    lemma_names_push(targets@, name);
                }
                targets.push(name);
                value = next;
            }
            let ghost o = out@;
            let ghost tv = names_view(targets@);
            let ghost vv = expr_view(value);
            let mut i: usize = 0;
            while i < targets.len()
                invariant
                    i <= targets.len(),
                    tv == names_view(targets@),
                    vv == expr_view(value),
                    stmts_view(out@) == stmts_view(o) + assignments(tv, vv, deferred).subrange(0, i as int),
                decreases targets.len() - i,
            {
                let v = copy_expr(&value);
                let st = if deferred {
                    Stmt::AssignDeferred { target: targets[i].clone(), value: v }
                } else {
                    Stmt::Assign { target: targets[i].clone(), value: v }
                };
                let ghost sv = stmt_view(st);
                emit(out, st);
                proof {
                    assert(sv == assignments(tv, vv, deferred)[i as int]);
                    assert(assignments(tv, vv, deferred).subrange(0, i as int + 1) =~= assignments(
                        tv,
                        vv,
                        deferred,
                    ).subrange(0, i as int).push(sv));
                    assert(stmts_view(o) + assignments(tv, vv, deferred).subrange(0, i as int + 1) =~= (
                    stmts_view(o) + assignments(tv, vv, deferred).subrange(0, i as int)) + seq![sv]);
                }
                i = i + 1;
            }
            assert(assignments(tv, vv, deferred).subrange(0, i as int) =~= assignments(tv, vv, deferred));
            return Ok(());
        }
        if self.eat_op("=") {
            let right = match self.expression() {
                Ok(e) => e,
                Err(e) => return Err(e),
            };
            emit(out, Stmt::Equation { left: first, right });
            return Ok(());
        }
        emit(out, Stmt::Expr(first));
        Ok(())
    }
}

} // verus!