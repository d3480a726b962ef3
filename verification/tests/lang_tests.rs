use stratum_core::lang::lexer::{tokenize, Tok};

fn kinds(src: &str) -> Vec<Tok> {
    tokenize(src).unwrap().into_iter().map(|t| t.tok).collect()
}

fn number_value(t: &Tok) -> f64 {
    match t {
        Tok::Number(text) => text.parse::<f64>().unwrap(),
        other => panic!("not a number: {:?}", other),
    }
}

fn handle_value(t: &Tok) -> f64 {
    match t {
        Tok::Handle(text) => text.parse::<f64>().unwrap(),
        other => panic!("not a handle: {:?}", other),
    }
}

#[test]
fn reads_assignment() {
    let k = kinds("x := ~y + 1.5e3");
    assert_eq!(k.len(), 7);
    assert_eq!(k[0], Tok::Ident("x".into()));
    assert_eq!(k[1], Tok::Op(":="));
    assert_eq!(k[2], Tok::Op("~"));
    assert_eq!(k[3], Tok::Ident("y".into()));
    assert_eq!(k[4], Tok::Op("+"));
    assert_eq!(number_value(&k[5]), 1500.0);
    assert_eq!(k[6], Tok::Eof);
}

#[test]
fn semicolon_ends_a_statement() {
    assert_eq!(kinds("a:=1; b:=2").len(), 8);
}

#[test]
fn reads_handles_strings_and_comments() {
    let k = kinds("HSpace := #0 // комментарий\ns := \"Январь\"");
    assert_eq!(k.len(), 8);
    assert_eq!(k[0], Tok::Ident("HSpace".into()));
    assert_eq!(k[1], Tok::Op(":="));
    assert_eq!(handle_value(&k[2]), 0.0);
    assert_eq!(k[3], Tok::Eol);
    assert_eq!(k[4], Tok::Ident("s".into()));
    assert_eq!(k[5], Tok::Op(":="));
    assert_eq!(k[6], Tok::Str("Январь".into()));
    assert_eq!(k[7], Tok::Eof);
}

#[test]
fn cyrillic_identifiers() {
    assert_eq!(kinds("день := 1")[0], Tok::Ident("день".into()));
}

#[test]
fn lines_and_columns_follow_line_feeds() {
    let t = tokenize("a\n  bb := 1").unwrap();
    assert_eq!((t[0].line, t[0].column), (1, 1));
    assert_eq!((t[1].line, t[1].column), (1, 2));
    assert_eq!((t[2].line, t[2].column), (2, 3));
    assert_eq!((t[3].line, t[3].column), (2, 6));
    assert_eq!((t[4].line, t[4].column), (2, 9));
    assert_eq!(t[5].tok, Tok::Eof);
    assert_eq!((t[5].line, t[5].column), (2, 10));
}

#[test]
fn doubled_quote_and_single_quotes() {
    let k = kinds("s := 'it''s'");
    assert_eq!(k[2], Tok::Str("it's".into()));
}

#[test]
fn longest_operator_first() {
    let k = kinds("a ::= b == c");
    assert_eq!(k[1], Tok::Op("::="));
    assert_eq!(k[3], Tok::Op("=="));
}

#[test]
fn exponent_without_digits_is_not_taken() {
    let k = kinds("1end");
    assert_eq!(k[0], Tok::Number("1".into()));
    assert_eq!(k[1], Tok::Ident("end".into()));
    let k = kinds(".5e-2");
    assert_eq!(number_value(&k[0]), 0.005);
}

#[test]
fn block_comments_are_skipped() {
    let t = tokenize("/* a\nb */ x").unwrap();
    assert_eq!(t[0].tok, Tok::Ident("x".into()));
    assert_eq!((t[0].line, t[0].column), (2, 6));
}

#[test]
fn unclosed_comment_is_an_error() {
    let e = tokenize("x /* y").unwrap_err();
    assert_eq!(e.message, "комментарий /* не закрыт");
    assert_eq!((e.line, e.column), (1, 3));
    assert_eq!(e.to_text(), "строка 1, позиция 3: комментарий /* не закрыт");
}

#[test]
fn unclosed_string_is_an_error() {
    let e = tokenize("s := \"abc\nd\"").unwrap_err();
    assert_eq!(e.message, "строковый литерал не закрыт");
    assert_eq!((e.line, e.column), (1, 6));
}

#[test]
fn unknown_character_is_an_error() {
    let e = tokenize("a @ b").unwrap_err();
    assert_eq!(e.message, "неизвестный символ '@'");
    assert_eq!((e.line, e.column), (1, 3));
}
