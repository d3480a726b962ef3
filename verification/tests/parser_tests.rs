use stratum_core::lang::ast::{CaseArm, Declaration};
use stratum_core::lang::{parse, BinOp, Expr, Stmt, UnOp};

/// Statements without their line marks: the tests look at the structure.
fn body(src: &str) -> Vec<Stmt> {
    parse(src).unwrap().body.into_iter().filter(|s| !matches!(s, Stmt::At(_))).collect()
}

fn one(src: &str) -> Stmt {
    let b = body(src);
    assert_eq!(b.len(), 1, "{:?}", b);
    b.into_iter().next().unwrap()
}

fn num(text: &str) -> Box<Expr> {
    Box::new(Expr::Number(text.into()))
}

fn var(name: &str) -> Box<Expr> {
    Box::new(Expr::Var(name.into()))
}

fn counted(b: &[Stmt]) -> usize {
    b.iter().filter(|s| !matches!(s, Stmt::At(_))).count()
}

#[test]
fn assignment_and_precedence() {
    let stmt = one("x := 1 + 2 * 3");
    match stmt {
        Stmt::Assign { target, value } => {
            assert_eq!(target, "x");
            assert_eq!(
                value,
                Expr::Binary(BinOp::Add, num("1"), Box::new(Expr::Binary(BinOp::Mul, num("2"), num("3"))))
            );
        }
        other => panic!("{other:?}"),
    }
}

#[test]
fn tilde_binds_to_the_variable() {
    let stmt = one("y := ~x + 1");
    let Stmt::Assign { value, .. } = stmt else { panic!() };
    assert_eq!(value, Expr::Binary(BinOp::Add, Box::new(Expr::Unary(UnOp::Old, var("x"))), num("1")));
}

#[test]
fn declarations() {
    let stmt = one("FLOAT local xPos,yPos,msg");
    assert_eq!(
        stmt,
        Stmt::Declare(Declaration {
            var_type: "FLOAT".into(),
            local: true,
            parameter: false,
            names: vec!["xPos".into(), "yPos".into(), "msg".into()],
        })
    );
}

#[test]
fn float_call_is_not_a_declaration() {
    let stmt = one("x := FLOAT(~h)");
    let Stmt::Assign { value, .. } = stmt else { panic!("{stmt:?}") };
    assert!(matches!(value, Expr::Call(name, _) if name.eq_ignore_ascii_case("float")));
}

#[test]
fn if_else_endif() {
    let m_body = body("if (a > 1)\n b := 2\nelse\n b := 3\nendif");
    let Stmt::If { then_body, else_body, .. } = &m_body[0] else { panic!() };
    assert_eq!(counted(then_body), 1);
    assert_eq!(counted(else_body), 1);
}

#[test]
fn switch_with_cases() {
    let m_body = body("switch\n case (~msg == 1); a := 1\n case (~msg == 2); a := 2\n default;\nendswitch");
    let Stmt::Switch { arms, default } = &m_body[0] else { panic!() };
    assert_eq!(arms.len(), 2);
    assert!(default.is_empty());
}

#[test]
fn chained_assignment() {
    let m_body = body("s := r := a * 2");
    assert_eq!(m_body.len(), 2);
}

#[test]
fn equation_and_unknowns() {
    let m_body = body("x + y = 10\n? x, y");
    assert!(matches!(m_body[0], Stmt::Equation { .. }));
    assert_eq!(m_body[1], Stmt::Unknowns(vec!["x".into(), "y".into()]));
}

#[test]
fn call_without_assignment() {
    let m_body = body("exit()");
    assert_eq!(m_body[0], Stmt::Expr(Expr::Call("exit".into(), vec![])));
}

#[test]
fn chain_assigns_the_same_value_to_each_target() {
    let m_body = body("s := r := a * 2");
    let value = Expr::Binary(BinOp::Mul, var("a"), num("2"));
    assert_eq!(m_body[0], Stmt::Assign { target: "s".into(), value: Expr::Binary(BinOp::Mul, var("a"), num("2")) });
    assert_eq!(m_body[1], Stmt::Assign { target: "r".into(), value });
}

#[test]
fn deferred_assignment() {
    assert_eq!(one("x ::= 1"), Stmt::AssignDeferred { target: "x".into(), value: Expr::Number("1".into()) });
}

#[test]
fn lines_mark_the_statements() {
    let m = parse("a := 1\n\nb := 2").unwrap();
    assert_eq!(
        m.body,
        vec![
            Stmt::At(1),
            Stmt::Assign { target: "a".into(), value: Expr::Number("1".into()) },
            Stmt::At(3),
            Stmt::Assign { target: "b".into(), value: Expr::Number("2".into()) },
        ]
    );
}

#[test]
fn binary_operators_are_left_associative() {
    let stmt = one("x := a - b - c");
    let Stmt::Assign { value, .. } = stmt else { panic!() };
    assert_eq!(value, Expr::Binary(BinOp::Sub, Box::new(Expr::Binary(BinOp::Sub, var("a"), var("b"))), var("c")));
}

#[test]
fn unary_operators() {
    let stmt = one("x := -!+y");
    let Stmt::Assign { value, .. } = stmt else { panic!() };
    assert_eq!(value, Expr::Unary(UnOp::Neg, Box::new(Expr::Unary(UnOp::Not, var("y")))));
}

#[test]
fn call_arguments_may_span_lines() {
    let stmt = one("f(1,\n 2)");
    assert_eq!(stmt, Stmt::Expr(Expr::Call("f".into(), vec![Expr::Number("1".into()), Expr::Number("2".into())])));
}

#[test]
fn return_with_and_without_value_and_function() {
    let m = parse("function\nreturn x\nreturn").unwrap();
    assert!(m.is_function);
    let b: Vec<Stmt> = m.body.into_iter().filter(|s| !matches!(s, Stmt::At(_))).collect();
    assert_eq!(b, vec![Stmt::Return(Some(Expr::Var("x".into()))), Stmt::Return(None)]);
    assert!(!parse("return").unwrap().is_function);
}

#[test]
fn while_and_do_until() {
    let b = body("while (i < 3)\n i := i + 1\nendwhile\ndo\n i := i - 1\nuntil (i == 0)\nbreak");
    assert!(matches!(&b[0], Stmt::While { body, .. } if counted(body) == 1));
    assert!(matches!(&b[1], Stmt::DoUntil { body, .. } if counted(body) == 1));
    assert_eq!(b[2], Stmt::Break);
}

#[test]
fn declarations_are_collected_from_nested_blocks() {
    let m = parse("if (a)\n FLOAT b\nendif\nswitch\n case (c); STRING d\n default; HANDLE parameter e\nendswitch\nSTRING f")
        .unwrap();
    let names: Vec<(String, Vec<String>)> =
        m.declarations.iter().map(|d| (d.var_type.clone(), d.names.clone())).collect();
    assert_eq!(
        names,
        vec![
            ("FLOAT".to_string(), vec!["b".to_string()]),
            ("STRING".to_string(), vec!["d".to_string()]),
            ("HANDLE".to_string(), vec!["e".to_string()]),
            ("STRING".to_string(), vec!["f".to_string()]),
        ]
    );
    assert!(m.declarations[2].parameter);
}

#[test]
fn switch_arms_keep_their_conditions() {
    let b = body("switch\n case (x); y := 1\nendswitch");
    let Stmt::Switch { arms, .. } = &b[0] else { panic!() };
    let CaseArm { condition, body } = &arms[0];
    assert_eq!(*condition, Expr::Var("x".into()));
    assert_eq!(counted(body), 1);
}

#[test]
fn type_name_before_assignment_is_a_variable() {
    assert_eq!(one("float := 2"), Stmt::Assign { target: "float".into(), value: Expr::Number("2".into()) });
}

#[test]
fn missing_endif_is_an_error() {
    let e = parse("if (a)\n b := 1").unwrap_err();
    assert_eq!(e.message, "не найден endif");
    assert_eq!((e.line, e.column), (2, 8));
}

#[test]
fn keyword_at_the_start_is_an_error() {
    let e = parse("endif").unwrap_err();
    assert_eq!(e.message, "неожиданное ключевое слово endif");
    assert_eq!(e.to_text(), "строка 1, позиция 1: неожиданное ключевое слово endif");
}

#[test]
fn assignment_needs_a_variable() {
    let e = parse("1 := 2").unwrap_err();
    assert_eq!(e.message, "слева от := должна быть переменная");
    assert_eq!((e.line, e.column), (1, 3));
    let e = parse("a := 1 := 2").unwrap_err();
    assert_eq!(e.message, "слева от := должна быть переменная");
    assert_eq!((e.line, e.column), (1, 11));
}

#[test]
fn missing_bracket_is_an_error() {
    let e = parse("if a").unwrap_err();
    assert_eq!(e.message, "ожидалось \"(\", встречено a");
    assert_eq!((e.line, e.column), (1, 4));
}

#[test]
fn missing_expression_is_reported_at_the_last_token() {
    let e = parse("x :=").unwrap_err();
    assert_eq!(e.message, "ожидалось выражение, встречено конец текста");
    assert_eq!((e.line, e.column), (1, 3));
}

#[test]
fn missing_name_after_question_mark() {
    let e = parse("? 1").unwrap_err();
    assert_eq!(e.message, "ожидалось имя переменной, встречено 1");
}

#[test]
fn unfinished_switch_is_an_error() {
    assert_eq!(parse("switch\n").unwrap_err().message, "не найден endswitch");
    assert_eq!(
        parse("switch\n x := 1\nendswitch").unwrap_err().message,
        "внутри switch ожидались case/default/endswitch, встречено x"
    );
}

#[test]
fn errors_of_the_lexer_pass_through() {
    let e = parse("x := \"abc").unwrap_err();
    assert_eq!(e.line, 1);
    assert!(!e.message.is_empty());
}

fn deps(src: &str) -> Vec<(String, String)> {
    stratum_core::lang::dependencies(&parse(src).unwrap())
}

fn pair(a: &str, b: &str) -> (String, String) {
    (a.to_string(), b.to_string())
}

#[test]
fn dependencies_of_assignments_conditions_and_equations() {
    assert_eq!(
        deps("x := a + b\nif (c)\n y := x\nendif\nz = w"),
        vec![pair("a", "x"), pair("b", "x"), pair("c", "y"), pair("w", "z"), pair("x", "y"), pair("z", "w")]
    );
}

#[test]
fn dependencies_ignore_case_self_and_repeats() {
    assert_eq!(deps("X := A\nx := a\nx := x + 1"), vec![pair("a", "x")]);
}

#[test]
fn switch_conditions_reach_only_their_arm() {
    assert_eq!(
        deps("switch\n case (k); a := 1\n default; b := 2\nendswitch"),
        vec![pair("k", "a")]
    );
}

#[test]
fn dependencies_through_calls_and_loops() {
    assert_eq!(
        deps("while (n > 0)\n s := f(s, m)\nendwhile\ndo\n t ::= ~u\nuntil (v)"),
        vec![pair("m", "s"), pair("n", "s"), pair("u", "t"), pair("v", "t")]
    );
}
