use stratum_core::command::parse_run_options;
use stratum_core::command::safe_name;
use stratum_core::lang::ast::BinOp;
use stratum_core::lang::compile::{binary, compatible, Ty};
use stratum_core::lang::parser::binop;

#[test]
fn safe_names() {
    assert_eq!(safe_name("Планета 1/2-a_b"), "Планета_1_2-a_b");
}

#[test]
fn types_by_name() {
    assert!(Ty::from_name("string") == Ty::Str);
    assert!(Ty::from_name("Handle") == Ty::Handle);
    assert!(Ty::from_name("COLORREF") == Ty::Color);
    assert!(Ty::from_name("integer") == Ty::Int);
    assert!(Ty::from_name("FLOAT") == Ty::Float);
    assert!(Ty::from_name("WORD") == Ty::Float);
    assert_eq!(Ty::Str.name(), "STRING");
    assert_eq!(Ty::Color.vcode(), 0xFFFC);
    assert!(Ty::code('H') == Some(Ty::Handle));
    assert!(Ty::code('x').is_none());
}

#[test]
fn operations_of_the_machine() {
    assert!(compatible(Ty::Handle, Ty::Int));
    assert!(!compatible(Ty::Float, Ty::Int));
    assert!(binary(BinOp::Add, Ty::Str, Ty::Float) == Some((770, Ty::Str)));
    assert!(binary(BinOp::Eq, Ty::Handle, Ty::Color) == Some((82, Ty::Float)));
    assert!(binary(BinOp::OrLogic, Ty::Int, Ty::Int) == Some((86, Ty::Handle)));
    assert!(binary(BinOp::Sub, Ty::Str, Ty::Str).is_none());
}

#[test]
fn operator_levels() {
    assert!(binop("^") == Some((BinOp::Pow, 9)));
    assert!(binop("&&") == Some((BinOp::AndLogic, 2)));
    assert!(binop(">>") == Some((BinOp::Shr, 1)));
    assert!(binop(":=").is_none());
}

fn strings(v: &[&str]) -> Vec<String> {
    v.iter().map(|s| s.to_string()).collect()
}

#[test]
fn run_options_read_every_key() {
    let o = parse_run_options(&strings(&[
        "proj.spj", "--ticks", "5", "--dump", "--watch", "x", "--lib", "L", "--out", "o", "--port", "9000",
    ]))
    .unwrap();
    assert_eq!(o.path, "proj.spj");
    assert_eq!(o.ticks, 5);
    assert!(o.dump);
    assert_eq!(o.watch, vec!["x".to_string()]);
    assert_eq!(o.libraries, vec!["L".to_string()]);
    assert_eq!(o.out, "o");
    assert_eq!(o.port, 9000);
}

#[test]
fn run_options_defaults() {
    let o = parse_run_options(&strings(&["p"])).unwrap();
    assert_eq!((o.ticks, o.dump, o.port), (1, false, 8765));
    assert_eq!(o.out, ".");
    assert!(o.watch.is_empty() && o.libraries.is_empty());
    assert_eq!(parse_run_options(&strings(&["--ticks", "+7", "p"])).unwrap().ticks, 7);
}

#[test]
fn run_options_errors() {
    let err = |v: &[&str]| parse_run_options(&strings(v)).err().unwrap();
    assert_eq!(err(&["--ticks"]), "после --ticks нужно число");
    assert_eq!(err(&["--ticks", "x", "p"]), "после --ticks нужно число");
    assert_eq!(err(&["--ticks", "-1", "p"]), "после --ticks нужно число");
    assert_eq!(err(&["--port", "70000", "p"]), "после --port нужно число");
    assert_eq!(err(&["p", "--out"]), "после --out нужна папка");
    assert_eq!(err(&["p", "--lib"]), "после --lib нужна папка");
    assert_eq!(err(&["p", "--watch"]), "после --watch нужно имя переменной");
    assert_eq!(err(&["p", "--bogus"]), "неизвестный ключ --bogus");
    assert_eq!(err(&[]), "не указан проект");
}

#[test]
fn empty_argument_stands_for_a_project() {
    let o = parse_run_options(&strings(&["--dump", ""])).unwrap();
    assert_eq!(o.path, "");
    assert_eq!(parse_run_options(&strings(&["-x"])).unwrap().path, "-x");
}
