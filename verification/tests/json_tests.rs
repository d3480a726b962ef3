use stratum_core::formats::json::{object, Json};
use stratum_core::formats::json_read::{parse, readable};

fn num(t: &str) -> Json {
    Json::Number(t.to_string())
}

#[test]
fn round_trip() {
    let v = object(vec![
        ("name", Json::Str("планета \"x\"\n".into())),
        ("n", num("2.5")),
        ("list", Json::Array(vec![num("1"), Json::Bool(true), Json::Null])),
    ]);
    let text = v.pretty();
    assert_eq!(parse(&text).unwrap(), v);
    assert_eq!(parse(&v.compact()).unwrap(), v);
}

#[test]
fn unicode_escapes() {
    assert_eq!(parse(r#""Ж😀""#).unwrap(), Json::Str("Ж😀".into()));
}

#[test]
fn escapes_and_surrogate_pairs() {
    assert_eq!(parse(r#""\ud83d\ude00\u0416\n\t\"\\\/""#).unwrap(), Json::Str("😀Ж\n\t\"\\/".into()));
    assert_eq!(parse(r#""\ud800x""#).unwrap(), Json::Str("\u{fffd}x".into()));
}

#[test]
fn control_characters_are_written_as_escapes() {
    let v = Json::Str("a\u{1}\u{8}b".into());
    assert_eq!(v.compact(), "\"a\\u0001\\u0008b\"");
    assert_eq!(parse(&v.compact()).unwrap(), v);
}

#[test]
fn objects_keep_keys_in_order_and_the_last_value() {
    assert_eq!(
        parse(r#"{"b":1,"a":2,"b":3}"#).unwrap(),
        Json::Object(vec![("a".to_string(), num("2")), ("b".to_string(), num("3"))])
    );
    assert_eq!(
        object(vec![("z", Json::Null), ("y", Json::Bool(false)), ("z", Json::Bool(true))]),
        Json::Object(vec![("y".to_string(), Json::Bool(false)), ("z".to_string(), Json::Bool(true))])
    );
}

#[test]
fn pretty_layout() {
    let v = object(vec![
        ("a", Json::Array(vec![num("1"), num("2")])),
        ("b", Json::Object(vec![])),
        ("c", Json::Array(vec![Json::Array(vec![Json::Null]), Json::Array(vec![])])),
    ]);
    assert_eq!(v.pretty(), "{\n  \"a\": [1, 2],\n  \"b\": {},\n  \"c\": [\n    [null],\n    []\n  ]\n}\n");
    assert_eq!(v.compact(), "{\"a\":[1,2],\"b\":{},\"c\":[[null],[]]}");
    assert_eq!(parse(&v.pretty()).unwrap(), v);
}

#[test]
fn reading_errors() {
    assert_eq!(parse("[1,").unwrap_err(), "JSON, символ 3: ожидалось значение");
    assert_eq!(parse("{\"a\" 1}").unwrap_err(), "JSON, символ 5: ожидалось :");
    assert_eq!(parse("{1:2}").unwrap_err(), "JSON, символ 1: ожидался ключ");
    assert_eq!(parse("tru").unwrap_err(), "JSON, символ 0: неизвестное слово");
    assert_eq!(parse("1 2").unwrap_err(), "JSON, символ 2: лишние символы после значения");
    assert_eq!(parse("-").unwrap_err(), "JSON, символ 1: неверное число");
    assert_eq!(parse("1e5.").unwrap_err(), "JSON, символ 4: неверное число");
    assert_eq!(parse("\"abc").unwrap_err(), "JSON, символ 4: строка не закрыта");
    assert_eq!(parse("[1 2]").unwrap_err(), "JSON, символ 3: ожидалась , или ]");
    assert_eq!(parse("{\"a\":1 \"b\"}").unwrap_err(), "JSON, символ 7: ожидалась , или }");
    assert_eq!(parse("\"\\u12\"").unwrap_err(), "JSON, символ 3: обрыв в \\u");
    assert_eq!(parse("\"\\uzzzz\"").unwrap_err(), "JSON, символ 7: плохой \\u");
}

#[test]
fn numbers_keep_their_text() {
    assert_eq!(parse(" [ -1.5e+3 , 0.25, 7 ] ").unwrap(), Json::Array(vec![num("-1.5e+3"), num("0.25"), num("7")]));
    assert_eq!(parse("1.").unwrap(), num("1."));
}

#[test]
fn accessors() {
    let v = parse(r#"{"name": "Земля", "on": true, "list": [1], "n": 3}"#).unwrap();
    assert_eq!(v.get("name").and_then(|x| x.as_str()), Some("Земля"));
    assert_eq!(v.get("on").and_then(|x| x.as_bool()), Some(true));
    assert_eq!(v.get("list").and_then(|x| x.as_array()).map(|a| a.len()), Some(1));
    assert!(v.get("missing").is_none());
    assert_eq!(v.str_or("name", "?"), "Земля");
    assert_eq!(v.str_or("n", "?"), "?");
    assert_eq!(Json::Null.str_or("name", "x"), "x");
}

#[test]
fn readable_tells_which_texts_parse_takes() {
    assert!(readable("[1, \"a\"]"));
    assert!(readable("\"\\uD83D\\uDE00\""));
    assert!(readable("{"));
    assert!(!readable("\"\\uD83D\\u0041\""));
    assert!(!readable("[1, {\"k\": \"\\uD800\\uD800\"}]"));
}

#[test]
fn nesting_depth_of_values() {
    let v = parse("[[1], {\"a\": []}]").unwrap();
    assert!(v.nests_below(4));
    assert!(!v.nests_below(3));
    assert!(parse("1").unwrap().nests_below(1));
    assert!(!parse("1").unwrap().nests_below(0));
}
