use stratum_core::formats::cls::{Child, Class, Link, LinkStyle};
use stratum_core::lang::ParseError;
use stratum_core::player::api::{default_icon, error, free_handle, json, parse_color, parse_error_json, sheet_icon};
use stratum_core::player::editor::{blob, blob_mut, Kind};
use stratum_core::player::route::{route, Route};
use stratum_core::player::guard::{host_ok, origin_ok, token_ok, Headers};
use stratum_core::player::{json_string, param, url_decode};
use stratum_core::gfx::encode_bmp24;

#[test]
fn foreign_origin_and_host_are_rejected() {
    let mut h = Headers::default();
    Headers::read("Host: 127.0.0.1:8765", &mut h);
    assert!(host_ok(&h, 8765));
    Headers::read("Origin: http://evil.example", &mut h);
    assert!(!origin_ok(&h, 8765));
    let mut r = Headers::default();
    Headers::read("Host: evil.example:8765", &mut r);
    assert!(!host_ok(&r, 8765));
}

#[test]
fn token_from_cookie() {
    let mut h = Headers::default();
    Headers::read("Cookie: a=1; stratum_token=abc", &mut h);
    assert!(token_ok(&h, None, "abc"));
    assert!(!token_ok(&h, None, "abd"));
    assert!(!token_ok(&Headers::default(), None, "abc"));
}

#[test]
fn our_origins_and_tokens_elsewhere() {
    let mut h = Headers::default();
    // no Host header: refused
    assert!(!host_ok(&h, 1));
    assert!(origin_ok(&h, 1));
    Headers::read("ORIGIN:  http://localhost:80 ", &mut h);
    assert_eq!(h.origin.as_deref(), Some("http://localhost:80"));
    assert!(origin_ok(&h, 80));
    assert!(!origin_ok(&h, 81));
    Headers::read("origin: null", &mut h);
    assert!(!origin_ok(&h, 80));
    Headers::read("Origin: tauri://localhost", &mut h);
    assert!(origin_ok(&h, 80));
    Headers::read("X-Stratum-Token: t1", &mut h);
    assert!(token_ok(&h, None, "t1"));
    assert!(token_ok(&Headers::default(), Some("q"), "q"));
    Headers::read("no colon here", &mut h);
    assert_eq!(h.token.as_deref(), Some("t1"));
}

#[test]
fn query_parameters() {
    assert_eq!(param("type=run&fps=30", "fps").as_deref(), Some("30"));
    assert_eq!(param("type=run&fps=30", "type").as_deref(), Some("run"));
    assert_eq!(param("type=run", "x"), None);
    assert_eq!(param("ab=1&a=2", "a").as_deref(), Some("2"));
}

#[test]
fn url_decoding() {
    assert_eq!(url_decode("a%20b+c"), "a b c");
    assert_eq!(url_decode("%D0%9B%D1%83%D0%BD%D0%B0"), "Луна");
    assert_eq!(url_decode("100%"), "100%");
    assert_eq!(url_decode("%zz"), "%zz");
    assert_eq!(url_decode("%+a"), "\n");
}

#[test]
fn json_answers() {
    assert_eq!(json_string("a\"b"), "\"a\\\"b\"");
    let r = json("{}".into());
    assert_eq!((r.status, r.mime, r.body.as_str()), ("200 OK", "application/json; charset=utf-8", "{}"));
    let e = error("404 Not Found", "нет \"x\"");
    assert_eq!(e.status, "404 Not Found");
    assert_eq!(e.body, "{\"error\":\"нет \\\"x\\\"\"}");
}

#[test]
fn icons() {
    let icon = default_icon("<Планета");
    assert!(icon.contains(">&lt;П</text>"));
    assert!(sheet_icon(b"tiny", 0).is_none());
    let sheet = encode_bmp24(64, 32, &vec![0u8; 64 * 32 * 3]);
    let svg = sheet_icon(&sheet, 3).unwrap();
    assert!(svg.contains("viewBox=\"32 32 32 32\""));
    assert!(svg.contains("<image width=\"64\" height=\"32\""));
}

#[test]
fn editor_kinds_and_blobs() {
    assert!(Kind::parse("scheme") == Kind::Scheme);
    assert!(Kind::parse("icon") == Kind::Icon);
    assert!(Kind::parse("other") == Kind::Image);
    let mut c = Class::new("A".into(), 0x3003);
    c.scheme = Some(vec![1]);
    assert_eq!(blob(&c, Kind::Scheme), &Some(vec![1]));
    *blob_mut(&mut c, Kind::Icon) = Some(vec![2]);
    assert_eq!(c.icon, Some(vec![2]));
    assert_eq!(blob(&c, Kind::Image), &None);
}

fn child(handle: u16) -> Child {
    Child { class_name: "A".into(), handle, name: String::new(), x: 0, y: 0, flags: 0 }
}

fn link(handle: u16) -> Link {
    Link { source: 0, target: 1, handle, flags: 0, vars: vec![], style: LinkStyle::default() }
}

#[test]
fn free_handle_is_above_blocks_and_links() {
    let mut c = Class::new("S".into(), 0x3003);
    assert_eq!(free_handle(&c), 1);
    c.children = vec![child(3), child(7)];
    assert_eq!(free_handle(&c), 8);
    c.links = vec![link(12), link(2)];
    assert_eq!(free_handle(&c), 13);
    c.links.push(link(65535));
    assert_eq!(free_handle(&c), 65535);
}

#[test]
fn parse_error_as_json() {
    let e = ParseError { message: "ожидалось \"x\"".into(), line: 3, column: 14 };
    assert_eq!(parse_error_json(&e), "{\"line\":3,\"column\":14,\"message\":\"ожидалось \\\"x\\\"\"}");
}

fn color_number(t: &str) -> u32 {
    t.parse::<f64>().unwrap_or(0.0) as u32
}

#[test]
fn colors_from_hex_and_numbers() {
    assert_eq!(parse_color("#ff8000", color_number), 0x0080ff);
    assert_eq!(parse_color("#12", color_number), 0x120000);
    assert_eq!(parse_color("#AbCdEf", color_number), 0xefcdab);
    assert_eq!(parse_color("255", color_number), 255);
    assert_eq!(parse_color("1e3", color_number), 1000);
    assert_eq!(parse_color("#zz", color_number), 0);
    assert_eq!(parse_color("#", color_number), 0);
    assert_eq!(parse_color("", color_number), 0);
}

#[test]
fn written_colors_read_back() {
    for c in [0u32, 0x00ff8000, 0x12345678, 0xffffffff, 0x000a0b0c] {
        let text = stratum_core::gfx::svg::color(c);
        assert_eq!(parse_color(&text, color_number), c & 0x00ff_ffff);
    }
}

#[test]
fn texts_url_decode_takes() {
    assert!(stratum_core::player::url_decodable("a%20b+c"));
    assert!(stratum_core::player::url_decodable(""));
    assert!(!stratum_core::player::url_decodable("%Aé"));
    assert!(stratum_core::player::url_decodable("%éx"));
}

#[test]
fn state_changes_are_routed_only_for_post() {
    assert_eq!(route("POST", "/api/child/remove"), Route::ChildRemove);
    assert_eq!(route("GET", "/api/child/remove"), Route::NotFound);
    assert_eq!(route("GET", "/api/class/Root"), Route::Class);
    assert_eq!(route("POST", "/api/class/Root/rename"), Route::ClassRename);
    assert_eq!(route("GET", "/api/class/Root/rename"), Route::NotFound);
    assert_eq!(route("POST", "/api/undo"), Route::Undo);
    assert_eq!(route("GET", "/api/undo"), Route::NotFound);
    assert_eq!(route("GET", "/x"), Route::NotFound);
    assert_eq!(route("GET", "/api/picture/a"), Route::PictureRead);
    assert_eq!(route("PUT", "/api/picture/a"), Route::PictureWrongMethod);
}
