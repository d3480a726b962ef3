//! Answers of the IDE's JSON API that do not need the running model:
//! responses, errors and the icons of images.

use vstd::prelude::*;
use crate::formats::cls::{Class, ClassView, ChildView, LinkView};
use crate::formats::json::{json_quoted, write_string};
use crate::gfx::bmp_dims;
use crate::lang::parser::ParseError;
use crate::lang::syntax::ParseErrorView;
use crate::gfx::svg::{b64_from, base64};
use crate::numtext::{decimal, digit_char, digits, hex, hex_padded, push_decimal};
use crate::formats::json_read::hex_digits_value;
use crate::formats::json_round_trip::lemma_hex_digit_char;
use crate::gfx::svg::color_text;
use crate::formats::json_read::hex_text;
use crate::stdx::{string_push, u32_from_hex};
use crate::text::{chars_of, string_of_chars, sub_chars};

verus! {

pub struct Response {
    pub status: &'static str,
    pub mime: &'static str,
    pub body: String,
}

/// A JSON answer: `200 OK`.
pub fn json(body: String) -> (r: Response)
    ensures
        r.status@ == "200 OK"@,
        r.mime@ == "application/json; charset=utf-8"@,
        r.body@ == body@,
{
    Response { status: "200 OK", mime: "application/json; charset=utf-8", body }
}

/// The body of an error answer: `{"error":"…"}`.
pub open spec fn error_body(message: Seq<char>) -> Seq<char> {
    "{\"error\":"@ + json_quoted(message) + seq!['}']
}

/// An error answer with the given status.
pub fn error(status: &'static str, message: &str) -> (r: Response)
    ensures
        r.status@ == status@,
        r.mime@ == "application/json; charset=utf-8"@,
        r.body@ == error_body(message@),
{
    let mut body = String::new();
    body.append("{\"error\":");
    write_string(&mut body, message);
    string_push(&mut body, '}');
    Response { status, mime: "application/json; charset=utf-8", body }
}

/// The SVG that shows the 32×32 cell `(cx, cy)` of a sheet of icons.
pub open spec fn sheet_icon_svg(cx: nat, cy: nat, w: nat, h: nat, b64: Seq<char>) -> Seq<char> {
    "<svg xmlns=\"http://www.w3.org/2000/svg\" xmlns:xlink=\"http://www.w3.org/1999/xlink\" width=\"32\" height=\"32\" viewBox=\""@
        + decimal(cx) + seq![' '] + decimal(cy) + " 32 32\"><image width=\""@ + decimal(w)
        + "\" height=\""@ + decimal(h) + "\" xlink:href=\"data:image/bmp;base64,"@ + b64
        + "\"/></svg>"@
}

/// The icon `index` of a `.dbm` sheet (a BMP seven cells of 32×32 wide):
/// `None` when the sheet is smaller than one cell.
pub open spec fn sheet_icon_of(bmp: Seq<u8>, index: u16) -> Option<Seq<char>> {
    let (w, h) = bmp_dims(bmp);
    if w < 32 || h < 32 {
        None
    } else {
        let cols = (w / 32) as int;
        Some(
            sheet_icon_svg(
                ((index as int % cols) * 32) as nat,
                ((index as int / cols) * 32) as nat,
                w as nat,
                h as nat,
                b64_from(bmp, 0),
            ),
        )
    }
}

pub fn sheet_icon(bmp: &[u8], index: u16) -> (r: Option<String>)
    ensures
        match sheet_icon_of(bmp@, index) {
            Some(s) => r matches Some(x) && x@ == s,
            None => r is None,
        },
{
    let (w, h) = crate::gfx::bmp_size(bmp);
    if w < 32 || h < 32 {
        return None;
    }
    let cols = w / 32;
    let cx = (index as u32 % cols) * 32;
    let cy = (index as u32 / cols) * 32;
    let mut s = String::new();
    s.append(
        "<svg xmlns=\"http://www.w3.org/2000/svg\" xmlns:xlink=\"http://www.w3.org/1999/xlink\" width=\"32\" height=\"32\" viewBox=\"",
    );
    push_decimal(&mut s, cx as u64);
    string_push(&mut s, ' ');
    push_decimal(&mut s, cy as u64);
    s.append(" 32 32\"><image width=\"");
    push_decimal(&mut s, w as u64);
    s.append("\" height=\"");
    push_decimal(&mut s, h as u64);
    s.append("\" xlink:href=\"data:image/bmp;base64,");
    let b = base64(bmp);
    s.append(b.as_str());
    s.append("\"/></svg>");
    Some(s)
}

/// The first two characters of a name with `<` written `&lt;`.
pub open spec fn icon_initial(name: Seq<char>) -> Seq<char> {
    let t = if name.len() <= 2 {
        name
    } else {
        name.take(2)
    };
    lt_escaped(t)
}

/// A text with `<` written `&lt;`.
pub open spec fn lt_escaped(s: Seq<char>) -> Seq<char>
    decreases s.len(),
{
    if s.len() == 0 {
        Seq::empty()
    } else {
        lt_escaped(s.drop_last()) + if s.last() == '<' {
            seq!['&', 'l', 't', ';']
        } else {
            seq![s.last()]
        }
    }
}

/// The icon of an image that has none: its first two letters in a rounded
/// square.
pub open spec fn default_icon_svg(name: Seq<char>) -> Seq<char> {
    "<svg xmlns=\"http://www.w3.org/2000/svg\" width=\"32\" height=\"32\" viewBox=\"0 0 32 32\"><rect x=\"1\" y=\"1\" width=\"30\" height=\"30\" rx=\"4\" fill=\"#e8ecf3\" stroke=\"#9aa3b5\"/><text x=\"16\" y=\"21\" font-size=\"12\" text-anchor=\"middle\" font-family=\"sans-serif\" fill=\"#3b4252\">"@
        + icon_initial(name) + "</text></svg>"@
}

pub fn default_icon(name: &str) -> (s: String)
    ensures
        s@ == default_icon_svg(name@),
{
    let c = chars_of(name);
    let n: usize = if c.len() <= 2 {
        c.len()
    } else {
        2
    };
    let ghost t = if c@.len() <= 2 {
        c@
    } else {
        c@.take(2)
    };
    let mut s = String::new();
    s.append(
        "<svg xmlns=\"http://www.w3.org/2000/svg\" width=\"32\" height=\"32\" viewBox=\"0 0 32 32\"><rect x=\"1\" y=\"1\" width=\"30\" height=\"30\" rx=\"4\" fill=\"#e8ecf3\" stroke=\"#9aa3b5\"/><text x=\"16\" y=\"21\" font-size=\"12\" text-anchor=\"middle\" font-family=\"sans-serif\" fill=\"#3b4252\">",
    );
    let ghost start = s@;
    let mut i: usize = 0;
    while i < n
        invariant
            c@ == name@,
            n as int == t.len(),
            t == if c@.len() <= 2 {
                c@
            } else {
                c@.take(2)
            },
            i <= n,
            s@ == start + lt_escaped(t.take(i as int)),
        decreases n - i,
    {
        let ch = c[i];
        if ch == '<' {
            string_push(&mut s, '&');
            string_push(&mut s, 'l');
            string_push(&mut s, 't');
            string_push(&mut s, ';');
        } else {
            string_push(&mut s, ch);
        }
        proof {
            let u = t.take(i + 1);
            assert(u.drop_last() =~= t.take(i as int));
            assert(u.last() == ch);
        }
        i = i + 1;
        assert(s@ =~= start + lt_escaped(t.take(i as int)));
    }
    assert(t.take(n as int) =~= t);
    s.append("</text></svg>");
    s
}

/// The largest of some handles; 0 when there are none.
pub open spec fn max_handle(hs: Seq<u16>) -> nat
    decreases hs.len(),
{
    if hs.len() == 0 {
        0
    } else {
        let m = max_handle(hs.drop_last());
        if hs.last() > m {
            hs.last() as nat
        } else {
            m
        }
    }
}

/// The handles taken on the sheet of a class: those of its blocks, then
/// those of its links.
pub open spec fn sheet_handles(c: ClassView) -> Seq<u16> {
    c.children.map_values(|ch: ChildView| ch.handle) + c.links.map_values(|l: LinkView| l.handle)
}

/// One above the largest handle on the sheet (1 on an empty sheet), and
/// 65535 once that one is taken.
pub open spec fn free_handle_of(c: ClassView) -> u16 {
    let m = max_handle(sheet_handles(c));
    if m >= 65535 {
        65535
    } else {
        (m + 1) as u16
    }
}

/// A handle that no block and no link on the sheet holds.
pub fn free_handle(c: &Class) -> (h: u16)
    ensures
        h == free_handle_of(c@),
{
    let ghost hs = sheet_handles(c@);
    let ghost ch = c@.children.map_values(|x: ChildView| x.handle);
    let mut m: u16 = 0;
    let mut i: usize = 0;
    while i < c.children.len()
        invariant
            ch == c@.children.map_values(|x: ChildView| x.handle),
            c@.children.len() == c.children@.len(),
            i <= c.children.len(),
            m as nat == max_handle(ch.take(i as int)),
        decreases c.children.len() - i,
    {
        proof {
            assert(ch.take(i + 1).drop_last() =~= ch.take(i as int));
            assert(c@.children[i as int] == c.children@[i as int]@);
        }
        let x = c.children[i].handle;
        if x > m {
            m = x;
        }
        i = i + 1;
    }
    assert(ch.take(c.children.len() as int) =~= ch);
    assert(hs.take(ch.len() as int) =~= ch);
    let mut j: usize = 0;
    while j < c.links.len()
        invariant
            hs == sheet_handles(c@),
            ch == c@.children.map_values(|x: ChildView| x.handle),
            c@.links.len() == c.links@.len(),
            j <= c.links.len(),
            m as nat == max_handle(hs.take(ch.len() + j)),
            hs.len() == ch.len() + c.links.len(),
        decreases c.links.len() - j,
    {
        proof {
            assert(hs.take(ch.len() + j + 1).drop_last() =~= hs.take(ch.len() + j));
            assert(hs[ch.len() + j] == c.links@[j as int].handle);
            assert(c@.links[j as int] == c.links@[j as int]@);
        }
        let x = c.links[j].handle;
        if x > m {
            m = x;
        }
        j = j + 1;
    }
    assert(hs.take(hs.len() as int) =~= hs);
    if m == 65535 {
        65535
    } else {
        m + 1
    }
}

/// An error of the parser as JSON: `{"line":…,"column":…,"message":"…"}`.
pub open spec fn parse_error_json_of(e: ParseErrorView) -> Seq<char> {
    "{\"line\":"@ + decimal(e.line as nat) + ",\"column\":"@ + decimal(e.column as nat)
        + ",\"message\":"@ + json_quoted(e.message) + seq!['}']
}

pub fn parse_error_json(e: &ParseError) -> (s: String)
    ensures
        s@ == parse_error_json_of(e@),
{
    let mut s = String::new();
    s.append("{\"line\":");
    push_decimal(&mut s, e.line as u64);
    s.append(",\"column\":");
    push_decimal(&mut s, e.column as u64);
    s.append(",\"message\":");
    write_string(&mut s, e.message.as_str());
    string_push(&mut s, '}');
    s
}

/// `#rrggbb` as a COLORREF: the red and blue bytes change places.
pub open spec fn colorref(rgb: u32) -> u32 {
    ((rgb & 0xFF) << 16) | (rgb & 0xFF00) | (rgb >> 16)
}

/// The colour a text names, when it is `#` and a hexadecimal number that
/// fits in 32 bits.
pub open spec fn hex_color(v: Seq<char>) -> Option<u32> {
    if v.len() > 0 && v[0] == '#' {
        match hex_text(v.drop_first()) {
            Some(n) => if n <= u32::MAX {
                Some(colorref(n as u32))
            } else {
                None
            },
            None => None,
        }
    } else {
        None
    }
}

/// `#rrggbb` or a number as a COLORREF. Any other text is read by
/// `number`, which gives the colour of a number written out.
pub fn parse_color<F: Fn(&str) -> u32>(v: &str, number: F) -> (c: u32)
    requires
        forall|t: &str| #[trigger] number.requires((t,)),
    ensures
        match hex_color(v@) {
            Some(x) => c == x,
            None => number.ensures((v,), c),
        },
{
    let chars = chars_of(v);
    if chars.len() > 0 && chars[0] == '#' {
        let rest = string_of_chars(&sub_chars(&chars, 1, chars.len()));
        assert(rest@ =~= v@.drop_first());
        if let Some(rgb) = u32_from_hex(rest.as_str()) {
            return ((rgb & 0xFF) << 16) | (rgb & 0xFF00) | (rgb >> 16);
        }
    }
    number(v)
}

/// Two hexadecimal digits of a byte.
pub proof fn lemma_hex_byte(n: nat)
    requires
        n < 256,
    ensures
        hex_padded(n, 2) == seq![digit_char(n / 16), digit_char(n % 16)],
{
    if n < 16 {
        assert(hex(n) == seq![digit_char(n % 16)]);
        assert(n % 16 == n);
        assert(digit_char(0) == '0');
        assert(hex_padded(n, 2) =~= seq!['0', digit_char(n % 16)]);
    } else {
        assert(hex(n) == digits(n / 16, 16).push(digit_char(n % 16)));
        assert((n / 16) % 16 == n / 16);
        assert(digits(n / 16, 16) == seq![digit_char((n / 16) % 16)]);
        assert(hex_padded(n, 2) =~= seq![digit_char(n / 16), digit_char(n % 16)]);
    }
}

/// A colour written as `#rrggbb` by `color` reads back, through
/// `parse_color`, as the colour without its top byte.
pub proof fn law_color_read_back(c: u32)
    ensures
        hex_color(color_text(c)) == Some(c & 0xFF_FFFF),
{
    let r = (c % 256) as nat;
    let g = ((c / 256) % 256) as nat;
    let b = ((c / 65536) % 256) as nat;
    lemma_hex_byte(r);
    lemma_hex_byte(g);
    lemma_hex_byte(b);
    let d = seq![
        digit_char(r / 16),
        digit_char(r % 16),
        digit_char(g / 16),
        digit_char(g % 16),
        digit_char(b / 16),
        digit_char(b % 16),
    ];
    let t = color_text(c);
    assert(t.drop_first() =~= d);
    lemma_hex_digit_char(r / 16);
    lemma_hex_digit_char(r % 16);
    lemma_hex_digit_char(g / 16);
    lemma_hex_digit_char(g % 16);
    lemma_hex_digit_char(b / 16);
    lemma_hex_digit_char(b % 16);
    assert(d[0] != '+');
    reveal_with_fuel(hex_digits_value, 7);
    assert(d.drop_last() =~= d.take(5));
    assert(d.take(5).drop_last() =~= d.take(4));
    assert(d.take(4).drop_last() =~= d.take(3));
    assert(d.take(3).drop_last() =~= d.take(2));
    assert(d.take(2).drop_last() =~= d.take(1));
    assert(d.take(1).drop_last() =~= Seq::<char>::empty());
    let n = r * 65536 + g * 256 + b;
    assert(hex_digits_value(d) == Some(((((r / 16 * 16 + r % 16) * 16 + g / 16) * 16 + g % 16) * 16 + b
        / 16) * 16 + b % 16));
    assert(hex_text(d) == Some(n));
    let cr = c % 256;
    let cg = (c / 256) % 256;
    let cb = (c / 65536) % 256;
    let nu = (cr * 65536 + cg * 256 + cb) as u32;
    assert(colorref(nu) == c & 0xFF_FFFF) by (bit_vector)
        requires
            cr == c % 256,
            cg == (c / 256) % 256,
            cb == (c / 65536) % 256,
            nu == (cr * 65536 + cg * 256 + cb) as u32,
    ;
}

} // verus!
