//! Pieces of the SVG rendering of a graphic space: colours, escaping of
//! text and attributes, rasters as base64 for `data:` URIs.

use vstd::prelude::*;
use crate::numtext::{hex_padded, push_hex_padded};
use crate::stdx::string_push;
use crate::text::chars_of;

verus! {

/// `#rrggbb` of a COLORREF `0x00BBGGRR`.
pub open spec fn color_text(c: u32) -> Seq<char> {
    seq!['#'] + hex_padded((c % 256) as nat, 2) + hex_padded(((c / 256) % 256) as nat, 2)
        + hex_padded(((c / 65536) % 256) as nat, 2)
}

/// COLORREF (`0x00BBGGRR`) as `#rrggbb`.
pub fn color(c: u32) -> (s: String)
    ensures
        s@ == color_text(c),
{
    let mut s = String::new();
    string_push(&mut s, '#');
    push_hex_padded(&mut s, (c % 256) as u64, 2);
    push_hex_padded(&mut s, ((c / 256) % 256) as u64, 2);
    push_hex_padded(&mut s, ((c / 65536) % 256) as u64, 2);
    assert(s@ =~= color_text(c));
    s
}

/// How a character stands in SVG text and attribute values.
pub open spec fn esc_char(c: char) -> Seq<char> {
    if c == '&' {
        seq!['&', 'a', 'm', 'p', ';']
    } else if c == '<' {
        seq!['&', 'l', 't', ';']
    } else if c == '>' {
        seq!['&', 'g', 't', ';']
    } else if c == '"' {
        seq!['&', 'q', 'u', 'o', 't', ';']
    } else {
        seq![c]
    }
}

/// A text with `&`, `<`, `>` and `"` written as entities.
pub open spec fn escaped(s: Seq<char>) -> Seq<char>
    decreases s.len(),
{
    if s.len() == 0 {
        Seq::empty()
    } else {
        escaped(s.drop_last()) + esc_char(s.last())
    }
}

fn push_esc(out: &mut String, c: char)
    ensures
        final(out)@ == old(out)@ + esc_char(c),
{
    if c == '&' {
        string_push(out, '&');
        string_push(out, 'a');
        string_push(out, 'm');
        string_push(out, 'p');
        string_push(out, ';');
    } else if c == '<' {
        string_push(out, '&');
        string_push(out, 'l');
        string_push(out, 't');
        string_push(out, ';');
    } else if c == '>' {
        string_push(out, '&');
        string_push(out, 'g');
        string_push(out, 't');
        string_push(out, ';');
    } else if c == '"' {
        string_push(out, '&');
        string_push(out, 'q');
        string_push(out, 'u');
        string_push(out, 'o');
        string_push(out, 't');
        string_push(out, ';');
    } else {
        string_push(out, c);
    }
    assert(out@ =~= old(out)@ + esc_char(c));
}

fn push_escaped(out: &mut String, s: &str)
    ensures
        final(out)@ == old(out)@ + escaped(s@),
{
    let c = chars_of(s);
    let mut i: usize = 0;
    while i < c.len()
        invariant
            c@ == s@,
            i <= c@.len(),
            out@ == old(out)@ + escaped(c@.take(i as int)),
        decreases c.len() - i,
    {
        push_esc(out, c[i]);
        proof {
            let t = c@.take(i + 1);
            assert(t.drop_last() =~= c@.take(i as int));
            assert(t.last() == c@[i as int]);
        }
        i = i + 1;
        assert(out@ =~= old(out)@ + escaped(c@.take(i as int)));
    }
    assert(c@.take(c@.len() as int) =~= c@);
}

/// A text for SVG: `&`, `<`, `>` and `"` written as entities.
pub fn esc(s: &str) -> (r: String)
    ensures
        r@ == escaped(s@),
{
    let mut r = String::new();
    push_escaped(&mut r, s);
    assert(r@ =~= escaped(s@));
    r
}

/// The attribute ` data-name="…"` for a named object; nothing for one
/// without a name.
pub open spec fn name_attr_text(name: Seq<char>) -> Seq<char> {
    if name.len() == 0 {
        Seq::empty()
    } else {
        " data-name=\""@ + escaped(name) + seq!['"']
    }
}

pub fn name_attr(name: &str) -> (r: String)
    ensures
        r@ == name_attr_text(name@),
{
    if name.is_empty() {
        String::new()
    } else {
        let mut r = String::new();
        r.append(" data-name=\"");
        push_escaped(&mut r, name);
        string_push(&mut r, '"');
        r
    }
}

/// The base64 digit of a value below 64.
pub open spec fn b64_digit(k: int) -> char {
    if k < 26 {
        (('A' as u32) + k) as char
    } else if k < 52 {
        (('a' as u32) + (k - 26)) as char
    } else if k < 62 {
        (('0' as u32) + (k - 52)) as char
    } else if k == 62 {
        '+'
    } else {
        '/'
    }
}

/// The four characters for the bytes from `i` (three, or fewer at the end,
/// padded with `=`).
pub open spec fn b64_quad(d: Seq<u8>, i: int) -> Seq<char> {
    let b0 = d[i] as int;
    let b1 = if i + 1 < d.len() {
        d[i + 1] as int
    } else {
        0
    };
    let b2 = if i + 2 < d.len() {
        d[i + 2] as int
    } else {
        0
    };
    let n = b0 * 65536 + b1 * 256 + b2;
    seq![
        b64_digit((n / 262144) % 64),
        b64_digit((n / 4096) % 64),
        if i + 1 < d.len() {
            b64_digit((n / 64) % 64)
        } else {
            '='
        },
        if i + 2 < d.len() {
            b64_digit(n % 64)
        } else {
            '='
        },
    ]
}

/// Base64 of the bytes from `i` on.
pub open spec fn b64_from(d: Seq<u8>, i: int) -> Seq<char>
    decreases d.len() + 3 - i,
{
    if i < 0 || i >= d.len() {
        Seq::empty()
    } else {
        b64_quad(d, i) + b64_from(d, i + 3)
    }
}

fn b64_digit_of(k: u32) -> (c: char)
    requires
        k < 64,
    ensures
        c == b64_digit(k as int),
{
    if k < 26 {
        ((65 + k) as u8) as char
    } else if k < 52 {
        ((97 + (k - 26)) as u8) as char
    } else if k < 62 {
        ((48 + (k - 52)) as u8) as char
    } else if k == 62 {
        '+'
    } else {
        '/'
    }
}

fn push_quad(out: &mut String, data: &[u8], i: usize)
    requires
        i < data@.len(),
    ensures
        final(out)@ == old(out)@ + b64_quad(data@, i as int),
{
    let n = data.len();
    let b0 = data[i] as u32;
    let b1: u32 = if n - i > 1 {
        data[i + 1] as u32
    } else {
        0
    };
    let b2: u32 = if n - i > 2 {
        data[i + 2] as u32
    } else {
        0
    };
    let v = b0 * 65536 + b1 * 256 + b2;
    string_push(out, b64_digit_of((v / 262144) % 64));
    string_push(out, b64_digit_of((v / 4096) % 64));
    if n - i > 1 {
        string_push(out, b64_digit_of((v / 64) % 64));
    } else {
        string_push(out, '=');
    }
    if n - i > 2 {
        string_push(out, b64_digit_of(v % 64));
    } else {
        string_push(out, '=');
    }
    assert(out@ =~= old(out)@ + b64_quad(data@, i as int));
}

/// Base64 (standard alphabet, `=` padding) of some bytes.
pub fn base64(data: &[u8]) -> (s: String)
    ensures
        s@ == b64_from(data@, 0),
{
    let mut out = String::new();
    let mut i: usize = 0;
    let n = data.len();
    while i < n
        invariant
            n == data@.len(),
            i <= n,
            b64_from(data@, 0) == out@ + b64_from(data@, i as int),
        decreases n - i,
    {
        let ghost before = out@;
        push_quad(&mut out, data, i);
        proof {
            assert(b64_from(data@, i as int) == b64_quad(data@, i as int) + b64_from(data@, i + 3));
            vstd::seq_lib::lemma_concat_associative(before, b64_quad(data@, i as int), b64_from(data@, i + 3));
        }
        if n - i <= 3 {
            assert(b64_from(data@, i + 3) =~= b64_from(data@, n as int));
            i = n;
        } else {
            i = i + 3;
        }
    }
    assert(b64_from(data@, i as int) =~= Seq::<char>::empty());
    assert(out@ =~= out@ + Seq::<char>::empty());
    out
}

} // verus!
