//! The pieces of the local player server that decide: query parameters,
//! URL decoding, JSON strings and the guards of the server.

use vstd::prelude::*;
use crate::formats::json::{json_quoted, write_string};
use crate::stdx::{string_from_utf8_lossy, utf8_lossy};
use crate::text::{chars_of, has_at, string_of_chars, sub_chars, trim_chars, trim_ws};

pub mod api;
pub mod editor;
pub mod guard;
pub mod history;
pub mod route;
pub mod sheet;
pub mod project_edit;

verus! {

/// A text as a JSON string: in double quotes, escaped.
pub fn json_string(s: &str) -> (r: String)
    ensures
        r@ == json_quoted(s@),
{
    let mut out = String::new();
    write_string(&mut out, s);
    assert(out@ =~= json_quoted(s@));
    out
}

/// Where the field that starts at `i` ends: at the next separator or at
/// the end.
pub open spec fn field_end(s: Seq<char>, i: int, sep: char) -> int
    decreases s.len() - i,
{
    if i < 0 || i >= s.len() || s[i] == sep {
        i
    } else {
        field_end(s, i + 1, sep)
    }
}

pub proof fn lemma_field_end(s: Seq<char>, i: int, sep: char)
    requires
        0 <= i <= s.len(),
    ensures
        i <= field_end(s, i, sep) <= s.len(),
        field_end(s, i, sep) < s.len() ==> s[field_end(s, i, sep)] == sep,
    decreases s.len() - i,
{
    if i < s.len() && s[i] != sep {
        lemma_field_end(s, i + 1, sep);
    }
}

/// The value given to `key` by the first of the fields (split at `sep`,
/// from `i` on) that reads `key=value`; each field is trimmed first when
/// `trim` is set.
pub open spec fn field_value(s: Seq<char>, i: int, sep: char, key: Seq<char>, trim: bool) -> Option<
    Seq<char>,
>
    decreases s.len() - i,
{
    if i < 0 || i > s.len() {
        None
    } else {
        let e = field_end(s, i, sep);
        let f0 = s.subrange(i, e);
        let f = if trim {
            trim_ws(f0)
        } else {
            f0
        };
        let k = key.push('=');
        if has_at(f, 0, k) {
            Some(f.subrange(k.len() as int, f.len() as int))
        } else if e >= s.len() {
            None
        } else {
            proof {
                lemma_field_end(s, i, sep);
            }
            field_value(s, e + 1, sep, key, trim)
        }
    }
}

/// The value of the first field `key=value` of `s` split at `sep`.
pub fn find_field(s: &str, sep: char, key: &str, trim: bool) -> (r: Option<String>)
    ensures
        match field_value(s@, 0, sep, key@, trim) {
            Some(v) => r matches Some(x) && x@ == v,
            None => r is None,
        },
{
    let c = chars_of(s);
    let mut k = chars_of(key);
    k.push('=');
    let ghost target = field_value(s@, 0, sep, key@, trim);
    let mut i: usize = 0;
    loop
        invariant
            c@ == s@,
            k@ == key@.push('='),
            i <= c@.len(),
            target == field_value(s@, 0, sep, key@, trim),
            target == field_value(s@, i as int, sep, key@, trim),
        decreases c@.len() - i,
    {
        let mut e = i;
        while e < c.len() && c[e] != sep
            invariant
                i <= e <= c@.len(),
                field_end(c@, i as int, sep) == field_end(c@, e as int, sep),
            decreases c.len() - e,
        {
            e = e + 1;
        }
        let f0 = sub_chars(&c, i, e);
        let f = if trim {
            trim_chars(&f0)
        } else {
            f0
        };
        if crate::text::chars_at(&f, 0, &k) {
            let v = sub_chars(&f, k.len(), f.len());
            return Some(string_of_chars(&v));
        }
        if e >= c.len() {
            return None;
        }
        i = e + 1;
    }
}

/// The value of `key` in a query `a=1&b=2`: the first field that reads
/// `key=value`.
pub fn param(query: &str, key: &str) -> (r: Option<String>)
    ensures
        match field_value(query@, 0, '&', key@, false) {
            Some(v) => r matches Some(x) && x@ == v,
            None => r is None,
        },
{
    find_field(query, '&', key, false)
}

/// The value of an ASCII hexadecimal digit.
pub open spec fn hex_val(b: u8) -> Option<u8> {
    if 0x30 <= b <= 0x39 {
        Some((b - 0x30) as u8)
    } else if 0x61 <= b <= 0x66 {
        Some((b - 0x61 + 10) as u8)
    } else if 0x41 <= b <= 0x46 {
        Some((b - 0x41 + 10) as u8)
    } else {
        None
    }
}

/// `u8::from_str_radix(_, 16)` of two ASCII bytes: two hex digits, or `+`
/// and one.
pub open spec fn hex_pair(x: u8, y: u8) -> Option<u8> {
    if x == 0x2B {
        hex_val(y)
    } else {
        match (hex_val(x), hex_val(y)) {
            (Some(a), Some(b)) => Some((16 * a + b) as u8),
            _ => None,
        }
    }
}

/// A byte that continues a UTF-8 sequence.
pub open spec fn is_continuation(b: u8) -> bool {
    0x80 <= b <= 0xBF
}

/// The bytes of a URL-encoded text from `i`, appended to `acc`: `%XY`
/// gives the byte `XY` (a `%` that no two hex digits follow stays), `+` a
/// space. `None` where the two characters after a `%` end inside a
/// character: slicing the text there would panic.
pub open spec fn url_bytes(b: Seq<u8>, i: int, acc: Seq<u8>) -> Option<Seq<u8>>
    decreases b.len() - i,
{
    if i < 0 || i >= b.len() {
        Some(acc)
    } else if b[i] == 0x25 && i + 2 < b.len() {
        if i + 3 < b.len() && is_continuation(b[i + 3]) {
            None
        } else {
            match hex_pair(b[i + 1], b[i + 2]) {
                Some(v) => url_bytes(b, i + 3, acc.push(v)),
                None => url_bytes(b, i + 1, acc.push(0x25)),
            }
        }
    } else if b[i] == 0x2B {
        url_bytes(b, i + 1, acc.push(0x20))
    } else {
        url_bytes(b, i + 1, acc.push(b[i]))
    }
}

fn hex_val_of(b: u8) -> (r: Option<u8>)
    ensures
        r == hex_val(b),
{
    if 0x30 <= b && b <= 0x39 {
        Some(b - 0x30)
    } else if 0x61 <= b && b <= 0x66 {
        Some(b - 0x61 + 10)
    } else if 0x41 <= b && b <= 0x46 {
        Some(b - 0x41 + 10)
    } else {
        None
    }
}

fn hex_pair_of(x: u8, y: u8) -> (r: Option<u8>)
    ensures
        r == hex_pair(x, y),
{
    if x == 0x2B {
        return hex_val_of(y);
    }
    match (hex_val_of(x), hex_val_of(y)) {
        (Some(a), Some(b)) => Some(16 * a + b),
        _ => None,
    }
}

/// Decodes `%XY` and `+` of a URL; the bytes are read as UTF-8, invalid
/// sequences replaced.
pub fn url_decode(s: &str) -> (r: String)
    requires
        url_bytes(vstd::utf8::encode_utf8(s@), 0, Seq::empty()) is Some,
    ensures
        r@ == utf8_lossy(url_bytes(vstd::utf8::encode_utf8(s@), 0, Seq::empty()).unwrap()),
{
    let bytes = s.as_bytes();
    let ghost b = bytes@;
    let ghost target = url_bytes(b, 0, Seq::empty());
    let mut out: Vec<u8> = Vec::new();
    let mut i: usize = 0;
    while i < bytes.len()
        invariant
            b == bytes@,
            i <= b.len(),
            target == url_bytes(b, 0, Seq::empty()),
            target is Some,
            target == url_bytes(b, i as int, out@),
        decreases bytes.len() - i,
    {
        let c = bytes[i];
        if c == 0x25 && bytes.len() - i > 2 {
            match hex_pair_of(bytes[i + 1], bytes[i + 2]) {
                Some(v) => {
                    out.push(v);
                    i = i + 3;
                },
                None => {
                    out.push(0x25);
                    i = i + 1;
                },
            }
        } else if c == 0x2B {
            out.push(0x20);
            i = i + 1;
        } else {
            out.push(c);
            i = i + 1;
        }
    }
    string_from_utf8_lossy(out.as_slice())
}

/// Whether `url_decode` takes the text: no `%` with two characters after
/// it whose next byte continues a character (slicing there would panic).
pub fn url_decodable(s: &str) -> (ok: bool)
    ensures
        ok == url_bytes(vstd::utf8::encode_utf8(s@), 0, Seq::empty()) is Some,
{
    let bytes = s.as_bytes();
    let ghost b = bytes@;
    let ghost target = url_bytes(b, 0, Seq::empty());
    let ghost mut acc: Seq<u8> = Seq::empty();
    let mut i: usize = 0;
    while i < bytes.len()
        invariant
            b == bytes@,
            i <= b.len(),
            target == url_bytes(b, 0, Seq::empty()),
            target == url_bytes(b, i as int, acc),
            b == vstd::utf8::encode_utf8(s@),
        decreases bytes.len() - i,
    {
        let c = bytes[i];
        if c == 0x25 && bytes.len() - i > 2 {
            if bytes.len() - i > 3 && 0x80 <= bytes[i + 3] && bytes[i + 3] <= 0xBF {
                assert(is_continuation(b[i + 3]));
                assert(url_bytes(b, i as int, acc) is None);
                return false;
            }
            match hex_pair_of(bytes[i + 1], bytes[i + 2]) {
                Some(v) => {
                    proof {
                        acc = acc.push(v);
                    }
                    i = i + 3;
                },
                None => {
                    proof {
                        acc = acc.push(0x25);
                    }
                    i = i + 1;
                },
            }
        } else if c == 0x2B {
            proof {
                acc = acc.push(0x20);
            }
            i = i + 1;
        } else {
            proof {
                acc = acc.push(c);
            }
            i = i + 1;
        }
    }
    true
}

} // verus!
