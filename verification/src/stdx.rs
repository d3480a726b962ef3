//! Contracts for the few std functions on strings that the library calls and
//! that vstd leaves unspecified, and the readers of unsigned numbers in
//! decimal and hexadecimal text that `str::parse` and `from_str_radix` do.

use vstd::prelude::*;
use crate::formats::json_read::{hex_digits_value, hex_text};

verus! {

/// `String::push` appends one character to the end of the string.
#[verifier::external_body]
pub(crate) fn string_push(s: &mut String, c: char)
    ensures
        final(s)@ == old(s)@.push(c),
{
    s.push(c);
}

/// Hexadecimal digits that hold a character of no digit have no value, nor
/// does any longer text that starts with them.
proof fn lemma_hex_none_grows(d: Seq<char>, k: int)
    requires
        0 <= k <= d.len(),
        hex_digits_value(d.take(k)) is None,
    ensures
        hex_digits_value(d) is None,
    decreases d.len() - k,
{
    if k < d.len() {
        assert(d.take(k + 1).drop_last() =~= d.take(k));
        lemma_hex_none_grows(d, k + 1);
    } else {
        assert(d.take(k) =~= d);
    }
}

/// The value of hexadecimal digits is at least that of any prefix.
proof fn lemma_hex_prefix(d: Seq<char>, k: int)
    requires
        0 <= k <= d.len(),
        hex_digits_value(d) is Some,
    ensures
        hex_digits_value(d.take(k)) is Some,
        hex_digits_value(d.take(k))->0 <= hex_digits_value(d)->0,
    decreases d.len() - k,
{
    if k < d.len() {
        lemma_hex_prefix(d, k + 1);
        assert(d.take(k + 1).drop_last() =~= d.take(k));
    } else {
        assert(d.take(k) =~= d);
    }
}

/// `u32::from_str_radix(s, 16)`: the number of `hex_text`, when it fits.
pub(crate) fn u32_from_hex(s: &str) -> (r: Option<u32>)
    ensures
        match hex_text(s@) {
            Some(v) => if v <= u32::MAX {
                r == Some(v as u32)
            } else {
                r is None
            },
            None => r is None,
        },
{
    let c = crate::text::chars_of(s);
    let start: usize = if c.len() > 0 && c[0] == '+' { 1 } else { 0 };
    let ghost d = if s@.len() > 0 && s@[0] == '+' {
        s@.drop_first()
    } else {
        s@
    };
    assert(d =~= c@.skip(start as int));
    if start >= c.len() {
        return None;
    }
    let mut v: u32 = 0;
    let mut big = false;
    let mut k: usize = start;
    assert(d.take(0) =~= Seq::<char>::empty());
    while k < c.len()
        invariant
            start <= k <= c@.len(),
            d == (if s@.len() > 0 && s@[0] == '+' {
                s@.drop_first()
            } else {
                s@
            }),
            c@ == s@,
            d =~= c@.skip(start as int),
            hex_digits_value(d.take(k - start)) is Some,
            !big ==> hex_digits_value(d.take(k - start)) == Some(v as nat),
            big ==> hex_digits_value(d.take(k - start))->0 > u32::MAX,
        decreases c.len() - k,
    {
        assert(d[k - start] == c@[k as int]);
        assert(d.take(k + 1 - start).drop_last() =~= d.take(k - start));
        assert(d.take(k + 1 - start).last() == c@[k as int]);
        let digit = match crate::formats::json_read::hex_digit_of(c[k]) {
            Some(x) => x,
            None => {
                proof {
                    lemma_hex_none_grows(d, k + 1 - start);
                }
                return None;
            },
        };
        if !big {
            if v > (u32::MAX - digit) / 16 {
                assert(v * 16 + digit > u32::MAX) by (nonlinear_arith)
                    requires
                        v > (u32::MAX - digit) / 16,
                        digit <= 15,
                ;
                big = true;
            } else {
                assert(v * 16 + digit <= u32::MAX) by (nonlinear_arith)
                    requires
                        v <= (u32::MAX - digit) / 16,
                        digit <= 15,
                ;
                v = v * 16 + digit;
            }
        } else {
            let ghost a = hex_digits_value(d.take(k - start))->0;
            assert(a * 16 + digit > u32::MAX) by (nonlinear_arith)
                requires
                    a > u32::MAX,
            ;
        }
        k = k + 1;
    }
    assert(d.take(d.len() as int) =~= d);
    if big {
        None
    } else {
        Some(v)
    }
}

} // verus!

verus! {

/// What `{:?}` writes for a character: the character in single quotes, with
/// Rust's escapes.
pub uninterp spec fn debug_of_char(c: char) -> Seq<char>;

/// `format!("{:?}", c)`: Rust's debug form of a character.
#[verifier::external_body]
pub(crate) fn char_debug(c: char) -> (s: String)
    ensures
        s@ == debug_of_char(c),
{
    format!("{:?}", c)
}

} // verus!

verus! {

/// What `{:?}` writes for a string: the text in double quotes, with Rust's
/// escapes.
pub uninterp spec fn debug_of_str(s: Seq<char>) -> Seq<char>;

/// `format!("{:?}", s)`: Rust's debug form of a string.
#[verifier::external_body]
pub(crate) fn str_debug(s: &str) -> (r: String)
    ensures
        r@ == debug_of_str(s@),
{
    format!("{:?}", s)
}

} // verus!

verus! {

/// Whether a character has the Unicode property Alphabetic.
pub uninterp spec fn alphabetic(c: char) -> bool;

/// `char::is_alphabetic`: the character has the Unicode property
/// Alphabetic; among ASCII characters those are the Latin letters.
#[verifier::external_body]
pub(crate) fn char_is_alphabetic(c: char) -> (b: bool)
    ensures
        b == alphabetic(c),
        (c as u32) < 128 ==> (b <==> ('a' <= c <= 'z' || 'A' <= c <= 'Z')),
{
    c.is_alphabetic()
}

/// Whether a character is alphabetic or numeric in Unicode's sense.
pub uninterp spec fn alphanumeric(c: char) -> bool;

/// `char::is_alphanumeric`: the character is alphabetic or has a numeric
/// general category; among ASCII characters those are the Latin letters
/// and the digits.
#[verifier::external_body]
pub(crate) fn char_is_alphanumeric(c: char) -> (b: bool)
    ensures
        b == alphanumeric(c),
        (c as u32) < 128 ==> (b <==> ('a' <= c <= 'z' || 'A' <= c <= 'Z' || '0' <= c <= '9')),
{
    c.is_alphanumeric()
}

} // verus!

verus! {

/// Whether a character has the Unicode property White_Space.
pub uninterp spec fn white_space(c: char) -> bool;

/// `char::is_whitespace`: the character has the Unicode property
/// White_Space; among ASCII characters those are the space and tab to
/// carriage return (U+0009 to U+000D).
#[verifier::external_body]
pub(crate) fn char_is_whitespace(c: char) -> (b: bool)
    ensures
        b == white_space(c),
        (c as u32) < 128 ==> (b <==> (c == ' ' || ('\t' <= c && c <= '\r'))),
{
    c.is_whitespace()
}

} // verus!

verus! {

/// The text that `String::from_utf8_lossy` makes of some bytes: the UTF-8
/// decoded, each invalid sequence replaced by U+FFFD.
pub uninterp spec fn utf8_lossy(b: Seq<u8>) -> Seq<char>;

/// `String::from_utf8_lossy(..).into_owned()`.
#[verifier::external_body]
pub(crate) fn string_from_utf8_lossy(b: &[u8]) -> (s: String)
    ensures
        s@ == utf8_lossy(b@),
{
    String::from_utf8_lossy(b).into_owned()
}

} // verus!

verus! {

/// The value of decimal digits.
pub open spec fn digits_value(d: Seq<char>) -> nat
    decreases d.len(),
{
    if d.len() == 0 {
        0
    } else {
        digits_value(d.drop_last()) * 10 + (d.last() as nat - '0' as nat) as nat
    }
}

/// Every character is an ASCII digit.
pub open spec fn all_digits(d: Seq<char>) -> bool {
    forall|i: int| 0 <= i < d.len() ==> '0' <= #[trigger] d[i] <= '9'
}

/// The number an unsigned integer is read from: an optional `+`, then one
/// or more ASCII digits and nothing else.
pub open spec fn unsigned_text(s: Seq<char>) -> Option<nat> {
    let d = if s.len() > 0 && s[0] == '+' {
        s.drop_first()
    } else {
        s
    };
    if d.len() > 0 && all_digits(d) {
        Some(digits_value(d))
    } else {
        None
    }
}

/// A value of decimal digits is at least that of any of its prefixes.
pub proof fn lemma_digits_prefix(d: Seq<char>, k: int)
    requires
        0 <= k <= d.len(),
        forall|i: int| 0 <= i < d.len() ==> '0' <= #[trigger] d[i] <= '9',
    ensures
        digits_value(d.take(k)) <= digits_value(d),
    decreases d.len() - k,
{
    if k < d.len() {
        lemma_digits_prefix(d, k + 1);
        assert(d.take(k + 1).drop_last() =~= d.take(k));
    } else {
        assert(d.take(k) =~= d);
    }
}

/// The number of `unsigned_text`, when it is at most `max`: what
/// `str::parse` gives for an unsigned type whose largest value is `max`.
fn parse_unsigned(s: &str, max: u64) -> (r: Option<u64>)
    requires
        max >= 9,
    ensures
        match unsigned_text(s@) {
            Some(v) => if v <= max {
                r == Some(v as u64)
            } else {
                r is None
            },
            None => r is None,
        },
{
    let c = crate::text::chars_of(s);
    let start: usize = if c.len() > 0 && c[0] == '+' { 1 } else { 0 };
    let ghost d = if s@.len() > 0 && s@[0] == '+' {
        s@.drop_first()
    } else {
        s@
    };
    assert(d =~= c@.skip(start as int));
    if start >= c.len() {
        return None;
    }
    let mut i: usize = start;
    while i < c.len()
        invariant
            start <= i <= c@.len(),
            d == (if s@.len() > 0 && s@[0] == '+' {
                s@.drop_first()
            } else {
                s@
            }),
            c@ == s@,
            d =~= c@.skip(start as int),
            forall|j: int| start <= j < i ==> '0' <= #[trigger] c@[j] <= '9',
        decreases c.len() - i,
    {
        if !('0' <= c[i] && c[i] <= '9') {
            assert(d[i - start] == c@[i as int]);
            assert(0 <= i - start < d.len());
            assert(!('0' <= d[i - start] <= '9'));
            assert(!(forall|j: int| 0 <= j < d.len() ==> '0' <= #[trigger] d[j] <= '9'));
            assert(!all_digits(d));
            return None;
        }
        i = i + 1;
    }
    assert(all_digits(d)) by {
        assert forall|j: int| 0 <= j < d.len() implies '0' <= #[trigger] d[j] <= '9' by {
            assert(d[j] == c@[j + start]);
        }
    }
    let mut v: u64 = 0;
    let mut k: usize = start;
    while k < c.len()
        invariant
            start <= k <= c@.len(),
            d == (if s@.len() > 0 && s@[0] == '+' {
                s@.drop_first()
            } else {
                s@
            }),
            c@ == s@,
            d =~= c@.skip(start as int),
            forall|j: int| 0 <= j < d.len() ==> '0' <= #[trigger] d[j] <= '9',
            v <= max,
            max >= 9,
            v == digits_value(d.take(k - start)),
        decreases c.len() - k,
    {
        assert(d[k - start] == c@[k as int]);
        let digit = (c[k] as u32 - '0' as u32) as u64;
        assert(d.take(k + 1 - start).drop_last() =~= d.take(k - start));
        assert(d.take(k + 1 - start).last() == c@[k as int]);
        if v > (max - digit) / 10 {
            proof {
                lemma_digits_prefix(d, k + 1 - start);
                assert(v * 10 + digit > max) by (nonlinear_arith)
                    requires
                        v > (max - digit) / 10,
                        digit <= 9,
                        digit <= max || v > 0,
                ;
            }
            return None;
        }
        assert(v * 10 + digit <= max) by (nonlinear_arith)
            requires
                v <= (max - digit) / 10,
                digit <= max,
        ;
        v = v * 10 + digit;
        k = k + 1;
    }
    assert(d.take(d.len() as int) =~= d);
    Some(v)
}

/// `str::parse::<u64>`: the number of `unsigned_text`, when it fits.
pub(crate) fn parse_u64(s: &str) -> (r: Option<u64>)
    ensures
        match unsigned_text(s@) {
            Some(v) => if v <= u64::MAX {
                r == Some(v as u64)
            } else {
                r is None
            },
            None => r is None,
        },
{
    parse_unsigned(s, u64::MAX)
}

/// `str::parse::<u16>`: the number of `unsigned_text`, when it fits.
pub(crate) fn parse_u16(s: &str) -> (r: Option<u16>)
    ensures
        match unsigned_text(s@) {
            Some(v) => if v <= u16::MAX {
                r == Some(v as u16)
            } else {
                r is None
            },
            None => r is None,
        },
{
    match parse_unsigned(s, 65535) {
        Some(v) => Some(v as u16),
        None => None,
    }
}

/// `char::from_u32`: the character of a code that is a Unicode scalar value
/// (below `D800`, or from `E000` to `10FFFF`); none for any other code.
#[verifier::external_body]
pub(crate) fn char_from_u32(code: u32) -> (r: Option<char>)
    ensures
        (code < 0xD800 || (0xE000 <= code && code <= 0x10FFFF)) ==> r == Some(code as char),
        !(code < 0xD800 || (0xE000 <= code && code <= 0x10FFFF)) ==> r is None,
{
    char::from_u32(code)
}

/// What `str::to_lowercase` makes of a text: its characters in lower case
/// by Unicode's rules, which may change the length.
pub uninterp spec fn lowercase(s: Seq<char>) -> Seq<char>;

/// `str::to_lowercase`: the text in lower case.
#[verifier::external_body]
pub(crate) fn str_to_lowercase(s: &str) -> (r: String)
    ensures
        r@ == lowercase(s@),
{
    s.to_lowercase()
}

} // verus!
