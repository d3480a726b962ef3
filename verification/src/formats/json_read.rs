//! Reading JSON: the grammar as functions on the characters of a text, and
//! the reader that follows it.

use vstd::prelude::*;
use crate::formats::json::{
    items_view, json_view, lemma_items_view, lemma_members_view, members_view, Json, JsonView,
};
use crate::lang::deps::{seq_less, seq_lt};
use crate::numtext::{decimal, push_decimal};
use crate::stdx::{char_from_u32, char_is_whitespace, string_push, white_space};
use crate::text::{chars_of, str_same, string_of_chars, sub_chars};

verus! {

/// Where reading stopped: at a position with a message, or on an escape
/// `\uD8xx\uXXXX` whose second half is below `DC00`, where the subtraction
/// of the low half underflows.
pub enum JsonError {
    At(int, Seq<char>),
    Underflow,
}

/// White space: among ASCII characters the space and tab to carriage
/// return, elsewhere the Unicode property White_Space.
pub open spec fn is_ws(ch: char) -> bool {
    if (ch as u32) < 128 {
        ch == ' ' || ('\t' <= ch && ch <= '\r')
    } else {
        white_space(ch)
    }
}

/// The first position from `i` on that holds no white space.
pub open spec fn ws_end(c: Seq<char>, i: int) -> int
    decreases c.len() - i,
{
    if 0 <= i < c.len() && is_ws(c[i]) {
        ws_end(c, i + 1)
    } else {
        i
    }
}

pub proof fn lemma_ws_end(c: Seq<char>, i: int)
    requires
        0 <= i <= c.len(),
    ensures
        i <= ws_end(c, i) <= c.len(),
    decreases c.len() - i,
{
    if i < c.len() && is_ws(c[i]) {
        lemma_ws_end(c, i + 1);
    }
}

/// A character a number is read with.
pub open spec fn is_number_char(ch: char) -> bool {
    ch == '-' || ch == '+' || ch == '.' || ch == 'e' || ch == 'E' || ('0' <= ch && ch <= '9')
}

pub open spec fn number_end(c: Seq<char>, i: int) -> int
    decreases c.len() - i,
{
    if 0 <= i < c.len() && is_number_char(c[i]) {
        number_end(c, i + 1)
    } else {
        i
    }
}

pub proof fn lemma_number_end(c: Seq<char>, i: int)
    requires
        0 <= i <= c.len(),
    ensures
        i <= number_end(c, i) <= c.len(),
        forall|k: int| i <= k < number_end(c, i) ==> is_number_char(#[trigger] c[k]),
        number_end(c, i) < c.len() ==> !is_number_char(c[number_end(c, i)]),
    decreases c.len() - i,
{
    if i < c.len() && is_number_char(c[i]) {
        lemma_number_end(c, i + 1);
    }
}

pub open spec fn all_digits(s: Seq<char>) -> bool {
    forall|k: int| 0 <= k < s.len() ==> '0' <= #[trigger] s[k] <= '9'
}

/// The first position of `ch` in `s`, or its length.
pub open spec fn index_of(s: Seq<char>, ch: char) -> int
    decreases s.len(),
{
    if s.len() == 0 {
        0
    } else if s[0] == ch {
        0
    } else {
        1 + index_of(s.drop_first(), ch)
    }
}

/// The first `e` or `E` of `s`, or its length.
pub open spec fn exp_index(s: Seq<char>) -> int {
    let a = index_of(s, 'e');
    let b = index_of(s, 'E');
    if a <= b {
        a
    } else {
        b
    }
}

/// Digits with at most one point, at least one digit.
pub open spec fn mantissa_ok(m: Seq<char>) -> bool {
    let d = index_of(m, '.');
    if d >= m.len() {
        m.len() >= 1 && all_digits(m)
    } else {
        m.len() >= 2 && all_digits(m.subrange(0, d)) && all_digits(m.subrange(d + 1, m.len() as int))
    }
}

/// An optional sign, then one or more digits.
pub open spec fn exponent_ok(x: Seq<char>) -> bool {
    let y = if x.len() > 0 && (x[0] == '+' || x[0] == '-') {
        x.drop_first()
    } else {
        x
    };
    y.len() >= 1 && all_digits(y)
}

/// A text of number characters that `f64` reads: an optional sign, digits
/// with at most one point and at least one digit, then optionally `e` or
/// `E`, a sign and digits.
pub open spec fn float_syntax(s: Seq<char>) -> bool {
    let t = if s.len() > 0 && (s[0] == '+' || s[0] == '-') {
        s.drop_first()
    } else {
        s
    };
    let k = exp_index(t);
    if k >= t.len() {
        mantissa_ok(t)
    } else {
        mantissa_ok(t.subrange(0, k)) && exponent_ok(t.subrange(k + 1, t.len() as int))
    }
}

pub open spec fn hex_digit(ch: char) -> Option<nat> {
    if '0' <= ch && ch <= '9' {
        Some((ch as nat - '0' as nat) as nat)
    } else if 'a' <= ch && ch <= 'f' {
        Some((ch as nat - 'a' as nat + 10) as nat)
    } else if 'A' <= ch && ch <= 'F' {
        Some((ch as nat - 'A' as nat + 10) as nat)
    } else {
        None
    }
}

pub open spec fn hex_digits_value(d: Seq<char>) -> Option<nat>
    decreases d.len(),
{
    if d.len() == 0 {
        Some(0)
    } else {
        match (hex_digits_value(d.drop_last()), hex_digit(d.last())) {
            (Some(a), Some(b)) => Some(a * 16 + b),
            _ => None,
        }
    }
}

/// The number a text is read as in base 16, as `u32::from_str_radix(h, 16)`
/// reads it before it checks the range: an optional `+`, then one or more
/// hexadecimal digits of either case.
pub open spec fn hex_text(h: Seq<char>) -> Option<nat> {
    let d = if h.len() > 0 && h[0] == '+' {
        h.drop_first()
    } else {
        h
    };
    if d.len() == 0 {
        None
    } else {
        hex_digits_value(d)
    }
}

/// The character of a code, or the replacement character.
pub open spec fn char_or_replacement(code: nat) -> char {
    if code < 0xD800 || (0xE000 <= code && code <= 0x10FFFF) {
        code as char
    } else {
        '\u{fffd}'
    }
}

/// The rest of a string from `i` on (after its opening quote), with the
/// characters in `acc` read so far: its text and the position after the
/// closing quote.
pub open spec fn string_body(c: Seq<char>, i: int, acc: Seq<char>) -> Result<(Seq<char>, int), JsonError>
    decreases c.len() - i,
{
    if i < 0 {
        Err(JsonError::At(i, Seq::empty()))
    } else if i >= c.len() {
        Err(JsonError::At(i, "строка не закрыта"@))
    } else {
        let ch = c[i];
        let j = i + 1;
        if ch == '"' {
            Ok((acc, j))
        } else if ch == '\\' {
            if j >= c.len() {
                Err(JsonError::At(j, "обрыв после \\"@))
            } else {
                let e = c[j];
                let k = j + 1;
                if e == 'n' {
                    string_body(c, k, acc.push('\n'))
                } else if e == 'r' {
                    string_body(c, k, acc.push('\r'))
                } else if e == 't' {
                    string_body(c, k, acc.push('\t'))
                } else if e == 'b' {
                    string_body(c, k, acc.push('\u{8}'))
                } else if e == 'f' {
                    string_body(c, k, acc.push('\u{c}'))
                } else if e == 'u' {
                    if k + 4 > c.len() {
                        Err(JsonError::At(k, "обрыв в \\u"@))
                    } else {
                        let k2 = k + 4;
                        match hex_text(c.subrange(k, k2)) {
                            None => Err(JsonError::At(k2, "плохой \\u"@)),
                            Some(code) => if 0xD800 <= code < 0xDC00 && k2 + 1 < c.len() && c[k2] == '\\'
                                && c[k2 + 1] == 'u' {
                                if k2 + 6 > c.len() {
                                    Err(JsonError::At(k2, "обрыв в \\u"@))
                                } else {
                                    match hex_text(c.subrange(k2 + 2, k2 + 6)) {
                                        Some(low) => if low < 0xDC00 {
                                            Err(JsonError::Underflow)
                                        } else {
                                            string_body(
                                                c,
                                                k2 + 6,
                                                acc.push(
                                                    char_or_replacement(
                                                        (0x10000 + (code - 0xD800) * 1024 + (low - 0xDC00)) as nat,
                                                    ),
                                                ),
                                            )
                                        },
                                        None => string_body(c, k2, acc.push(char_or_replacement(code))),
                                    }
                                }
                            } else {
                                string_body(c, k2, acc.push(char_or_replacement(code)))
                            },
                        }
                    }
                } else {
                    string_body(c, k, acc.push(e))
                }
            }
        } else {
            string_body(c, j, acc.push(ch))
        }
    }
}

pub proof fn lemma_string_body(c: Seq<char>, i: int, acc: Seq<char>)
    requires
        0 <= i,
    ensures
        string_body(c, i, acc) matches Ok((s, j)) ==> i < j <= c.len(),
    decreases c.len() - i,
{
    if i < c.len() && c[i] != '"' {
        let j = i + 1;
        if c[i] == '\\' {
            if j < c.len() {
                let k = j + 1;
                lemma_string_body(c, k, acc.push('\n'));
                lemma_string_body(c, k, acc.push('\r'));
                lemma_string_body(c, k, acc.push('\t'));
                lemma_string_body(c, k, acc.push('\u{8}'));
                lemma_string_body(c, k, acc.push('\u{c}'));
                lemma_string_body(c, k, acc.push(c[j]));
                if k + 4 <= c.len() {
                    let k2 = k + 4;
                    if let Some(code) = hex_text(c.subrange(k, k2)) {
                        lemma_string_body(c, k2, acc.push(char_or_replacement(code)));
                        if k2 + 6 <= c.len() {
                            if let Some(low) = hex_text(c.subrange(k2 + 2, k2 + 6)) {
                                lemma_string_body(
                                    c,
                                    k2 + 6,
                                    acc.push(
                                        char_or_replacement((0x10000 + (code - 0xD800) * 1024 + (low - 0xDC00)) as nat),
                                    ),
                                );
                            }
                        }
                    }
                }
            }
        } else {
            lemma_string_body(c, j, acc.push(c[i]));
        }
    }
}

/// A key and value put among members kept in the order of their keys: the
/// value of an equal key is replaced.
pub open spec fn insert_member(ms: Seq<(Seq<char>, JsonView)>, k: Seq<char>, v: JsonView) -> Seq<
    (Seq<char>, JsonView),
>
    decreases ms.len(),
{
    if ms.len() == 0 {
        seq![(k, v)]
    } else if ms.last().0 == k {
        ms.drop_last().push((k, v))
    } else if seq_lt(ms.last().0, k) {
        ms.push((k, v))
    } else {
        insert_member(ms.drop_last(), k, v).push(ms.last())
    }
}

pub open spec fn literal(c: Seq<char>, i: int, word: Seq<char>, v: JsonView) -> Result<(JsonView, int), JsonError> {
    let end = i + word.len();
    if 0 <= i && end <= c.len() && c.subrange(i, end) == word {
        Ok((v, end))
    } else {
        Err(JsonError::At(i, "неизвестное слово"@))
    }
}

pub open spec fn number(c: Seq<char>, i: int) -> Result<(JsonView, int), JsonError> {
    let j = number_end(c, i);
    if 0 <= i <= j && float_syntax(c.subrange(i, j)) {
        Ok((JsonView::Number(c.subrange(i, j)), j))
    } else {
        Err(JsonError::At(j, "неверное число"@))
    }
}

/// A value at `i` and the position after it.
pub open spec fn value(c: Seq<char>, i: int) -> Result<(JsonView, int), JsonError>
    decreases c.len() - i, 1int,
{
    if !(0 <= i < c.len()) {
        Err(JsonError::At(i, "ожидалось значение"@))
    } else {
        let ch = c[i];
        if ch == '{' {
            object(c, i + 1, Seq::empty())
        } else if ch == '[' {
            array(c, i + 1, Seq::empty())
        } else if ch == '"' {
            match string_body(c, i + 1, Seq::empty()) {
                Ok((s, j)) => Ok((JsonView::Str(s), j)),
                Err(e) => Err(e),
            }
        } else if ch == 't' {
            literal(c, i, "true"@, JsonView::Bool(true))
        } else if ch == 'f' {
            literal(c, i, "false"@, JsonView::Bool(false))
        } else if ch == 'n' {
            literal(c, i, "null"@, JsonView::Null)
        } else if ch == '-' || ('0' <= ch && ch <= '9') {
            number(c, i)
        } else {
            Err(JsonError::At(i, "ожидалось значение"@))
        }
    }
}

/// The items of an array from `i` on, after those in `items`, up to and
/// with `]`.
pub open spec fn array(c: Seq<char>, i: int, items: Seq<JsonView>) -> Result<(JsonView, int), JsonError>
    decreases c.len() - i, 2int,
{
    if !(0 <= i <= c.len()) {
        Err(JsonError::At(i, Seq::empty()))
    } else {
        let a = ws_end(c, i);
        proof {
            lemma_ws_end(c, i);
        }
        if a < c.len() && c[a] == ']' {
            Ok((JsonView::Array(items), a + 1))
        } else {
            match value(c, a) {
                Err(e) => Err(e),
                Ok((v, b)) => if i < b <= c.len() {
                    let d = ws_end(c, b);
                    proof {
                        lemma_ws_end(c, b);
                    }
                    if d < c.len() && c[d] == ',' {
                        array(c, d + 1, items.push(v))
                    } else if d < c.len() && c[d] == ']' {
                        array(c, d, items.push(v))
                    } else {
                        Err(JsonError::At(d, "ожидалась , или ]"@))
                    }
                } else {
                    Err(JsonError::At(b, Seq::empty()))
                },
            }
        }
    }
}

/// The members of an object from `i` on, after those in `ms`, up to and
/// with `}`.
pub open spec fn object(c: Seq<char>, i: int, ms: Seq<(Seq<char>, JsonView)>) -> Result<(JsonView, int), JsonError>
    decreases c.len() - i, 2int,
{
    if !(0 <= i <= c.len()) {
        Err(JsonError::At(i, Seq::empty()))
    } else {
        let a = ws_end(c, i);
        proof {
            lemma_ws_end(c, i);
        }
        if a < c.len() && c[a] == '}' {
            Ok((JsonView::Object(ms), a + 1))
        } else if !(a < c.len() && c[a] == '"') {
            Err(JsonError::At(a, "ожидался ключ"@))
        } else {
            match string_body(c, a + 1, Seq::empty()) {
                Err(e) => Err(e),
                Ok((k, b)) => {
                    proof {
                        lemma_string_body(c, a + 1, Seq::empty());
                        lemma_ws_end(c, b);
                    }
                    let b2 = ws_end(c, b);
                    if !(b2 < c.len() && c[b2] == ':') {
                        Err(JsonError::At(b2, "ожидалось :"@))
                    } else {
                        proof {
                            lemma_ws_end(c, b2 + 1);
                        }
                        let b3 = ws_end(c, b2 + 1);
                        match value(c, b3) {
                            Err(e) => Err(e),
                            Ok((v, d)) => if i < d <= c.len() {
                                let ms2 = insert_member(ms, k, v);
                                let d2 = ws_end(c, d);
                                proof {
                                    lemma_ws_end(c, d);
                                }
                                if d2 < c.len() && c[d2] == ',' {
                                    object(c, d2 + 1, ms2)
                                } else if d2 < c.len() && c[d2] == '}' {
                                    object(c, d2, ms2)
                                } else {
                                    Err(JsonError::At(d2, "ожидалась , или }"@))
                                }
                            } else {
                                Err(JsonError::At(d, Seq::empty()))
                            },
                        }
                    }
                },
            }
        }
    }
}

/// A whole text: white space, one value, white space.
pub open spec fn parse_chars(c: Seq<char>) -> Result<JsonView, JsonError> {
    let i = ws_end(c, 0);
    match value(c, i) {
        Err(e) => Err(e),
        Ok((v, j)) => {
            let k = ws_end(c, j);
            if k != c.len() {
                Err(JsonError::At(k, "лишние символы после значения"@))
            } else {
                Ok(v)
            }
        },
    }
}

pub proof fn lemma_index_of(s: Seq<char>, ch: char)
    ensures
        0 <= index_of(s, ch) <= s.len(),
        index_of(s, ch) < s.len() ==> s[index_of(s, ch)] == ch,
        forall|k: int| 0 <= k < index_of(s, ch) ==> s[k] != ch,
    decreases s.len(),
{
    if s.len() > 0 && s[0] != ch {
        lemma_index_of(s.drop_first(), ch);
        assert forall|k: int| 0 <= k < index_of(s, ch) implies s[k] != ch by {
            if k > 0 {
                assert(s[k] == s.drop_first()[k - 1]);
            }
        }
    }
}

pub proof fn lemma_index_of_is(s: Seq<char>, ch: char, k: int)
    requires
        0 <= k <= s.len(),
        k < s.len() ==> s[k] == ch,
        forall|j: int| 0 <= j < k ==> s[j] != ch,
    ensures
        index_of(s, ch) == k,
    decreases s.len(),
{
    if s.len() > 0 && k > 0 {
        assert forall|j: int| 0 <= j < k - 1 implies s.drop_first()[j] != ch by {
            assert(s.drop_first()[j] == s[j + 1]);
        }
        lemma_index_of_is(s.drop_first(), ch, k - 1);
    }
}

/// The first position of `ch` in `c[lo..hi]`, counted from `lo`.
fn find_char(c: &Vec<char>, lo: usize, hi: usize, ch: char) -> (r: usize)
    requires
        lo <= hi <= c@.len(),
    ensures
        r as int == index_of(c@.subrange(lo as int, hi as int), ch),
{
    let ghost s = c@.subrange(lo as int, hi as int);
    let mut k: usize = 0;
    while lo + k < hi && c[lo + k] != ch
        invariant
            lo + k <= hi,
            hi <= c@.len(),
            s == c@.subrange(lo as int, hi as int),
            forall|j: int| 0 <= j < k ==> s[j] != ch,
        decreases hi - lo - k,
    {
        k = k + 1;
    }
    proof {
        lemma_index_of_is(s, ch, k as int);
    }
    k
}

fn digits_only(c: &Vec<char>, lo: usize, hi: usize) -> (b: bool)
    requires
        lo <= hi <= c@.len(),
    ensures
        b == all_digits(c@.subrange(lo as int, hi as int)),
{
    let ghost s = c@.subrange(lo as int, hi as int);
    let mut k = lo;
    while k < hi
        invariant
            lo <= k <= hi,
            hi <= c@.len(),
            s == c@.subrange(lo as int, hi as int),
            forall|j: int| 0 <= j < k - lo ==> '0' <= #[trigger] s[j] <= '9',
        decreases hi - k,
    {
        if !('0' <= c[k] && c[k] <= '9') {
            assert(!('0' <= s[k - lo] <= '9'));
            return false;
        }
        k = k + 1;
    }
    true
}

fn mantissa_fits(c: &Vec<char>, lo: usize, hi: usize) -> (b: bool)
    requires
        lo <= hi <= c@.len(),
    ensures
        b == mantissa_ok(c@.subrange(lo as int, hi as int)),
{
    let ghost m = c@.subrange(lo as int, hi as int);
    proof {
        lemma_index_of(m, '.');
    }
    let d = find_char(c, lo, hi, '.');
    if lo + d >= hi {
        hi - lo >= 1 && digits_only(c, lo, hi)
    } else {
        assert(c@.subrange(lo as int, lo + d) =~= m.subrange(0, d as int));
        assert(c@.subrange(lo + d + 1, hi as int) =~= m.subrange(d + 1, m.len() as int));
        hi - lo >= 2 && digits_only(c, lo, lo + d) && digits_only(c, lo + d + 1, hi)
    }
}

fn exponent_fits(c: &Vec<char>, lo: usize, hi: usize) -> (b: bool)
    requires
        lo <= hi <= c@.len(),
    ensures
        b == exponent_ok(c@.subrange(lo as int, hi as int)),
{
    let ghost x = c@.subrange(lo as int, hi as int);
    let start = if lo < hi && (c[lo] == '+' || c[lo] == '-') {
        lo + 1
    } else {
        lo
    };
    assert(start > lo ==> c@.subrange(start as int, hi as int) =~= x.drop_first());
    assert(start == lo ==> c@.subrange(start as int, hi as int) =~= x);
    hi - start >= 1 && digits_only(c, start, hi)
}

/// Whether `c[lo..hi]` is a number that `f64` reads.
fn float_fits(c: &Vec<char>, lo: usize, hi: usize) -> (b: bool)
    requires
        lo <= hi <= c@.len(),
    ensures
        b == float_syntax(c@.subrange(lo as int, hi as int)),
{
    let ghost s = c@.subrange(lo as int, hi as int);
    let start = if lo < hi && (c[lo] == '+' || c[lo] == '-') {
        lo + 1
    } else {
        lo
    };
    let ghost t = c@.subrange(start as int, hi as int);
    assert(start > lo ==> t =~= s.drop_first());
    assert(start == lo ==> t =~= s);
    let a = find_char(c, start, hi, 'e');
    let b = find_char(c, start, hi, 'E');
    let k = if a <= b {
        a
    } else {
        b
    };
    proof {
        lemma_index_of(t, 'e');
        lemma_index_of(t, 'E');
    }
    if start + k >= hi {
        mantissa_fits(c, start, hi)
    } else {
        assert(c@.subrange(start as int, start + k) =~= t.subrange(0, k as int));
        assert(c@.subrange(start + k + 1, hi as int) =~= t.subrange(k + 1, t.len() as int));
        mantissa_fits(c, start, start + k) && exponent_fits(c, start + k + 1, hi)
    }
}

pub(crate) fn hex_digit_of(ch: char) -> (r: Option<u32>)
    ensures
        match hex_digit(ch) {
            Some(v) => r == Some(v as u32),
            None => r is None,
        },
{
    if '0' <= ch && ch <= '9' {
        Some(ch as u32 - '0' as u32)
    } else if 'a' <= ch && ch <= 'f' {
        Some(ch as u32 - 'a' as u32 + 10)
    } else if 'A' <= ch && ch <= 'F' {
        Some(ch as u32 - 'A' as u32 + 10)
    } else {
        None
    }
}

/// `u32::from_str_radix` in base 16 of the four characters `c[lo..lo + 4]`.
fn hex4(c: &Vec<char>, lo: usize) -> (r: Option<u32>)
    requires
        lo + 4 <= c.len(),
    ensures
        match hex_text(c@.subrange(lo as int, lo + 4)) {
            Some(v) => r == Some(v as u32) && v < 0x10000,
            None => r is None,
        },
{
    let end = lo + 4;
    let ghost h = c@.subrange(lo as int, end as int);
    let start = if c[lo] == '+' {
        lo + 1
    } else {
        lo
    };
    let ghost d = c@.subrange(start as int, end as int);
    assert(start > lo ==> d =~= h.drop_first());
    assert(start == lo ==> d =~= h);
    if start == end {
        return None;
    }
    let mut v: u32 = 0;
    let mut k = start;
    assert(c@.subrange(start as int, start as int) =~= Seq::<char>::empty());
    assert(hex_text(h) == hex_digits_value(d));
    proof {
        lemma_pow16();
    }
    while k < end
        invariant
            end == lo + 4,
            end <= c@.len(),
            lo <= start <= k <= end,
            start < end,
            d == c@.subrange(start as int, end as int),
            hex_text(c@.subrange(lo as int, lo + 4)) == hex_digits_value(d),
            hex_digits_value(c@.subrange(start as int, k as int)) == Some(v as nat),
            v < pow16(k - start),
            pow16(0) == 1 && pow16(1) == 16 && pow16(2) == 256 && pow16(3) == 4096 && pow16(4) == 65536,
        decreases end - k,
    {
        let ghost p = c@.subrange(start as int, k as int + 1);
        assert(p.drop_last() =~= c@.subrange(start as int, k as int));
        assert(p.last() == c@[k as int]);
        match hex_digit_of(c[k]) {
            Some(x) => {
                assert(k - start <= 3);
                assert(v * 16 + x < pow16(k - start) * 16) by (nonlinear_arith)
                    requires
                        v < pow16(k - start),
                        x < 16,
                {}
                assert(pow16(k + 1 - start) == pow16(k - start) * 16);
                v = v * 16 + x;
            },
            None => {
                proof {
                    lemma_hex_stuck(d, k - start);
                    assert(d.subrange(0, k - start + 1) =~= p);
                }
                return None;
            },
        }
        k = k + 1;
    }
    assert(c@.subrange(start as int, end as int) =~= d);
    assert(end - start <= 4);
    Some(v)
}

pub proof fn lemma_pow16()
    ensures
        pow16(0) == 1 && pow16(1) == 16 && pow16(2) == 256 && pow16(3) == 4096 && pow16(4) == 65536,
{
    reveal_with_fuel(pow16, 5);
}

pub open spec fn pow16(n: int) -> nat
    decreases n,
{
    if n <= 0 {
        1
    } else {
        16 * pow16(n - 1)
    }
}

/// A digit that is not hexadecimal makes the whole text not a number.
pub proof fn lemma_hex_stuck(d: Seq<char>, k: int)
    requires
        0 <= k < d.len(),
        hex_digits_value(d.subrange(0, k + 1)) is None,
    ensures
        hex_digits_value(d) is None,
    decreases d.len() - k,
{
    if k + 1 < d.len() {
        let e = d.subrange(0, k + 2);
        assert(e.drop_last() =~= d.subrange(0, k + 1));
        lemma_hex_stuck(d, k + 1);
    } else {
        assert(d.subrange(0, k + 1) =~= d);
    }
}

pub proof fn lemma_insert_member_tail(ms: Seq<(Seq<char>, JsonView)>, k: Seq<char>, v: JsonView, p: int)
    requires
        0 <= p <= ms.len(),
        forall|j: int| p <= j < ms.len() ==> (#[trigger] ms[j]).0 != k && !seq_lt(ms[j].0, k),
    ensures
        insert_member(ms, k, v) == insert_member(ms.subrange(0, p), k, v) + ms.subrange(p, ms.len() as int),
    decreases ms.len() - p,
{
    if p < ms.len() {
        let d = ms.drop_last();
        lemma_insert_member_tail(d, k, v, p);
        assert(d.subrange(0, p) =~= ms.subrange(0, p));
        assert(d.subrange(p, d.len() as int).push(ms.last()) =~= ms.subrange(p, ms.len() as int));
        assert((insert_member(ms.subrange(0, p), k, v) + d.subrange(p, d.len() as int)).push(ms.last())
            =~= insert_member(ms.subrange(0, p), k, v) + ms.subrange(p, ms.len() as int));
    } else {
        assert(ms.subrange(0, p) =~= ms);
        assert(insert_member(ms, k, v) + ms.subrange(p, ms.len() as int) =~= insert_member(ms, k, v));
    }
}

fn key_less(a: &String, b: &String) -> (r: bool)
    ensures
        r == seq_lt(a@, b@),
{
    seq_less(&chars_of(a.as_str()), &chars_of(b.as_str()))
}

/// Puts a member among members kept in the order of their keys, replacing
/// the value of an equal key, as a sorted map does.
pub fn insert_member_into(ms: &mut Vec<(String, Json)>, k: String, v: Json)
    ensures
        members_view(final(ms)@) == insert_member(members_view(old(ms)@), k@, json_view(v)),
{
    let ghost mv = members_view(ms@);
    let ghost kv = k@;
    let ghost jv = json_view(v);
    proof {
        lemma_members_view(ms@);
    }
    let mut p = ms.len();
    while p > 0 && !str_same(ms[p - 1].0.as_str(), k.as_str()) && !key_less(&ms[p - 1].0, &k)
        invariant
            p <= ms.len(),
            mv == members_view(ms@),
            mv.len() == ms@.len(),
            kv == k@,
            forall|j: int| 0 <= j < ms@.len() ==> #[trigger] mv[j] == (ms@[j].0@, json_view(ms@[j].1)),
            forall|j: int| p <= j < mv.len() ==> (#[trigger] mv[j]).0 != kv && !seq_lt(mv[j].0, kv),
        decreases p,
    {
        p = p - 1;
    }
    proof {
        lemma_insert_member_tail(mv, kv, jv, p as int);
    }
    let ghost old_ms = ms@;
    if p > 0 && str_same(ms[p - 1].0.as_str(), k.as_str()) {
        let ghost pre = mv.subrange(0, p as int);
        assert(pre.drop_last() =~= mv.subrange(0, p as int - 1));
        ms.set(p - 1, (k, v));
        proof {
            lemma_members_view(ms@);
            assert(members_view(ms@) =~= insert_member(mv.subrange(0, p as int), kv, jv) + mv.subrange(p as int, mv.len() as int));
        }
    } else {
        ms.insert(p, (k, v));
        proof {
            lemma_members_view(ms@);
            if p > 0 {
                assert(seq_lt(mv[p - 1].0, kv));
            }
            assert(members_view(ms@) =~= insert_member(mv.subrange(0, p as int), kv, jv) + mv.subrange(p as int, mv.len() as int));
        }
    }
}

/// `JSON, символ P: message`, as a reading error is shown.
pub open spec fn err_text(p: int, m: Seq<char>) -> Seq<char> {
    "JSON, символ "@ + decimal(p as nat) + ": "@ + m
}

/// What a reader of a value gives back, against the grammar.
pub open spec fn json_result(r: Result<Json, String>, g: Result<(JsonView, int), JsonError>, pos: int) -> bool {
    match g {
        Ok((v, j)) => r matches Ok(x) && json_view(x) == v && pos == j,
        Err(JsonError::At(p, m)) => r matches Err(s) && s@ == err_text(p, m),
        Err(JsonError::Underflow) => r is Err,
    }
}

pub open spec fn no_underflow<A>(r: Result<A, JsonError>) -> bool {
    !(r matches Err(JsonError::Underflow))
}

fn number_char(ch: char) -> (b: bool)
    ensures
        b == is_number_char(ch),
{
    ch == '-' || ch == '+' || ch == '.' || ch == 'e' || ch == 'E' || ('0' <= ch && ch <= '9')
}

fn char_or_repl(code: u32) -> (r: char)
    ensures
        r == char_or_replacement(code as nat),
{
    match char_from_u32(code) {
        Some(c) => c,
        None => '\u{fffd}',
    }
}

struct Reader {
    c: Vec<char>,
    i: usize,
    /// Set when a surrogate pair has its second half below `DC00`.
    underflow: bool,
}

impl Reader {
    fn err(&self, msg: &str) -> (s: String)
        ensures
            s@ == err_text(self.i as int, msg@),
    {
        let mut s = String::from_str("JSON, символ ");
        push_decimal(&mut s, self.i as u64);
        s.append(": ");
        s.append(msg);
        s
    }

    fn ws(&mut self)
        requires
            old(self).i <= old(self).c@.len(),
        ensures
            final(self).c@ == old(self).c@,
            final(self).i == ws_end(old(self).c@, old(self).i as int),
            final(self).underflow == old(self).underflow,
    {
        let ghost c = self.c@;
        let ghost i0 = self.i as int;
        while self.i < self.c.len() && char_is_whitespace(self.c[self.i])
            invariant
                self.c@ == c,
                self.underflow == old(self).underflow,
                self.i <= c.len(),
                ws_end(c, i0) == ws_end(c, self.i as int),
            decreases c.len() - self.i,
        {
            self.i = self.i + 1;
        }
    }

    fn literal(&mut self, word: &str, v: Json) -> (r: Result<Json, String>)
        requires
            old(self).i <= old(self).c@.len(),
        ensures
            final(self).c@ == old(self).c@,
            final(self).i <= final(self).c@.len(),
            json_result(r, literal(old(self).c@, old(self).i as int, word@, json_view(v)), final(self).i as int),
            final(self).underflow == old(self).underflow,
    {
        let w = chars_of(word);
        if w.len() <= self.c.len() - self.i {
            let mut k: usize = 0;
            while k < w.len()
                invariant
                    k <= w.len(),
                    w@ == word@,
                    self.c@ == old(self).c@,
                    self.i == old(self).i,
                    self.underflow == old(self).underflow,
                    self.i + w@.len() <= self.c@.len(),
                    self.i + w.len() <= self.c.len(),
                    forall|j: int| 0 <= j < k ==> self.c@[self.i + j] == w@[j],
                decreases w.len() - k,
            {
                if self.c[self.i + k] != w[k] {
                    assert(self.c@.subrange(self.i as int, self.i + w.len())[k as int] != word@[k as int]);
                    return Err(self.err("неизвестное слово"));
                }
                k = k + 1;
            }
            assert(self.c@.subrange(self.i as int, self.i + w.len()) =~= word@);
            self.i = self.i + w.len();
            Ok(v)
        } else {
            Err(self.err("неизвестное слово"))
        }
    }

    fn number(&mut self) -> (r: Result<Json, String>)
        requires
            old(self).i <= old(self).c@.len(),
        ensures
            final(self).c@ == old(self).c@,
            final(self).i <= final(self).c@.len(),
            json_result(r, number(old(self).c@, old(self).i as int), final(self).i as int),
            r is Ok ==> old(self).i <= final(self).i,
            final(self).underflow == old(self).underflow,
    {
        let ghost c = self.c@;
        let start = self.i;
        while self.i < self.c.len() && number_char(self.c[self.i])
            invariant
                self.c@ == c,
                self.underflow == old(self).underflow,
                start <= self.i <= c.len(),
                number_end(c, start as int) == number_end(c, self.i as int),
            decreases c.len() - self.i,
        {
            self.i = self.i + 1;
        }
        if float_fits(&self.c, start, self.i) {
            let t = sub_chars(&self.c, start, self.i);
            Ok(Json::Number(string_of_chars(&t)))
        } else {
            Err(self.err("неверное число"))
        }
    }

    /// A string, from its opening quote.
    fn string(&mut self) -> (r: Result<String, String>)
        requires
            old(self).i < old(self).c.len(),
            !old(self).underflow,
        ensures
            final(self).underflow == !no_underflow(string_body(old(self).c@, old(self).i + 1, Seq::empty())),
            final(self).c@ == old(self).c@,
            final(self).i <= final(self).c@.len(),
            match string_body(old(self).c@, old(self).i + 1, Seq::empty()) {
                Ok((s, j)) => r matches Ok(x) && x@ == s && final(self).i == j,
                Err(JsonError::At(p, m)) => r matches Err(e) && e@ == err_text(p, m),
                Err(JsonError::Underflow) => r is Err,
            },
    {
        let ghost c = self.c@;
        let ghost target = string_body(c, self.i + 1, Seq::empty());
        self.i = self.i + 1;
        let mut out = String::new();
        loop
            invariant
                self.c@ == c,
                c == old(self).c@,
                c.len() == self.c.len(),
                self.i <= c.len(),
                target == string_body(old(self).c@, old(self).i + 1, Seq::empty()),
                target == string_body(c, self.i as int, out@),
                !self.underflow,
            decreases c.len() - self.i,
        {
            let ghost i0 = self.i as int;
            if self.i >= self.c.len() {
                return Err(self.err("строка не закрыта"));
            }
            let ch = self.c[self.i];
            self.i = self.i + 1;
            if ch == '"' {
                return Ok(out);
            } else if ch == '\\' {
                if self.i >= self.c.len() {
                    return Err(self.err("обрыв после \\"));
                }
                let e = self.c[self.i];
                self.i = self.i + 1;
                if e == 'n' {
                    string_push(&mut out, '\n');
                } else if e == 'r' {
                    string_push(&mut out, '\r');
                } else if e == 't' {
                    string_push(&mut out, '\t');
                } else if e == 'b' {
                    string_push(&mut out, '\u{8}');
                } else if e == 'f' {
                    string_push(&mut out, '\u{c}');
                } else if e == 'u' {
                    if 4 > self.c.len() - self.i {
                        return Err(self.err("обрыв в \\u"));
                    }
                    let h = hex4(&self.c, self.i);
                    self.i = self.i + 4;
                    let code = match h {
                        Some(x) => x,
                        None => return Err(self.err("плохой \\u")),
                    };
                    // surrogate pairs
                    if 0xD800 <= code && code < 0xDC00 && self.c.len() - self.i > 1 && self.c[self.i] == '\\'
                        && self.c[self.i + 1] == 'u' {
                        if 6 > self.c.len() - self.i {
                            return Err(self.err("обрыв в \\u"));
                        }
                        match hex4(&self.c, self.i + 2) {
                            Some(low) => {
                                if low < 0xDC00 {
                                    self.underflow = true;
                                    return Err(self.err("плохой \\u"));
                                }
                                self.i = self.i + 6;
                                let hi_bits: u32 = code - 0xD800;
                                assert(hi_bits << 10 == hi_bits * 1024) by (bit_vector)
                                    requires
                                        hi_bits < 0x400,
                                ;
                                let full = 0x10000 + (hi_bits << 10) + (low - 0xDC00);
                                string_push(&mut out, char_or_repl(full));
                                continue;
                            },
                            None => {},
                        }
                    }
                    string_push(&mut out, char_or_repl(code));
                } else {
                    string_push(&mut out, e);
                }
            } else {
                string_push(&mut out, ch);
            }
        }
    }

    /// A value.
    fn value(&mut self) -> (r: Result<Json, String>)
        requires
            old(self).i <= old(self).c@.len(),
            !old(self).underflow,
        ensures
            final(self).underflow == !no_underflow(value(old(self).c@, old(self).i as int)),
            final(self).c@ == old(self).c@,
            final(self).i <= final(self).c@.len(),
            json_result(r, value(old(self).c@, old(self).i as int), final(self).i as int),
            r is Ok ==> old(self).i < final(self).i,
        decreases old(self).c@.len() - old(self).i, 1int,
    {
        if self.i >= self.c.len() {
            return Err(self.err("ожидалось значение"));
        }
        let ch = self.c[self.i];
        if ch == '{' {
            self.object()
        } else if ch == '[' {
            self.array()
        } else if ch == '"' {
            proof {
                lemma_string_body(self.c@, self.i + 1, Seq::empty());
            }
            match self.string() {
                Ok(s) => Ok(Json::Str(s)),
                Err(e) => Err(e),
            }
        } else if ch == 't' {
            proof {
                reveal_strlit("true");
            }
            self.literal("true", Json::Bool(true))
        } else if ch == 'f' {
            proof {
                reveal_strlit("false");
            }
            self.literal("false", Json::Bool(false))
        } else if ch == 'n' {
            proof {
                reveal_strlit("null");
            }
            self.literal("null", Json::Null)
        } else if ch == '-' || ('0' <= ch && ch <= '9') {
            proof {
                lemma_number_end(self.c@, self.i as int);
            }
            self.number()
        } else {
            Err(self.err("ожидалось значение"))
        }
    }

    /// An array, from its `[`.
    fn array(&mut self) -> (r: Result<Json, String>)
        requires
            old(self).i < old(self).c.len(),
            !old(self).underflow,
        ensures
            final(self).underflow == !no_underflow(array(old(self).c@, old(self).i + 1, Seq::empty())),
            final(self).c@ == old(self).c@,
            final(self).i <= final(self).c@.len(),
            json_result(r, array(old(self).c@, old(self).i + 1, Seq::empty()), final(self).i as int),
            r is Ok ==> old(self).i < final(self).i,
        decreases old(self).c@.len() - old(self).i, 0int,
    {
        let ghost c = self.c@;
        let ghost i0 = self.i as int;
        self.i = self.i + 1;
        let ghost target = array(c, self.i as int, Seq::empty());
        let mut items: Vec<Json> = Vec::new();
        assert(items_view(items@) =~= Seq::<JsonView>::empty());
        loop
            invariant
                self.c@ == c,
                c == old(self).c@,
                c.len() == self.c.len(),
                i0 == old(self).i,
                i0 < self.i <= c.len(),
                target == array(c, i0 + 1, Seq::empty()),
                target == array(c, self.i as int, items_view(items@)),
                !self.underflow,
            decreases c.len() - self.i,
        {
            let ghost at = self.i as int;
            proof {
                lemma_ws_end(c, at);
            }
            self.ws();
            if self.i < self.c.len() && self.c[self.i] == ']' {
                self.i = self.i + 1;
                return Ok(Json::Array(items));
            }
            let v = match self.value() {
                Ok(v) => v,
                Err(e) => return Err(e),
            };
            let ghost before = items@;
            items.push(v);
            proof {
                assert(before.push(v).subrange(0, before.len() as int) =~= before);
                assert(items_view(items@) == items_view(before).push(json_view(v)));
                lemma_ws_end(c, self.i as int);
            }
            self.ws();
            if self.i < self.c.len() && self.c[self.i] == ',' {
                self.i = self.i + 1;
            } else if self.i < self.c.len() && self.c[self.i] == ']' {
            } else {
                return Err(self.err("ожидалась , или ]"));
            }
        }
    }

    /// An object, from its `{`.
    fn object(&mut self) -> (r: Result<Json, String>)
        requires
            old(self).i < old(self).c.len(),
            !old(self).underflow,
        ensures
            final(self).underflow == !no_underflow(object(old(self).c@, old(self).i + 1, Seq::empty())),
            final(self).c@ == old(self).c@,
            final(self).i <= final(self).c@.len(),
            json_result(r, object(old(self).c@, old(self).i + 1, Seq::empty()), final(self).i as int),
            r is Ok ==> old(self).i < final(self).i,
        decreases old(self).c@.len() - old(self).i, 0int,
    {
        let ghost c = self.c@;
        let ghost i0 = self.i as int;
        self.i = self.i + 1;
        let ghost target = object(c, self.i as int, Seq::empty());
        let mut ms: Vec<(String, Json)> = Vec::new();
        assert(members_view(ms@) =~= Seq::<(Seq<char>, JsonView)>::empty());
        loop
            invariant
                self.c@ == c,
                c == old(self).c@,
                c.len() == self.c.len(),
                i0 == old(self).i,
                i0 < self.i <= c.len(),
                target == object(c, i0 + 1, Seq::empty()),
                target == object(c, self.i as int, members_view(ms@)),
                !self.underflow,
            decreases c.len() - self.i,
        {
            let ghost at = self.i as int;
            proof {
                lemma_ws_end(c, at);
            }
            self.ws();
            if self.i < self.c.len() && self.c[self.i] == '}' {
                self.i = self.i + 1;
                return Ok(Json::Object(ms));
            }
            if !(self.i < self.c.len() && self.c[self.i] == '"') {
                return Err(self.err("ожидался ключ"));
            }
            proof {
                lemma_string_body(c, self.i + 1, Seq::empty());
            }
            let key = match self.string() {
                Ok(k) => k,
                Err(e) => return Err(e),
            };
            proof {
                lemma_ws_end(c, self.i as int);
            }
            self.ws();
            if !(self.i < self.c.len() && self.c[self.i] == ':') {
                return Err(self.err("ожидалось :"));
            }
            self.i = self.i + 1;
            proof {
                lemma_ws_end(c, self.i as int);
            }
            self.ws();
            let v = match self.value() {
                Ok(v) => v,
                Err(e) => return Err(e),
            };
            insert_member_into(&mut ms, key, v);
            proof {
                lemma_ws_end(c, self.i as int);
            }
            self.ws();
            if self.i < self.c.len() && self.c[self.i] == ',' {
                self.i = self.i + 1;
            } else if self.i < self.c.len() && self.c[self.i] == '}' {
            } else {
                return Err(self.err("ожидалась , или }"));
            }
        }
    }
}

/// Reads a JSON text: one value with white space around it. A text with
/// an escape `\uD8xx\uXXXX` whose second half is below `DC00` is left out:
/// reading it underflows.
pub fn parse(text: &str) -> (r: Result<Json, String>)
    requires
        no_underflow(parse_chars(text@)),
    ensures
        match parse_chars(text@) {
            Ok(v) => r matches Ok(x) && json_view(x) == v,
            Err(JsonError::At(p, m)) => r matches Err(s) && s@ == err_text(p, m),
            Err(JsonError::Underflow) => true,
        },
{
    let chars = chars_of(text);
    let mut p = Reader { c: chars, i: 0, underflow: false };
    proof {
        lemma_ws_end(text@, 0);
    }
    p.ws();
    let v = match p.value() {
        Ok(v) => v,
        Err(e) => return Err(e),
    };
    proof {
        lemma_ws_end(text@, p.i as int);
    }
    p.ws();
    if p.i != p.c.len() {
        return Err(p.err("лишние символы после значения"));
    }
    Ok(v)
}

/// Whether `parse` can read `text`: false exactly for a text whose value
/// holds an escape `\uD8xx\uXXXX` with the second half below `DC00`.
pub fn readable(text: &str) -> (ok: bool)
    ensures
        ok == no_underflow(parse_chars(text@)),
{
    let chars = chars_of(text);
    let mut p = Reader { c: chars, i: 0, underflow: false };
    proof {
        lemma_ws_end(text@, 0);
    }
    p.ws();
    let _ = p.value();
    !p.underflow
}

} // verus!
