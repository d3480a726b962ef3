//! Numbers as text: decimal and hexadecimal digits, as `format!` writes them
//! for `{}`, `{:x}` and `{:0N$x}`.

use vstd::prelude::*;
use crate::stdx::string_push;

verus! {

/// The ASCII digit of a value below 16 (lower-case letters above 9).
pub open spec fn digit_char(d: nat) -> char {
    if d < 10 {
        (('0' as u32) + d) as char
    } else {
        (('a' as u32) + (d - 10)) as char
    }
}

/// Digits of `n` in the given base, most significant first, no leading zeros
/// (zero is the single digit `0`).
pub open spec fn digits(n: nat, base: nat) -> Seq<char>
    recommends
        2 <= base <= 16,
    decreases n,
{
    if base < 2 || n < base {
        seq![digit_char(n % 16)]
    } else {
        proof {
            vstd::arithmetic::div_mod::lemma_div_decreases(n as int, base as int);
        }
        digits(n / base, base).push(digit_char(n % base))
    }
}

/// `{}` of an unsigned number.
pub open spec fn decimal(n: nat) -> Seq<char> {
    digits(n, 10)
}

/// `{:x}` of an unsigned number.
pub open spec fn hex(n: nat) -> Seq<char> {
    digits(n, 16)
}

/// `{:0w$x}`: hexadecimal, zeros in front up to `w` characters.
pub open spec fn hex_padded(n: nat, w: nat) -> Seq<char> {
    let d = hex(n);
    if d.len() >= w {
        d
    } else {
        Seq::new((w - d.len()) as nat, |i: int| '0') + d
    }
}

fn digit_exec(d: u64) -> (c: char)
    requires
        d < 16,
    ensures
        c == digit_char(d as nat),
{
    match d {
        0 => '0',
        1 => '1',
        2 => '2',
        3 => '3',
        4 => '4',
        5 => '5',
        6 => '6',
        7 => '7',
        8 => '8',
        9 => '9',
        10 => 'a',
        11 => 'b',
        12 => 'c',
        13 => 'd',
        14 => 'e',
        _ => 'f',
    }
}

fn push_digits(out: &mut String, n: u64, base: u64)
    requires
        2 <= base <= 16,
    ensures
        final(out)@ == old(out)@ + digits(n as nat, base as nat),
    decreases n,
{
    if n >= base {
        proof {
            vstd::arithmetic::div_mod::lemma_div_decreases(n as int, base as int);
        }
        push_digits(out, n / base, base);
    }
    string_push(out, digit_exec(n % base));
    proof {
        if n < base {
            assert(n % 16 == n % base) by (nonlinear_arith)
                requires
                    n < base,
                    base <= 16,
            ;
        }
    }
}

/// Appends `{}` of `n`.
pub fn push_decimal(out: &mut String, n: u64)
    ensures
        final(out)@ == old(out)@ + decimal(n as nat),
{
    push_digits(out, n, 10);
}

/// Appends `{:x}` of `n`.
pub fn push_hex(out: &mut String, n: u64)
    ensures
        final(out)@ == old(out)@ + hex(n as nat),
{
    push_digits(out, n, 16);
}

pub proof fn lemma_digits_len(n: nat, base: nat)
    requires
        2 <= base <= 16,
    ensures
        digits(n, base).len() >= 1,
        n < base ==> digits(n, base).len() == 1,
    decreases n,
{
    if n >= base {
        vstd::arithmetic::div_mod::lemma_div_decreases(n as int, base as int);
        lemma_digits_len(n / base, base);
    }
}

/// Appends `{:0w$x}` of `n`.
pub fn push_hex_padded(out: &mut String, n: u64, w: usize)
    ensures
        final(out)@ == old(out)@ + hex_padded(n as nat, w as nat),
{
    let mut digits_text = String::new();
    push_hex(&mut digits_text, n);
    let len = digits_text.unicode_len();
    let ghost start = out@;
    if len < w {
        let mut k: usize = 0;
        while k < w - len
            invariant
                len < w,
                k <= w - len,
                out@ == start + Seq::new(k as nat, |i: int| '0'),
            decreases w - len - k,
        {
            string_push(out, '0');
            assert(Seq::new((k + 1) as nat, |i: int| '0') =~= Seq::new(k as nat, |i: int| '0').push('0'));
            k = k + 1;
        }
    }
    out.append(digits_text.as_str());
    assert(out@ =~= start + hex_padded(n as nat, w as nat));
}

/// `{}` of `n` as a new string.
pub fn decimal_text(n: u64) -> (s: String)
    ensures
        s@ == decimal(n as nat),
{
    let mut s = String::new();
    push_decimal(&mut s, n);
    assert(s@ =~= decimal(n as nat));
    s
}

} // verus!

verus! {

pub proof fn lemma_digit_char(d: nat)
    requires
        d < 10,
    ensures
        digit_char(d) as u32 == 48 + d,
        '0' <= digit_char(d) <= '9',
{
}

/// The decimal digits of a number are ASCII digits.
pub proof fn lemma_decimal_digits(n: nat)
    ensures
        forall|i: int| 0 <= i < decimal(n).len() ==> '0' <= #[trigger] decimal(n)[i] <= '9',
    decreases n,
{
    if n >= 10 {
        vstd::arithmetic::div_mod::lemma_div_decreases(n as int, 10);
        lemma_decimal_digits(n / 10);
        lemma_digit_char(n % 10);
        assert(decimal(n) == decimal(n / 10).push(digit_char(n % 10)));
    } else {
        lemma_digit_char(n);
        assert(n % 16 == n);
    }
}

/// Different numbers have different decimal digits.
pub proof fn lemma_decimal_injective(a: nat, b: nat)
    requires
        decimal(a) == decimal(b),
    ensures
        a == b,
    decreases a,
{
    lemma_digits_len(a, 10);
    lemma_digits_len(b, 10);
    if a >= 10 {
        vstd::arithmetic::div_mod::lemma_div_decreases(a as int, 10);
        lemma_digits_len(a / 10, 10);
        assert(decimal(a) == decimal(a / 10).push(digit_char(a % 10)));
    }
    if b >= 10 {
        vstd::arithmetic::div_mod::lemma_div_decreases(b as int, 10);
        lemma_digits_len(b / 10, 10);
        assert(decimal(b) == decimal(b / 10).push(digit_char(b % 10)));
    }
    if a < 10 && b < 10 {
        assert(a % 16 == a);
        assert(b % 16 == b);
        assert(decimal(a) == seq![digit_char(a)]);
        assert(decimal(b) == seq![digit_char(b)]);
        assert(seq![digit_char(a)][0] == digit_char(a));
        assert(seq![digit_char(b)][0] == digit_char(b));
        assert(digit_char(a) == digit_char(b));
        lemma_digit_char(a);
        lemma_digit_char(b);
        assert(a == b);
    }
    if a >= 10 && b >= 10 {
        assert(decimal(a / 10) =~= decimal(a).drop_last());
        assert(decimal(b / 10) =~= decimal(b).drop_last());
        lemma_decimal_injective(a / 10, b / 10);
        assert(decimal(a)[decimal(a).len() - 1] == digit_char(a % 10));
        assert(decimal(b)[decimal(b).len() - 1] == digit_char(b % 10));
        lemma_digit_char(a % 10);
        lemma_digit_char(b % 10);
        assert(a % 10 == b % 10);
        assert(a / 10 == b / 10);
        vstd::arithmetic::div_mod::lemma_fundamental_div_mod(a as int, 10);
        vstd::arithmetic::div_mod::lemma_fundamental_div_mod(b as int, 10);
        assert(a == b);
    }
    if a < 10 && b >= 10 {
        assert(decimal(a).len() == 1);
        assert(decimal(b).len() >= 2);
    }
    if b < 10 && a >= 10 {
        assert(decimal(b).len() == 1);
        assert(decimal(a).len() >= 2);
    }
}

} // verus!
