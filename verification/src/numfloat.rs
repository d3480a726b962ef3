//! The bit pattern of the IEEE 754 double that holds a small integer, made
//! with integer arithmetic alone.

use vstd::prelude::*;
use vstd::arithmetic::power2::{pow2, lemma_pow2_unfold, lemma_pow2_pos};

verus! {

/// ⌊log₂ m⌋ for m ≥ 1.
pub open spec fn log2_floor(m: nat) -> nat
    decreases m,
{
    if m <= 1 {
        0
    } else {
        1 + log2_floor(m / 2)
    }
}

/// Bits of the double equal to `v`, for |v| < 2⁵³: sign, biased exponent
/// 1023 + ⌊log₂|v|⌋, and the fraction `|v| - 2^e` shifted to the top of the
/// 52 bits of the fraction field; zero is all zero bits.
#[verifier::opaque]
pub open spec fn double_bits_of_int(v: int) -> u64 {
    if v == 0 {
        0
    } else {
        let m = if v < 0 { -v } else { v };
        let e = log2_floor(m as nat);
        let sign: int = if v < 0 { 0x8000_0000_0000_0000 } else { 0 };
        (sign + (1023 + e) * 0x10_0000_0000_0000 + (m - pow2(e)) * pow2((52 - e) as nat)) as u64
    }
}

pub proof fn lemma_log2_floor(m: nat, e: nat)
    requires
        pow2(e) <= m < pow2(e + 1),
    ensures
        log2_floor(m) == e,
    decreases e,
{
    lemma_pow2_pos(e);
    if e == 0 {
        lemma_pow2_unfold(1);
        vstd::arithmetic::power2::lemma2_to64();
    } else {
        lemma_pow2_unfold(e);
        lemma_pow2_unfold(e + 1);
        vstd::arithmetic::power2::lemma2_to64();
        assert(m >= 2);
        assert(pow2((e - 1) as nat) <= m / 2 < pow2(e)) by (nonlinear_arith)
            requires
                pow2(e) == 2 * pow2((e - 1) as nat),
                pow2(e + 1) == 2 * pow2(e),
                pow2(e) <= m < pow2(e + 1),
        ;
        lemma_log2_floor(m / 2, (e - 1) as nat);
    }
}

/// The bits of the double equal to a 16-bit integer.
pub fn double_bits_of_i16(v: i16) -> (bits: u64)
    ensures
        bits == double_bits_of_int(v as int),
{
    reveal(double_bits_of_int);
    if v == 0 {
        return 0;
    }
    let m: u64 = if v < 0 { (0 - (v as i32)) as u64 } else { v as u64 };
    let mut p: u64 = 1;
    let mut e: u64 = 0;
    proof {
        vstd::arithmetic::power2::lemma2_to64();
    }
    while p * 2 <= m
        invariant
            1 <= m <= 32768,
            p == pow2(e as nat),
            1 <= p <= m,
            e <= 15,
        decreases m - p,
    {
        proof {
            lemma_pow2_unfold((e + 1) as nat);
            if e + 1 > 15 {
                vstd::arithmetic::power2::lemma_pow2_strictly_increases(15, (e + 1) as nat);
                vstd::arithmetic::power2::lemma2_to64();
            }
        }
        p = p * 2;
        e = e + 1;
    }
    proof {
        lemma_pow2_unfold((e + 1) as nat);
        lemma_log2_floor(m as nat, e as nat);
    }
    let mut scale: u64 = 1;
    let mut k: u64 = 0;
    while k < 52 - e
        invariant
            e <= 15,
            k <= 52 - e,
            scale == pow2(k as nat),
        decreases 52 - e - k,
    {
        proof {
            lemma_pow2_unfold((k + 1) as nat);
            if k + 1 < 52 {
                vstd::arithmetic::power2::lemma_pow2_strictly_increases((k + 1) as nat, 52);
            }
            vstd::arithmetic::power2::lemma2_to64_rest();
        }
        scale = scale * 2;
        k = k + 1;
    }
    let sign: u64 = if v < 0 { 0x8000_0000_0000_0000 } else { 0 };
    proof {
        vstd::arithmetic::power2::lemma2_to64_rest();
        vstd::arithmetic::power2::lemma_pow2_strictly_increases(e as nat, 16);
        vstd::arithmetic::power2::lemma2_to64();
        assert(p * scale == 0x10_0000_0000_0000) by {
            vstd::arithmetic::power2::lemma_pow2_adds(e as nat, (52 - e) as nat);
        }
        assert((m - p) * scale < 0x10_0000_0000_0000) by (nonlinear_arith)
            requires
                m < 2 * p,
                p * scale == 0x10_0000_0000_0000,
                p >= 1,
        ;
    }
    sign + (1023 + e) * 0x10_0000_0000_0000 + (m - p) * scale
}

} // verus!
