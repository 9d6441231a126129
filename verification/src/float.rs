//! Single-precision numbers as bit patterns.
//!
//! The library holds an `f32` as the `u32` of its bits. Order, classification
//! and conversion from other numbers are integer questions, and are answered
//! here; arithmetic on the values is not.

use vstd::prelude::*;
use vstd::arithmetic::power2::pow2;
use vstd::arithmetic::power2::{lemma_pow2_pos, lemma_pow2_unfold, lemma_pow2_adds, lemma_pow2_strictly_increases, lemma2_to64};

verus! {

/// The sign bit.
pub const SIGN: u32 = 0x8000_0000;

/// Positive infinity.
pub const INFINITY: u32 = 0x7F80_0000;

/// A quiet NaN.
pub const NAN: u32 = 0x7FC0_0000;

/// One.
pub const ONE: u32 = 0x3F80_0000;

// ------------------------------------------------------------ classification

/// The bits without the sign.
pub open spec fn magnitude(bits: u32) -> int {
    if bits >= SIGN {
        bits - SIGN
    } else {
        bits as int
    }
}

/// Whether the bits are a NaN.
pub open spec fn is_nan(bits: u32) -> bool {
    magnitude(bits) > INFINITY
}

/// Position of a pattern in the order of values; equal for the two zeros.
pub open spec fn rank(bits: u32) -> int {
    if bits >= SIGN {
        -magnitude(bits)
    } else {
        magnitude(bits)
    }
}

/// The comparison `a > b` of IEEE 754: false as soon as one side is a NaN.
pub open spec fn gt(a: u32, b: u32) -> bool {
    !is_nan(a) && !is_nan(b) && rank(a) > rank(b)
}

/// The comparison `a >= b` of IEEE 754.
pub open spec fn ge(a: u32, b: u32) -> bool {
    !is_nan(a) && !is_nan(b) && rank(a) >= rank(b)
}

/// Position of a pattern in the total order of IEEE 754, which places -0
/// below +0 and every NaN at an end.
pub open spec fn total_rank(bits: u32) -> int {
    if bits >= SIGN {
        -1 - magnitude(bits)
    } else {
        magnitude(bits)
    }
}

fn rank_of(bits: u32) -> (r: i64)
    ensures
        r == rank(bits),
{
    if bits >= SIGN {
        -((bits - SIGN) as i64)
    } else {
        bits as i64
    }
}

/// Whether the bits are a NaN.
pub fn nan(bits: u32) -> (yes: bool)
    ensures
        yes == is_nan(bits),
{
    if bits >= SIGN {
        bits - SIGN > INFINITY
    } else {
        bits > INFINITY
    }
}

/// `a > b`.
pub fn greater(a: u32, b: u32) -> (yes: bool)
    ensures
        yes == gt(a, b),
{
    !nan(a) && !nan(b) && rank_of(a) > rank_of(b)
}

/// `a >= b`.
pub fn at_least(a: u32, b: u32) -> (yes: bool)
    ensures
        yes == ge(a, b),
{
    !nan(a) && !nan(b) && rank_of(a) >= rank_of(b)
}

/// Where a pattern stands in the total order.
pub fn total_order(bits: u32) -> (r: i64)
    ensures
        r == total_rank(bits),
{
    if bits >= SIGN {
        -1 - (bits - SIGN) as i64
    } else {
        bits as i64
    }
}

// ------------------------------------------------------------------ rounding

/// The integer nearest to `num / den`, the even one of two that are equally
/// near.
pub open spec fn half_even(num: nat, den: nat) -> nat {
    let q = num / den;
    let r = num % den;
    if 2 * r < den || (2 * r == den && q % 2 == 0) {
        q
    } else {
        q + 1
    }
}

fn round_half_even(num: u128, den: u128) -> (q: u128)
    requires
        0 < den <= 0x1_0000_0000_0000_0000,
        num < 0x1_0000_0000_0000_0000_0000_0000,
    ensures
        q == half_even(num as nat, den as nat),
{
    let q: u128 = num / den;
    let r: u128 = num % den;
    proof {
        assert(q <= num) by (nonlinear_arith)
            requires
                q == num / den,
                den >= 1,
        ;
    }
    if 2 * r < den || (2 * r == den && q % 2 == 0) {
        q
    } else {
        q + 1
    }
}

/// The exponent of the highest bit of a positive number.
pub open spec fn log2(value: nat) -> nat
    decreases value,
{
    if value < 2 {
        0
    } else {
        1 + log2(value / 2)
    }
}

/// `log2` brackets its argument between neighbouring powers of two.
pub proof fn lemma_log2(value: nat)
    requires
        value > 0,
    ensures
        pow2(log2(value)) <= value < pow2(log2(value) + 1),
    decreases value,
{
    lemma2_to64();
    if value >= 2 {
        lemma_log2(value / 2);
        lemma_pow2_unfold(log2(value));
        lemma_pow2_unfold(log2(value) + 1);
    }
}

/// The bits of the `f32` nearest to a natural number.
///
/// A positive number has its leading bit at `log2`; the significand holds that
/// bit and the 23 below it. A significand that rounds up to the next power of
/// two carries into the exponent by itself.
pub open spec fn f32_of_nat(value: nat) -> nat {
    if value == 0 {
        0
    } else {
        (log2(value) + 126) * 0x80_0000 + half_even(value * 0x80_0000, pow2(log2(value)))
    }
}

/// The bits of the `f32` nearest to an integer.
pub open spec fn f32_of_int(value: int) -> int {
    if value < 0 {
        SIGN + f32_of_nat((-value) as nat)
    } else {
        f32_of_nat(value as nat) as int
    }
}

proof fn lemma_significand(value: nat)
    requires
        0 < value,
    ensures
        pow2(log2(value)) > 0,
        0x80_0000 <= half_even(value * 0x80_0000, pow2(log2(value))) <= 0x100_0000,
{
    lemma_log2(value);
    let den = pow2(log2(value));
    lemma_pow2_pos(log2(value));
    lemma_pow2_unfold(log2(value) + 1);
    let num = value * 0x80_0000;
    let q = num / den;
    assert(0x80_0000 <= q < 0x100_0000) by (nonlinear_arith)
        requires
            den > 0,
            den <= value < 2 * den,
            num == value * 0x80_0000,
            q == num / den,
    ;
}

/// The significand of a number of at most 24 bits needs no rounding.
pub proof fn lemma_exact_significand(m: nat)
    requires
        0 < m < 0x100_0000,
    ensures
        half_even(m * 0x80_0000, pow2(log2(m))) == m * pow2((23 - log2(m)) as nat),
        0x80_0000 <= m * pow2((23 - log2(m)) as nat) < 0x100_0000,
        log2(m) <= 23,
{
    lemma2_to64();
    lemma_log2(m);
    let l = log2(m);
    if l > 23 {
        if l > 24 {
            lemma_pow2_strictly_increases(24, l);
        }
    }
    let rest = (23 - l) as nat;
    lemma_pow2_adds(l, rest);
    lemma_pow2_pos(l);
    lemma_pow2_pos(rest);
    let q = (m * pow2(rest)) as int;
    let den = pow2(l) as int;
    assert(m * 0x80_0000 == q * den) by (nonlinear_arith)
        requires
            q == m * pow2(rest),
            den == pow2(l),
            pow2(l) * pow2(rest) == 0x80_0000,
    ;
    vstd::arithmetic::div_mod::lemma_div_by_multiple(q, den);
    vstd::arithmetic::div_mod::lemma_mod_multiples_basic(q, den);
    lemma_pow2_unfold(l + 1);
    assert(0x80_0000 <= q < 0x100_0000) by (nonlinear_arith)
        requires
            den <= m < 2 * den,
            q == m * pow2(rest),
            den * pow2(rest) == 0x80_0000,
            pow2(rest) > 0,
    ;
}

/// The bits of the `f32` nearest to a `u64`.
pub fn from_u64(value: u64) -> (bits: u32)
    ensures
        bits == f32_of_nat(value as nat),
        bits < INFINITY,
{
    if value == 0 {
        return 0;
    }
    let mut exponent: u32 = 0;
    let mut power: u128 = 1;
    let mut rest: u64 = value;
    proof {
        lemma2_to64();
    }
    while rest >= 2
        invariant
            value > 0,
            rest > 0,
            power == pow2(exponent as nat),
            exponent + log2(rest as nat) == log2(value as nat),
            power * rest <= value,
        decreases rest,
    {
        proof {
            lemma_pow2_unfold((exponent + 1) as nat);
            assert(power * 2 * (rest / 2) <= power * rest) by (nonlinear_arith);
            assert(power < 0x1_0000_0000_0000_0000) by (nonlinear_arith)
                requires
                    power * rest <= value,
                    rest >= 1,
                    value <= 0xffff_ffff_ffff_ffff,
            ;
            lemma_exponent_small(exponent as nat);
        }
        exponent += 1;
        power = power * 2;
        rest = rest / 2;
    }
    proof {
        lemma_significand(value as nat);
        assert(power <= value) by (nonlinear_arith)
            requires
                power * rest <= value,
                rest >= 1,
                power >= 0,
        ;
        lemma_exponent_small(exponent as nat);
    }
    let significand: u128 = round_half_even(value as u128 * 0x80_0000, power);
    (exponent + 126) * 0x80_0000 + significand as u32
}

proof fn lemma_exponent_small(e: nat)
    requires
        pow2(e) < 0x1_0000_0000_0000_0000,
    ensures
        e < 64,
{
    lemma2_to64();
    vstd::arithmetic::power2::lemma2_to64_rest();
    if e > 64 {
        lemma_pow2_strictly_increases(64, e);
    }
}

/// The bits of the `f32` nearest to an `i64`.
pub fn from_i64(value: i64) -> (bits: u32)
    ensures
        bits == f32_of_int(value as int),
{
    if value >= 0 {
        from_u64(value as u64)
    } else {
        let magnitude: u64 = (-(value + 1)) as u64 + 1;
        SIGN + from_u64(magnitude)
    }
}

/// What `f64` bits are worth as an `f32`: the nearest one, infinity beyond the
/// largest, and a NaN for a NaN, whose payload is left open.
pub open spec fn f32_of_f64(wide: u64, bits: u32) -> bool {
    let sign: int = if wide >= 0x8000_0000_0000_0000 { SIGN as int } else { 0 };
    let rest: nat = if wide >= 0x8000_0000_0000_0000 { (wide - 0x8000_0000_0000_0000) as nat } else { wide as nat };
    let exponent: nat = rest / 0x10_0000_0000_0000;
    let fraction: nat = rest % 0x10_0000_0000_0000;
    let significand: nat = fraction + 0x10_0000_0000_0000;
    if exponent == 2047 && fraction != 0 {
        is_nan(bits)
    } else if exponent >= 1023 + 128 {
        bits == sign + INFINITY
    } else if exponent >= 1023 - 126 {
        bits == sign + (exponent - 897) * 0x80_0000 + half_even(significand, 0x2000_0000)
    } else if exponent >= 1023 - 150 {
        // Below the normal range the unit stays at the smallest subnormal.
        bits == sign + half_even(significand, pow2((926 - exponent) as nat))
    } else {
        bits == sign
    }
}

/// The bits of the `f32` nearest to an `f64`.
pub fn from_f64(wide: u64) -> (bits: u32)
    ensures
        f32_of_f64(wide, bits),
{
    let negative: bool = wide >= 0x8000_0000_0000_0000;
    let sign: u32 = if negative { SIGN } else { 0 };
    let rest: u64 = if negative { wide - 0x8000_0000_0000_0000 } else { wide };
    let exponent: u64 = rest / 0x10_0000_0000_0000;
    let fraction: u64 = rest % 0x10_0000_0000_0000;
    let significand: u64 = fraction + 0x10_0000_0000_0000;
    if exponent == 2047 && fraction != 0 {
        sign + NAN
    } else if exponent >= 1151 {
        sign + INFINITY
    } else if exponent >= 897 {
        let q: u128 = round_half_even(significand as u128, 0x2000_0000);
        sign + (exponent - 897) as u32 * 0x80_0000 + q as u32
    } else if exponent >= 873 {
        let shift: u64 = 926 - exponent;
        let mut den: u128 = 1;
        let mut i: u64 = 0;
        proof {
            lemma2_to64();
        }
        while i < shift
            invariant
                i <= shift <= 53,
                den == pow2(i as nat),
                den <= 0x20_0000_0000_0000,
            decreases shift - i,
        {
            proof {
                lemma_pow2_unfold((i + 1) as nat);
                lemma2_to64();
                vstd::arithmetic::power2::lemma2_to64_rest();
                if i + 1 < 53 {
                    lemma_pow2_strictly_increases((i + 1) as nat, 53);
                }
            }
            den = den * 2;
            i += 1;
        }
        proof {
            lemma2_to64();
            vstd::arithmetic::power2::lemma2_to64_rest();
            if 30 < shift {
                lemma_pow2_strictly_increases(30, shift as nat);
            }
            assert(significand as nat / den as nat <= 0x80_0000) by (nonlinear_arith)
                requires
                    significand < 0x20_0000_0000_0000,
                    den >= 0x4000_0000,
            ;
        }
        let q: u128 = round_half_even(significand as u128, den);
        sign + q as u32
    } else {
        sign
    }
}

} // verus!
