//! Conversion to `f32` takes the nearest number.
//!
//! Distances are measured in units of 2 to the minus 149, in which every finite
//! `f32` is a whole number.

use vstd::arithmetic::power2::{
    lemma2_to64, lemma_pow2_adds, lemma_pow2_pos, lemma_pow2_strictly_increases, lemma_pow2_unfold, pow2,
};
use vstd::prelude::*;

use crate::float::{f32_of_f64, f32_of_int, f32_of_nat, half_even, is_nan, lemma_exact_significand, lemma_log2, log2};
use crate::quant::half::f32_units;
use crate::sample::unit;
use crate::value::ValueView;

verus! {

/// How far two numbers are apart.
pub open spec fn apart(a: int, b: int) -> int {
    if a < b {
        b - a
    } else {
        a - b
    }
}

/// A rounded quotient is at most half a unit off; where it is exactly half a
/// unit off, it is even.
pub proof fn lemma_half_even_is_nearest(num: nat, den: nat)
    requires
        den > 0,
    ensures
        2 * apart((half_even(num, den) * den) as int, num as int) <= den,
        2 * apart((half_even(num, den) * den) as int, num as int) == den ==> half_even(num, den) % 2 == 0,
{
    let (n, d) = (num as int, den as int);
    vstd::arithmetic::div_mod::lemma_fundamental_div_mod(n, d);
    vstd::arithmetic::div_mod::lemma_mod_bound(n, d);
    let q = n / d;
    let r = n % d;
    assert(q * d == d * q) by (nonlinear_arith);
    assert((q + 1) * d == q * d + d) by (nonlinear_arith);
}

proof fn lemma_log2_unique(n: nat, l: nat)
    requires
        pow2(l) <= n < pow2(l + 1),
    ensures
        log2(n) == l,
{
    lemma_pow2_pos(l);
    lemma_log2(n);
    let m = log2(n);
    if m < l {
        if m + 1 < l {
            lemma_pow2_strictly_increases(m + 1, l);
        }
    } else if l < m {
        if l + 1 < m {
            lemma_pow2_strictly_increases(l + 1, m);
        }
    }
}

proof fn lemma_units_of(exponent: int, k: int)
    requires
        0 <= exponent <= 253,
        0x80_0000 <= k <= 0x100_0000,
    ensures
        f32_units(exponent * 0x80_0000 + k) == k * pow2(exponent as nat),
        exponent < 253 || k < 0x100_0000 ==> exponent * 0x80_0000 + k < 0x7F80_0000,
{
    let bits = exponent * 0x80_0000 + k;
    lemma_pow2_pos(exponent as nat);
    if k < 0x100_0000 {
        assert(bits / 0x80_0000 == exponent + 1);
        assert((bits / 0x80_0000) % 256 == exponent + 1);
        assert(bits % 0x80_0000 == k - 0x80_0000);
        assert(f32_units(bits) == (0x80_0000 + (k - 0x80_0000)) * pow2((exponent + 1 - 1) as nat));
        assert((exponent + 1 - 1) as nat == exponent as nat);
        assert(0x80_0000 + (k - 0x80_0000) == k);
    } else {
        assert(bits / 0x80_0000 == exponent + 2);
        assert((bits / 0x80_0000) % 256 == exponent + 2);
        assert(bits % 0x80_0000 == 0);
        assert(f32_units(bits) == (0x80_0000 + 0) * pow2((exponent + 2 - 1) as nat));
        assert((exponent + 2 - 1) as nat == (exponent + 1) as nat);
        lemma_pow2_unfold((exponent + 1) as nat);
        assert((exponent + 1) as nat - 1 == exponent as nat);
        let p = pow2(exponent as nat) as int;
        assert(pow2((exponent + 1) as nat) == 2 * p);
        assert(0x80_0000 * (2 * p) == 0x100_0000 * p) by (nonlinear_arith);
        assert(k == 0x100_0000);
    }
}

proof fn lemma_quotient_range(n: nat, l: nat)
    requires
        pow2(l) <= n < pow2(l + 1),
    ensures
        0x80_0000 <= half_even(n * 0x80_0000, pow2(l)) <= 0x100_0000,
{
    lemma_pow2_pos(l);
    lemma_pow2_unfold(l + 1);
    let (num, d) = (n * 0x80_0000, pow2(l));
    let k = half_even(num, d) as int;
    lemma_half_even_is_nearest(num, d);
    let kd = k * d;
    assert(2 * apart(kd, num as int) <= d);
    assert(d * 0x80_0000 <= num < d * 0x100_0000);
    assert(k >= 0x80_0000) by (nonlinear_arith)
        requires
            kd == k * d,
            2 * (num - kd) <= d,
            d * 0x80_0000 <= num,
            d > 0,
    ;
    assert(k <= 0x100_0000) by (nonlinear_arith)
        requires
            kd == k * d,
            2 * (kd - num) <= d,
            num < d * 0x100_0000,
            d > 0,
    ;
}

/// A whole number becomes the nearest `f32`: it is at most half a unit of the
/// last place off, and where it is exactly half a unit off, its last bit is 0.
/// `l` is the place of the number's first binary digit.
pub proof fn lemma_whole_numbers_round(n: nat, l: nat)
    requires
        pow2(l) <= n < pow2(l + 1),
        l < 127,
    ensures
        f32_of_nat(n) < 0x7F80_0000,
        2 * apart(f32_units(f32_of_nat(n) as int) as int, (n * pow2(149)) as int) <= pow2(l + 126),
        2 * apart(f32_units(f32_of_nat(n) as int) as int, (n * pow2(149)) as int) == pow2(l + 126) ==> f32_of_nat(n) % 2
            == 0,
        f32_of_nat(0) == 0,
{
    lemma_log2_unique(n, l);
    lemma_pow2_pos(l);
    lemma_quotient_range(n, l);
    let (num, d) = (n * 0x80_0000, pow2(l));
    let k = half_even(num, d);
    lemma_half_even_is_nearest(num, d);
    lemma_units_of(l as int + 126, k as int);
    assert(f32_of_nat(n) == (l + 126) * 0x80_0000 + k);
    lemma_pow2_adds(l, 126);
    lemma_pow2_adds(23, 126);
    lemma_pow2_pos(126);
    lemma2_to64();
    let c = pow2(126) as int;
    let (kd, m) = ((k * d) as int, num as int);
    assert(k * (d * c) == (k * d) * c) by (nonlinear_arith);
    assert(n * (0x80_0000 * c) == (n * 0x80_0000) * c) by (nonlinear_arith);
    assert(apart(kd * c, m * c) == apart(kd, m) * c) by (nonlinear_arith)
        requires
            c > 0,
    {
        assert(m * c - kd * c == (m - kd) * c);
        if kd < m {
            assert(kd * c < m * c);
        } else {
            assert(kd * c >= m * c);
        }
    }
    let a = apart(kd, m);
    assert(2 * (a * c) <= d * c) by (nonlinear_arith)
        requires
            2 * a <= d,
            c > 0,
    ;
    assert(2 * (a * c) == d * c ==> 2 * a == d) by (nonlinear_arith)
        requires
            c > 0,
    ;
    assert(((l + 126) * 0x80_0000 + k) % 2 == k % 2);
}

/// A negative number is rounded as its magnitude is, and has the sign bit.
pub proof fn lemma_negative_numbers_round(n: int)
    requires
        n > 0,
    ensures
        f32_of_int(-n) == 0x8000_0000 + f32_of_nat(n as nat),
        f32_of_int(n) == f32_of_nat(n as nat),
{
}

/// An `f64` in the range of the normal `f32` becomes the nearest of them. Both
/// sides are in units of 2 to the minus 178.
pub proof fn lemma_normal_f64_rounds(sign: bool, exponent: nat, fraction: nat, bits: u32)
    requires
        897 <= exponent <= 1150,
        fraction < 0x10_0000_0000_0000,
        f32_of_f64(
            ((if sign { 0x8000_0000_0000_0000int } else { 0int }) + exponent * 0x10_0000_0000_0000 + fraction) as u64,
            bits,
        ),
    ensures
        sign == (bits >= 0x8000_0000),
        ({
            let exact = (0x10_0000_0000_0000 + fraction) * pow2((exponent - 897) as nat);
            let magnitude = if sign { bits - 0x8000_0000 } else { bits as int };
            let got = f32_units(magnitude) * 0x2000_0000;
            &&& 2 * apart(got as int, exact as int) <= 0x2000_0000 * pow2((exponent - 897) as nat)
            &&& 2 * apart(got as int, exact as int) == 0x2000_0000 * pow2((exponent - 897) as nat) ==> bits % 2 == 0
        }),
{
    let wide = ((if sign { 0x8000_0000_0000_0000int } else { 0int }) + exponent * 0x10_0000_0000_0000 + fraction) as u64;
    let rest: nat = exponent * 0x10_0000_0000_0000 + fraction;
    assert(rest / 0x10_0000_0000_0000 == exponent && rest % 0x10_0000_0000_0000 == fraction);
    let significand: nat = fraction + 0x10_0000_0000_0000;
    let e = (exponent - 897) as nat;
    let k = half_even(significand, 0x2000_0000);
    lemma_half_even_is_nearest(significand, 0x2000_0000);
    assert(0x80_0000 <= k <= 0x100_0000);
    let magnitude = e * 0x80_0000 + k;
    assert(magnitude <= 0x7F80_0000);
    lemma_units_of(e as int, k as int);
    lemma_pow2_pos(e);
    let c = pow2(e) as int;
    let (kd, m) = (k as int * 0x2000_0000, significand as int);
    assert((k * c) * 0x2000_0000 == kd * c) by (nonlinear_arith)
        requires
            kd == k * 0x2000_0000,
    ;
    let a = apart(kd, m);
    assert(apart(kd * c, m * c) == a * c) by (nonlinear_arith)
        requires
            c > 0,
            a == apart(kd, m),
    {
        assert(m * c - kd * c == (m - kd) * c);
        if kd < m {
            assert(kd * c < m * c);
        } else {
            assert(kd * c >= m * c);
        }
    }
    assert(2 * (a * c) <= 0x2000_0000 * c) by (nonlinear_arith)
        requires
            2 * a <= 0x2000_0000,
            c > 0,
    ;
    assert(2 * (a * c) == 0x2000_0000 * c ==> 2 * a == 0x2000_0000) by (nonlinear_arith)
        requires
            c > 0,
    ;
    assert(magnitude as int % 2 == k as int % 2);
}

/// Below that range the nearest multiple of the smallest `f32` is taken; further
/// down, zero; beyond the largest `f32`, infinity. A NaN stays one.
pub proof fn lemma_other_f64_round(sign: bool, exponent: nat, fraction: nat, bits: u32)
    requires
        exponent < 2048,
        fraction < 0x10_0000_0000_0000,
        f32_of_f64(
            ((if sign { 0x8000_0000_0000_0000int } else { 0int }) + exponent * 0x10_0000_0000_0000 + fraction) as u64,
            bits,
        ),
    ensures
        873 <= exponent < 897 ==> sign == (bits >= 0x8000_0000) && 2 * apart(
            (f32_units(if sign { bits - 0x8000_0000 } else { bits as int }) * pow2((926 - exponent) as nat)) as int,
            (0x10_0000_0000_0000 + fraction) as int,
        ) <= pow2((926 - exponent) as nat),
        exponent < 873 ==> bits == (if sign { 0x8000_0000int } else { 0int }),
        exponent == 2047 && fraction != 0 ==> is_nan(bits),
        exponent > 1150 && !(exponent == 2047 && fraction != 0) ==> bits == (if sign {
            0xFF80_0000int
        } else {
            0x7F80_0000int
        }),
{
    let rest: nat = exponent * 0x10_0000_0000_0000 + fraction;
    assert(rest / 0x10_0000_0000_0000 == exponent && rest % 0x10_0000_0000_0000 == fraction);
    let significand: nat = fraction + 0x10_0000_0000_0000;
    if 873 <= exponent < 897 {
        let s = (926 - exponent) as nat;
        lemma_pow2_pos(s);
        lemma_half_even_is_nearest(significand, pow2(s));
        let k = half_even(significand, pow2(s)) as int;
        let d = pow2(s) as int;
        lemma2_to64();
        if s > 30 {
            lemma_pow2_strictly_increases(30, s);
        }
        assert(d >= 0x4000_0000);
        assert(k <= 0x80_0000) by (nonlinear_arith)
            requires
                2 * (k * d - significand) <= d,
                significand < 0x20_0000_0000_0000,
                d >= 0x4000_0000,
        ;
        lemma_pow2_pos(0);
        if k < 0x80_0000 {
            assert(f32_units(k) == k);
        } else {
            assert(f32_units(k) == k) by {
                assert(k / 0x80_0000 == 1 && k % 0x80_0000 == 0);
                assert(0x80_0000 * pow2(0) == 0x80_0000);
            }
        }
    }
}

/// The draw of `n` steps out of 2 to the 24 is exactly that part of one: below
/// one, and a whole number of steps.
pub proof fn lemma_draw_is_exact(n: nat)
    requires
        n < 0x100_0000,
    ensures
        0 <= unit(n) < 0x3F80_0000,
        f32_units(unit(n)) == n * pow2(125),
        f32_units(0x3F80_0000) == pow2(149),
{
    lemma2_to64();
    lemma_pow2_adds(23, 126);
    assert(f32_units(0x3F80_0000) == 0x80_0000 * pow2(126)) by {
        assert(0x3F80_0000int / 0x80_0000 == 127);
    }
    if n > 0 {
        lemma_exact_significand(n);
        let l = log2(n);
        let k = n * pow2((23 - l) as nat);
        assert(unit(n) == (l + 102) * 0x80_0000 + k);
        lemma_units_of(l as int + 102, k as int);
        lemma_pow2_adds((23 - l) as nat, l + 102);
        let (a, b) = (pow2((23 - l) as nat), pow2(l + 102));
        assert((n * a) * b == n * (a * b)) by (nonlinear_arith);
    } else {
        assert(f32_units(0) == 0);
    }
}

/// A value becomes the nearest `f32` to the number that it is, whatever its type;
/// a flag counts as 0 or 1.
pub proof fn lemma_values_round(value: ValueView, bits: u32)
    requires
        value.rounds_to(bits),
    ensures
        match value {
            ValueView::U8(v) => bits == f32_of_int(v as int),
            ValueView::I8(v) => bits == f32_of_int(v as int),
            ValueView::U16(v) => bits == f32_of_int(v as int),
            ValueView::I16(v) => bits == f32_of_int(v as int),
            ValueView::U32(v) => bits == f32_of_int(v as int),
            ValueView::I32(v) => bits == f32_of_int(v as int),
            ValueView::U64(v) => bits == f32_of_int(v as int),
            ValueView::I64(v) => bits == f32_of_int(v as int),
            ValueView::F32(v) => bits == v,
            ValueView::F64(v) => f32_of_f64(v, bits),
            ValueView::Bool(v) => bits == f32_of_int(if v { 1 } else { 0 }),
            _ => !value.is_number(),
        },
{
}

} // verus!
