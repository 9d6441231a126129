//! The order of bit patterns is the order of the numbers that they stand for.
//!
//! A finite `f32` is a sign and a whole number of units of 2 to the minus 149.
//! The laws compare those whole numbers.

use vstd::arithmetic::power2::{lemma_pow2_pos, lemma_pow2_strictly_increases, lemma_pow2_unfold, pow2};
use vstd::prelude::*;

use crate::float::{ge, gt, is_nan, magnitude, total_rank};
use crate::quant::half::f32_units;

verus! {

/// Whether a pattern is a finite number: the exponent field is not full.
pub open spec fn finite(bits: u32) -> bool {
    (bits as int / 0x80_0000) % 256 != 255
}

/// The number that a finite pattern stands for, in units of 2 to the minus 149.
pub open spec fn number(bits: u32) -> int {
    if bits as int / 0x8000_0000 == 1 {
        -(f32_units(bits as int) as int)
    } else {
        f32_units(bits as int) as int
    }
}

proof fn lemma_units_grow(a: int, b: int)
    requires
        0 <= a < b < 0x7F80_0000,
    ensures
        f32_units(a) < f32_units(b),
{
    let (ea, ma) = (a / 0x80_0000, a % 0x80_0000);
    let (eb, mb) = (b / 0x80_0000, b % 0x80_0000);
    assert(0 <= ea < 255 && 0 <= eb < 255 && ea <= eb);
    assert(ea % 256 == ea && eb % 256 == eb);
    if ea == eb {
        assert(ma < mb);
        if ea > 0 {
            let p = pow2((ea - 1) as nat) as int;
            lemma_pow2_pos((ea - 1) as nat);
            assert((0x80_0000 + ma) * p < (0x80_0000 + mb) * p) by (nonlinear_arith)
                requires
                    ma < mb,
                    p > 0,
            ;
        }
    } else {
        let q = pow2((eb - 1) as nat) as int;
        lemma_pow2_pos((eb - 1) as nat);
        assert((0x80_0000 + mb) * q >= 0x80_0000 * q) by (nonlinear_arith)
            requires
                mb >= 0,
                q > 0,
        ;
        assert(f32_units(b) >= 0x80_0000 * q);
        if ea > 0 {
            let p = pow2((ea - 1) as nat) as int;
            lemma_pow2_pos((ea - 1) as nat);
            lemma_pow2_unfold(ea as nat);
            if ea < eb - 1 {
                lemma_pow2_strictly_increases(ea as nat, (eb - 1) as nat);
            }
            assert(2 * p <= q);
            assert((0x80_0000 + ma) * p < 0x80_0000 * q) by (nonlinear_arith)
                requires
                    0 <= ma < 0x80_0000,
                    0 < p,
                    2 * p <= q,
            ;
        }
    }
}

proof fn lemma_number(bits: u32)
    requires
        finite(bits),
    ensures
        0 <= magnitude(bits) < 0x7F80_0000,
        number(bits) == (if bits >= 0x8000_0000 {
            -(f32_units(magnitude(bits)) as int)
        } else {
            f32_units(magnitude(bits)) as int
        }),
{
    let m = magnitude(bits);
    assert(bits as int / 0x80_0000 == m / 0x80_0000 + (if bits >= 0x8000_0000 { 256int } else { 0 }));
    assert(bits as int % 0x80_0000 == m % 0x80_0000);
    assert((bits as int / 0x80_0000) % 256 == (m / 0x80_0000) % 256);
}

/// In the total order a smaller number stands below a larger one. Over all
/// patterns, NaN or not, every one with the sign stands below every one without;
/// a larger magnitude stands lower among the first and higher among the second.
pub proof fn lemma_total_order_is_numeric(a: u32, b: u32)
    ensures
        finite(a) && finite(b) && number(a) < number(b) ==> total_rank(a) < total_rank(b),
        a >= 0x8000_0000 && b < 0x8000_0000 ==> total_rank(a) < total_rank(b),
        a >= 0x8000_0000 && b >= 0x8000_0000 && a > b ==> total_rank(a) < total_rank(b),
        a < 0x8000_0000 && b < 0x8000_0000 && a < b ==> total_rank(a) < total_rank(b),
        total_rank(a) == total_rank(b) ==> a == b,
{
    if finite(a) && finite(b) && number(a) < number(b) {
        lemma_number(a);
        lemma_number(b);
        let (x, y) = (magnitude(a), magnitude(b));
        if x < y {
            lemma_units_grow(x, y);
        } else if y < x {
            lemma_units_grow(y, x);
        }
    }
}

/// `a > b` and `a >= b` hold of two finite patterns exactly where they hold of
/// the numbers. Infinity is above every finite number, minus infinity below, and
/// a pattern with a full exponent and a mantissa is not comparable at all.
pub proof fn lemma_comparison_is_numeric(a: u32, b: u32)
    ensures
        finite(a) && finite(b) ==> gt(a, b) == (number(a) > number(b)),
        finite(a) && finite(b) ==> ge(a, b) == (number(a) >= number(b)),
        finite(b) ==> gt(0x7F80_0000, b) && ge(0x7F80_0000, b) && !ge(b, 0x7F80_0000),
        finite(b) ==> gt(b, 0xFF80_0000) && ge(b, 0xFF80_0000) && !ge(0xFF80_0000, b),
        !finite(a) && a as int % 0x80_0000 != 0 ==> is_nan(a) && !gt(a, b) && !gt(b, a) && !ge(a, b) && !ge(b, a),
        is_nan(a) ==> !finite(a) && a as int % 0x80_0000 != 0,
{
    if finite(b) {
        lemma_number(b);
    }
    if finite(a) && finite(b) {
        lemma_number(a);
        let (x, y) = (magnitude(a), magnitude(b));
        assert(f32_units(0) == 0);
        if x < y {
            lemma_units_grow(x, y);
        } else if y < x {
            lemma_units_grow(y, x);
        }
        if x > 0 {
            lemma_units_grow(0, x);
        }
        if y > 0 {
            lemma_units_grow(0, y);
        }
    }
}

} // verus!
