//! Half-precision conversion.
//!
//! Every quantized block stores its scale as an IEEE binary16, so this runs
//! once per 32 or 256 weights: often enough to matter, simple enough not to
//! need a lookup table.

use vstd::arithmetic::power2::{lemma2_to64, lemma_pow2_adds, pow2};
use vstd::prelude::*;

use crate::float::{self, f32_of_nat, lemma_exact_significand, log2};
use crate::le::{le, read_le};

verus! {

/// The `f32` bits of a binary16. A subnormal half is its mantissa times
/// 2 to the minus 24, which an `f32` represents as a normal number.
pub open spec fn f32_of_f16(bits: u16) -> int {
    let sign: int = if bits >= 0x8000 { 0x8000_0000 } else { 0 };
    let exponent: int = (bits as int / 0x400) % 32;
    let mantissa: int = bits as int % 0x400;
    if exponent == 31 {
        sign + 0x7F80_0000 + mantissa * 0x2000
    } else if exponent > 0 {
        sign + (exponent + 112) * 0x80_0000 + mantissa * 0x2000
    } else if mantissa > 0 {
        sign + f32_of_nat(mantissa as nat) - 24 * 0x80_0000
    } else {
        sign
    }
}

/// The magnitude of a finite binary16, in units of 2 to the minus 24.
pub open spec fn f16_units(bits: u16) -> nat {
    let exponent: int = (bits as int / 0x400) % 32;
    let mantissa: int = bits as int % 0x400;
    if exponent == 0 {
        mantissa as nat
    } else {
        ((0x400 + mantissa) * pow2((exponent - 1) as nat)) as nat
    }
}

/// The magnitude of a finite `f32`, in units of 2 to the minus 149.
pub open spec fn f32_units(bits: int) -> nat {
    let exponent: int = (bits / 0x80_0000) % 256;
    let mantissa: int = bits % 0x80_0000;
    if exponent == 0 {
        mantissa as nat
    } else {
        ((0x80_0000 + mantissa) * pow2((exponent - 1) as nat)) as nat
    }
}

/// Infinities and NaNs stay what they are, with their sign.
pub proof fn lemma_f16_not_finite(bits: u16)
    requires
        (bits as int / 0x400) % 32 == 31,
    ensures
        (f32_of_f16(bits) >= 0x8000_0000) == (bits >= 0x8000),
        bits == 0x7C00 ==> f32_of_f16(bits) == 0x7F80_0000,
        bits == 0xFC00 ==> f32_of_f16(bits) == 0xFF80_0000,
        bits as int % 0x400 != 0 ==> float::is_nan(f32_of_f16(bits) as u32),
{
}

/// The conversion is exact: a finite half and its `f32` are the same number.
pub proof fn lemma_f16_exact(bits: u16)
    requires
        (bits as int / 0x400) % 32 != 31,
    ensures
        f32_units(f32_of_f16(bits)) == f16_units(bits) * pow2(125),
        (f32_of_f16(bits) >= 0x8000_0000) == (bits >= 0x8000),
{
    let exponent: int = (bits as int / 0x400) % 32;
    let mantissa: int = bits as int % 0x400;
    let out = f32_of_f16(bits);
    let sign: int = if bits >= 0x8000 { 0x8000_0000 } else { 0 };
    lemma2_to64();
    if exponent > 0 {
        let e = exponent + 112;
        assert(out == sign + e * 0x80_0000 + mantissa * 0x2000);
        assert((out / 0x80_0000) % 256 == e);
        assert(out % 0x80_0000 == mantissa * 0x2000);
        lemma_pow2_adds((exponent - 1) as nat, 125);
        lemma_pow2_adds((exponent + 111) as nat, 13);
        let a = 0x400 + mantissa;
        let p = pow2((exponent + 111) as nat);
        let q = pow2((exponent - 1) as nat);
        let r = pow2(125);
        assert((0x80_0000 + mantissa * 0x2000) * p == a * q * r) by (nonlinear_arith)
            requires
                a == 0x400 + mantissa,
                p * 0x2000 == q * r,
        ;
    } else if mantissa > 0 {
        let m = mantissa as nat;
        let l = log2(m);
        lemma_exact_significand(m);
        let s = m * pow2((23 - l) as nat);
        assert(out == sign + (l + 102) * 0x80_0000 + s);
        assert((out / 0x80_0000) % 256 == l + 103);
        assert(out % 0x80_0000 == s - 0x80_0000);
        lemma_pow2_adds((23 - l) as nat, (l + 102) as nat);
        let p = pow2((23 - l) as nat);
        let q = pow2((l + 102) as nat);
        assert((m * p) * q == m * (p * q)) by (nonlinear_arith);
    } else {
        assert(out % 0x80_0000 == 0);
        assert((out / 0x80_0000) % 256 == 0);
        assert(0 * pow2(125) == 0) by (nonlinear_arith);
    }
}

/// IEEE 754 binary16 to the bits of an `f32`. Exact: every half is
/// representable.
pub fn f16_bits(bits: u16) -> (out: u32)
    ensures
        out == f32_of_f16(bits),
{
    let sign: u32 = if bits >= 0x8000 { 0x8000_0000 } else { 0 };
    let exponent: u32 = ((bits / 0x400) % 32) as u32;
    let mantissa: u32 = (bits % 0x400) as u32;
    if exponent == 31 {
        sign + 0x7F80_0000 + mantissa * 0x2000
    } else if exponent > 0 {
        sign + (exponent + 112) * 0x80_0000 + mantissa * 0x2000
    } else if mantissa > 0 {
        proof {
            lemma_exact_significand(mantissa as nat);
        }
        sign + (float::from_u64(mantissa as u64) - 0xC00_0000)
    } else {
        sign
    }
}

/// bfloat16 to the bits of an `f32`: the top 16 of them.
pub fn bf16(bits: u16) -> (out: u32)
    ensures
        out == bits * 0x1_0000,
{
    bits as u32 * 0x1_0000
}

/// The half at the front of a byte string; zero if it is too short.
pub open spec fn half_at(bytes: Seq<u8>) -> int {
    if bytes.len() >= 2 {
        f32_of_f16(le(bytes.take(2)) as u16)
    } else {
        0
    }
}

/// Reads a little-endian half from the front of `bytes`.
///
/// Gives zero on a short slice rather than panicking: callers have already
/// validated block extents, and a scale of zero yields a zero weight, which is
/// the least destructive way to fail.
pub fn read_f16(bytes: &[u8]) -> (out: u32)
    ensures
        out == half_at(bytes@),
{
    if bytes.len() >= 2 {
        let pair = vstd::slice::slice_subrange(bytes, 0, 2);
        let value: u64 = read_le(pair);
        proof {
            crate::le::lemma_spans();
            assert(pair@ =~= bytes@.take(2));
        }
        f16_bits(value as u16)
    } else {
        0
    }
}

} // verus!
