//! What a stored block says of each of its elements.

use vstd::arithmetic::power2::pow2;
use vstd::prelude::*;

use super::half::{f32_of_f16, half_at};
use crate::gguf::GgmlType;
use crate::le::le;

verus! {

/// A weight as integers: a quant with the scales to multiply it by. Scales are
/// held as the bits of an `f32`. Products are taken from left to right, each
/// integer converted first.
#[derive(Clone, Copy, Debug, PartialEq, Eq, Structural)]
pub enum Element {
    /// The number itself.
    Exact { bits: u32 },
    /// `d * quant`.
    Scaled { d: u32, quant: i8 },
    /// `d * quant + base`.
    Offset { d: u32, quant: i8, base: u32 },
    /// `(d * scale) * quant - dmin * min`.
    Affine { d: u32, scale: u8, quant: i8, dmin: u32, min: u8 },
    /// `(d * factor) * quant`.
    Centred { d: u32, factor: i8, quant: i8 },
}

/// The low four bits of a byte.
pub open spec fn low(byte: u8) -> int {
    byte as int % 16
}

/// The high four bits of a byte.
pub open spec fn high(byte: u8) -> int {
    byte as int / 16
}

/// A byte as a signed number.
pub open spec fn signed_byte(byte: u8) -> int {
    if byte < 0x80 {
        byte as int
    } else {
        byte - 0x100
    }
}

/// The low four bits of a byte.
pub fn low_nibble(byte: u8) -> (n: u8)
    ensures
        n == low(byte),
        n < 16,
{
    byte % 16
}

/// The high four bits of a byte.
pub fn high_nibble(byte: u8) -> (n: u8)
    ensures
        n == high(byte),
        n < 16,
{
    byte / 16
}

/// A byte as a signed number.
pub fn as_signed(byte: u8) -> (n: i8)
    ensures
        n == signed_byte(byte),
{
    if byte < 0x80 {
        byte as i8
    } else {
        (byte as i16 - 0x100) as i8
    }
}

/// The six-bit scale of sub-block `index`.
///
/// The first four pairs live in the low six bits of the first eight bytes. The
/// last four are split: their low four bits sit in the last four bytes, and
/// their top two bits are stolen from the unused high bits of the first eight.
pub open spec fn sub_scale(index: int, scales: Seq<u8>) -> int {
    if index < 4 {
        scales[index] as int % 64
    } else {
        scales[index + 4] as int % 16 + (scales[index - 4] as int / 64) * 16
    }
}

/// The six-bit minimum of sub-block `index`.
pub open spec fn sub_min(index: int, scales: Seq<u8>) -> int {
    if index < 4 {
        scales[index + 4] as int % 64
    } else {
        scales[index + 4] as int / 16 + (scales[index] as int / 64) * 16
    }
}

/// The nibble of element `i` in blocks of 32 that fill low halves first: byte
/// `j` of 16 holds element `j` low and element `j + 16` high.
pub open spec fn split_nibble(quants: Seq<u8>, i: int) -> int {
    if i < 16 {
        low(quants[i])
    } else {
        high(quants[i - 16])
    }
}

/// The nibble of element `i` in super-blocks of 256: 32 bytes hold one
/// sub-block of 32 low and the next one high.
pub open spec fn sub_nibble(quants: Seq<u8>, i: int) -> int {
    let byte = quants[(i / 64) * 32 + i % 32];
    if (i / 32) % 2 == 0 {
        low(byte)
    } else {
        high(byte)
    }
}

/// Bit `k` of a byte.
pub open spec fn bit(byte: u8, k: int) -> int {
    (byte as int / pow2(k as nat) as int) % 2
}

/// The six-bit quant of element `i` of a `Q6_K` block, before centring: four
/// bits from one plane and two from another.
pub open spec fn six_bits(block: Seq<u8>, i: int) -> int {
    let part = i / 128;
    let quad = (i % 128) / 32;
    let l = i % 32;
    let byte = block[part * 64 + (quad % 2) * 32 + l];
    let nibble = if quad < 2 { low(byte) } else { high(byte) };
    let plane = block[128 + part * 32 + l];
    nibble + 16 * ((plane as int / pow2((2 * quad) as nat) as int) % 4)
}

/// Element `i` of a block.
pub open spec fn element_at(ty: GgmlType, block: Seq<u8>, i: int) -> Element {
    match ty {
        GgmlType::F32 => Element::Exact { bits: le(block.take(4)) as u32 },
        GgmlType::F16 => Element::Exact { bits: f32_of_f16(le(block.take(2)) as u16) as u32 },
        GgmlType::BF16 => Element::Exact { bits: (le(block.take(2)) * 0x1_0000) as u32 },
        GgmlType::Q4_0 => Element::Scaled {
            d: half_at(block) as u32,
            quant: (split_nibble(block.subrange(2, 18), i) - 8) as i8,
        },
        GgmlType::Q4_1 => Element::Offset {
            d: half_at(block) as u32,
            quant: split_nibble(block.subrange(4, 20), i) as i8,
            base: half_at(block.skip(2)) as u32,
        },
        GgmlType::Q8_0 => Element::Scaled { d: half_at(block) as u32, quant: signed_byte(block[2 + i]) as i8 },
        GgmlType::Q4_K => Element::Affine {
            d: half_at(block) as u32,
            scale: sub_scale(i / 32, block.subrange(4, 16)) as u8,
            quant: sub_nibble(block.subrange(16, 144), i) as i8,
            dmin: half_at(block.skip(2)) as u32,
            min: sub_min(i / 32, block.subrange(4, 16)) as u8,
        },
        GgmlType::Q5_K => Element::Affine {
            d: half_at(block) as u32,
            scale: sub_scale(i / 32, block.subrange(4, 16)) as u8,
            quant: (sub_nibble(block.subrange(48, 176), i) + 16 * bit(block[16 + i % 32], i / 32)) as i8,
            dmin: half_at(block.skip(2)) as u32,
            min: sub_min(i / 32, block.subrange(4, 16)) as u8,
        },
        GgmlType::Q6_K => Element::Centred {
            d: half_at(block.skip(208)) as u32,
            factor: signed_byte(block[192 + i / 16]) as i8,
            quant: (six_bits(block, i) - 32) as i8,
        },
        _ => Element::Exact { bits: 0 },
    }
}

/// Whether the elements of a type can be read.
pub open spec fn readable(ty: GgmlType) -> bool {
    match ty {
        GgmlType::F32
        | GgmlType::F16
        | GgmlType::BF16
        | GgmlType::Q4_0
        | GgmlType::Q4_1
        | GgmlType::Q8_0
        | GgmlType::Q4_K
        | GgmlType::Q5_K
        | GgmlType::Q6_K => true,
        _ => false,
    }
}

} // verus!
