//! The original block formats: 32 elements sharing one scale.
//!
//! Superseded by the K-quants for quality per bit, but still what `Q8_0` and
//! `Q4_0` files hold, and `Q8_0` in particular stays useful as the
//! highest-fidelity quantization anyone actually ships.

use vstd::prelude::*;

use super::element::{as_signed, element_at, high_nibble, low_nibble, Element};
use super::half;
use crate::gguf::GgmlType;

verus! {

/// 32 elements: half-precision scale, then 16 bytes of packed 4-bit quants
/// centred on 8.
///
/// The packing is not sequential: byte `j` holds element `j` in its low nibble
/// and element `j + 16` in its high nibble.
pub fn q4_0(block: &[u8], out: &mut [Element])
    requires
        block@.len() >= 18,
        old(out)@.len() == 32,
    ensures
        final(out)@.len() == 32,
        forall|i: int| 0 <= i < 32 ==> #[trigger] final(out)@[i] == element_at(GgmlType::Q4_0, block@, i),
{
    let d: u32 = half::read_f16(block);
    let mut j: usize = 0;
    while j < 16
        invariant
            j <= 16,
            block@.len() >= 18,
            out@.len() == 32,
            d == half::half_at(block@),
            forall|i: int| 0 <= i < j ==> #[trigger] out@[i] == element_at(GgmlType::Q4_0, block@, i),
            forall|i: int| 16 <= i < 16 + j ==> #[trigger] out@[i] == element_at(GgmlType::Q4_0, block@, i),
        decreases 16 - j,
    {
        let byte: u8 = block[2 + j];
        assert(block@.subrange(2, 18)[j as int] == byte);
        out[j] = Element::Scaled { d, quant: low_nibble(byte) as i8 - 8 };
        out[j + 16] = Element::Scaled { d, quant: high_nibble(byte) as i8 - 8 };
        j += 1;
    }
}

/// 32 elements: half-precision scale and minimum, then 16 bytes of 4-bit
/// quants. Unlike `Q4_0` these are unsigned, with the offset carried by the
/// minimum.
pub fn q4_1(block: &[u8], out: &mut [Element])
    requires
        block@.len() >= 20,
        old(out)@.len() == 32,
    ensures
        final(out)@.len() == 32,
        forall|i: int| 0 <= i < 32 ==> #[trigger] final(out)@[i] == element_at(GgmlType::Q4_1, block@, i),
{
    let d: u32 = half::read_f16(block);
    let rest = vstd::slice::slice_subrange(block, 2, block.len());
    let min: u32 = half::read_f16(rest);
    assert(rest@ =~= block@.skip(2));
    let mut j: usize = 0;
    while j < 16
        invariant
            j <= 16,
            block@.len() >= 20,
            out@.len() == 32,
            d == half::half_at(block@),
            min == half::half_at(block@.skip(2)),
            forall|i: int| 0 <= i < j ==> #[trigger] out@[i] == element_at(GgmlType::Q4_1, block@, i),
            forall|i: int| 16 <= i < 16 + j ==> #[trigger] out@[i] == element_at(GgmlType::Q4_1, block@, i),
        decreases 16 - j,
    {
        let byte: u8 = block[4 + j];
        assert(block@.subrange(4, 20)[j as int] == byte);
        out[j] = Element::Offset { d, quant: low_nibble(byte) as i8, base: min };
        out[j + 16] = Element::Offset { d, quant: high_nibble(byte) as i8, base: min };
        j += 1;
    }
}

/// 32 elements: half-precision scale, then 32 signed bytes. One multiply per
/// weight.
pub fn q8_0(block: &[u8], out: &mut [Element])
    requires
        block@.len() >= 34,
        old(out)@.len() == 32,
    ensures
        final(out)@.len() == 32,
        forall|i: int| 0 <= i < 32 ==> #[trigger] final(out)@[i] == element_at(GgmlType::Q8_0, block@, i),
{
    let d: u32 = half::read_f16(block);
    let mut j: usize = 0;
    while j < 32
        invariant
            j <= 32,
            block@.len() >= 34,
            out@.len() == 32,
            d == half::half_at(block@),
            forall|i: int| 0 <= i < j ==> #[trigger] out@[i] == element_at(GgmlType::Q8_0, block@, i),
        decreases 32 - j,
    {
        out[j] = Element::Scaled { d, quant: as_signed(block[2 + j]) };
        j += 1;
    }
}

} // verus!
