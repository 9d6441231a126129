//! K-quants: 256 elements per super-block, split into eight 32-element blocks
//! with their own 6-bit scale and minimum.
//!
//! The two-level scheme is why `Q4_K` holds up so much better than `Q4_0` at
//! nearly the same size: outliers cost one sub-block's range instead of the
//! whole block's.

use vstd::arithmetic::power2::pow2;
use vstd::bits::lemma_u8_shr_is_div;
use vstd::prelude::*;

use super::element::{
    as_signed, bit, element_at, high_nibble, low_nibble, six_bits, sub_min, sub_scale, Element,
};
use super::half;
use crate::gguf::GgmlType;

verus! {

/// Elements per super-block.
pub const QK_K: usize = 256;

/// Unpacks the 6-bit scale and minimum for sub-block `index` out of the 12
/// packed bytes.
pub fn scale_min(index: usize, scales: &[u8]) -> (pair: (u8, u8))
    requires
        index < 8,
        scales@.len() >= 12,
    ensures
        pair.0 == sub_scale(index as int, scales@),
        pair.1 == sub_min(index as int, scales@),
        pair.0 < 64,
        pair.1 < 64,
{
    if index < 4 {
        (scales[index] % 64, scales[index + 4] % 64)
    } else {
        (
            scales[index + 4] % 16 + (scales[index - 4] / 64) * 16,
            scales[index + 4] / 16 + (scales[index] / 64) * 16,
        )
    }
}

/// Bit `k` of a byte.
pub fn bit_at(byte: u8, k: u8) -> (b: u8)
    requires
        k < 8,
    ensures
        b == bit(byte, k as int),
        b <= 1,
{
    proof {
        lemma_u8_shr_is_div(byte, k);
    }
    (byte >> k) % 2
}

/// Two bits of a byte, from `k` on.
pub fn pair_at(byte: u8, k: u8) -> (b: u8)
    requires
        k < 8,
    ensures
        b == (byte as int / pow2(k as nat) as int) % 4,
        b < 4,
{
    proof {
        lemma_u8_shr_is_div(byte, k);
    }
    (byte >> k) % 4
}

/// The two halves in front of a super-block, and the packed scales behind them.
pub(crate) fn header(block: &[u8]) -> (h: (u32, u32, &[u8]))
    requires
        block@.len() >= 16,
    ensures
        h.0 == half::half_at(block@),
        h.1 == half::half_at(block@.skip(2)),
        h.2@ == block@.subrange(4, 16),
{
    let rest = vstd::slice::slice_subrange(block, 2, block.len());
    assert(rest@ =~= block@.skip(2));
    (half::read_f16(block), half::read_f16(rest), vstd::slice::slice_subrange(block, 4, 16))
}

/// Element `32 * sub + l` of a `Q4_K` block, given what its sub-block shares.
pub fn q4_element(block: &[u8], sub: usize, l: usize, d: u32, dmin: u32, shared: (u8, u8)) -> (e: Element)
    requires
        block@.len() >= 144,
        sub < 8,
        l < 32,
        d == half::half_at(block@),
        dmin == half::half_at(block@.skip(2)),
        shared.0 == sub_scale(sub as int, block@.subrange(4, 16)),
        shared.1 == sub_min(sub as int, block@.subrange(4, 16)),
    ensures
        e == element_at(GgmlType::Q4_K, block@, 32 * sub + l),
{
    let byte: u8 = block[16 + (sub / 2) * 32 + l];
    let quant: u8 = if sub % 2 == 0 { low_nibble(byte) } else { high_nibble(byte) };
    proof {
        let i = 32 * sub + l;
        assert(i / 64 == sub / 2);
        assert(i / 32 == sub);
        assert(i % 32 == l);
        assert(block@.subrange(16, 144)[(sub as int / 2) * 32 + l] == byte);
    }
    Element::Affine { d, scale: shared.0, quant: quant as i8, dmin, min: shared.1 }
}

/// Element `32 * sub + l` of a `Q5_K` block, given what its sub-block shares.
pub fn q5_element(block: &[u8], sub: usize, l: usize, d: u32, dmin: u32, shared: (u8, u8)) -> (e: Element)
    requires
        block@.len() >= 176,
        sub < 8,
        l < 32,
        d == half::half_at(block@),
        dmin == half::half_at(block@.skip(2)),
        shared.0 == sub_scale(sub as int, block@.subrange(4, 16)),
        shared.1 == sub_min(sub as int, block@.subrange(4, 16)),
    ensures
        e == element_at(GgmlType::Q5_K, block@, 32 * sub + l),
{
    let byte: u8 = block[48 + (sub / 2) * 32 + l];
    let nibble: u8 = if sub % 2 == 0 { low_nibble(byte) } else { high_nibble(byte) };
    let quant: u8 = nibble + 16 * bit_at(block[16 + l], sub as u8);
    proof {
        let i = 32 * sub + l;
        assert(i / 64 == sub / 2);
        assert(i / 32 == sub);
        assert(i % 32 == l);
        assert(block@.subrange(48, 176)[(sub as int / 2) * 32 + l] == byte);
    }
    Element::Affine { d, scale: shared.0, quant: quant as i8, dmin, min: shared.1 }
}

/// 256 elements in 144 bytes: half-precision scale and minimum scale, 12 packed
/// scale/min pairs, then 128 bytes of 4-bit quants.
pub fn q4_k(block: &[u8], out: &mut [Element])
    requires
        block@.len() >= 144,
        old(out)@.len() == 256,
    ensures
        final(out)@.len() == 256,
        forall|i: int| 0 <= i < 256 ==> #[trigger] final(out)@[i] == element_at(GgmlType::Q4_K, block@, i),
{
    let (d, dmin, scales) = header(block);
    let mut group: usize = 0;
    while group < 4
        invariant
            group <= 4,
            block@.len() >= 144,
            out@.len() == 256,
            d == half::half_at(block@),
            dmin == half::half_at(block@.skip(2)),
            scales@ == block@.subrange(4, 16),
            forall|i: int| 0 <= i < 64 * group ==> #[trigger] out@[i] == element_at(GgmlType::Q4_K, block@, i),
        decreases 4 - group,
    {
        let shared_low = scale_min(group * 2, scales);
        let shared_high = scale_min(group * 2 + 1, scales);
        let base: usize = group * 64;
        let mut l: usize = 0;
        while l < 32
            invariant
                group < 4,
                l <= 32,
                base == 64 * group,
                block@.len() >= 144,
                out@.len() == 256,
                d == half::half_at(block@),
                dmin == half::half_at(block@.skip(2)),
                shared_low.0 == sub_scale(2 * group, block@.subrange(4, 16)),
                shared_low.1 == sub_min(2 * group, block@.subrange(4, 16)),
                shared_high.0 == sub_scale(2 * group + 1, block@.subrange(4, 16)),
                shared_high.1 == sub_min(2 * group + 1, block@.subrange(4, 16)),
                forall|i: int| 0 <= i < base + l ==> #[trigger] out@[i] == element_at(GgmlType::Q4_K, block@, i),
                forall|i: int|
                    base + 32 <= i < base + 32 + l ==> #[trigger] out@[i] == element_at(GgmlType::Q4_K, block@, i),
            decreases 32 - l,
        {
            let first = q4_element(block, group * 2, l, d, dmin, shared_low);
            let second = q4_element(block, group * 2 + 1, l, d, dmin, shared_high);
            out[base + l] = first;
            out[base + 32 + l] = second;
            l += 1;
        }
        group += 1;
    }
}

/// 256 elements in 176 bytes: like `Q4_K` but with a fifth bit per weight kept
/// in a separate 32-byte plane, one bit per element.
pub fn q5_k(block: &[u8], out: &mut [Element])
    requires
        block@.len() >= 176,
        old(out)@.len() == 256,
    ensures
        final(out)@.len() == 256,
        forall|i: int| 0 <= i < 256 ==> #[trigger] final(out)@[i] == element_at(GgmlType::Q5_K, block@, i),
{
    let (d, dmin, scales) = header(block);
    let mut group: usize = 0;
    while group < 4
        invariant
            group <= 4,
            block@.len() >= 176,
            out@.len() == 256,
            d == half::half_at(block@),
            dmin == half::half_at(block@.skip(2)),
            scales@ == block@.subrange(4, 16),
            forall|i: int| 0 <= i < 64 * group ==> #[trigger] out@[i] == element_at(GgmlType::Q5_K, block@, i),
        decreases 4 - group,
    {
        let shared_low = scale_min(group * 2, scales);
        let shared_high = scale_min(group * 2 + 1, scales);
        let base: usize = group * 64;
        let mut l: usize = 0;
        while l < 32
            invariant
                group < 4,
                l <= 32,
                base == 64 * group,
                block@.len() >= 176,
                out@.len() == 256,
                d == half::half_at(block@),
                dmin == half::half_at(block@.skip(2)),
                shared_low.0 == sub_scale(2 * group, block@.subrange(4, 16)),
                shared_low.1 == sub_min(2 * group, block@.subrange(4, 16)),
                shared_high.0 == sub_scale(2 * group + 1, block@.subrange(4, 16)),
                shared_high.1 == sub_min(2 * group + 1, block@.subrange(4, 16)),
                forall|i: int| 0 <= i < base + l ==> #[trigger] out@[i] == element_at(GgmlType::Q5_K, block@, i),
                forall|i: int|
                    base + 32 <= i < base + 32 + l ==> #[trigger] out@[i] == element_at(GgmlType::Q5_K, block@, i),
            decreases 32 - l,
        {
            let first = q5_element(block, group * 2, l, d, dmin, shared_low);
            let second = q5_element(block, group * 2 + 1, l, d, dmin, shared_high);
            out[base + l] = first;
            out[base + 32 + l] = second;
            l += 1;
        }
        group += 1;
    }
}

/// The centred quant and the scale of element `32 * quad + l` of a half of a
/// `Q6_K` block: six bits assembled from two planes.
pub fn q6_part(block: &[u8], half_block: usize, quad: usize, l: usize) -> (part: (i8, i8))
    requires
        block@.len() >= 210,
        half_block < 2,
        quad < 4,
        l < 32,
    ensures
        part.0 == six_bits(block@, 128 * half_block + 32 * quad + l) - 32,
        part.1 == super::element::signed_byte(block@[192 + (128 * half_block + 32 * quad + l) / 16]),
{
    let source: usize = if quad % 2 == 0 { 0 } else { 32 };
    let byte: u8 = block[half_block * 64 + source + l];
    let nibble: u8 = if quad < 2 { low_nibble(byte) } else { high_nibble(byte) };
    let plane: u8 = block[128 + half_block * 32 + l];
    let upper: u8 = pair_at(plane, 2 * quad as u8);
    let quant: i8 = (nibble + 16 * upper) as i8 - 32;
    let scale: i8 = as_signed(block[192 + half_block * 8 + quad * 2 + l / 16]);
    proof {
        let i = 128 * half_block + 32 * quad + l;
        assert(i / 128 == half_block);
        assert((i % 128) / 32 == quad);
        assert(i % 32 == l);
        assert(i / 16 == half_block * 8 + quad * 2 + l / 16);
    }
    (quant, scale)
}

/// 256 elements in 210 bytes: 4 low bits per weight, 2 high bits in a second
/// plane, and a full signed byte of scale per 16 elements.
///
/// The layout puts the quants first and the super-block scale last, unlike the
/// other K-quants.
pub fn q6_k(block: &[u8], out: &mut [Element])
    requires
        block@.len() >= 210,
        old(out)@.len() == 256,
    ensures
        final(out)@.len() == 256,
        forall|i: int| 0 <= i < 256 ==> #[trigger] final(out)@[i] == element_at(GgmlType::Q6_K, block@, i),
{
    let tail = vstd::slice::slice_subrange(block, 208, block.len());
    assert(tail@ =~= block@.skip(208));
    let d: u32 = half::read_f16(tail);
    let mut half_block: usize = 0;
    while half_block < 2
        invariant
            half_block <= 2,
            block@.len() >= 210,
            out@.len() == 256,
            d == half::half_at(block@.skip(208)),
            forall|i: int| 0 <= i < 128 * half_block ==> #[trigger] out@[i] == element_at(GgmlType::Q6_K, block@, i),
        decreases 2 - half_block,
    {
        let base: usize = half_block * 128;
        let mut l: usize = 0;
        while l < 32
            invariant
                half_block < 2,
                l <= 32,
                base == 128 * half_block,
                block@.len() >= 210,
                out@.len() == 256,
                d == half::half_at(block@.skip(208)),
                forall|i: int| 0 <= i < base + l ==> #[trigger] out@[i] == element_at(GgmlType::Q6_K, block@, i),
                forall|i: int|
                    base + 32 <= i < base + 32 + l ==> #[trigger] out@[i] == element_at(GgmlType::Q6_K, block@, i),
                forall|i: int|
                    base + 64 <= i < base + 64 + l ==> #[trigger] out@[i] == element_at(GgmlType::Q6_K, block@, i),
                forall|i: int|
                    base + 96 <= i < base + 96 + l ==> #[trigger] out@[i] == element_at(GgmlType::Q6_K, block@, i),
            decreases 32 - l,
        {
            let (q0, s0) = q6_part(block, half_block, 0, l);
            let (q1, s1) = q6_part(block, half_block, 1, l);
            let (q2, s2) = q6_part(block, half_block, 2, l);
            let (q3, s3) = q6_part(block, half_block, 3, l);
            out[base + l] = Element::Centred { d, factor: s0, quant: q0 };
            out[base + 32 + l] = Element::Centred { d, factor: s1, quant: q1 };
            out[base + 64 + l] = Element::Centred { d, factor: s2, quant: q2 };
            out[base + 96 + l] = Element::Centred { d, factor: s3, quant: q3 };
            l += 1;
        }
        half_block += 1;
    }
}

} // verus!
