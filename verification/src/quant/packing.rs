//! What expanding a stored block gives back.
//!
//! Each format is stated from the side of the writer: how a quantizer packs
//! small integers and scales into the bytes of a block. The laws say that
//! expanding a row takes the packing apart again, integer by integer, for every
//! choice of integers. They speak of the ids under which a file stores the
//! formats.

use vstd::arithmetic::power2::{lemma2_to64, pow2};
use vstd::prelude::*;

use super::element::{bit, element_at, six_bits, split_nibble, sub_min, sub_nibble, sub_scale, Element};
use super::half::f32_of_f16;
use super::row_element;
use crate::gguf::GgmlType;
use crate::le::le;
use crate::value::{layout_of, type_of_id};

verus! {

/// Two bytes, the low one first.
pub open spec fn two_bytes(n: u16) -> Seq<u8> {
    seq![(n % 256) as u8, (n / 256) as u8]
}

/// A signed byte in two's complement.
pub open spec fn byte_of(n: i8) -> u8 {
    if n < 0 {
        (n + 256) as u8
    } else {
        n as u8
    }
}

/// Whether all of `n` numbers are non-negative and below a limit.
pub open spec fn bounded(numbers: Seq<int>, n: nat, limit: int) -> bool {
    numbers.len() == n && forall|i: int| 0 <= i < n ==> 0 <= #[trigger] numbers[i] < limit
}

/// Whether block `b` of a row, `size` bytes per block, is `block`.
pub open spec fn block_stands(row: Seq<u8>, b: int, size: int, block: Seq<u8>) -> bool {
    0 <= b && (b + 1) * size <= row.len() && row.subrange(b * size, b * size + size) == block
}

proof fn lemma_two_bytes(n: u16, rest: Seq<u8>)
    ensures
        le((two_bytes(n) + rest).take(2)) == n,
{
    let pair = (two_bytes(n) + rest).take(2);
    assert(pair =~= two_bytes(n));
    reveal_with_fuel(le, 3);
    assert(pair.drop_first().drop_first() =~= Seq::empty());
}

proof fn lemma_in_block(b: int, block: int, k: int)
    requires
        0 <= b,
        0 <= k < block,
    ensures
        (b * block + k) / block == b,
        (b * block + k) % block == k,
{
    vstd::arithmetic::div_mod::lemma_fundamental_div_mod_converse(b * block + k, block, b, k);
}

/// An element of a row is an element of the block that it stands in.
pub proof fn lemma_stands(ty: GgmlType, row: Seq<u8>, b: int, n: int, size: int, block: Seq<u8>, k: int)
    requires
        layout_of(ty) == Some((n as u64, size as u64)),
        0 < n <= u64::MAX,
        0 < size <= u64::MAX,
        block_stands(row, b, size, block),
        0 <= k < n,
    ensures
        row_element(ty, row, b * n + k) == element_at(ty, block, k),
{
    lemma_in_block(b, n, k);
}

// --------------------------------------------------------------- plain numbers

/// A row of `f32`: four bytes each, the low one first.
pub proof fn lemma_f32_unpacks(row: Seq<u8>, i: int)
    requires
        0 <= i,
        4 * i + 4 <= row.len(),
    ensures
        layout_of(type_of_id(0)) == Some((1u64, 4u64)),
        row_element(type_of_id(0), row, i) == (Element::Exact {
            bits: (row[4 * i] + 0x100 * row[4 * i + 1] + 0x1_0000 * row[4 * i + 2] + 0x100_0000 * row[4 * i + 3]) as u32,
        }),
{
    let block = row.subrange(i * 4, i * 4 + 4);
    lemma_in_block(i, 1, 0);
    assert(block.take(4) =~= block);
    reveal_with_fuel(le, 5);
    let a = block.drop_first();
    let b = a.drop_first();
    let c = b.drop_first();
    assert(block[0] == row[4 * i] && a[0] == row[4 * i + 1] && b[0] == row[4 * i + 2] && c[0] == row[4 * i + 3]);
    assert(c.drop_first() =~= Seq::empty());
    assert(le(block) == block[0] + 256 * (a[0] + 256 * (b[0] + 256 * c[0])));
}

/// A row of `f16` and a row of `bf16`: two bytes each, the low one first. The
/// first are converted, the second are the high half of an `f32`.
pub proof fn lemma_halves_unpack(row: Seq<u8>, i: int, n: u16)
    requires
        block_stands(row, i, 2, two_bytes(n)),
    ensures
        layout_of(type_of_id(1)) == Some((1u64, 2u64)),
        layout_of(type_of_id(30)) == Some((1u64, 2u64)),
        row_element(type_of_id(1), row, i) == (Element::Exact { bits: f32_of_f16(n) as u32 }),
        row_element(type_of_id(30), row, i) == (Element::Exact { bits: (n * 0x1_0000) as u32 }),
{
    lemma_in_block(i, 1, 0);
    lemma_two_bytes(n, Seq::empty());
    assert(two_bytes(n) + Seq::empty() =~= two_bytes(n));
}

// ---------------------------------------------------------------- small blocks

/// A `Q8_0` block: a scale, then 32 signed bytes.
pub open spec fn q8_0_block(d: u16, quants: Seq<i8>) -> Seq<u8> {
    two_bytes(d) + Seq::new(32, |j: int| byte_of(quants[j]))
}

/// A `Q8_0` row gives back the scale and the integers that were packed.
pub proof fn lemma_q8_0_unpacks(row: Seq<u8>, b: int, d: u16, quants: Seq<i8>)
    requires
        quants.len() == 32,
        block_stands(row, b, 34, q8_0_block(d, quants)),
    ensures
        layout_of(type_of_id(8)) == Some((32u64, 34u64)),
        forall|k: int|
            0 <= k < 32 ==> #[trigger] row_element(type_of_id(8), row, 32 * b + k) == (Element::Scaled {
                d: f32_of_f16(d) as u32,
                quant: quants[k],
            }),
{
    let block = q8_0_block(d, quants);
    lemma_two_bytes(d, Seq::new(32, |j: int| byte_of(quants[j])));
    assert forall|k: int| 0 <= k < 32 implies #[trigger] row_element(type_of_id(8), row, 32 * b + k) == (
    Element::Scaled { d: f32_of_f16(d) as u32, quant: quants[k] }) by {
        lemma_in_block(b, 32, k);
        assert(block[2 + k] == byte_of(quants[k]));
    }
}

/// Sixteen bytes of nibbles: element `j` low, element `j + 16` high.
pub open spec fn nibble_bytes(quants: Seq<int>) -> Seq<u8> {
    Seq::new(16, |j: int| (quants[j] + 16 * quants[j + 16]) as u8)
}

proof fn lemma_nibble_bytes(quants: Seq<int>, k: int)
    requires
        bounded(quants, 32, 16),
        0 <= k < 32,
    ensures
        split_nibble(nibble_bytes(quants), k) == quants[k],
{
    let j = if k < 16 { k } else { k - 16 };
    assert(0 <= quants[j] < 16 && 0 <= quants[j + 16] < 16);
    assert(nibble_bytes(quants)[j] == quants[j] + 16 * quants[j + 16]);
}

/// A `Q4_0` block: a scale, then the nibbles.
pub open spec fn q4_0_block(d: u16, quants: Seq<int>) -> Seq<u8> {
    two_bytes(d) + nibble_bytes(quants)
}

/// A `Q4_0` row gives back the scale and the integers that were packed, centred
/// on 8.
pub proof fn lemma_q4_0_unpacks(row: Seq<u8>, b: int, d: u16, quants: Seq<int>)
    requires
        bounded(quants, 32, 16),
        block_stands(row, b, 18, q4_0_block(d, quants)),
    ensures
        layout_of(type_of_id(2)) == Some((32u64, 18u64)),
        forall|k: int|
            0 <= k < 32 ==> #[trigger] row_element(type_of_id(2), row, 32 * b + k) == (Element::Scaled {
                d: f32_of_f16(d) as u32,
                quant: (quants[k] - 8) as i8,
            }),
{
    let block = q4_0_block(d, quants);
    lemma_two_bytes(d, nibble_bytes(quants));
    assert(block.subrange(2, 18) =~= nibble_bytes(quants));
    assert forall|k: int| 0 <= k < 32 implies #[trigger] row_element(type_of_id(2), row, 32 * b + k) == (
    Element::Scaled { d: f32_of_f16(d) as u32, quant: (quants[k] - 8) as i8 }) by {
        lemma_stands(GgmlType::Q4_0, row, b, 32, 18, block, k);
        lemma_nibble_bytes(quants, k);
        assert(0 <= quants[k] < 16);
    }
}

/// A `Q4_1` block: a scale and a minimum, then the nibbles.
pub open spec fn q4_1_block(d: u16, base: u16, quants: Seq<int>) -> Seq<u8> {
    two_bytes(d) + (two_bytes(base) + nibble_bytes(quants))
}

/// A `Q4_1` row gives back the scale, the minimum and the integers that were
/// packed.
pub proof fn lemma_q4_1_unpacks(row: Seq<u8>, b: int, d: u16, base: u16, quants: Seq<int>)
    requires
        bounded(quants, 32, 16),
        block_stands(row, b, 20, q4_1_block(d, base, quants)),
    ensures
        layout_of(type_of_id(3)) == Some((32u64, 20u64)),
        forall|k: int|
            0 <= k < 32 ==> #[trigger] row_element(type_of_id(3), row, 32 * b + k) == (Element::Offset {
                d: f32_of_f16(d) as u32,
                quant: quants[k] as i8,
                base: f32_of_f16(base) as u32,
            }),
{
    let block = q4_1_block(d, base, quants);
    assert forall|k: int| 0 <= k < 32 implies #[trigger] row_element(type_of_id(3), row, 32 * b + k) == (
    Element::Offset { d: f32_of_f16(d) as u32, quant: quants[k] as i8, base: f32_of_f16(base) as u32 }) by {
        lemma_stands(GgmlType::Q4_1, row, b, 32, 20, block, k);
        lemma_q4_1_element(d, base, quants, k);
    }
}

proof fn lemma_q4_1_element(d: u16, base: u16, quants: Seq<int>, k: int)
    requires
        bounded(quants, 32, 16),
        0 <= k < 32,
    ensures
        element_at(GgmlType::Q4_1, q4_1_block(d, base, quants), k) == (Element::Offset {
            d: f32_of_f16(d) as u32,
            quant: quants[k] as i8,
            base: f32_of_f16(base) as u32,
        }),
{
    let block = q4_1_block(d, base, quants);
    let rest = two_bytes(base) + nibble_bytes(quants);
    lemma_two_bytes(d, rest);
    lemma_two_bytes(base, nibble_bytes(quants));
    assert(block.skip(2) =~= rest);
    assert(block.subrange(4, 20) =~= nibble_bytes(quants));
    lemma_nibble_bytes(quants, k);
    assert(0 <= quants[k] < 16);
}

// ---------------------------------------------------------------- super-blocks

/// The twelve bytes that hold eight six-bit scales and eight six-bit minimums:
/// the first four of each in the low six bits of eight bytes, whose top bits
/// hold the top bits of the last four; the low four bits of those share the
/// last four bytes.
pub open spec fn scale_bytes(scales: Seq<int>, mins: Seq<int>) -> Seq<u8> {
    Seq::new(
        12,
        |j: int|
            if j < 4 {
                (scales[j] + 64 * (scales[j + 4] / 16)) as u8
            } else if j < 8 {
                (mins[j - 4] + 64 * (mins[j] / 16)) as u8
            } else {
                (scales[j - 4] % 16 + 16 * (mins[j - 4] % 16)) as u8
            },
    )
}

/// Every scale and every minimum comes back from the twelve bytes.
pub proof fn lemma_scales_unpack(scales: Seq<int>, mins: Seq<int>, sub: int)
    requires
        bounded(scales, 8, 64),
        bounded(mins, 8, 64),
        0 <= sub < 8,
    ensures
        sub_scale(sub, scale_bytes(scales, mins)) == scales[sub],
        sub_min(sub, scale_bytes(scales, mins)) == mins[sub],
{
    let bytes = scale_bytes(scales, mins);
    let low = if sub < 4 { sub } else { sub - 4 };
    assert(0 <= scales[low] < 64 && 0 <= scales[low + 4] < 64);
    assert(0 <= mins[low] < 64 && 0 <= mins[low + 4] < 64);
    assert(bytes[low] == scales[low] + 64 * (scales[low + 4] / 16));
    assert(bytes[low + 4] == mins[low] + 64 * (mins[low + 4] / 16));
    assert(bytes[low + 8] == scales[low + 4] % 16 + 16 * (mins[low + 4] % 16));
}

/// The low four bits of 256 integers: 32 bytes hold one run of 32 low and the
/// next one high.
pub open spec fn run_bytes(quants: Seq<int>) -> Seq<u8> {
    Seq::new(128, |j: int| (quants[64 * (j / 32) + j % 32] % 16 + 16 * (quants[64 * (j / 32) + 32 + j % 32] % 16)) as u8)
}

proof fn lemma_run_bytes(quants: Seq<int>, i: int)
    requires
        quants.len() == 256,
        forall|k: int| 0 <= k < 256 ==> 0 <= #[trigger] quants[k],
        0 <= i < 256,
    ensures
        sub_nibble(run_bytes(quants), i) == quants[i] % 16,
{
    let j = (i / 64) * 32 + i % 32;
    assert(0 <= j < 128);
    assert(j / 32 == i / 64 && j % 32 == i % 32);
    let a = 64 * (j / 32) + j % 32;
    let b = a + 32;
    assert(0 <= quants[a] && 0 <= quants[b]);
    assert(run_bytes(quants)[j] == quants[a] % 16 + 16 * (quants[b] % 16));
    if (i / 32) % 2 == 0 {
        assert(i == a);
    } else {
        assert(i == b);
    }
}

proof fn lemma_super_block(d: u16, dmin: u16, scales: Seq<u8>, rest: Seq<u8>)
    requires
        scales.len() == 12,
    ensures
        ({
            let block = two_bytes(d) + (two_bytes(dmin) + (scales + rest));
            &&& block.len() == 16 + rest.len()
            &&& le(block.take(2)) == d
            &&& le(block.skip(2).take(2)) == dmin
            &&& block.subrange(4, 16) == scales
            &&& block.subrange(16, 16 + rest.len() as int) == rest
        }),
{
    let block = two_bytes(d) + (two_bytes(dmin) + (scales + rest));
    lemma_two_bytes(d, two_bytes(dmin) + (scales + rest));
    lemma_two_bytes(dmin, scales + rest);
    assert(block.skip(2) =~= two_bytes(dmin) + (scales + rest));
    assert(block.subrange(4, 16) =~= scales);
    assert(block.subrange(16, 16 + rest.len() as int) =~= rest);
}

/// A `Q4_K` block: two scales, the twelve bytes, the nibbles.
pub open spec fn q4_k_block(d: u16, dmin: u16, scales: Seq<int>, mins: Seq<int>, quants: Seq<int>) -> Seq<u8> {
    two_bytes(d) + (two_bytes(dmin) + (scale_bytes(scales, mins) + run_bytes(quants)))
}

/// A `Q4_K` row gives back the scales, the minimums and the integers that were
/// packed.
pub proof fn lemma_q4_k_unpacks(
    row: Seq<u8>,
    b: int,
    d: u16,
    dmin: u16,
    scales: Seq<int>,
    mins: Seq<int>,
    quants: Seq<int>,
)
    requires
        bounded(scales, 8, 64),
        bounded(mins, 8, 64),
        bounded(quants, 256, 16),
        block_stands(row, b, 144, q4_k_block(d, dmin, scales, mins, quants)),
    ensures
        layout_of(type_of_id(12)) == Some((256u64, 144u64)),
        forall|k: int|
            0 <= k < 256 ==> #[trigger] row_element(type_of_id(12), row, 256 * b + k) == (Element::Affine {
                d: f32_of_f16(d) as u32,
                scale: scales[k / 32] as u8,
                quant: quants[k] as i8,
                dmin: f32_of_f16(dmin) as u32,
                min: mins[k / 32] as u8,
            }),
{
    assert forall|k: int| 0 <= k < 256 implies #[trigger] row_element(type_of_id(12), row, 256 * b + k) == (
    Element::Affine {
            d: f32_of_f16(d) as u32,
            scale: scales[k / 32] as u8,
            quant: quants[k] as i8,
            dmin: f32_of_f16(dmin) as u32,
            min: mins[k / 32] as u8,
        }) by {
        lemma_stands(GgmlType::Q4_K, row, b, 256, 144, q4_k_block(d, dmin, scales, mins, quants), k);
        lemma_q4_k_element(d, dmin, scales, mins, quants, k);
    }
}

proof fn lemma_q4_k_element(d: u16, dmin: u16, scales: Seq<int>, mins: Seq<int>, quants: Seq<int>, k: int)
    requires
        bounded(scales, 8, 64),
        bounded(mins, 8, 64),
        bounded(quants, 256, 16),
        0 <= k < 256,
    ensures
        element_at(GgmlType::Q4_K, q4_k_block(d, dmin, scales, mins, quants), k) == (Element::Affine {
            d: f32_of_f16(d) as u32,
            scale: scales[k / 32] as u8,
            quant: quants[k] as i8,
            dmin: f32_of_f16(dmin) as u32,
            min: mins[k / 32] as u8,
        }),
{
    lemma_super_block(d, dmin, scale_bytes(scales, mins), run_bytes(quants));
    lemma_scales_unpack(scales, mins, k / 32);
    lemma_run_bytes(quants, k);
    assert(0 <= quants[k] < 16);
}

/// The fifth bits of 256 integers: byte `l` holds that of element `l` of each
/// run of 32, the first run in the lowest bit.
pub open spec fn fifth_bytes(quants: Seq<int>) -> Seq<u8> {
    Seq::new(
        32,
        |l: int|
            (quants[l] / 16 + 2 * (quants[l + 32] / 16) + 4 * (quants[l + 64] / 16) + 8 * (quants[l + 96] / 16) + 16 * (
            quants[l + 128] / 16) + 32 * (quants[l + 160] / 16) + 64 * (quants[l + 192] / 16) + 128 * (quants[l + 224]
                / 16)) as u8,
    )
}

proof fn lemma_digit(n: int, w: int, r: int, h: int, m: int)
    requires
        0 <= r < w,
        0 <= h <= 1,
        n == r + w * (h + 2 * m),
    ensures
        (n / w) % 2 == h,
{
    assert(n == (h + 2 * m) * w + r) by (nonlinear_arith)
        requires
            n == r + w * (h + 2 * m),
    ;
    vstd::arithmetic::div_mod::lemma_fundamental_div_mod_converse(n, w, h + 2 * m, r);
}

proof fn lemma_fifth_bytes(quants: Seq<int>, i: int)
    requires
        bounded(quants, 256, 32),
        0 <= i < 256,
    ensures
        bit(fifth_bytes(quants)[i % 32], i / 32) == quants[i] / 16,
{
    lemma2_to64();
    let l = i % 32;
    let s = i / 32;
    assert(0 <= quants[l] < 32 && 0 <= quants[l + 32] < 32 && 0 <= quants[l + 64] < 32 && 0 <= quants[l + 96] < 32);
    assert(0 <= quants[l + 128] < 32 && 0 <= quants[l + 160] < 32 && 0 <= quants[l + 192] < 32);
    assert(0 <= quants[l + 224] < 32);
    let byte = fifth_bytes(quants)[l] as int;
    let h0 = quants[l] / 16;
    let h1 = quants[l + 32] / 16;
    let h2 = quants[l + 64] / 16;
    let h3 = quants[l + 96] / 16;
    let h4 = quants[l + 128] / 16;
    let h5 = quants[l + 160] / 16;
    let h6 = quants[l + 192] / 16;
    let h7 = quants[l + 224] / 16;
    assert(byte == h0 + 2 * h1 + 4 * h2 + 8 * h3 + 16 * h4 + 32 * h5 + 64 * h6 + 128 * h7);
    let r4 = h0 + 2 * h1 + 4 * h2 + 8 * h3;
    let m4 = h4 + 2 * h5 + 4 * h6 + 8 * h7;
    assert(i == l + 32 * s);
    if s == 0 {
        lemma_digit(byte, 1, 0, h0, h1 + 2 * h2 + 4 * h3 + 8 * m4);
    } else if s == 1 {
        lemma_digit(byte, 2, h0, h1, h2 + 2 * h3 + 4 * m4);
    } else if s == 2 {
        lemma_digit(byte, 4, h0 + 2 * h1, h2, h3 + 2 * m4);
    } else if s == 3 {
        lemma_digit(byte, 8, h0 + 2 * h1 + 4 * h2, h3, m4);
    } else if s == 4 {
        lemma_digit(byte, 16, r4, h4, h5 + 2 * h6 + 4 * h7);
    } else if s == 5 {
        lemma_digit(byte, 32, r4 + 16 * h4, h5, h6 + 2 * h7);
    } else if s == 6 {
        lemma_digit(byte, 64, r4 + 16 * h4 + 32 * h5, h6, h7);
    } else {
        lemma_digit(byte, 128, r4 + 16 * h4 + 32 * h5 + 64 * h6, h7, 0);
    }
}

/// A `Q5_K` block: two scales, the twelve bytes, the fifth bits, the nibbles.
pub open spec fn q5_k_block(d: u16, dmin: u16, scales: Seq<int>, mins: Seq<int>, quants: Seq<int>) -> Seq<u8> {
    two_bytes(d) + (two_bytes(dmin) + (scale_bytes(scales, mins) + (fifth_bytes(quants) + run_bytes(quants))))
}

/// A `Q5_K` row gives back the scales, the minimums and the integers that were
/// packed.
pub proof fn lemma_q5_k_unpacks(
    row: Seq<u8>,
    b: int,
    d: u16,
    dmin: u16,
    scales: Seq<int>,
    mins: Seq<int>,
    quants: Seq<int>,
)
    requires
        bounded(scales, 8, 64),
        bounded(mins, 8, 64),
        bounded(quants, 256, 32),
        block_stands(row, b, 176, q5_k_block(d, dmin, scales, mins, quants)),
    ensures
        layout_of(type_of_id(13)) == Some((256u64, 176u64)),
        forall|k: int|
            0 <= k < 256 ==> #[trigger] row_element(type_of_id(13), row, 256 * b + k) == (Element::Affine {
                d: f32_of_f16(d) as u32,
                scale: scales[k / 32] as u8,
                quant: quants[k] as i8,
                dmin: f32_of_f16(dmin) as u32,
                min: mins[k / 32] as u8,
            }),
{
    assert forall|k: int| 0 <= k < 256 implies #[trigger] row_element(type_of_id(13), row, 256 * b + k) == (
    Element::Affine {
            d: f32_of_f16(d) as u32,
            scale: scales[k / 32] as u8,
            quant: quants[k] as i8,
            dmin: f32_of_f16(dmin) as u32,
            min: mins[k / 32] as u8,
        }) by {
        lemma_stands(GgmlType::Q5_K, row, b, 256, 176, q5_k_block(d, dmin, scales, mins, quants), k);
        lemma_q5_k_element(d, dmin, scales, mins, quants, k);
    }
}

proof fn lemma_q5_k_element(d: u16, dmin: u16, scales: Seq<int>, mins: Seq<int>, quants: Seq<int>, k: int)
    requires
        bounded(scales, 8, 64),
        bounded(mins, 8, 64),
        bounded(quants, 256, 32),
        0 <= k < 256,
    ensures
        element_at(GgmlType::Q5_K, q5_k_block(d, dmin, scales, mins, quants), k) == (Element::Affine {
            d: f32_of_f16(d) as u32,
            scale: scales[k / 32] as u8,
            quant: quants[k] as i8,
            dmin: f32_of_f16(dmin) as u32,
            min: mins[k / 32] as u8,
        }),
{
    let block = q5_k_block(d, dmin, scales, mins, quants);
    lemma_super_block(d, dmin, scale_bytes(scales, mins), fifth_bytes(quants) + run_bytes(quants));
    assert(block.subrange(48, 176) =~= run_bytes(quants));
    lemma_scales_unpack(scales, mins, k / 32);
    lemma_run_bytes(quants, k);
    lemma_fifth_bytes(quants, k);
    assert(block[16 + k % 32] == fifth_bytes(quants)[k % 32]);
    assert(0 <= quants[k] < 32);
    assert(quants[k] == quants[k] % 16 + 16 * (quants[k] / 16));
}

/// A `Q6_K` block. Of each half of 128 integers the low four bits take 64
/// bytes: byte `j` holds those of element `j` low and those of element `j + 64`
/// high. The top two bits take 32 bytes: byte `l` holds those of elements `l`,
/// `l + 32`, `l + 64` and `l + 96`, the first ones lowest. Sixteen signed scales
/// and the scale of the whole follow.
pub open spec fn q6_k_block(d: u16, scales: Seq<i8>, quants: Seq<int>) -> Seq<u8> {
    q6_low(quants) + (q6_high(quants) + (Seq::new(16, |j: int| byte_of(scales[j])) + two_bytes(d)))
}

/// The low four bits of a `Q6_K` block.
pub open spec fn q6_low(quants: Seq<int>) -> Seq<u8> {
    Seq::new(128, |j: int| (quants[128 * (j / 64) + j % 64] % 16 + 16 * (quants[128 * (j / 64) + 64 + j % 64] % 16)) as u8)
}

/// The top two bits of a `Q6_K` block.
pub open spec fn q6_high(quants: Seq<int>) -> Seq<u8> {
    Seq::new(
        64,
        |j: int|
            {
                let at = 128 * (j / 32) + j % 32;
                let first = quants[at] / 16 + 4 * (quants[at + 32] / 16);
                (first + 16 * (quants[at + 64] / 16) + 64 * (quants[at + 96] / 16)) as u8
            },
    )
}

proof fn lemma_six_bits(block: Seq<u8>, quants: Seq<int>, i: int)
    requires
        bounded(quants, 256, 64),
        block.len() == 210,
        block.subrange(0, 128) == q6_low(quants),
        block.subrange(128, 192) == q6_high(quants),
        0 <= i < 256,
    ensures
        six_bits(block, i) == quants[i],
{
    lemma2_to64();
    let part = i / 128;
    let quad = (i % 128) / 32;
    let l = i % 32;
    let a = 128 * part + l;
    assert(i == a + 32 * quad);
    assert(0 <= quants[a] < 64 && 0 <= quants[a + 32] < 64 && 0 <= quants[a + 64] < 64 && 0 <= quants[a + 96] < 64);
    let j0 = part * 64 + l;
    let j1 = part * 64 + 32 + l;
    assert(block[j0] == block.subrange(0, 128)[j0]);
    assert(block[j1] == block.subrange(0, 128)[j1]);
    assert(j0 / 64 == part && j0 % 64 == l);
    assert(j1 / 64 == part && j1 % 64 == 32 + l);
    assert(block[j0] == quants[a] % 16 + 16 * (quants[a + 64] % 16));
    assert(block[j1] == quants[a + 32] % 16 + 16 * (quants[a + 96] % 16));
    let jh = part * 32 + l;
    assert(block[128 + jh] == block.subrange(128, 192)[jh]);
    assert(jh / 32 == part && jh % 32 == l);
    let plane = block[128 + jh] as int;
    let (x0, x1, x2, x3) = (quants[a] / 16, quants[a + 32] / 16, quants[a + 64] / 16, quants[a + 96] / 16);
    assert(plane == x0 + 4 * x1 + 16 * x2 + 64 * x3);
    assert(plane % 4 == x0 && (plane / 4) % 4 == x1 && (plane / 16) % 4 == x2 && (plane / 64) % 4 == x3);
    if quad == 0 {
        assert(pow2((2 * quad) as nat) == 1);
    } else if quad == 1 {
        assert(pow2((2 * quad) as nat) == 4);
    } else if quad == 2 {
        assert(pow2((2 * quad) as nat) == 16);
    } else {
        assert(quad == 3);
        assert(pow2((2 * quad) as nat) == 64);
    }
}

/// A `Q6_K` row gives back the scales and the integers that were packed,
/// centred on 32.
pub proof fn lemma_q6_k_unpacks(row: Seq<u8>, b: int, d: u16, scales: Seq<i8>, quants: Seq<int>)
    requires
        scales.len() == 16,
        bounded(quants, 256, 64),
        block_stands(row, b, 210, q6_k_block(d, scales, quants)),
    ensures
        layout_of(type_of_id(14)) == Some((256u64, 210u64)),
        forall|k: int|
            0 <= k < 256 ==> #[trigger] row_element(type_of_id(14), row, 256 * b + k) == (Element::Centred {
                d: f32_of_f16(d) as u32,
                factor: scales[k / 16],
                quant: (quants[k] - 32) as i8,
            }),
{
    let block = q6_k_block(d, scales, quants);
    lemma_two_bytes(d, Seq::empty());
    assert(two_bytes(d) + Seq::empty() =~= two_bytes(d));
    assert(block.skip(208) =~= two_bytes(d));
    assert(block.subrange(0, 128) =~= q6_low(quants));
    assert(block.subrange(128, 192) =~= q6_high(quants));
    assert forall|k: int| 0 <= k < 256 implies #[trigger] row_element(type_of_id(14), row, 256 * b + k) == (
    Element::Centred { d: f32_of_f16(d) as u32, factor: scales[k / 16], quant: (quants[k] - 32) as i8 }) by {
        lemma_in_block(b, 256, k);
        lemma_six_bits(block, quants, k);
        assert(block[192 + k / 16] == byte_of(scales[k / 16]));
        assert(0 <= quants[k] < 64);
    }
}

} // verus!
