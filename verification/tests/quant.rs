//! Blocks, rows and activations, down to the numbers they stand for.
//!
//! The library says which integers and scales make up a number; here they are
//! multiplied out and compared with numbers worked out by hand.

use ferrite::error::ErrorKind;
use ferrite::gguf::{GgmlType, Gguf};
use ferrite::quant::activation::{Quantized, BLOCK};
use ferrite::quant::dot::{self, Step, TAIL};
use ferrite::quant::half;
use ferrite::quant::idot::{self, Term};
use ferrite::quant::k::{scale_min, QK_K};
use ferrite::quant::{self, avx2, dequantize, dequantize_to_vec, k, legacy, Element};
use ferrite::synth::Builder;

// ------------------------------------------------------------- multiplying out

fn float(bits: u32) -> f32 {
    f32::from_bits(bits)
}

fn value(e: &Element) -> f32 {
    match *e {
        Element::Exact { bits } => float(bits),
        Element::Scaled { d, quant } => float(d) * quant as f32,
        Element::Offset { d, quant, base } => float(d) * quant as f32 + float(base),
        Element::Affine { d, scale, quant, dmin, min } => {
            (float(d) * scale as f32) * quant as f32 - float(dmin) * min as f32
        }
        Element::Centred { d, factor, quant } => float(d) * factor as f32 * quant as f32,
    }
}

fn values(elements: &[Element]) -> Vec<f32> {
    elements.iter().map(value).collect()
}

/// What a kernel that takes the steps accumulates.
fn accumulate(steps: &[Step], x: &[f32]) -> f32 {
    let mut lanes = [0.0f32; 5];
    for s in steps {
        lanes[s.lane] += value(&s.element) * x[s.at];
    }
    lanes[0] + lanes[1] + lanes[2] + lanes[3] + lanes[TAIL]
}

/// The plain dot product, in four lanes.
fn plain_dot(a: &[f32], b: &[f32]) -> f32 {
    let mut lanes = [0.0f32; 4];
    let full = a.len() - a.len() % 4;
    for start in (0..full).step_by(4) {
        for lane in 0..4 {
            lanes[lane] += a[start + lane] * b[start + lane];
        }
    }
    let tail: f32 = a[full..].iter().zip(&b[full..]).map(|(x, y)| x * y).sum();
    lanes[0] + lanes[1] + lanes[2] + lanes[3] + tail
}

fn total(terms: &[Term]) -> f32 {
    let mut acc = 0.0f32;
    for t in terms {
        acc += match *t {
            Term::Plain { d, step, dot } => float(d) * float(step) * dot as f32,
            Term::Affine { step, d, scale, dot, dmin, min, sum } => {
                float(step) * ((float(d) * scale as f32) * dot as f32 - (float(dmin) * min as f32) * sum as f32)
            }
        };
    }
    acc
}

/// Divides each block by its step, rounds, and hands both over.
fn fill(q: &mut Quantized, x: &[f32]) {
    let mut rounded = Vec::new();
    let mut steps = Vec::new();
    for values in x.chunks_exact(BLOCK) {
        let amax = values.iter().fold(0.0f32, |acc, v| acc.max(v.abs()));
        let step = amax / 127.0;
        let inverse = if step > 0.0 { 1.0 / step } else { 0.0 };
        rounded.extend(values.iter().map(|v| (v * inverse).round() as i32));
        steps.push(step.to_bits());
    }
    q.fill(&rounded, &steps);
}

/// Deterministic bytes that exercise every bit position.
fn pattern(len: usize) -> Vec<u8> {
    (0..len).map(|i| ((i * 37 + 11) % 251) as u8).collect::<Vec<_>>()
}

/// The same with scales that stay small.
fn row(ty: GgmlType, blocks: usize) -> Vec<u8> {
    let (_, size) = ty.layout().expect("sized type");
    let mut out = pattern(blocks * size as usize);
    for block in out.chunks_exact_mut(size as usize) {
        match ty {
            GgmlType::Q6_K => block[208..210].copy_from_slice(&0x2400u16.to_le_bytes()),
            GgmlType::Q4_K | GgmlType::Q5_K => {
                block[0..2].copy_from_slice(&0x2400u16.to_le_bytes());
                block[2..4].copy_from_slice(&0x2000u16.to_le_bytes());
            }
            _ => block[0..2].copy_from_slice(&0x2400u16.to_le_bytes()),
        }
    }
    out
}

fn activations(len: usize) -> Vec<f32> {
    (0..len).map(|i| ((i as f32) * 0.37).sin() * 2.0).collect()
}

const ZERO: Element = Element::Exact { bits: 0 };

fn f16(bits: u16) -> f32 {
    float(half::f16_bits(bits))
}

fn bf16(bits: u16) -> f32 {
    float(half::bf16(bits))
}

fn read_f16(bytes: &[u8]) -> f32 {
    float(half::read_f16(bytes))
}

// ------------------------------------------------------------------------ halves

#[test]
fn known_bit_patterns() {
    assert_eq!(f16(0x0000), 0.0);
    assert_eq!(f16(0x3C00), 1.0);
    assert_eq!(f16(0xBC00), -1.0);
    assert_eq!(f16(0x4000), 2.0);
    assert_eq!(f16(0xC000), -2.0);
    assert_eq!(f16(0x3800), 0.5);
    assert_eq!(f16(0x3555), 0.333_251_95); // nearest f16 to 1/3
    assert_eq!(f16(0x7BFF), 65504.0); // largest finite f16
}

#[test]
fn signed_zero_and_subnormals() {
    assert_eq!(f16(0x8000), 0.0);
    assert!(f16(0x8000).is_sign_negative(), "-0.0 must keep its sign");
    // Smallest positive subnormal is 2^-24.
    assert_eq!(f16(0x0001), 5.960_464_5e-8);
    assert_eq!(f16(0x8001), -5.960_464_5e-8);
    // Largest subnormal, just below the smallest normal.
    assert_eq!(f16(0x03FF), 1023.0 / 16_777_216.0);
}

#[test]
fn infinities_and_nan() {
    assert_eq!(f16(0x7C00), f32::INFINITY);
    assert_eq!(f16(0xFC00), f32::NEG_INFINITY);
    assert!(f16(0x7E00).is_nan());
}

#[test]
fn bfloat_is_the_top_half_of_an_f32() {
    assert_eq!(bf16(0x3F80), 1.0);
    assert_eq!(bf16(0xC000), -2.0);
    assert_eq!(bf16(0x0000), 0.0);
}

#[test]
fn reading_a_short_slice_yields_zero() {
    assert_eq!(read_f16(&[0x00, 0x3C]), 1.0);
    assert_eq!(read_f16(&[0x00]), 0.0);
    assert_eq!(read_f16(&[]), 0.0);
}

#[test]
fn every_finite_half_is_exact() {
    for bits in 0..=u16::MAX {
        let exponent = (bits >> 10) & 0x1F;
        let fraction = (bits & 0x3FF) as f64;
        let magnitude = match exponent {
            0 => fraction * 2f64.powi(-24),
            31 => continue,
            e => (1024.0 + fraction) * 2f64.powi(e as i32 - 25),
        };
        let expected = if bits & 0x8000 != 0 { -magnitude } else { magnitude };
        assert_eq!(f16(bits) as f64, expected, "{bits:#06x}");
    }
}

// ------------------------------------------------------------------------ blocks

/// f16 1.0, so the scale drops out of the arithmetic.
const ONE: [u8; 2] = [0x00, 0x3C];

fn block_of(expand: fn(&[u8], &mut [Element]), block: &[u8], len: usize) -> Vec<f32> {
    let mut out = vec![ZERO; len];
    expand(block, &mut out);
    values(&out)
}

#[test]
fn q8_0_is_scale_times_signed_byte() {
    let mut block = ONE.to_vec();
    block.extend((0..32).map(|i| match i {
        0 => 0u8,
        1 => 1,
        2 => 0xFF, // -1
        3 => 0x7F, // 127
        4 => 0x80, // -128
        _ => 0,
    }));
    let out = block_of(legacy::q8_0, &block, 32);
    assert_eq!(&out[..5], &[0.0, 1.0, -1.0, 127.0, -128.0]);

    // Scale of 2 doubles everything.
    let mut block = vec![0x00, 0x40];
    block.extend(std::iter::repeat_n(3u8, 32));
    let out = block_of(legacy::q8_0, &block, 32);
    assert!(out.iter().all(|v| *v == 6.0));
}

#[test]
fn q4_0_splits_nibbles_across_the_block() {
    let mut block = ONE.to_vec();
    // Low nibble 0xA (10 -> +2), high nibble 0x3 (3 -> -5).
    block.extend(std::iter::repeat_n(0x3Au8, 16));
    let out = block_of(legacy::q4_0, &block, 32);
    assert!(out[..16].iter().all(|v| *v == 2.0), "low nibbles first");
    assert!(out[16..].iter().all(|v| *v == -5.0), "then high nibbles");
}

#[test]
fn q4_1_offsets_by_the_stored_minimum() {
    let mut block = ONE.to_vec();
    block.extend_from_slice(&0xC000u16.to_le_bytes()); // min = -2.0
    block.extend(std::iter::repeat_n(0x21u8, 16));
    let out = block_of(legacy::q4_1, &block, 32);
    // low nibble 1 -> 1 - 2 = -1, high nibble 2 -> 2 - 2 = 0
    assert!(out[..16].iter().all(|v| *v == -1.0));
    assert!(out[16..].iter().all(|v| *v == 0.0));
}

/// d = 1.0, dmin = 0.0, so weights come out as the raw quant values.
fn q4_k_block(scales: [u8; 12], quants: [u8; 128]) -> Vec<u8> {
    let mut block = Vec::with_capacity(144);
    block.extend_from_slice(&0x3C00u16.to_le_bytes()); // 1.0
    block.extend_from_slice(&0x0000u16.to_le_bytes()); // 0.0
    block.extend_from_slice(&scales);
    block.extend_from_slice(&quants);
    block
}

#[test]
fn q4_k_expands_nibbles_per_sub_block() {
    // Scales 1 for the first four sub-blocks, 0 for the rest: with only the
    // low 6 bits set, the last four unpack to zero.
    let mut scales = [0u8; 12];
    scales[..4].copy_from_slice(&[1, 1, 1, 1]);
    // Low nibble 5, high nibble 2, everywhere.
    let block = q4_k_block(scales, [0x25; 128]);

    let out = block_of(k::q4_k, &block, QK_K);

    // Sub-blocks 0..4 cover the first 128 elements, alternating 32 at a
    // time between the low and high nibbles.
    assert!(out[..32].iter().all(|v| *v == 5.0));
    assert!(out[32..64].iter().all(|v| *v == 2.0));
    assert!(out[64..96].iter().all(|v| *v == 5.0));
    assert!(out[96..128].iter().all(|v| *v == 2.0));
    // Scales 4..8 are zero, so the second half is zero.
    assert!(out[128..].iter().all(|v| *v == 0.0));
}

#[test]
fn q4_k_subtracts_the_minimum() {
    let mut scales = [0u8; 12];
    scales[0] = 1; // scale for sub-block 0
    scales[4] = 3; // minimum for sub-block 0
    let mut block = q4_k_block(scales, [0x07; 128]);
    block[2..4].copy_from_slice(&0x3C00u16.to_le_bytes()); // dmin = 1.0

    let out = block_of(k::q4_k, &block, QK_K);
    assert!(out[..32].iter().all(|v| *v == 7.0 - 3.0));
}

#[test]
fn q5_k_adds_the_fifth_bit_from_the_high_plane() {
    let mut block = Vec::with_capacity(176);
    block.extend_from_slice(&0x3C00u16.to_le_bytes()); // d = 1.0
    block.extend_from_slice(&0x0000u16.to_le_bytes()); // dmin = 0.0
    let mut scales = [0u8; 12];
    scales[0] = 1;
    block.extend_from_slice(&scales);
    // Bit 0 set for the first element only: group 0's low half reads bit 0.
    let mut qh = [0u8; 32];
    qh[0] = 0b0000_0001;
    block.extend_from_slice(&qh);
    block.extend_from_slice(&[0x03; 128]); // low nibble 3

    let out = block_of(k::q5_k, &block, QK_K);
    assert_eq!(out[0], 19.0, "3 + 16 from the high plane");
    assert_eq!(out[1], 3.0, "no high bit set");
}

#[test]
fn q6_k_centres_quants_on_zero() {
    let mut block = vec![0u8; 210];
    block[192..208].fill(1); // every scale = 1
    block[208..210].copy_from_slice(&0x3C00u16.to_le_bytes()); // d = 1.0

    let out = block_of(k::q6_k, &block, QK_K);
    // All quant bits zero means 0 - 32 across the board.
    assert!(out.iter().all(|v| *v == -32.0), "got {:?}", &out[..4]);

    // Low nibble of the first byte to 0xF lifts element 0 to 15 - 32.
    block[0] = 0x0F;
    let out = block_of(k::q6_k, &block, QK_K);
    assert_eq!(out[0], -17.0);

    // Two high bits for element 0 add 48 -> 63 - 32.
    block[128] = 0b0000_0011;
    let out = block_of(k::q6_k, &block, QK_K);
    assert_eq!(out[0], 31.0);
}

#[test]
fn high_sub_blocks_borrow_their_top_bits() {
    // Sub-block 4's scale is the low nibble of scales[8] plus the top two
    // bits of scales[0]; its minimum is the high nibble of scales[8] plus
    // the top two bits of scales[4].
    let mut scales = [0u8; 12];
    scales[0] = 0b1100_0000; // contributes 0b11 -> 48
    scales[8] = 0b0000_0010; // contributes 2
    assert_eq!(scale_min(4, &scales).0, 50);

    scales[4] = 0b0100_0000; // contributes 0b01 -> 16
    scales[8] = 0b0011_0010; // high nibble 3
    assert_eq!(scale_min(4, &scales).1, 19);
}

// ------------------------------------------------------------------------- rows

fn expanded(ty: GgmlType, bytes: &[u8], n: usize) -> Vec<f32> {
    values(&dequantize_to_vec(ty, bytes, n).expect("dequantize"))
}

#[test]
fn f32_passes_through() {
    let bytes: Vec<u8> = [1.0f32, -2.5, 0.0]
        .iter()
        .flat_map(|v| v.to_le_bytes())
        .collect();
    let out = expanded(GgmlType::F32, &bytes, 3);
    assert_eq!(out, vec![1.0, -2.5, 0.0]);
}

#[test]
fn f16_and_bf16_expand() {
    let out = expanded(GgmlType::F16, &[0x00, 0x3C, 0x00, 0xC0], 2);
    assert_eq!(out, vec![1.0, -2.0]);
    let out = expanded(GgmlType::BF16, &[0x80, 0x3F], 1);
    assert_eq!(out, vec![1.0]);
}

#[test]
fn wrong_byte_count_is_an_error() {
    let err = dequantize_to_vec(GgmlType::F32, &[0, 0, 0], 1).unwrap_err();
    assert_eq!(err.kind(), ErrorKind::InvalidData);
    let err = dequantize_to_vec(GgmlType::Other(99), &[], 0).unwrap_err();
    assert_eq!(err.kind(), ErrorKind::Unsupported);
}

#[test]
fn a_refused_row_is_left_alone() {
    let mut out = [Element::Exact { bits: 7 }; 2];
    assert!(dequantize(GgmlType::F32, &[0; 4], &mut out).is_err());
    assert_eq!(out, [Element::Exact { bits: 7 }; 2]);
    dequantize(GgmlType::F32, &[0; 8], &mut out).expect("two zeros");
    assert_eq!(out, [ZERO; 2]);
}

fn dequantize_tensor(builder: &Builder, name: &str) -> Vec<f32> {
    let bytes = builder.build();
    let model = Gguf::open(&bytes).expect("open");
    let tensor = model.tensor(name).expect("tensor present");
    let bytes = model.tensor_bytes(tensor).expect("tensor bytes");
    expanded(tensor.ty, bytes, tensor.elements() as usize)
}

/// Quantize to Q8_0 the way the reference does: one f16 scale per 32 values,
/// chosen so the largest magnitude maps to 127.
fn quantize_q8_0(values: &[f32]) -> (Vec<u8>, Vec<f32>) {
    let mut bytes = Vec::new();
    let mut scales = Vec::new();
    for block in values.chunks(32) {
        let max = block.iter().fold(0.0f32, |acc, v| acc.max(v.abs()));
        let scale = max / 127.0;
        // Round-trip the scale through f16, since that is what gets stored.
        let stored = half_bits(scale);
        let scale = f16(stored);
        scales.push(scale);
        bytes.extend_from_slice(&stored.to_le_bytes());
        for value in block {
            let q = if scale == 0.0 {
                0
            } else {
                (value / scale).round().clamp(-127.0, 127.0) as i8
            };
            bytes.push(q as u8);
        }
    }
    (bytes, scales)
}

/// f32 to the nearest f16 bit pattern. Only handles the normal range, which is
/// all a scale ever needs.
fn half_bits(value: f32) -> u16 {
    if value == 0.0 {
        return 0;
    }
    let bits = value.to_bits();
    let sign = ((bits >> 16) & 0x8000) as u16;
    let exponent = ((bits >> 23) & 0xFF) as i32 - 127 + 15;
    assert!(
        (1..=30).contains(&exponent),
        "test helper only covers normal f16 values"
    );
    let mantissa = ((bits >> 13) & 0x3FF) as u16;
    sign | ((exponent as u16) << 10) | mantissa
}

#[test]
fn f32_tensor_survives_the_file() {
    let values: Vec<f32> = (0..64).map(|i| i as f32 * 0.25 - 8.0).collect();
    let bytes: Vec<u8> = values.iter().flat_map(|v| v.to_le_bytes()).collect();
    let file = Builder::new().tensor("w", &[64], GgmlType::F32, bytes);

    assert_eq!(dequantize_tensor(&file, "w"), values);
}

#[test]
fn q8_0_round_trips_within_half_a_step() {
    let values: Vec<f32> = (0..128).map(|i| (i as f32 * 0.37).sin() * 3.0).collect();
    let (bytes, scales) = quantize_q8_0(&values);
    let file = Builder::new().tensor("w", &[128], GgmlType::Q8_0, bytes);

    let out = dequantize_tensor(&file, "w");
    assert_eq!(out.len(), values.len());
    for (index, (original, restored)) in values.iter().zip(&out).enumerate() {
        // Nothing can be off by more than half a quantization step.
        let tolerance = scales[index / 32] / 2.0 + f32::EPSILON;
        assert!(
            (original - restored).abs() <= tolerance,
            "element {index}: {original} -> {restored}, tolerance {tolerance}"
        );
    }
}

#[test]
fn k_quant_tensor_matches_a_direct_block_expansion() {
    // One Q4_K super-block with recognizable contents.
    let mut block = Vec::with_capacity(144);
    block.extend_from_slice(&0x3C00u16.to_le_bytes()); // d = 1.0
    block.extend_from_slice(&0x3800u16.to_le_bytes()); // dmin = 0.5
    block.extend_from_slice(&[1, 2, 3, 4, 5, 6, 7, 8, 9, 10, 11, 12]);
    block.extend((0..128).map(|i| (i % 251) as u8));

    let file = Builder::new().tensor("w", &[256], GgmlType::Q4_K, block.clone());

    let from_file = dequantize_tensor(&file, "w");
    let direct = block_of(k::q4_k, &block, 256);

    assert_eq!(from_file, direct.to_vec());
    // Sanity: a real super-block is not all zeros.
    assert!(direct.iter().any(|v| *v != 0.0));
}

#[test]
fn unsupported_types_are_reported_not_guessed() {
    let err = dequantize_to_vec(GgmlType::Q2_K, &[0; 84], 256).unwrap_err();
    assert_eq!(err.kind(), ErrorKind::Unsupported);
    assert!(err.message().contains("Q2_K"), "{}", err.message());
}

// ------------------------------------------------------------------------- dots

/// The property the fused kernels exist for: fusing must not change a single
/// bit relative to dequantize-then-dot.
fn assert_identical(ty: GgmlType, blocks: usize) {
    let (block, size) = ty.layout().expect("sized type");
    let elements = blocks * block as usize;
    let row = pattern(blocks * size as usize);
    let x = activations(elements);

    let reference = plain_dot(&expanded(ty, &row, elements), &x);
    let steps = dot::fused(ty, &row, x.len()).expect("fused kernel exists");
    let got = accumulate(&steps, &x);

    assert_eq!(got.to_bits(), reference.to_bits(), "{}: fused {got} != reference {reference}", ty.name());
    assert_eq!(steps, dot::reference(&dequantize_to_vec(ty, &row, elements).unwrap()));
}

#[test]
fn q8_0_matches_the_reference_exactly() {
    assert_identical(GgmlType::Q8_0, 1);
    assert_identical(GgmlType::Q8_0, 7);
}

#[test]
fn q4_0_matches_the_reference_exactly() {
    assert_identical(GgmlType::Q4_0, 1);
    assert_identical(GgmlType::Q4_0, 5);
}

#[test]
fn q4_k_matches_the_reference_exactly() {
    assert_identical(GgmlType::Q4_K, 1);
    assert_identical(GgmlType::Q4_K, 3);
}

#[test]
fn q5_k_matches_the_reference_exactly() {
    assert_identical(GgmlType::Q5_K, 1);
    assert_identical(GgmlType::Q5_K, 3);
}

#[test]
fn q6_k_matches_the_reference_exactly() {
    assert_identical(GgmlType::Q6_K, 1);
    assert_identical(GgmlType::Q6_K, 3);
}

#[test]
fn f32_matches_the_reference_exactly() {
    assert_identical(GgmlType::F32, 64);
}

#[test]
fn unfused_types_report_themselves() {
    assert!(dot::fused(GgmlType::F16, &[0; 2], 1).is_none());
    assert!(dot::fused(GgmlType::Q2_K, &[0; 84], 256).is_none());
}

#[test]
fn the_kernels_by_name_are_the_fused_ones() {
    let cases: [(GgmlType, fn(&[u8], usize) -> Vec<Step>); 6] = [
        (GgmlType::F32, dot::f32_row),
        (GgmlType::Q8_0, dot::q8_0),
        (GgmlType::Q4_0, dot::q4_0),
        (GgmlType::Q4_K, dot::q4_k),
        (GgmlType::Q5_K, dot::q5_k),
        (GgmlType::Q6_K, dot::q6_k),
    ];
    for (ty, kernel) in cases {
        assert!(dot::exists_for(ty));
        let bytes = row(ty, 2);
        let n = 2 * ty.layout().unwrap().0 as usize;
        assert_eq!(Some(kernel(&bytes, n)), dot::fused(ty, &bytes, n));
    }
    assert!(!dot::exists_for(GgmlType::F16));
}

#[test]
fn fusion_is_selected_by_type() {
    for ty in [GgmlType::F32, GgmlType::Q8_0, GgmlType::Q4_0, GgmlType::Q5_K, GgmlType::Q6_K] {
        assert!(dot::supports(ty), "{}", ty.name());
    }
    assert!(!dot::supports(GgmlType::Q4_K), "measured slower than expanding first");
    assert!(!dot::supports(GgmlType::F16));
}

#[test]
fn only_the_plain_dot_has_a_tail() {
    let elements = vec![Element::Exact { bits: 1.0f32.to_bits() }; 6];
    let lanes: Vec<usize> = dot::reference(&elements).iter().map(|s| s.lane).collect();
    assert_eq!(lanes, vec![0, 1, 2, 3, TAIL, TAIL]);
    let row: Vec<u8> = (0..6).flat_map(|_| 1.0f32.to_le_bytes()).collect();
    let lanes: Vec<usize> = dot::f32_row(&row, 6).iter().map(|s| s.lane).collect();
    assert_eq!(lanes, vec![0, 1, 2, 3, 0, 1]);
}

// ------------------------------------------------------------------ activations

fn sample(len: usize) -> Vec<f32> {
    (0..len).map(|i| ((i as f32) * 0.37).sin() * 3.0 + 0.1).collect()
}

#[test]
fn every_element_lands_within_half_a_step() {
    let x = sample(128);
    let mut q = Quantized::with_capacity(x.len());
    fill(&mut q, &x);

    for (index, values) in x.chunks_exact(BLOCK).enumerate() {
        let (quants, step, _) = q.block(index);
        let scale = float(step);
        for (original, quant) in values.iter().zip(quants) {
            let restored = *quant as f32 * scale;
            assert!(
                (original - restored).abs() <= scale / 2.0 + 1e-6,
                "block {index}: {original} -> {restored}, step {scale}"
            );
        }
    }
}

#[test]
fn the_extreme_maps_to_the_extreme() {
    // The largest magnitude in a block should use the full int8 range,
    // otherwise precision is being left on the table.
    let mut x = vec![0.1; BLOCK];
    x[7] = -5.0;
    let mut q = Quantized::with_capacity(x.len());
    fill(&mut q, &x);
    let (quants, step, _) = q.block(0);
    let scale = float(step);
    assert_eq!(quants[7], -127);
    assert!((scale - 5.0 / 127.0).abs() < 1e-9);
}

#[test]
fn sums_match_the_quants() {
    let x = sample(96);
    let mut q = Quantized::with_capacity(x.len());
    fill(&mut q, &x);
    for index in 0..3 {
        let (quants, _, sum) = q.block(index);
        let expected: i32 = quants.iter().map(|v| *v as i32).sum();
        assert_eq!(sum, expected);
    }
}

#[test]
fn an_all_zero_block_does_not_divide_by_zero() {
    let mut q = Quantized::with_capacity(BLOCK);
    fill(&mut q, &[0.0; BLOCK]);
    let (quants, step, sum) = q.block(0);
    let scale = float(step);
    assert_eq!(scale, 0.0);
    assert_eq!(sum, 0);
    assert!(quants.iter().all(|v| *v == 0));
}

#[test]
fn refilling_reuses_the_buffers() {
    let mut q = Quantized::with_capacity(BLOCK);
    fill(&mut q, &sample(BLOCK));
    let first = q.quants.as_ptr();
    fill(&mut q, &sample(BLOCK));
    assert_eq!(q.quants.as_ptr(), first, "should not reallocate");
    assert_eq!(q.len(), BLOCK);
}

#[test]
fn a_longer_vector_grows_the_buffers() {
    let mut q = Quantized::with_capacity(BLOCK);
    fill(&mut q, &sample(BLOCK * 4));
    assert_eq!(q.len(), BLOCK * 4);
    assert_eq!(q.scales.len(), 4);
    assert_eq!(q.sums.len(), 4);
}

#[test]
fn a_maximum_that_rounds_up_is_clamped() {
    let mut q = Quantized::with_capacity(BLOCK);
    let mut rounded = [0; BLOCK];
    rounded[0] = 128;
    rounded[1] = -128;
    q.fill(&rounded, &[1.0f32.to_bits()]);
    assert_eq!(&q.block(0).0[..2], &[127, -127]);
    assert!(Quantized::with_capacity(0).is_empty());
    assert!(!q.is_empty());
}

// ----------------------------------------------------------------- integer dots

/// Relative error of the integer path against the exact dot.
fn relative_error(ty: GgmlType, blocks: usize) -> f32 {
    let (block, _) = ty.layout().expect("sized type");
    let elements = blocks * block as usize;
    let row = row(ty, blocks);
    let x = activations(elements);

    let weights = expanded(ty, &row, elements);
    assert!(weights.iter().all(|v| v.is_finite()), "bad fixture");
    let exact = plain_dot(&weights, &x);

    let mut quantized = Quantized::with_capacity(elements);
    fill(&mut quantized, &x);
    let got = total(&idot::integer(ty, &row, &quantized).expect("integer kernel exists"));

    let magnitude = weights
        .iter()
        .zip(&x)
        .map(|(w, a)| (w * a).abs())
        .sum::<f32>()
        .max(f32::MIN_POSITIVE);
    (got - exact).abs() / magnitude
}

#[test]
fn q8_0_stays_close_to_the_exact_dot() {
    for blocks in [1, 4, 16] {
        let error = relative_error(GgmlType::Q8_0, blocks);
        assert!(error < 5e-3, "{blocks} blocks: relative error {error}");
    }
}

#[test]
fn q4_0_stays_close_to_the_exact_dot() {
    for blocks in [1, 4, 16] {
        let error = relative_error(GgmlType::Q4_0, blocks);
        assert!(error < 5e-3, "{blocks} blocks: relative error {error}");
    }
}

#[test]
fn q4_k_stays_close_to_the_exact_dot() {
    for blocks in [1, 2, 8] {
        let error = relative_error(GgmlType::Q4_K, blocks);
        assert!(error < 5e-3, "{blocks} blocks: relative error {error}");
    }
}

#[test]
fn losslessly_quantizable_activations_are_reproduced_exactly() {
    let weights = row(GgmlType::Q8_0, 1);
    // -127, -119, ..., 121: max magnitude 127, so the step is exactly 1.
    let x: Vec<f32> = (0..32).map(|i| (i as f32) * 8.0 - 127.0).collect();

    let mut quantized = Quantized::with_capacity(32);
    fill(&mut quantized, &x);
    assert_eq!(float(quantized.scales[0]), 1.0, "step should be exactly one");
    assert_eq!(quantized.quants[0], -127);

    let expanded = self::expanded(GgmlType::Q8_0, &weights, 32);
    let exact = plain_dot(&expanded, &x);
    let got = total(&idot::q8_0(&weights, &quantized));

    assert!(
        (got - exact).abs() / exact.abs().max(1.0) < 1e-5,
        "got {got}, exact {exact}"
    );
}

#[test]
fn zero_activations_give_zero() {
    let mut quantized = Quantized::with_capacity(256);
    fill(&mut quantized, &[0.0; 256]);
    assert_eq!(total(&idot::q4_k(&row(GgmlType::Q4_K, 1), &quantized)), 0.0);
    assert_eq!(total(&idot::q8_0(&row(GgmlType::Q8_0, 8), &quantized)), 0.0);
}

#[test]
fn types_without_an_integer_kernel_report_themselves() {
    assert!(idot::supports(GgmlType::Q4_K));
    assert!(!idot::supports(GgmlType::Q6_K));
    assert!(!idot::supports(GgmlType::F32));
    let quantized = Quantized::with_capacity(256);
    assert!(idot::integer(GgmlType::Q6_K, &row(GgmlType::Q6_K, 1), &quantized).is_none());
}

/// Same products, any order, same integer total: the regrouped kernels agree
/// with the plain ones exactly.
fn assert_matches_scalar(ty: GgmlType, blocks: usize) {
    let (block, _) = ty.layout().expect("sized type");
    let elements = blocks * block as usize;
    let weights = row(ty, blocks);

    let mut quantized = Quantized::with_capacity(elements);
    fill(&mut quantized, &activations(elements));

    let (scalar, vector) = match ty {
        GgmlType::Q8_0 => (idot::q8_0(&weights, &quantized), avx2::q8_0(&weights, &quantized)),
        GgmlType::Q4_K => (idot::q4_k(&weights, &quantized), avx2::q4_k(&weights, &quantized)),
        other => panic!("no scalar kernel for {}", other.name()),
    };
    assert_eq!(vector, scalar);
    assert_eq!(total(&vector).to_bits(), total(&scalar).to_bits(), "{}", ty.name());
}

#[test]
fn q8_0_matches_the_scalar_kernel_exactly() {
    assert_matches_scalar(GgmlType::Q8_0, 1);
    assert_matches_scalar(GgmlType::Q8_0, 9);
}

#[test]
fn q4_k_matches_the_scalar_kernel_exactly() {
    assert_matches_scalar(GgmlType::Q4_K, 1);
    assert_matches_scalar(GgmlType::Q4_K, 5);
}

#[test]
fn the_integer_dot_is_the_sum_of_products() {
    let mut q = Quantized::with_capacity(BLOCK);
    let rounded: Vec<i32> = (0..32).map(|i| i - 16).collect();
    q.fill(&rounded, &[0.5f32.to_bits()]);
    let mut block = ONE.to_vec();
    block.extend((0..32).map(|i| (i as i8 - 10) as u8));
    let expected: i32 = (0..32).map(|i| (i - 16) * (i - 10)).sum();
    assert_eq!(
        idot::q8_0(&block, &q),
        vec![Term::Plain { d: 1.0f32.to_bits(), step: 0.5f32.to_bits(), dot: expected }]
    );
}

#[test]
fn expanding_is_announced_before_it_is_tried() {
    assert!(quant::expands(GgmlType::Q8_0, 34, 32));
    assert!(!quant::expands(GgmlType::Q8_0, 34, 31));
    assert!(!quant::expands(GgmlType::Q8_0, 33, 32));
    assert!(!quant::expands(GgmlType::Q2_K, 84, 256));
    assert!(!quant::expands(GgmlType::Other(99), 0, 0));
}
