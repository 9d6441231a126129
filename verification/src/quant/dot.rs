//! Fused dequantize-and-dot.
//!
//! The unfused path expands a weight row into a scratch buffer and then dots
//! it. That writes the whole row to memory and reads it straight back: for a
//! 4096-wide row, 16 KB out and 16 KB in, per row, per token. Fusing the
//! expansion into the inner loop deletes both.
//!
//! A dot product of numbers that do not add associatively is a schedule: which
//! product goes into which accumulator, in which order. Every kernel here
//! accumulates into the same four lanes, in the same index order, as the
//! unfused dot. Equal schedules give results that are equal to the last bit,
//! and that the schedules are equal is proved below.

use vstd::arithmetic::div_mod::lemma_fundamental_div_mod_converse;
use vstd::prelude::*;

use super::element::{as_signed, element_at, high_nibble, low_nibble, Element};
use super::{half, k, row_element};
use crate::gguf::GgmlType;
use crate::le::{lemma_spans, read_le};
use crate::value::layout_of;

verus! {

/// The accumulator for elements behind the last group of four.
pub const TAIL: usize = 4;

/// One multiply-accumulate: the element times the activation at `at` goes into
/// the lane.
#[derive(Clone, Copy, Debug, PartialEq, Eq, Structural)]
pub struct Step {
    pub lane: usize,
    pub element: Element,
    pub at: usize,
}

/// Whether a fused kernel exists for a type.
pub open spec fn has_kernel(ty: GgmlType) -> bool {
    match ty {
        GgmlType::F32
        | GgmlType::Q8_0
        | GgmlType::Q4_0
        | GgmlType::Q4_K
        | GgmlType::Q5_K
        | GgmlType::Q6_K => true,
        _ => false,
    }
}

/// The schedule of a fused kernel over the first `n` elements of a row: lanes
/// go round in index order.
pub open spec fn fused_schedule(ty: GgmlType, row: Seq<u8>, n: nat) -> Seq<Step> {
    Seq::new(n, |i: int| Step { lane: (i % 4) as usize, element: row_element(ty, row, i), at: i as usize })
}

/// The schedule of the unfused dot: whole groups of four go round the lanes,
/// and what is left over goes into the tail.
pub open spec fn reference_schedule(elements: Seq<Element>) -> Seq<Step> {
    Seq::new(
        elements.len(),
        |i: int|
            Step {
                lane: if i < elements.len() - elements.len() % 4 {
                    (i % 4) as usize
                } else {
                    TAIL
                },
                element: elements[i],
                at: i as usize,
            },
    )
}

/// How many elements a kernel covers: the whole blocks that both the row and
/// the activations have.
pub open spec fn covered(ty: GgmlType, row_len: nat, x_len: nat) -> nat {
    let (block, size) = layout_of(ty)->Some_0;
    let in_row = row_len / size as nat;
    let in_x = x_len / block as nat;
    (if in_row < in_x { in_row } else { in_x }) * block as nat
}

/// Fusing changes nothing: over whole groups of four the fused kernel's
/// schedule is that of expanding the row first.
pub proof fn lemma_fused_is_reference(ty: GgmlType, row: Seq<u8>, n: nat)
    requires
        n % 4 == 0,
    ensures
        fused_schedule(ty, row, n) == reference_schedule(Seq::new(n, |i: int| row_element(ty, row, i))),
{
    assert(fused_schedule(ty, row, n) =~= reference_schedule(Seq::new(n, |i: int| row_element(ty, row, i))));
}

/// A kernel always covers whole blocks, and but for plain numbers whole groups
/// of four.
pub proof fn lemma_covered(ty: GgmlType, row_len: nat, x_len: nat)
    requires
        has_kernel(ty),
    ensures
        covered(ty, row_len, x_len) <= x_len,
        ty != GgmlType::F32 ==> covered(ty, row_len, x_len) % 4 == 0,
{
    let (block, size) = layout_of(ty)->Some_0;
    let in_row = row_len / size as nat;
    let in_x = x_len / block as nat;
    let blocks = if in_row < in_x { in_row } else { in_x };
    vstd::arithmetic::div_mod::lemma_fundamental_div_mod(x_len as int, block as int);
    assert(blocks * block <= in_x * block) by (nonlinear_arith)
        requires
            blocks <= in_x,
            block >= 0,
    ;
    assert(in_x * block == block * in_x) by (nonlinear_arith);
    if ty != GgmlType::F32 {
        assert(block == 32 || block == 256);
        assert((blocks * block) % 4 == 0) by {
            if block == 32 {
                assert(blocks * 32 == 4 * (8 * blocks));
            } else {
                assert(blocks * 256 == 4 * (64 * blocks));
            }
        }
    }
}

/// Whether a fused kernel exists for a type.
pub fn exists_for(ty: GgmlType) -> (yes: bool)
    ensures
        yes == has_kernel(ty),
{
    matches!(
        ty,
        GgmlType::F32 | GgmlType::Q8_0 | GgmlType::Q4_0 | GgmlType::Q4_K | GgmlType::Q5_K | GgmlType::Q6_K
    )
}

/// Whether the fused kernel is worth selecting. For `Q4_K` it measures slower
/// than expanding the row first, so it exists and is not chosen.
pub open spec fn chosen(ty: GgmlType) -> bool {
    has_kernel(ty) && ty != GgmlType::Q4_K
}

/// Whether the fused kernel is selected for a type, so callers can skip
/// allocating the scratch row they would only need for the fallback.
pub fn supports(ty: GgmlType) -> (yes: bool)
    ensures
        yes == chosen(ty),
{
    matches!(ty, GgmlType::F32 | GgmlType::Q8_0 | GgmlType::Q4_0 | GgmlType::Q5_K | GgmlType::Q6_K)
}

/// The steps of one block whose first element is number `base`, in index order.
pub open spec fn block_steps(ty: GgmlType, block: Seq<u8>, base: int, n: nat) -> Seq<Step> {
    Seq::new(
        n,
        |i: int| Step { lane: ((base + i) % 4) as usize, element: element_at(ty, block, i), at: (base + i) as usize },
    )
}

fn push_step(out: &mut Vec<Step>, ty: GgmlType, Ghost(block): Ghost<Seq<u8>>, base: usize, i: usize, element: Element)
    requires
        base + i <= usize::MAX,
        element == element_at(ty, block, i as int),
    ensures
        forall|start: Seq<Step>| #[trigger]
            (start + block_steps(ty, block, base as int, i as nat)) == old(out)@ ==> final(out)@ == start + block_steps(
                ty,
                block,
                base as int,
                (i + 1) as nat,
            ),
{
    let at: usize = base + i;
    out.push(Step { lane: at % 4, element, at });
    proof {
        assert forall|start: Seq<Step>| #[trigger]
            (start + block_steps(ty, block, base as int, i as nat)) == old(out)@ implies out@ == start + block_steps(
            ty,
            block,
            base as int,
            (i + 1) as nat,
        ) by {
            assert(out@ =~= start + block_steps(ty, block, base as int, (i + 1) as nat));
        }
    }
}

fn f32_block(block: &[u8], base: usize, out: &mut Vec<Step>)
    requires
        block@.len() == 4,
        base < usize::MAX,
    ensures
        final(out)@ == old(out)@ + block_steps(GgmlType::F32, block@, base as int, 1),
{
    proof {
        lemma_spans();
        assert(block@.take(4) =~= block@);
        assert(old(out)@ + block_steps(GgmlType::F32, block@, base as int, 0) =~= old(out)@);
    }
    let element = Element::Exact { bits: read_le(block) as u32 };
    push_step(out, GgmlType::F32, Ghost(block@), base, 0, element);
}

fn q8_0_block(block: &[u8], base: usize, out: &mut Vec<Step>)
    requires
        block@.len() == 34,
        base + 32 <= usize::MAX,
    ensures
        final(out)@ == old(out)@ + block_steps(GgmlType::Q8_0, block@, base as int, 32),
{
    let d: u32 = half::read_f16(block);
    let mut i: usize = 0;
    proof {
        assert(old(out)@ + block_steps(GgmlType::Q8_0, block@, base as int, 0) =~= old(out)@);
    }
    while i < 32
        invariant
            i <= 32,
            block@.len() == 34,
            base + 32 <= usize::MAX,
            d == half::half_at(block@),
            out@ == old(out)@ + block_steps(GgmlType::Q8_0, block@, base as int, i as nat),
        decreases 32 - i,
    {
        let element = Element::Scaled { d, quant: as_signed(block[2 + i]) };
        push_step(out, GgmlType::Q8_0, Ghost(block@), base, i, element);
        i += 1;
    }
}

fn q4_0_block(block: &[u8], base: usize, out: &mut Vec<Step>)
    requires
        block@.len() == 18,
        base + 32 <= usize::MAX,
    ensures
        final(out)@ == old(out)@ + block_steps(GgmlType::Q4_0, block@, base as int, 32),
{
    let d: u32 = half::read_f16(block);
    let mut i: usize = 0;
    proof {
        assert(old(out)@ + block_steps(GgmlType::Q4_0, block@, base as int, 0) =~= old(out)@);
    }
    // Element j is the low nibble of byte j; element j + 16 is the high nibble.
    // Walking indices in order means two passes over the same bytes.
    while i < 16
        invariant
            i <= 16,
            block@.len() == 18,
            base + 32 <= usize::MAX,
            d == half::half_at(block@),
            out@ == old(out)@ + block_steps(GgmlType::Q4_0, block@, base as int, i as nat),
        decreases 16 - i,
    {
        let byte: u8 = block[2 + i];
        assert(block@.subrange(2, 18)[i as int] == byte);
        let element = Element::Scaled { d, quant: low_nibble(byte) as i8 - 8 };
        push_step(out, GgmlType::Q4_0, Ghost(block@), base, i, element);
        i += 1;
    }
    while i < 32
        invariant
            16 <= i <= 32,
            block@.len() == 18,
            base + 32 <= usize::MAX,
            d == half::half_at(block@),
            out@ == old(out)@ + block_steps(GgmlType::Q4_0, block@, base as int, i as nat),
        decreases 32 - i,
    {
        let byte: u8 = block[2 + (i - 16)];
        assert(block@.subrange(2, 18)[i - 16] == byte);
        let element = Element::Scaled { d, quant: high_nibble(byte) as i8 - 8 };
        push_step(out, GgmlType::Q4_0, Ghost(block@), base, i, element);
        i += 1;
    }
}

fn q4_k_block(block: &[u8], base: usize, out: &mut Vec<Step>)
    requires
        block@.len() == 144,
        base + 256 <= usize::MAX,
    ensures
        final(out)@ == old(out)@ + block_steps(GgmlType::Q4_K, block@, base as int, 256),
{
    let (d, dmin, scales) = k::header(block);
    let mut sub: usize = 0;
    proof {
        assert(old(out)@ + block_steps(GgmlType::Q4_K, block@, base as int, 0) =~= old(out)@);
    }
    while sub < 8
        invariant
            sub <= 8,
            block@.len() == 144,
            base + 256 <= usize::MAX,
            d == half::half_at(block@),
            dmin == half::half_at(block@.skip(2)),
            scales@ == block@.subrange(4, 16),
            out@ == old(out)@ + block_steps(GgmlType::Q4_K, block@, base as int, (32 * sub) as nat),
        decreases 8 - sub,
    {
        let shared = k::scale_min(sub, scales);
        let mut l: usize = 0;
        while l < 32
            invariant
                sub < 8,
                l <= 32,
                block@.len() == 144,
                base + 256 <= usize::MAX,
                d == half::half_at(block@),
                dmin == half::half_at(block@.skip(2)),
                shared.0 == super::element::sub_scale(sub as int, block@.subrange(4, 16)),
                shared.1 == super::element::sub_min(sub as int, block@.subrange(4, 16)),
                out@ == old(out)@ + block_steps(GgmlType::Q4_K, block@, base as int, (32 * sub + l) as nat),
            decreases 32 - l,
        {
            let element = k::q4_element(block, sub, l, d, dmin, shared);
            push_step(out, GgmlType::Q4_K, Ghost(block@), base, 32 * sub + l, element);
            l += 1;
        }
        sub += 1;
    }
}

fn q5_k_block(block: &[u8], base: usize, out: &mut Vec<Step>)
    requires
        block@.len() == 176,
        base + 256 <= usize::MAX,
    ensures
        final(out)@ == old(out)@ + block_steps(GgmlType::Q5_K, block@, base as int, 256),
{
    let (d, dmin, scales) = k::header(block);
    let mut sub: usize = 0;
    proof {
        assert(old(out)@ + block_steps(GgmlType::Q5_K, block@, base as int, 0) =~= old(out)@);
    }
    while sub < 8
        invariant
            sub <= 8,
            block@.len() == 176,
            base + 256 <= usize::MAX,
            d == half::half_at(block@),
            dmin == half::half_at(block@.skip(2)),
            scales@ == block@.subrange(4, 16),
            out@ == old(out)@ + block_steps(GgmlType::Q5_K, block@, base as int, (32 * sub) as nat),
        decreases 8 - sub,
    {
        let shared = k::scale_min(sub, scales);
        let mut l: usize = 0;
        while l < 32
            invariant
                sub < 8,
                l <= 32,
                block@.len() == 176,
                base + 256 <= usize::MAX,
                d == half::half_at(block@),
                dmin == half::half_at(block@.skip(2)),
                shared.0 == super::element::sub_scale(sub as int, block@.subrange(4, 16)),
                shared.1 == super::element::sub_min(sub as int, block@.subrange(4, 16)),
                out@ == old(out)@ + block_steps(GgmlType::Q5_K, block@, base as int, (32 * sub + l) as nat),
            decreases 32 - l,
        {
            let element = k::q5_element(block, sub, l, d, dmin, shared);
            push_step(out, GgmlType::Q5_K, Ghost(block@), base, 32 * sub + l, element);
            l += 1;
        }
        sub += 1;
    }
}

fn q6_k_block(block: &[u8], base: usize, out: &mut Vec<Step>)
    requires
        block@.len() == 210,
        base + 256 <= usize::MAX,
    ensures
        final(out)@ == old(out)@ + block_steps(GgmlType::Q6_K, block@, base as int, 256),
{
    let tail = vstd::slice::slice_subrange(block, 208, block.len());
    assert(tail@ =~= block@.skip(208));
    let d: u32 = half::read_f16(tail);
    let mut part: usize = 0;
    proof {
        assert(old(out)@ + block_steps(GgmlType::Q6_K, block@, base as int, 0) =~= old(out)@);
    }
    // Quads run in index order, which is what keeps the lane assignment
    // matching the unfused loop.
    while part < 8
        invariant
            part <= 8,
            block@.len() == 210,
            base + 256 <= usize::MAX,
            d == half::half_at(block@.skip(208)),
            out@ == old(out)@ + block_steps(GgmlType::Q6_K, block@, base as int, (32 * part) as nat),
        decreases 8 - part,
    {
        let mut l: usize = 0;
        while l < 32
            invariant
                part < 8,
                l <= 32,
                block@.len() == 210,
                base + 256 <= usize::MAX,
                d == half::half_at(block@.skip(208)),
                out@ == old(out)@ + block_steps(GgmlType::Q6_K, block@, base as int, (32 * part + l) as nat),
            decreases 32 - l,
        {
            let (quant, factor) = k::q6_part(block, part / 4, part % 4, l);
            let element = Element::Centred { d, factor, quant };
            assert(128 * (part as int / 4) + 32 * (part as int % 4) + l == 32 * part + l);
            push_step(out, GgmlType::Q6_K, Ghost(block@), base, 32 * part + l, element);
            l += 1;
        }
        part += 1;
    }
}

/// Runs a kernel over all blocks that both the row and the activations have.
fn run(ty: GgmlType, row: &[u8], x_len: usize) -> (steps: Vec<Step>)
    requires
        has_kernel(ty),
    ensures
        steps@ == fused_schedule(ty, row@, covered(ty, row@.len(), x_len as nat)),
{
    let (block, size) = match ty.layout() {
        Some(layout) => layout,
        None => (1, 1),
    };
    let width: usize = block as usize;
    let stride: usize = size as usize;
    let in_row: usize = row.len() / stride;
    let in_x: usize = x_len / width;
    let blocks: usize = if in_row < in_x { in_row } else { in_x };
    let n: usize = row.len();
    proof {
        lemma_covered(ty, row@.len(), x_len as nat);
        vstd::arithmetic::div_mod::lemma_fundamental_div_mod(n as int, stride as int);
        assert(blocks * stride <= n) by (nonlinear_arith)
            requires
                blocks <= in_row,
                stride * in_row + n % stride == n,
                n % stride >= 0,
                stride > 0,
        ;
    }
    let mut steps: Vec<Step> = Vec::new();
    let mut b: usize = 0;
    let mut at: usize = 0;
    let mut pos: usize = 0;
    proof {
        assert(steps@ =~= fused_schedule(ty, row@, 0));
    }
    while b < blocks
        invariant
            has_kernel(ty),
            layout_of(ty) == Some((block, size)),
            width == block,
            stride == size,
            b <= blocks,
            n == row@.len(),
            blocks * width <= x_len,
            blocks * stride <= n,
            at == b * width,
            pos == b * stride,
            steps@ == fused_schedule(ty, row@, at as nat),
        decreases blocks - b,
    {
        proof {
            assert((b + 1) * width == b * width + width) by (nonlinear_arith);
            assert((b + 1) * stride == b * stride + stride) by (nonlinear_arith);
            assert((b + 1) * width <= blocks * width) by (nonlinear_arith)
                requires
                    b + 1 <= blocks,
            ;
            assert((b + 1) * stride <= blocks * stride) by (nonlinear_arith)
                requires
                    b + 1 <= blocks,
            ;
        }
        let chunk = vstd::slice::slice_subrange(row, pos, pos + stride);
        match ty {
            GgmlType::F32 => f32_block(chunk, at, &mut steps),
            GgmlType::Q8_0 => q8_0_block(chunk, at, &mut steps),
            GgmlType::Q4_0 => q4_0_block(chunk, at, &mut steps),
            GgmlType::Q4_K => q4_k_block(chunk, at, &mut steps),
            GgmlType::Q5_K => q5_k_block(chunk, at, &mut steps),
            _ => q6_k_block(chunk, at, &mut steps),
        }
        proof {
            let after = fused_schedule(ty, row@, (at + width) as nat);
            assert forall|i: int| 0 <= i < at + width implies #[trigger] after[i] == steps@[i] by {
                if i >= at {
                    lemma_fundamental_div_mod_converse(i, block as int, b as int, i - at);
                }
            }
            assert(steps@ =~= after);
        }
        at = at + width;
        pos = pos + stride;
        b += 1;
    }
    steps
}

/// The schedule for dotting one weight row, still quantized, against `x_len`
/// activations.
///
/// `None` for types without a fused kernel; the caller falls back to expanding
/// the row, which is slower but never wrong.
pub fn fused(ty: GgmlType, row: &[u8], x_len: usize) -> (steps: Option<Vec<Step>>)
    ensures
        match steps {
            Some(s) => has_kernel(ty) && s@ == fused_schedule(ty, row@, covered(ty, row@.len(), x_len as nat)),
            None => !has_kernel(ty),
        },
{
    if exists_for(ty) {
        Some(run(ty, row, x_len))
    } else {
        None
    }
}

/// Plain numbers.
pub fn f32_row(row: &[u8], x_len: usize) -> (steps: Vec<Step>)
    ensures
        steps@ == fused_schedule(GgmlType::F32, row@, covered(GgmlType::F32, row@.len(), x_len as nat)),
{
    run(GgmlType::F32, row, x_len)
}

/// `Q8_0` rows.
pub fn q8_0(row: &[u8], x_len: usize) -> (steps: Vec<Step>)
    ensures
        steps@ == fused_schedule(GgmlType::Q8_0, row@, covered(GgmlType::Q8_0, row@.len(), x_len as nat)),
{
    run(GgmlType::Q8_0, row, x_len)
}

/// `Q4_0` rows.
pub fn q4_0(row: &[u8], x_len: usize) -> (steps: Vec<Step>)
    ensures
        steps@ == fused_schedule(GgmlType::Q4_0, row@, covered(GgmlType::Q4_0, row@.len(), x_len as nat)),
{
    run(GgmlType::Q4_0, row, x_len)
}

/// `Q4_K` rows.
pub fn q4_k(row: &[u8], x_len: usize) -> (steps: Vec<Step>)
    ensures
        steps@ == fused_schedule(GgmlType::Q4_K, row@, covered(GgmlType::Q4_K, row@.len(), x_len as nat)),
{
    run(GgmlType::Q4_K, row, x_len)
}

/// `Q5_K` rows.
pub fn q5_k(row: &[u8], x_len: usize) -> (steps: Vec<Step>)
    ensures
        steps@ == fused_schedule(GgmlType::Q5_K, row@, covered(GgmlType::Q5_K, row@.len(), x_len as nat)),
{
    run(GgmlType::Q5_K, row, x_len)
}

/// `Q6_K` rows.
pub fn q6_k(row: &[u8], x_len: usize) -> (steps: Vec<Step>)
    ensures
        steps@ == fused_schedule(GgmlType::Q6_K, row@, covered(GgmlType::Q6_K, row@.len(), x_len as nat)),
{
    run(GgmlType::Q6_K, row, x_len)
}

/// The schedule of the plain dot product, accumulated in four lanes.
///
/// The lanes exist so the arithmetic can be vectorized: a single accumulator
/// forces a serial dependency chain.
pub fn reference(elements: &[Element]) -> (steps: Vec<Step>)
    ensures
        steps@ == reference_schedule(elements@),
{
    let n: usize = elements.len();
    let whole: usize = n - n % 4;
    let mut steps: Vec<Step> = Vec::new();
    let mut i: usize = 0;
    proof {
        assert(steps@ =~= reference_schedule(elements@).take(0));
    }
    while i < n
        invariant
            n == elements@.len(),
            whole == n - n % 4,
            i <= n,
            steps@ == reference_schedule(elements@).take(i as int),
        decreases n - i,
    {
        let lane: usize = if i < whole { i % 4 } else { TAIL };
        steps.push(Step { lane, element: elements[i], at: i });
        proof {
            assert(steps@ =~= reference_schedule(elements@).take(i + 1));
        }
        i += 1;
    }
    proof {
        assert(reference_schedule(elements@).take(n as int) =~= reference_schedule(elements@));
    }
    steps
}

} // verus!
