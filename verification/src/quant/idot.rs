//! Integer dot products against a quantized activation vector.
//!
//! Both sides stay small: weights are already 4 to 8 bits, the activation has
//! been squeezed to int8 by [`super::activation`], and the accumulation happens
//! in i32. Only the per-block scales are floating point, and there is one of
//! those per 32 elements rather than one per element.
//!
//! The arithmetic that makes this work is that every block's weight is an
//! affine function of a small integer:
//!
//! ```text
//! w[i] = d * n[i] - m          (K-quants; m is zero for Q8_0 and Q4_0)
//! x[i] ≈ s * a[i]
//!
//! Σ w[i]·x[i] ≈ s · ( d · Σ n[i]·a[i]  −  m · Σ a[i] )
//! ```
//!
//! So the inner loop is an integer multiply-accumulate, and the minimum term
//! collapses into a single multiply against the activation block sum that
//! `Quantized` already carries. A kernel gives the integers of each block, to be
//! scaled and summed in order.

use vstd::prelude::*;

use super::activation::{sum_of, Quantized};
use super::element::{as_signed, high, high_nibble, low, low_nibble, signed_byte, sub_min, sub_scale};
use super::half::{self, half_at};
use super::k;
use crate::gguf::GgmlType;

verus! {

/// What one block adds to the dot product. Products are taken from left to
/// right, each integer converted first.
#[derive(Clone, Copy, Debug, PartialEq, Eq, Structural)]
pub enum Term {
    /// `d * step * dot`.
    Plain { d: u32, step: u32, dot: i32 },
    /// `step * ((d * scale) * dot - (dmin * min) * sum)`.
    Affine { step: u32, d: u32, scale: u8, dot: i32, dmin: u32, min: u8, sum: i32 },
}

/// How a weight is read from a byte.
#[derive(Clone, Copy, Debug, PartialEq, Eq, Structural)]
pub enum Pick {
    Signed,
    Low,
    High,
}

/// The weight that a byte holds.
pub open spec fn picked(pick: Pick, byte: u8) -> int {
    match pick {
        Pick::Signed => signed_byte(byte),
        Pick::Low => low(byte),
        Pick::High => high(byte),
    }
}

/// The sum of the first `n` products of weights and activations.
pub open spec fn dot_of(pick: Pick, bytes: Seq<u8>, acts: Seq<i8>, n: nat) -> int
    decreases n,
{
    if n == 0 {
        0
    } else {
        dot_of(pick, bytes, acts, (n - 1) as nat) + picked(pick, bytes[n - 1]) * acts[n - 1]
    }
}

/// Whether every activation lies in the symmetric int8 range.
pub open spec fn symmetric(acts: Seq<i8>) -> bool {
    forall|i: int| 0 <= i < acts.len() ==> -127 <= #[trigger] acts[i] <= 127
}

/// A product of a weight and an activation is small.
pub proof fn lemma_product_small(pick: Pick, byte: u8, act: i8)
    requires
        -127 <= act <= 127,
    ensures
        -16256 <= picked(pick, byte) * act <= 16256,
{
    let w = picked(pick, byte);
    assert(-16256 <= w * act <= 16256) by (nonlinear_arith)
        requires
            -128 <= w <= 255,
            w <= 127,
            -127 <= act <= 127,
    ;
}

/// The terms of a `Q8_0` row.
pub open spec fn q8_0_terms(row: Seq<u8>, x: Quantized) -> Seq<Term> {
    Seq::new(
        row.len() / 34,
        |b: int|
            {
                let block = row.subrange(34 * b, 34 * b + 34);
                let acts = x.quants@.subrange(32 * b, 32 * b + 32);
                Term::Plain {
                    d: half_at(block) as u32,
                    step: x.scales@[b],
                    dot: dot_of(Pick::Signed, block.skip(2), acts, 32) as i32,
                }
            },
    )
}

/// The dot of a `Q4_0` block: quants are centred on 8.
pub open spec fn q4_0_dot(quants: Seq<u8>, acts: Seq<i8>) -> int {
    dot_of(Pick::Low, quants, acts.subrange(0, 16), 16) + dot_of(Pick::High, quants, acts.subrange(16, 32), 16) - 8
        * sum_of(acts, 0, 32)
}

/// The terms of a `Q4_0` row.
pub open spec fn q4_0_terms(row: Seq<u8>, x: Quantized) -> Seq<Term> {
    Seq::new(
        row.len() / 18,
        |b: int|
            {
                let block = row.subrange(18 * b, 18 * b + 18);
                let acts = x.quants@.subrange(32 * b, 32 * b + 32);
                Term::Plain {
                    d: half_at(block) as u32,
                    step: x.scales@[b],
                    dot: q4_0_dot(block.skip(2), acts) as i32,
                }
            },
    )
}

/// The term of sub-block `sub` of a `Q4_K` block whose first activation block
/// is `first`.
pub open spec fn q4_k_term(block: Seq<u8>, sub: int, x: Quantized, first: int) -> Term {
    let bytes = block.subrange(16 + (sub / 2) * 32, 48 + (sub / 2) * 32);
    let pick = if sub % 2 == 0 { Pick::Low } else { Pick::High };
    let acts = x.quants@.subrange(32 * (first + sub), 32 * (first + sub) + 32);
    Term::Affine {
        step: x.scales@[first + sub],
        d: half_at(block) as u32,
        scale: sub_scale(sub, block.subrange(4, 16)) as u8,
        dot: dot_of(pick, bytes, acts, 32) as i32,
        dmin: half_at(block.skip(2)) as u32,
        min: sub_min(sub, block.subrange(4, 16)) as u8,
        sum: x.sums@[first + sub],
    }
}

/// The terms of a `Q4_K` row.
pub open spec fn q4_k_terms(row: Seq<u8>, x: Quantized) -> Seq<Term> {
    Seq::new(
        8 * (row.len() / 144),
        |i: int| q4_k_term(row.subrange(144 * (i / 8), 144 * (i / 8) + 144), i % 8, x, 8 * (i / 8)),
    )
}

// ------------------------------------------------------------------------ laws

/// The sum of the first `n` products of affine weights and activations.
pub open spec fn affine_dot(quants: Seq<int>, acts: Seq<i8>, d: int, m: int, n: nat) -> int
    decreases n,
{
    if n == 0 {
        0
    } else {
        affine_dot(quants, acts, d, m, (n - 1) as nat) + (d * quants[n - 1] - m) * acts[n - 1]
    }
}

/// The minimum factors out: dotting affine weights is scaling one integer dot
/// and taking off the minimum times the sum of the activations.
pub proof fn lemma_minimum_factors_out(quants: Seq<int>, acts: Seq<i8>, d: int, m: int, n: nat)
    requires
        n <= acts.len(),
        n <= quants.len(),
    ensures
        affine_dot(quants, acts, d, m, n) == d * affine_dot(quants, acts, 1, 0, n) - m * sum_of(acts, 0, n),
    decreases n,
{
    if n > 0 {
        let k = (n - 1) as nat;
        lemma_minimum_factors_out(quants, acts, d, m, k);
        let q = quants[n - 1];
        let a = acts[n - 1] as int;
        let p = affine_dot(quants, acts, 1, 0, k);
        let s = sum_of(acts, 0, k);
        assert((d * q - m) * a == d * (q * a) - m * a) by (nonlinear_arith);
        assert((1 * q - 0) * a == q * a) by (nonlinear_arith);
        assert(d * (p + q * a) == d * p + d * (q * a)) by (nonlinear_arith);
        assert(m * (s + a) == m * s + m * a) by (nonlinear_arith);
    } else {
        assert(d * 0 == 0 && m * 0 == 0) by (nonlinear_arith);
    }
}

// ------------------------------------------------------------------------ exec

/// Which weight types have an integer kernel.
pub open spec fn has_integer_kernel(ty: GgmlType) -> bool {
    ty == GgmlType::Q8_0 || ty == GgmlType::Q4_0 || ty == GgmlType::Q4_K
}

/// Which weight types have an integer kernel.
pub fn supports(ty: GgmlType) -> (yes: bool)
    ensures
        yes == has_integer_kernel(ty),
{
    matches!(ty, GgmlType::Q8_0 | GgmlType::Q4_0 | GgmlType::Q4_K)
}

/// Whether an activation vector covers a row.
pub open spec fn covers(ty: GgmlType, row_len: nat, x: Quantized) -> bool {
    match ty {
        GgmlType::Q8_0 => row_len / 34 <= x.scales@.len(),
        GgmlType::Q4_0 => row_len / 18 <= x.scales@.len(),
        GgmlType::Q4_K => 8 * (row_len / 144) <= x.scales@.len(),
        _ => true,
    }
}

/// Whether an activation vector covers a row of `row_len` bytes.
pub fn is_covered(ty: GgmlType, row_len: usize, x: &Quantized) -> (yes: bool)
    ensures
        yes == covers(ty, row_len as nat, *x),
{
    let slots: usize = x.scales.len();
    match ty {
        GgmlType::Q8_0 => row_len / 34 <= slots,
        GgmlType::Q4_0 => row_len / 18 <= slots,
        GgmlType::Q4_K => row_len / 144 <= slots / 8,
        _ => true,
    }
}

/// The terms of a row of any type with an integer kernel.
pub open spec fn terms_of(ty: GgmlType, row: Seq<u8>, x: Quantized) -> Seq<Term> {
    match ty {
        GgmlType::Q8_0 => q8_0_terms(row, x),
        GgmlType::Q4_0 => q4_0_terms(row, x),
        _ => q4_k_terms(row, x),
    }
}

/// Dots one quantized weight row against a quantized activation vector.
pub fn integer(ty: GgmlType, row: &[u8], x: &Quantized) -> (terms: Option<Vec<Term>>)
    requires
        x.wf(),
        covers(ty, row@.len(), *x),
    ensures
        match terms {
            Some(t) => has_integer_kernel(ty) && t@ == terms_of(ty, row@, *x),
            None => !has_integer_kernel(ty),
        },
{
    match ty {
        GgmlType::Q8_0 => Some(q8_0(row, x)),
        GgmlType::Q4_0 => Some(q4_0(row, x)),
        GgmlType::Q4_K => Some(q4_k(row, x)),
        _ => None,
    }
}

/// The weight that a byte holds.
fn weight(pick: Pick, byte: u8) -> (w: i32)
    ensures
        w == picked(pick, byte),
{
    match pick {
        Pick::Signed => as_signed(byte) as i32,
        Pick::Low => low_nibble(byte) as i32,
        Pick::High => high_nibble(byte) as i32,
    }
}

/// One product of a weight and an activation.
fn product(pick: Pick, byte: u8, act: i8) -> (p: i32)
    requires
        -127 <= act <= 127,
    ensures
        p == picked(pick, byte) * act,
        -16256 <= p <= 16256,
{
    proof {
        lemma_product_small(pick, byte, act);
    }
    let w: i32 = weight(pick, byte);
    w * act as i32
}

/// Multiplies and accumulates in four lanes, and sums the lanes. Even 32
/// products of the largest size are well inside an i32.
fn lane_dot(pick: Pick, bytes: &[u8], acts: &[i8]) -> (dot: i32)
    requires
        bytes@.len() == acts@.len(),
        bytes@.len() % 4 == 0,
        bytes@.len() <= 32,
        symmetric(acts@),
    ensures
        dot == dot_of(pick, bytes@, acts@, bytes@.len()),
        -520192 <= dot <= 520192,
{
    let n: usize = bytes.len();
    let mut l0: i32 = 0;
    let mut l1: i32 = 0;
    let mut l2: i32 = 0;
    let mut l3: i32 = 0;
    let mut i: usize = 0;
    while i < n
        invariant
            n == bytes@.len() == acts@.len(),
            n % 4 == 0,
            n <= 32,
            i <= n,
            i % 4 == 0,
            symmetric(acts@),
            l0 + l1 + l2 + l3 == dot_of(pick, bytes@, acts@, i as nat),
            -4064 * i <= l0 <= 4064 * i,
            -4064 * i <= l1 <= 4064 * i,
            -4064 * i <= l2 <= 4064 * i,
            -4064 * i <= l3 <= 4064 * i,
        decreases n - i,
    {
        proof {
            reveal_with_fuel(dot_of, 5);
        }
        l0 = l0 + product(pick, bytes[i], acts[i]);
        l1 = l1 + product(pick, bytes[i + 1], acts[i + 1]);
        l2 = l2 + product(pick, bytes[i + 2], acts[i + 2]);
        l3 = l3 + product(pick, bytes[i + 3], acts[i + 3]);
        i += 4;
    }
    l0 + l1 + l2 + l3
}

proof fn lemma_sum_small(acts: Seq<i8>, n: nat)
    requires
        n <= acts.len(),
        symmetric(acts),
    ensures
        -127 * n <= sum_of(acts, 0, n) <= 127 * n,
    decreases n,
{
    if n > 0 {
        lemma_sum_small(acts, (n - 1) as nat);
        assert(-127 <= acts[n - 1] <= 127);
    }
}

/// The sum of a block is the sum of its quants taken alone.
pub proof fn lemma_block_sum(quants: Seq<i8>, from: int, n: nat)
    requires
        0 <= from,
        from + 32 <= quants.len(),
        n <= 32,
    ensures
        sum_of(quants, from, n) == sum_of(quants.subrange(from, from + 32), 0, n),
    decreases n,
{
    if n > 0 {
        lemma_block_sum(quants, from, (n - 1) as nat);
    }
}

/// The quants of a block lie in the symmetric range.
pub proof fn lemma_block_symmetric(x: Quantized, b: int)
    requires
        x.wf(),
        0 <= b < x.scales@.len(),
    ensures
        symmetric(x.quants@.subrange(32 * b, 32 * b + 32)),
        x.quants@.subrange(32 * b, 32 * b + 32).len() == 32,
        x.sums@[b] == sum_of(x.quants@.subrange(32 * b, 32 * b + 32), 0, 32),
        -4064 <= x.sums@[b] <= 4064,
{
    let acts = x.quants@.subrange(32 * b, 32 * b + 32);
    assert forall|i: int| 0 <= i < acts.len() implies -127 <= #[trigger] acts[i] <= 127 by {
        assert(-127 <= x.quants@[32 * b + i] <= 127);
    }
    lemma_block_sum(x.quants@, 32 * b, 32);
    lemma_sum_small(acts, 32);
}

/// One block of `Q8_0`.
fn q8_0_block(block: &[u8], x: &Quantized, b: usize) -> (term: Term)
    requires
        x.wf(),
        block@.len() == 34,
        b < x.scales@.len(),
    ensures
        term == (Term::Plain {
            d: half_at(block@) as u32,
            step: x.scales@[b as int],
            dot: dot_of(Pick::Signed, block@.skip(2), x.quants@.subrange(32 * b, 32 * b + 32), 32) as i32,
        }),
{
    proof {
        lemma_block_symmetric(*x, b as int);
    }
    let d: u32 = half::read_f16(block);
    let (acts, step, _sum) = x.block(b);
    let quants = vstd::slice::slice_subrange(block, 2, 34);
    assert(quants@ =~= block@.skip(2));
    Term::Plain { d, step, dot: lane_dot(Pick::Signed, quants, acts) }
}

/// The terms of a `Q8_0` row.
pub fn q8_0(row: &[u8], x: &Quantized) -> (terms: Vec<Term>)
    requires
        x.wf(),
        row@.len() / 34 <= x.scales@.len(),
    ensures
        terms@ == q8_0_terms(row@, *x),
{
    let blocks: usize = row.len() / 34;
    let mut terms: Vec<Term> = Vec::new();
    let mut b: usize = 0;
    while b < blocks
        invariant
            x.wf(),
            blocks == row@.len() / 34,
            blocks <= x.scales@.len(),
            b <= blocks,
            terms@ == q8_0_terms(row@, *x).take(b as int),
        decreases blocks - b,
    {
        let n: usize = row.len();
        assert(34 * b + 34 <= n);
        let block = vstd::slice::slice_subrange(row, b * 34, b * 34 + 34);
        terms.push(q8_0_block(block, x, b));
        proof {
            assert(terms@ =~= q8_0_terms(row@, *x).take(b + 1));
        }
        b += 1;
    }
    proof {
        assert(terms@ =~= q8_0_terms(row@, *x));
    }
    terms
}

/// One block of `Q4_0`: the offset factors out into 8 times the sum.
fn q4_0_block(block: &[u8], x: &Quantized, b: usize) -> (term: Term)
    requires
        x.wf(),
        block@.len() == 18,
        b < x.scales@.len(),
    ensures
        term == (Term::Plain {
            d: half_at(block@) as u32,
            step: x.scales@[b as int],
            dot: q4_0_dot(block@.skip(2), x.quants@.subrange(32 * b, 32 * b + 32)) as i32,
        }),
{
    proof {
        lemma_block_symmetric(*x, b as int);
    }
    let d: u32 = half::read_f16(block);
    let (acts, step, sum) = x.block(b);
    let quants = vstd::slice::slice_subrange(block, 2, 18);
    let first = vstd::slice::slice_subrange(acts, 0, 16);
    let second = vstd::slice::slice_subrange(acts, 16, 32);
    proof {
        assert(quants@ =~= block@.skip(2));
        assert forall|i: int| 0 <= i < 16 implies -127 <= #[trigger] first@[i] <= 127 by {
            assert(-127 <= acts@[i] <= 127);
        }
        assert forall|i: int| 0 <= i < 16 implies -127 <= #[trigger] second@[i] <= 127 by {
            assert(-127 <= acts@[i + 16] <= 127);
        }
    }
    let dot: i32 = lane_dot(Pick::Low, quants, first) + lane_dot(Pick::High, quants, second) - 8 * sum;
    Term::Plain { d, step, dot }
}

/// The terms of a `Q4_0` row.
pub fn q4_0(row: &[u8], x: &Quantized) -> (terms: Vec<Term>)
    requires
        x.wf(),
        row@.len() / 18 <= x.scales@.len(),
    ensures
        terms@ == q4_0_terms(row@, *x),
{
    let blocks: usize = row.len() / 18;
    let mut terms: Vec<Term> = Vec::new();
    let mut b: usize = 0;
    while b < blocks
        invariant
            x.wf(),
            blocks == row@.len() / 18,
            blocks <= x.scales@.len(),
            b <= blocks,
            terms@ == q4_0_terms(row@, *x).take(b as int),
        decreases blocks - b,
    {
        let n: usize = row.len();
        assert(18 * b + 18 <= n);
        let block = vstd::slice::slice_subrange(row, b * 18, b * 18 + 18);
        terms.push(q4_0_block(block, x, b));
        proof {
            assert(terms@ =~= q4_0_terms(row@, *x).take(b + 1));
        }
        b += 1;
    }
    proof {
        assert(terms@ =~= q4_0_terms(row@, *x));
    }
    terms
}

/// One sub-block of `Q4_K`.
fn q4_k_sub(block: &[u8], sub: usize, x: &Quantized, first: usize) -> (term: Term)
    requires
        x.wf(),
        block@.len() == 144,
        sub < 8,
        first + 8 <= x.scales@.len(),
    ensures
        term == q4_k_term(block@, sub as int, *x, first as int),
{
    proof {
        lemma_block_symmetric(*x, first + sub);
    }
    let (d, dmin, scales) = k::header(block);
    let (scale, min) = k::scale_min(sub, scales);
    let slots: usize = x.scales.len();
    assert(first + sub < slots);
    let (acts, step, sum) = x.block(first + sub);
    let start: usize = 16 + (sub / 2) * 32;
    let bytes = vstd::slice::slice_subrange(block, start, start + 32);
    let pick = if sub % 2 == 0 { Pick::Low } else { Pick::High };
    let dot: i32 = lane_dot(pick, bytes, acts);
    Term::Affine { step, d, scale, dot, dmin, min, sum }
}

/// The terms of a `Q4_K` row.
///
/// Each 256-element super-block is eight 32-element sub-blocks, and an
/// activation block is also 32, so they line up one to one: no partial blocks,
/// no straddling.
pub fn q4_k(row: &[u8], x: &Quantized) -> (terms: Vec<Term>)
    requires
        x.wf(),
        8 * (row@.len() / 144) <= x.scales@.len(),
    ensures
        terms@ == q4_k_terms(row@, *x),
{
    let blocks: usize = row.len() / 144;
    let slots: usize = x.scales.len();
    let mut terms: Vec<Term> = Vec::new();
    let mut b: usize = 0;
    while b < blocks
        invariant
            x.wf(),
            slots == x.scales@.len(),
            blocks == row@.len() / 144,
            8 * blocks <= slots,
            b <= blocks,
            terms@ == q4_k_terms(row@, *x).take(8 * b),
        decreases blocks - b,
    {
        let n: usize = row.len();
        assert(144 * b + 144 <= n);
        assert(8 * b + 8 <= slots);
        let block = vstd::slice::slice_subrange(row, b * 144, b * 144 + 144);
        let mut sub: usize = 0;
        while sub < 8
            invariant
                x.wf(),
                blocks == row@.len() / 144,
                slots == x.scales@.len(),
                8 * blocks <= slots,
                b < blocks,
                sub <= 8,
                block@.len() == 144,
                block@ == row@.subrange(144 * b, 144 * b + 144),
                terms@ == q4_k_terms(row@, *x).take(8 * b + sub),
            decreases 8 - sub,
        {
            terms.push(q4_k_sub(block, sub, x, b * 8));
            proof {
                let i = 8 * b + sub;
                assert(i / 8 == b);
                assert(i % 8 == sub);
                assert(terms@ =~= q4_k_terms(row@, *x).take(8 * b + sub + 1));
            }
            sub += 1;
        }
        b += 1;
    }
    proof {
        assert(terms@ =~= q4_k_terms(row@, *x));
    }
    terms
}

} // verus!
