//! Integer kernels in the shape of 256-bit vectors.
//!
//! Only the integer dots are regrouped here, and that is deliberate. Regroup a
//! floating-point sum and the answer changes in the last bits. Integer addition
//! is associative and exact, so a kernel that adds the same products in any
//! order is **identical**: both kinds of kernel are proved to give the terms
//! that [`super::idot`] states.

use vstd::prelude::*;

use super::activation::Quantized;
use super::element::{as_signed, high_nibble, low_nibble};
use super::half;
use super::idot::{
    dot_of, lemma_block_symmetric, lemma_product_small, picked, q4_k_term, q4_k_terms, q8_0_terms, symmetric, Pick, Term,
};
use super::k;

verus! {

/// Horizontal sum of eight i32 lanes: the upper half onto the lower, then the
/// upper pair onto the lower, then the two.
fn hsum(lanes: &[i32]) -> (sum: i32)
    requires
        lanes@.len() == 8,
        forall|i: int| 0 <= i < 8 ==> -65024 <= #[trigger] lanes@[i] <= 65024,
    ensures
        sum == lanes@[0] + lanes@[1] + lanes@[2] + lanes@[3] + lanes@[4] + lanes@[5] + lanes@[6] + lanes@[7],
{
    let h0: i32 = lanes[0] + lanes[4];
    let h1: i32 = lanes[1] + lanes[5];
    let h2: i32 = lanes[2] + lanes[6];
    let h3: i32 = lanes[3] + lanes[7];
    let p0: i32 = h0 + h2;
    let p1: i32 = h1 + h3;
    p0 + p1
}

/// One product with the weight made absolute and its sign moved onto the
/// activation, as an instruction that takes one unsigned side needs it.
fn sign_product(pick: Pick, byte: u8, act: i8) -> (p: i32)
    requires
        -127 <= act <= 127,
    ensures
        p == picked(pick, byte) * act,
        -16256 <= p <= 16256,
{
    proof {
        lemma_product_small(pick, byte, act);
    }
    let w: i32 = match pick {
        Pick::Signed => as_signed(byte) as i32,
        Pick::Low => low_nibble(byte) as i32,
        Pick::High => high_nibble(byte) as i32,
    };
    let magnitude: i32 = if w < 0 { -w } else { w };
    let signed: i32 = if w < 0 {
        -(act as i32)
    } else if w == 0 {
        0
    } else {
        act as i32
    };
    proof {
        assert(magnitude * signed == w * act) by (nonlinear_arith)
            requires
                w < 0 ==> magnitude == -w && signed == -act,
                w == 0 ==> signed == 0,
                w > 0 ==> magnitude == w && signed == act,
        ;
    }
    magnitude * signed
}

/// The sum of two neighbouring products, which stays inside an i16: twice 128
/// times 127 is 32512.
fn pair(pick: Pick, bytes: &[u8], acts: &[i8], i: usize) -> (sum: i16)
    requires
        bytes@.len() == 32,
        acts@.len() == 32,
        i < 31,
        symmetric(acts@),
    ensures
        sum == picked(pick, bytes@[i as int]) * acts@[i as int] + picked(pick, bytes@[i + 1]) * acts@[i + 1],
        -32512 <= sum <= 32512,
{
    assert(-127 <= acts@[i as int] <= 127);
    assert(-127 <= acts@[i + 1] <= 127);
    let a: i32 = sign_product(pick, bytes[i], acts[i]);
    let b: i32 = sign_product(pick, bytes[i + 1], acts[i + 1]);
    (a + b) as i16
}

/// The sum of 32 products, four to a lane.
fn dot32(pick: Pick, bytes: &[u8], acts: &[i8]) -> (dot: i32)
    requires
        bytes@.len() == 32,
        acts@.len() == 32,
        symmetric(acts@),
    ensures
        dot == dot_of(pick, bytes@, acts@, 32),
{
    let mut lanes: Vec<i32> = Vec::new();
    let mut l: usize = 0;
    while l < 8
        invariant
            l <= 8,
            lanes@.len() == l,
            bytes@.len() == 32,
            acts@.len() == 32,
            symmetric(acts@),
            forall|i: int| 0 <= i < l ==> -65024 <= #[trigger] lanes@[i] <= 65024,
            forall|i: int|
                0 <= i < l ==> #[trigger] lanes@[i] == dot_of(pick, bytes@, acts@, (4 * i + 4) as nat) - dot_of(
                    pick,
                    bytes@,
                    acts@,
                    (4 * i) as nat,
                ),
        decreases 8 - l,
    {
        let low: i16 = pair(pick, bytes, acts, 4 * l);
        let high: i16 = pair(pick, bytes, acts, 4 * l + 2);
        proof {
            reveal_with_fuel(dot_of, 5);
        }
        lanes.push(low as i32 + high as i32);
        l += 1;
    }
    proof {
        assert(dot_of(pick, bytes@, acts@, 0) == 0);
    }
    let dot: i32 = hsum(lanes.as_slice());
    dot
}

/// The terms of a `Q8_0` row.
pub fn q8_0(row: &[u8], x: &Quantized) -> (terms: Vec<Term>)
    requires
        x.wf(),
        row@.len() / 34 <= x.scales@.len(),
    ensures
        terms@ == q8_0_terms(row@, *x),
{
    let blocks: usize = row.len() / 34;
    let mut terms: Vec<Term> = Vec::new();
    let mut b: usize = 0;
    while b < blocks
        invariant
            x.wf(),
            blocks == row@.len() / 34,
            blocks <= x.scales@.len(),
            b <= blocks,
            terms@ == q8_0_terms(row@, *x).take(b as int),
        decreases blocks - b,
    {
        let n: usize = row.len();
        assert(34 * b + 34 <= n);
        let block = vstd::slice::slice_subrange(row, b * 34, b * 34 + 34);
        let d: u32 = half::read_f16(block);
        let (acts, step, _sum) = x.block(b);
        let quants = vstd::slice::slice_subrange(block, 2, 34);
        proof {
            lemma_block_symmetric(*x, b as int);
            assert(quants@ =~= block@.skip(2));
        }
        terms.push(Term::Plain { d, step, dot: dot32(Pick::Signed, quants, acts) });
        proof {
            assert(terms@ =~= q8_0_terms(row@, *x).take(b + 1));
        }
        b += 1;
    }
    proof {
        assert(terms@ =~= q8_0_terms(row@, *x));
    }
    terms
}

/// One sub-block of `Q4_K`.
fn q4_k_sub(block: &[u8], sub: usize, x: &Quantized, first: usize) -> (term: Term)
    requires
        x.wf(),
        block@.len() == 144,
        sub < 8,
        first + 8 <= x.scales@.len(),
    ensures
        term == q4_k_term(block@, sub as int, *x, first as int),
{
    proof {
        lemma_block_symmetric(*x, first + sub);
    }
    let (d, dmin, scales) = k::header(block);
    let (scale, min) = k::scale_min(sub, scales);
    let slots: usize = x.scales.len();
    assert(first + sub < slots);
    let (acts, step, sum) = x.block(first + sub);
    let start: usize = 16 + (sub / 2) * 32;
    let bytes = vstd::slice::slice_subrange(block, start, start + 32);
    let pick = if sub % 2 == 0 { Pick::Low } else { Pick::High };
    Term::Affine { step, d, scale, dot: dot32(pick, bytes, acts), dmin, min, sum }
}

/// The terms of a `Q4_K` row.
///
/// Only the integer dot is regrouped; the sub-blocks come in the same order as
/// from the scalar kernel, so the two agree exactly.
pub fn q4_k(row: &[u8], x: &Quantized) -> (terms: Vec<Term>)
    requires
        x.wf(),
        8 * (row@.len() / 144) <= x.scales@.len(),
    ensures
        terms@ == q4_k_terms(row@, *x),
{
    let blocks: usize = row.len() / 144;
    let slots: usize = x.scales.len();
    let mut terms: Vec<Term> = Vec::new();
    let mut i: usize = 0;
    while i < 8 * blocks
        invariant
            x.wf(),
            slots == x.scales@.len(),
            blocks == row@.len() / 144,
            8 * blocks <= slots,
            i <= 8 * blocks,
            terms@ == q4_k_terms(row@, *x).take(i as int),
        decreases 8 * blocks - i,
    {
        let n: usize = row.len();
        let b: usize = i / 8;
        assert(144 * b + 144 <= n);
        let block = vstd::slice::slice_subrange(row, b * 144, b * 144 + 144);
        terms.push(q4_k_sub(block, i % 8, x, b * 8));
        proof {
            assert(terms@ =~= q4_k_terms(row@, *x).take(i + 1));
        }
        i += 1;
    }
    proof {
        assert(terms@ =~= q4_k_terms(row@, *x));
    }
    terms
}

} // verus!
