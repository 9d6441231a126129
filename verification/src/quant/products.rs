//! What the integer kernels sum up.
//!
//! A kernel turns a row and an activation vector into one term per block. The
//! laws tie every term to the elements that the same row expands to.

use vstd::prelude::*;

use super::activation::{clamped, sum_of, Quantized};
use super::dot::{chosen, covered, has_kernel, reference_schedule};
use super::element::{element_at, readable, split_nibble, sub_nibble, Element};
use super::idot::{covers, dot_of, has_integer_kernel, lemma_product_small, picked, terms_of, Pick, Term};
use super::packing::{block_stands, lemma_stands};
use super::{expand_error, row_element};
use crate::error::ErrorKind;
use crate::gguf::GgmlType;
use crate::value::{layout_of, type_of_id};

verus! {

/// The integer that an element was stored as.
pub open spec fn quant_of(e: Element) -> int {
    match e {
        Element::Scaled { quant, .. } => quant as int,
        Element::Offset { quant, .. } => quant as int,
        Element::Affine { quant, .. } => quant as int,
        Element::Centred { quant, .. } => quant as int,
        Element::Exact { .. } => 0,
    }
}

/// The sum of `n` products of a row's integers and activations, from `first` on.
pub open spec fn products(ty: GgmlType, row: Seq<u8>, acts: Seq<i8>, first: int, n: nat) -> int
    decreases n,
{
    if n == 0 {
        0
    } else {
        products(ty, row, acts, first, (n - 1) as nat) + quant_of(row_element(ty, row, first + n - 1)) * acts[first + n - 1]
    }
}

proof fn lemma_dot_small(pick: Pick, bytes: Seq<u8>, acts: Seq<i8>, n: nat)
    requires
        n <= acts.len(),
        forall|i: int| 0 <= i < acts.len() ==> -127 <= #[trigger] acts[i] <= 127,
    ensures
        -16256 * n <= dot_of(pick, bytes, acts, n) <= 16256 * n,
    decreases n,
{
    if n > 0 {
        lemma_dot_small(pick, bytes, acts, (n - 1) as nat);
        lemma_product_small(pick, bytes[n - 1], acts[n - 1]);
    }
}

proof fn lemma_sum_small(acts: Seq<i8>, from: int, n: nat)
    requires
        0 <= from && from + n <= acts.len(),
        forall|i: int| 0 <= i < acts.len() ==> -127 <= #[trigger] acts[i] <= 127,
    ensures
        -127 * n <= sum_of(acts, from, n) <= 127 * n,
    decreases n,
{
    if n > 0 {
        lemma_sum_small(acts, from, (n - 1) as nat);
    }
}

proof fn lemma_part_sum(acts: Seq<i8>, first: int, end: int, n: nat)
    requires
        0 <= first && first + n <= end <= acts.len(),
    ensures
        sum_of(acts.subrange(first, end), 0, n) == sum_of(acts, first, n),
    decreases n,
{
    if n > 0 {
        lemma_part_sum(acts, first, end, (n - 1) as nat);
    }
}

proof fn lemma_dot_is_products(
    pick: Pick,
    bytes: Seq<u8>,
    part: Seq<i8>,
    ty: GgmlType,
    row: Seq<u8>,
    acts: Seq<i8>,
    first: int,
    n: nat,
)
    requires
        forall|i: int|
            0 <= i < n ==> #[trigger] picked(pick, bytes[i]) == quant_of(row_element(ty, row, first + i)) && part[i]
                == acts[first + i],
    ensures
        dot_of(pick, bytes, part, n) == products(ty, row, acts, first, n),
    decreases n,
{
    if n > 0 {
        lemma_dot_is_products(pick, bytes, part, ty, row, acts, first, (n - 1) as nat);
        assert(picked(pick, bytes[n - 1]) == quant_of(row_element(ty, row, first + (n - 1))));
    }
}

proof fn lemma_centred_products(
    pick: Pick,
    bytes: Seq<u8>,
    part: Seq<i8>,
    row: Seq<u8>,
    acts: Seq<i8>,
    first: int,
    off: nat,
    n: nat,
)
    requires
        forall|i: int|
            0 <= i < n ==> #[trigger] picked(pick, bytes[i]) - 8 == quant_of(
                row_element(GgmlType::Q4_0, row, first + off + i),
            ) && part[i] == acts[first + off + i],
    ensures
        products(GgmlType::Q4_0, row, acts, first, off + n) == products(GgmlType::Q4_0, row, acts, first, off) + dot_of(
            pick,
            bytes,
            part,
            n,
        ) - 8 * (sum_of(acts, first, off + n) - sum_of(acts, first, off)),
    decreases n,
{
    if n > 0 {
        lemma_centred_products(pick, bytes, part, row, acts, first, off, (n - 1) as nat);
        let w = picked(pick, bytes[n - 1]);
        let a = acts[first + off + (n - 1)] as int;
        assert(w - 8 == quant_of(row_element(GgmlType::Q4_0, row, first + off + (n - 1))));
        assert((w - 8) * a == w * a - 8 * a) by (nonlinear_arith);
        assert((off + n - 1) as nat == off + (n - 1) as nat);
    }
}

/// A term of a `Q8_0` row: one per block, with the block's scale, the
/// activations' step, and the sum of the products of the block's integers and
/// the activations that stand against them.
pub proof fn lemma_q8_0_terms(row: Seq<u8>, x: Quantized, b: int)
    requires
        x.wf(),
        covers(type_of_id(8), row.len(), x),
        0 <= b && 34 * b + 34 <= row.len(),
    ensures
        ({
            let ty = type_of_id(8);
            let terms = terms_of(ty, row, x);
            &&& b < terms.len() && terms.len() * 34 <= row.len()
            &&& terms[b] matches Term::Plain { d, step, dot } && step == x.scales@[b] && dot == products(
                ty,
                row,
                x.quants@,
                32 * b,
                32,
            ) && forall|k: int|
                0 <= k < 32 ==> ((#[trigger] row_element(ty, row, 32 * b + k)) matches Element::Scaled { d: scale, .. }
                    && scale == d)
        }),
{
    let ty = GgmlType::Q8_0;
    let block = row.subrange(34 * b, 34 * b + 34);
    let acts = x.quants@.subrange(32 * b, 32 * b + 32);
    assert(b < row.len() / 34);
    assert(block_stands(row, b, 34, block));
    assert forall|k: int| 0 <= k < 32 implies #[trigger] row_element(ty, row, 32 * b + k) == element_at(ty, block, k) by {
        lemma_stands(ty, row, b, 32, 34, block, k);
    }
    let bytes = block.skip(2);
    assert forall|i: int| 0 <= i < 32 implies #[trigger] picked(Pick::Signed, bytes[i]) == quant_of(
        row_element(ty, row, 32 * b + i),
    ) && acts[i] == x.quants@[32 * b + i] by {
        assert(bytes[i] == block[2 + i]);
    }
    lemma_dot_is_products(Pick::Signed, bytes, acts, ty, row, x.quants@, 32 * b, 32);
    assert forall|i: int| 0 <= i < acts.len() implies -127 <= #[trigger] acts[i] <= 127 by {
        assert(acts[i] == x.quants@[32 * b + i]);
    }
    lemma_dot_small(Pick::Signed, bytes, acts, 32);
}

/// A term of a `Q4_0` row, likewise; the integers are centred on 8.
pub proof fn lemma_q4_0_terms(row: Seq<u8>, x: Quantized, b: int)
    requires
        x.wf(),
        covers(type_of_id(2), row.len(), x),
        0 <= b && 18 * b + 18 <= row.len(),
    ensures
        ({
            let ty = type_of_id(2);
            let terms = terms_of(ty, row, x);
            &&& b < terms.len() && terms.len() * 18 <= row.len()
            &&& terms[b] matches Term::Plain { d, step, dot } && step == x.scales@[b] && dot == products(
                ty,
                row,
                x.quants@,
                32 * b,
                32,
            ) && forall|k: int|
                0 <= k < 32 ==> ((#[trigger] row_element(ty, row, 32 * b + k)) matches Element::Scaled { d: scale, .. }
                    && scale == d)
        }),
{
    let ty = GgmlType::Q4_0;
    let block = row.subrange(18 * b, 18 * b + 18);
    let acts = x.quants@.subrange(32 * b, 32 * b + 32);
    assert(b < row.len() / 18);
    assert(block_stands(row, b, 18, block));
    assert forall|k: int| 0 <= k < 32 implies #[trigger] row_element(ty, row, 32 * b + k) == element_at(ty, block, k) by {
        lemma_stands(ty, row, b, 32, 18, block, k);
    }
    let bytes = block.skip(2);
    assert(bytes =~= block.subrange(2, 18));
    let (near, far) = (acts.subrange(0, 16), acts.subrange(16, 32));
    assert forall|i: int| 0 <= i < 16 implies #[trigger] picked(Pick::Low, bytes[i]) - 8 == quant_of(
        row_element(ty, row, 32 * b + 0nat + i),
    ) && near[i] == x.quants@[32 * b + 0nat + i] by {
        assert(split_nibble(bytes, i) == picked(Pick::Low, bytes[i]));
        assert(row_element(ty, row, 32 * b + i) == element_at(ty, block, i));
    }
    assert forall|i: int| 0 <= i < 16 implies #[trigger] picked(Pick::High, bytes[i]) - 8 == quant_of(
        row_element(ty, row, 32 * b + 16nat + i),
    ) && far[i] == x.quants@[32 * b + 16nat + i] by {
        assert(split_nibble(bytes, 16 + i) == picked(Pick::High, bytes[i]));
        assert(row_element(ty, row, 32 * b + (16 + i)) == element_at(ty, block, 16 + i));
        assert(32 * b + (16 + i) == 32 * b + 16nat + i);
    }
    lemma_centred_products(Pick::Low, bytes, near, row, x.quants@, 32 * b, 0, 16);
    lemma_centred_products(Pick::High, bytes, far, row, x.quants@, 32 * b, 16, 16);
    lemma_part_sum(x.quants@, 32 * b, 32 * b + 32, 32);
    assert forall|i: int| 0 <= i < acts.len() implies -127 <= #[trigger] acts[i] <= 127 by {
        assert(acts[i] == x.quants@[32 * b + i]);
    }
    assert forall|i: int| 0 <= i < 16 implies -127 <= #[trigger] near[i] <= 127 by {
        assert(near[i] == acts[i]);
    }
    assert forall|i: int| 0 <= i < 16 implies -127 <= #[trigger] far[i] <= 127 by {
        assert(far[i] == acts[16 + i]);
    }
    lemma_dot_small(Pick::Low, bytes, near, 16);
    lemma_dot_small(Pick::High, bytes, far, 16);
    lemma_sum_small(acts, 0, 32);
}

/// A term of a `Q4_K` row: one per run of 32, with the run's two scales and two
/// small integers, the activations' step, the sum of the products, and the sum
/// of the activations that the minimum is multiplied by.
pub proof fn lemma_q4_k_terms(row: Seq<u8>, x: Quantized, i: int)
    requires
        x.wf(),
        covers(type_of_id(12), row.len(), x),
        0 <= i < 8 * (row.len() / 144),
    ensures
        ({
            let ty = type_of_id(12);
            let terms = terms_of(ty, row, x);
            &&& i < terms.len()
            &&& terms[i] matches Term::Affine { step, d, scale, dot, dmin, min, sum } && step == x.scales@[i] && dot
                == products(ty, row, x.quants@, 32 * i, 32) && sum == sum_of(x.quants@, 32 * i, 32) && forall|k: int|
                0 <= k < 32 ==> ((#[trigger] row_element(ty, row, 32 * i + k)) matches Element::Affine {
                    d: d1,
                    scale: scale1,
                    dmin: dmin1,
                    min: min1,
                    ..
                } && d1 == d && scale1 == scale && dmin1 == dmin && min1 == min)
        }),
{
    let ty = GgmlType::Q4_K;
    let (b, sub) = (i / 8, i % 8);
    let block = row.subrange(144 * b, 144 * b + 144);
    assert(b < row.len() / 144);
    assert(block_stands(row, b, 144, block));
    assert(32 * i == 256 * b + 32 * sub);
    assert forall|k: int| 0 <= k < 32 implies #[trigger] row_element(ty, row, 32 * i + k) == element_at(
        ty,
        block,
        32 * sub + k,
    ) && (32 * sub + k) / 32 == sub by {
        lemma_stands(ty, row, b, 256, 144, block, 32 * sub + k);
        assert(256 * b + (32 * sub + k) == 32 * i + k);
    }
    let bytes = block.subrange(16 + (sub / 2) * 32, 48 + (sub / 2) * 32);
    let pick = if sub % 2 == 0 { Pick::Low } else { Pick::High };
    let acts = x.quants@.subrange(32 * i, 32 * i + 32);
    assert forall|k: int| 0 <= k < 32 implies #[trigger] picked(pick, bytes[k]) == quant_of(
        row_element(ty, row, 32 * i + k),
    ) && acts[k] == x.quants@[32 * i + k] by {
        let e = 32 * sub + k;
        assert(row_element(ty, row, 32 * i + k) == element_at(ty, block, e));
        let nibbles = block.subrange(16, 144);
        assert(e / 64 == sub / 2 && e % 32 == k && (e / 32) % 2 == sub % 2);
        assert(nibbles[(e / 64) * 32 + e % 32] == bytes[k]);
        assert(sub_nibble(nibbles, e) == picked(pick, bytes[k]));
    }
    lemma_dot_is_products(pick, bytes, acts, ty, row, x.quants@, 32 * i, 32);
    assert forall|k: int| 0 <= k < acts.len() implies -127 <= #[trigger] acts[k] <= 127 by {
        assert(acts[k] == x.quants@[32 * i + k]);
    }
    lemma_dot_small(pick, bytes, acts, 32);
    assert(x.sums@[i] == sum_of(x.quants@, 32 * i, 32));
    assert(8 * b + sub == i);
    assert(32 * (8 * b + sub) == 32 * i);
}

/// An activation vector covers a row exactly if it has a block of activations for
/// each whole run of 32 that the row holds.
pub proof fn lemma_covering(row_len: nat, x: Quantized)
    ensures
        covers(type_of_id(8), row_len, x) == (row_len < 34 * (x.scales@.len() + 1)),
        covers(type_of_id(2), row_len, x) == (row_len < 18 * (x.scales@.len() + 1)),
        covers(type_of_id(12), row_len, x) == (row_len < 144 * (x.scales@.len() as int / 8 + 1)),
{
}

/// A rounded activation is kept if it lies in the symmetric range of a byte, and
/// becomes the nearer end of the range if not.
pub proof fn lemma_clamped_is_nearest(value: i32, other: int)
    requires
        -127 <= other <= 127,
    ensures
        -127 <= clamped(value) <= 127,
        crate::rounding::apart(clamped(value), value as int) <= crate::rounding::apart(other, value as int),
{
}

// ------------------------------------------------------------------------ rows

/// Which stored types can be expanded, which have a kernel that dots the stored
/// row, for which that kernel is taken, and which have an integer kernel: by
/// their ids.
pub proof fn lemma_kernels(id: u32)
    ensures
        readable(type_of_id(id)) == (id <= 3 || id == 8 || 12 <= id <= 14 || id == 30),
        has_kernel(type_of_id(id)) == (id == 0 || id == 2 || id == 8 || 12 <= id <= 14),
        chosen(type_of_id(id)) == (id == 0 || id == 2 || id == 8 || id == 13 || id == 14),
        has_integer_kernel(type_of_id(id)) == (id == 2 || id == 8 || id == 12),
{
}

/// A row expands exactly where its type can be read and it has as many whole
/// blocks of elements as of bytes.
/// A row of the wrong length is bad data; a type that cannot be read is
/// unsupported.
pub proof fn lemma_rows_that_expand(ty: GgmlType, byte_count: nat, elements: nat, k: nat)
    ensures
        layout_of(ty) matches Some((block, size)) && elements == k * block && byte_count == k * size && !readable(ty) ==> (
        expand_error(ty, byte_count, elements) matches Some(e) && e.kind == ErrorKind::Unsupported),
        layout_of(ty) matches Some((block, size)) && elements == k * block && byte_count != k * size ==> (expand_error(
            ty,
            byte_count,
            elements,
        ) matches Some(e) && e.kind == ErrorKind::InvalidData),
        expand_error(ty, byte_count, elements) is None ==> readable(ty) && layout_of(ty) is Some,
        layout_of(ty) matches Some((block, size)) && readable(ty) && elements == k * block && byte_count == k * size
            ==> expand_error(ty, byte_count, elements) is None,
        layout_of(ty) matches Some((block, size)) && elements == k * block && byte_count != k * size ==> expand_error(
            ty,
            byte_count,
            elements,
        ) is Some,
        layout_of(ty) matches Some((block, size)) && k * block < elements && elements < (k + 1) * block ==> expand_error(
            ty,
            byte_count,
            elements,
        ) is Some,
{
    if let Some((block, size)) = layout_of(ty) {
        let (n, b, q) = (elements as int, block as int, k as int);
        assert(b > 0);
        if n == q * b {
            vstd::arithmetic::div_mod::lemma_fundamental_div_mod_converse(n, b, q, 0);
        }
        if q * b < n && n < (q + 1) * b {
            assert(0 < n - q * b && n - q * b < b) by (nonlinear_arith)
                requires
                    q * b < n,
                    n < (q + 1) * b,
            ;
            vstd::arithmetic::div_mod::lemma_fundamental_div_mod_converse(n, b, q, n - q * b);
        }
    }
}

/// A dot takes every element once, in order, against the activation at the same
/// place. The four lanes take turns; what is behind the last group of four goes
/// into a fifth.
pub proof fn lemma_dot_takes_every_element(elements: Seq<Element>, group: int, within: int)
    requires
        0 <= group,
        0 <= within < 4,
        4 * group + within < elements.len() <= usize::MAX,
    ensures
        reference_schedule(elements).len() == elements.len(),
        ({
            let i = 4 * group + within;
            let step = reference_schedule(elements)[i];
            &&& step.at == i
            &&& step.element == elements[i]
            &&& step.lane == (if 4 * group + 4 <= elements.len() {
                within
            } else {
                4
            })
        }),
{
}

/// A kernel covers as many whole blocks as both the row and the activations
/// have.
pub proof fn lemma_covered_blocks(ty: GgmlType, row_len: nat, x_len: nat)
    requires
        has_kernel(ty),
    ensures
        ({
            let (block, size) = layout_of(ty)->Some_0;
            let n = covered(ty, row_len, x_len);
            exists|k: nat| #[trigger]
                (k * block) == n && k * size <= row_len && n <= x_len && ((k + 1) * size > row_len || (k + 1) * block
                    > x_len)
        }),
{
    let (block, size) = layout_of(ty)->Some_0;
    let (b, s) = (block as int, size as int);
    let in_row = row_len / size as nat;
    let in_x = x_len / block as nat;
    let k: nat = if in_row < in_x { in_row } else { in_x };
    vstd::arithmetic::div_mod::lemma_fundamental_div_mod(row_len as int, s);
    vstd::arithmetic::div_mod::lemma_fundamental_div_mod(x_len as int, b);
    vstd::arithmetic::div_mod::lemma_mod_bound(row_len as int, s);
    vstd::arithmetic::div_mod::lemma_mod_bound(x_len as int, b);
    assert(k * s <= row_len) by (nonlinear_arith)
        requires
            k <= in_row,
            row_len >= s * in_row,
            s > 0,
    ;
    assert(k * b <= x_len) by (nonlinear_arith)
        requires
            k <= in_x,
            x_len >= b * in_x,
            b > 0,
    ;
    assert(in_row <= k ==> (k + 1) * s > row_len) by (nonlinear_arith)
        requires
            row_len < s * in_row + s,
            s > 0,
    ;
    assert(in_x <= k ==> (k + 1) * b > x_len) by (nonlinear_arith)
        requires
            x_len < b * in_x + b,
            b > 0,
    ;
    assert(k * block == covered(ty, row_len, x_len));
}

} // verus!
