//! Turning stored blocks back into numbers.
//!
//! GGUF weights are quantized in fixed-size blocks: 32 or 256 elements sharing
//! one or two scale factors. What a block says of each of its elements is an
//! integer question, and is answered here exactly: an [`Element`] is a small
//! integer with the scales it is to be multiplied by. The multiplication itself
//! is left to whoever has an arithmetic unit.
//!
//! This module is the unfused reference. It is what the fused kernels of
//! [`dot`] are proved against.

use vstd::arithmetic::div_mod::lemma_fundamental_div_mod_converse;
use vstd::prelude::*;

use crate::error::{invalid_data, unsupported, Error, ErrorKind, ErrorView};
use crate::gguf::GgmlType;
use crate::le::{lemma_spans, read_le};
use crate::text::{self, decimal};
use crate::value::{layout_of, name_of};
use element::{element_at, readable};

pub use element::Element;

pub mod activation;
pub mod avx2;
pub mod dot;
pub mod element;
pub mod half;
pub mod idot;
pub mod k;
pub mod legacy;
pub mod packing;
pub mod products;

verus! {

/// Element `i` of a row of blocks.
pub open spec fn row_element(ty: GgmlType, row: Seq<u8>, i: int) -> Element {
    let (block, size) = layout_of(ty)->Some_0;
    let b = i / block as int;
    element_at(ty, row.subrange(b * size, b * size + size), i % block as int)
}

/// The complaint about a row that cannot be expanded.
pub open spec fn expand_error(ty: GgmlType, byte_count: nat, elements: nat) -> Option<ErrorView> {
    match layout_of(ty) {
        None => Some(unsupported(name_of(ty) + " is not implemented yet"@)),
        Some((block, size)) => if elements % block as nat != 0 {
            Some(
                invalid_data(
                    decimal(elements) + " elements is not a whole number of "@ + name_of(ty) + " blocks"@,
                ),
            )
        } else if byte_count != (elements / block as nat) * size {
            Some(
                invalid_data(
                    name_of(ty) + " needs "@ + decimal(((elements / block as nat) * size) as nat) + " bytes for "@ + decimal(
                        elements,
                    ) + " elements, got "@ + decimal(byte_count),
                ),
            )
        } else if !readable(ty) {
            Some(unsupported(name_of(ty) + " is not implemented yet"@))
        } else {
            None
        },
    }
}

fn not_implemented(ty: GgmlType) -> (error: Error)
    ensures
        error@ == unsupported(name_of(ty) + " is not implemented yet"@),
{
    let mut message = ty.name();
    message.append(" is not implemented yet");
    Error::new(ErrorKind::Unsupported, message)
}

/// Expands one block of a readable type.
fn expand(ty: GgmlType, block: &[u8], out: &mut [Element])
    requires
        readable(ty),
        block@.len() == layout_of(ty)->Some_0.1,
        old(out)@.len() == layout_of(ty)->Some_0.0,
    ensures
        final(out)@.len() == old(out)@.len(),
        forall|i: int| 0 <= i < final(out)@.len() ==> #[trigger] final(out)@[i] == element_at(ty, block@, i),
{
    proof {
        lemma_spans();
        assert(block@.take(block@.len() as int) =~= block@);
    }
    match ty {
        GgmlType::F32 => {
            out[0] = Element::Exact { bits: read_le(block) as u32 };
        },
        GgmlType::F16 => {
            out[0] = Element::Exact { bits: half::f16_bits(read_le(block) as u16) };
        },
        GgmlType::BF16 => {
            out[0] = Element::Exact { bits: half::bf16(read_le(block) as u16) };
        },
        GgmlType::Q4_0 => legacy::q4_0(block, out),
        GgmlType::Q4_1 => legacy::q4_1(block, out),
        GgmlType::Q8_0 => legacy::q8_0(block, out),
        GgmlType::Q4_K => k::q4_k(block, out),
        GgmlType::Q5_K => k::q5_k(block, out),
        GgmlType::Q6_K => k::q6_k(block, out),
        _ => {},
    }
}

fn is_readable(ty: GgmlType) -> (yes: bool)
    ensures
        yes == readable(ty),
{
    match ty {
        GgmlType::F32
        | GgmlType::F16
        | GgmlType::BF16
        | GgmlType::Q4_0
        | GgmlType::Q4_1
        | GgmlType::Q8_0
        | GgmlType::Q4_K
        | GgmlType::Q5_K
        | GgmlType::Q6_K => true,
        _ => false,
    }
}

/// Whether a row of `byte_count` bytes expands to `elements` elements.
pub fn expands(ty: GgmlType, byte_count: usize, elements: usize) -> (yes: bool)
    ensures
        yes == (expand_error(ty, byte_count as nat, elements as nat) is None),
{
    match ty.layout() {
        None => false,
        Some((block, size)) => {
            let n: u64 = elements as u64;
            let blocks: u64 = n / block;
            proof {
                assert(blocks * size <= 0xffff_ffff_ffff_ffff * 292) by (nonlinear_arith)
                    requires
                        blocks <= 0xffff_ffff_ffff_ffff,
                        size <= 292,
                ;
            }
            n % block == 0 && byte_count as u128 == blocks as u128 * size as u128 && is_readable(ty)
        },
    }
}

/// Expands `bytes` into `out`, whose length sets the element count and must be
/// a whole number of blocks.
pub fn dequantize(ty: GgmlType, bytes: &[u8], out: &mut [Element]) -> (done: Result<(), Error>)
    ensures
        final(out)@.len() == old(out)@.len(),
        match done {
            Ok(_) => expand_error(ty, bytes@.len(), old(out)@.len()) is None && forall|i: int|
                0 <= i < final(out)@.len() ==> #[trigger] final(out)@[i] == row_element(ty, bytes@, i),
            Err(e) => expand_error(ty, bytes@.len(), old(out)@.len()) == Some(e@) && final(out)@ == old(out)@,
        },
{
    let (block, size) = match ty.layout() {
        Some(layout) => layout,
        None => return Err(not_implemented(ty)),
    };
    let elements: u64 = out.len() as u64;
    if elements % block != 0 {
        let mut message = text::to_decimal(elements);
        message.append(" elements is not a whole number of ");
        message.append(ty.name().as_str());
        message.append(" blocks");
        return Err(Error::new(ErrorKind::InvalidData, message));
    }
    let blocks: u64 = elements / block;
    proof {
        assert(blocks * size <= 0xffff_ffff_ffff_ffff * 292) by (nonlinear_arith)
            requires
                blocks <= 0xffff_ffff_ffff_ffff,
                size <= 292,
        ;
    }
    let expected: u128 = blocks as u128 * size as u128;
    if bytes.len() as u128 != expected {
        let mut message = ty.name();
        message.append(" needs ");
        message.append(text::wide_decimal(expected).as_str());
        message.append(" bytes for ");
        message.append(text::to_decimal(elements).as_str());
        message.append(" elements, got ");
        message.append(text::to_decimal(bytes.len() as u64).as_str());
        return Err(Error::new(ErrorKind::InvalidData, message));
    }
    if !is_readable(ty) {
        return Err(not_implemented(ty));
    }
    let n: usize = out.len();
    let total: usize = bytes.len();
    let width: usize = block as usize;
    let stride: usize = size as usize;
    let mut b: u64 = 0;
    let mut at: usize = 0;
    let mut pos: usize = 0;
    proof {
        vstd::arithmetic::div_mod::lemma_fundamental_div_mod(elements as int, block as int);
        assert(block * blocks == blocks * block) by (nonlinear_arith);
    }
    while b < blocks
        invariant
            readable(ty),
            layout_of(ty) == Some((block, size)),
            width == block,
            stride == size,
            b <= blocks,
            out@.len() == n,
            n == blocks * block,
            total == bytes@.len() == blocks * size,
            at == b * block,
            pos == b * size,
            forall|i: int| 0 <= i < at ==> #[trigger] out@[i] == row_element(ty, bytes@, i),
        decreases blocks - b,
    {
        proof {
            assert((b + 1) * block == b * block + block) by (nonlinear_arith);
            assert((b + 1) * size == b * size + size) by (nonlinear_arith);
            assert((b + 1) * block <= blocks * block) by (nonlinear_arith)
                requires
                    b + 1 <= blocks,
            ;
            assert((b + 1) * size <= blocks * size) by (nonlinear_arith)
                requires
                    b + 1 <= blocks,
            ;
        }
        let chunk = vstd::slice::slice_subrange(bytes, pos, pos + stride);
        let ghost before = out@;
        let (_done, rest) = out.split_at_mut(at);
        let (slot, _tail) = rest.split_at_mut(width);
        expand(ty, chunk, slot);
        proof {
            assert forall|i: int| 0 <= i < at + width implies #[trigger] out@[i] == row_element(ty, bytes@, i) by {
                if i >= at {
                    lemma_fundamental_div_mod_converse(i, block as int, b as int, i - at);
                } else {
                    assert(out@[i] == before[i]);
                }
            }
        }
        at = at + width;
        pos = pos + stride;
        b += 1;
    }
    Ok(())
}

/// Allocating form, for one-off inspection.
pub fn dequantize_to_vec(ty: GgmlType, bytes: &[u8], elements: usize) -> (got: Result<Vec<Element>, Error>)
    ensures
        match got {
            Ok(out) => expand_error(ty, bytes@.len(), elements as nat) is None && out@ == Seq::new(
                elements as nat,
                |i: int| row_element(ty, bytes@, i),
            ),
            Err(e) => expand_error(ty, bytes@.len(), elements as nat) == Some(e@),
        },
{
    let mut out: Vec<Element> = vec![Element::Exact { bits: 0 }; elements];
    dequantize(ty, bytes, out.as_mut_slice())?;
    proof {
        assert(out@ =~= Seq::new(elements as nat, |i: int| row_element(ty, bytes@, i)));
    }
    Ok(out)
}

} // verus!
