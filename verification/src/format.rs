//! The container format, byte by byte.
//!
//! The laws give every number of the format as it stands in a file: which id is
//! which type, which tag is which kind of value, and at which byte each field
//! lies.

use vstd::arithmetic::power2::is_pow2;
use vstd::prelude::*;
use vstd::utf8::{decode_utf8, valid_utf8};

use crate::error::{ErrorKind, ErrorView};
use crate::gguf::{
    aligned, alignment_of, first_misfit, lemma_aligned, lemma_entries_advance, lemma_tensors_advance, magic, misfit, parse,
    product, read_bytes, read_dims, read_entries, read_entry, read_items, read_scalar, read_tensor, read_tensors, read_text,
    read_uint, read_value, TensorView, ValueView,
};
use crate::le::{le, le_bytes, lemma_le_bound, lemma_le_bytes_len, lemma_le_round_trip, lemma_spans};
use crate::synth::{file_bytes, head_bytes, padded, value_bytes, BuilderView};
use crate::text::decimal;
use crate::value::{all_numbers, all_texts, layout_of, name_of, type_of_id};

verus! {

// ----------------------------------------------------------------- type ids

/// Whether an id stands for the type of a name, with blocks of so many elements
/// in so many bytes.
pub open spec fn named(id: u32, name: Seq<char>, elements: int, size: int) -> bool {
    let ty = type_of_id(id);
    &&& name_of(ty) == name
    &&& layout_of(ty) == Some((elements as u64, size as u64))
}

/// Every id of the format with its type, the elements of a block, and the bytes
/// of a block.
pub proof fn lemma_type_ids()
    ensures
        named(0, "F32"@, 1, 4),
        named(1, "F16"@, 1, 2),
        named(2, "Q4_0"@, 32, 18),
        named(3, "Q4_1"@, 32, 20),
        named(6, "Q5_0"@, 32, 22),
        named(7, "Q5_1"@, 32, 24),
        named(8, "Q8_0"@, 32, 34),
        named(9, "Q8_1"@, 32, 36),
        named(10, "Q2_K"@, 256, 84),
        named(11, "Q3_K"@, 256, 110),
        named(12, "Q4_K"@, 256, 144),
        named(13, "Q5_K"@, 256, 176),
        named(14, "Q6_K"@, 256, 210),
        named(15, "Q8_K"@, 256, 292),
        named(24, "I8"@, 1, 1),
        named(25, "I16"@, 1, 2),
        named(26, "I32"@, 1, 4),
        named(27, "I64"@, 1, 8),
        named(28, "F64"@, 1, 8),
        named(30, "BF16"@, 1, 2),
{
}

/// An id outside the list is kept as it is and cannot be sized; no two ids stand
/// for one type.
pub proof fn lemma_other_type_ids(a: u32, b: u32)
    ensures
        (layout_of(type_of_id(a)) is None) == (a == 4 || a == 5 || 16 <= a < 24 || a == 29 || a > 30),
        layout_of(type_of_id(a)) is None ==> name_of(type_of_id(a)) == "type"@ + decimal(a as nat),
        type_of_id(a) == type_of_id(b) ==> a == b,
{
}

// -------------------------------------------------------------- plain numbers

/// One, two, four and eight bytes as a number: the first byte counts ones, the
/// next 256 times as much, and so on.
pub proof fn lemma_bytes_count(b: Seq<u8>)
    ensures
        b.len() == 1 ==> le(b) == b[0],
        b.len() == 2 ==> le(b) == b[0] + 0x100 * b[1],
        b.len() == 4 ==> le(b) == b[0] + 0x100 * b[1] + 0x1_0000 * b[2] + 0x100_0000 * b[3],
        b.len() == 8 ==> le(b) == b[0] + 0x100 * b[1] + 0x1_0000 * b[2] + 0x100_0000 * b[3] + 0x1_0000_0000 * b[4]
            + 0x100_0000_0000 * b[5] + 0x1_0000_0000_0000 * b[6] + 0x100_0000_0000_0000 * b[7],
{
    if b.len() > 0 {
        let b1 = b.drop_first();
        assert(le(b) == b[0] + 256 * le(b1));
        if b.len() == 1 {
            assert(b1 =~= Seq::empty());
        } else if b.len() == 2 || b.len() == 4 || b.len() == 8 {
            lemma_rest_counts(b);
        }
    }
}

proof fn lemma_rest_counts(b: Seq<u8>)
    requires
        b.len() == 2 || b.len() == 4 || b.len() == 8,
    ensures
        b.len() == 2 ==> le(b) == b[0] + 0x100 * b[1],
        b.len() == 4 ==> le(b) == b[0] + 0x100 * b[1] + 0x1_0000 * b[2] + 0x100_0000 * b[3],
        b.len() == 8 ==> le(b) == b[0] + 0x100 * b[1] + 0x1_0000 * b[2] + 0x100_0000 * b[3] + 0x1_0000_0000 * b[4]
            + 0x100_0000_0000 * b[5] + 0x1_0000_0000_0000 * b[6] + 0x100_0000_0000_0000 * b[7],
    decreases b.len(),
{
    let tail = b.skip(2);
    assert(b.drop_first().drop_first() =~= tail);
    assert(le(b) == b[0] + 256 * (b[1] + 256 * le(tail))) by {
        reveal_with_fuel(le, 3);
        assert(b.drop_first()[0] == b[1]);
    }
    if b.len() == 2 {
        assert(tail =~= Seq::empty());
    } else if b.len() == 4 {
        lemma_rest_counts(tail);
    } else {
        let more = tail.skip(2);
        assert(tail.drop_first().drop_first() =~= more);
        assert(le(tail) == tail[0] + 256 * (tail[1] + 256 * le(more))) by {
            reveal_with_fuel(le, 3);
            assert(tail.drop_first()[0] == tail[1]);
        }
        lemma_rest_counts(more);
    }
}

/// Whether a tag's value stands at `pos` with its `n` bytes in the buffer.
pub open spec fn in_buffer(buf: Seq<u8>, pos: int, n: int) -> bool {
    0 <= pos && pos + n <= buf.len() && pos + n <= usize::MAX
}

/// The number that `n` bytes at `pos` spell.
pub open spec fn at(buf: Seq<u8>, pos: int, n: int) -> int {
    le(buf.subrange(pos, pos + n)) as int
}

proof fn lemma_at(buf: Seq<u8>, pos: int, n: int)
    requires
        in_buffer(buf, pos, n),
        n == 1 || n == 2 || n == 4 || n == 8,
    ensures
        read_uint(buf, pos, n) == Ok::<(nat, int), ErrorView>((at(buf, pos, n) as nat, pos + n)),
        0 <= at(buf, pos, n),
        n == 1 ==> at(buf, pos, n) < 0x100 && at(buf, pos, n) == buf[pos],
        n == 2 ==> at(buf, pos, n) < 0x1_0000,
        n == 4 ==> at(buf, pos, n) < 0x1_0000_0000,
        n == 8 ==> at(buf, pos, n) < 0x1_0000_0000_0000_0000,
{
    lemma_le_bound(buf.subrange(pos, pos + n));
    lemma_spans();
    lemma_bytes_count(buf.subrange(pos, pos + n));
}

/// What stands under each tag. Signed numbers are in two's complement: the
/// number and its bytes leave one remainder. A flag is set unless its byte is 0.
pub proof fn lemma_tags(buf: Seq<u8>, pos: int)
    requires
        0 <= pos,
    ensures
        in_buffer(buf, pos, 1) ==> (read_scalar(buf, pos, 0) matches Ok((ValueView::U8(v), end)) && v == buf[pos] && end
            == pos + 1),
        in_buffer(buf, pos, 1) ==> (read_scalar(buf, pos, 1) matches Ok((ValueView::I8(v), end)) && (v as int) % 0x100
            == buf[pos] && end == pos + 1),
        in_buffer(buf, pos, 2) ==> (read_scalar(buf, pos, 2) matches Ok((ValueView::U16(v), end)) && v == at(buf, pos, 2)
            && end == pos + 2),
        in_buffer(buf, pos, 2) ==> (read_scalar(buf, pos, 3) matches Ok((ValueView::I16(v), end)) && (v as int)
            % 0x1_0000 == at(buf, pos, 2) && end == pos + 2),
        in_buffer(buf, pos, 4) ==> (read_scalar(buf, pos, 4) matches Ok((ValueView::U32(v), end)) && v == at(buf, pos, 4)
            && end == pos + 4),
        in_buffer(buf, pos, 4) ==> (read_scalar(buf, pos, 5) matches Ok((ValueView::I32(v), end)) && (v as int)
            % 0x1_0000_0000 == at(buf, pos, 4) && end == pos + 4),
        in_buffer(buf, pos, 4) ==> (read_scalar(buf, pos, 6) matches Ok((ValueView::F32(v), end)) && v == at(buf, pos, 4)
            && end == pos + 4),
        in_buffer(buf, pos, 1) ==> (read_scalar(buf, pos, 7) matches Ok((ValueView::Bool(v), end)) && v == (buf[pos] != 0)
            && end == pos + 1),
        in_buffer(buf, pos, 8) ==> (read_scalar(buf, pos, 10) matches Ok((ValueView::U64(v), end)) && v == at(buf, pos, 8)
            && end == pos + 8),
        in_buffer(buf, pos, 8) ==> (read_scalar(buf, pos, 11) matches Ok((ValueView::I64(v), end)) && (v as int)
            % 0x1_0000_0000_0000_0000 == at(buf, pos, 8) && end == pos + 8),
        in_buffer(buf, pos, 8) ==> (read_scalar(buf, pos, 12) matches Ok((ValueView::F64(v), end)) && v == at(buf, pos, 8)
            && end == pos + 8),
{
    if in_buffer(buf, pos, 1) {
        lemma_at(buf, pos, 1);
    }
    if in_buffer(buf, pos, 2) {
        lemma_at(buf, pos, 2);
    }
    if in_buffer(buf, pos, 4) {
        lemma_at(buf, pos, 4);
    }
    if in_buffer(buf, pos, 8) {
        lemma_at(buf, pos, 8);
    }
}

/// A text under tag 8: eight bytes of length, then so many bytes of UTF-8.
pub proof fn lemma_text_tag(buf: Seq<u8>, pos: int)
    requires
        in_buffer(buf, pos, 8),
        at(buf, pos, 8) <= 64 * 1024 * 1024,
        in_buffer(buf, pos + 8, at(buf, pos, 8)),
        valid_utf8(buf.subrange(pos + 8, pos + 8 + at(buf, pos, 8))),
    ensures
        ({
            let end = pos + 8 + at(buf, pos, 8);
            let s = decode_utf8(buf.subrange(pos + 8, end));
            &&& read_text(buf, pos) == Ok::<(Seq<char>, int), ErrorView>((s, end))
            &&& read_scalar(buf, pos, 8) == Ok::<(ValueView, int), ErrorView>((ValueView::Text(s), end))
        }),
{
    lemma_at(buf, pos, 8);
}

/// A text of more than 64 MiB is refused, and one that is not UTF-8.
pub proof fn lemma_refused_texts(buf: Seq<u8>, pos: int)
    requires
        in_buffer(buf, pos, 8),
    ensures
        at(buf, pos, 8) > 64 * 1024 * 1024 ==> read_text(buf, pos) is Err,
        in_buffer(buf, pos + 8, at(buf, pos, 8)) && !valid_utf8(buf.subrange(pos + 8, pos + 8 + at(buf, pos, 8)))
            ==> read_text(buf, pos) is Err,
        pos + 8 + at(buf, pos, 8) > buf.len() ==> read_text(buf, pos) is Err,
{
    lemma_at(buf, pos, 8);
}

/// The bytes that a number takes under a tag.
pub open spec fn number_size(tag: u32) -> int {
    if tag == 0 || tag == 1 || tag == 7 {
        1
    } else if tag == 2 || tag == 3 {
        2
    } else if 4 <= tag <= 6 {
        4
    } else {
        8
    }
}

proof fn lemma_items_lie_in_a_row(buf: Seq<u8>, pos: int, tag: u32, n: nat)
    requires
        0 <= pos,
        tag <= 7 || 10 <= tag <= 12,
        in_buffer(buf, pos, number_size(tag) * n),
    ensures
        read_items(buf, pos, tag, n) matches Ok((items, end)) && items.len() == n && end == pos + number_size(tag) * n
            && forall|k: int|
            0 <= k < n ==> read_scalar(buf, pos + number_size(tag) * k, tag) == Ok::<
                (ValueView, int),
                ErrorView,
            >((#[trigger] items[k], pos + number_size(tag) * k + number_size(tag))),
    decreases n,
{
    let w = number_size(tag);
    if n > 0 {
        assert(w * n == w * (n - 1) + w) by (nonlinear_arith);
        assert(w * (n - 1) >= 0) by (nonlinear_arith)
            requires
                w > 0,
                n > 0,
        ;
        lemma_items_lie_in_a_row(buf, pos, tag, (n - 1) as nat);
        lemma_tags(buf, pos + w * (n - 1));
    }
}

/// A list under tag 9: the tag of its items in four bytes, how many there are in
/// eight, then the items, one after the other.
pub proof fn lemma_list_tag(buf: Seq<u8>, pos: int)
    requires
        in_buffer(buf, pos, 12),
        at(buf, pos, 4) <= 7 || 10 <= at(buf, pos, 4) <= 12,
        in_buffer(buf, pos + 12, number_size(at(buf, pos, 4) as u32) * at(buf, pos + 4, 8)),
    ensures
        ({
            let tag = at(buf, pos, 4) as u32;
            let count = at(buf, pos + 4, 8);
            let w = number_size(tag);
            read_value(buf, pos, 9) matches Ok((ValueView::List(items), end)) && items.len() == count && end == pos + 12 + w
                * count && forall|k: int|
                0 <= k < count ==> read_scalar(buf, pos + 12 + w * k, tag) == Ok::<
                    (ValueView, int),
                    ErrorView,
                >((#[trigger] items[k], pos + 12 + w * k + w))
        }),
{
    lemma_at(buf, pos, 4);
    lemma_at(buf, pos + 4, 8);
    lemma_items_lie_in_a_row(buf, pos + 12, at(buf, pos, 4) as u32, at(buf, pos + 4, 8) as nat);
}

/// The items of a list are read one after the other, each where the one before
/// it ends.
pub proof fn lemma_list_items(buf: Seq<u8>, pos: int, tag: u32, n: nat)
    requires
        read_items(buf, pos, tag, n + 1) is Ok,
    ensures
        read_items(buf, pos, tag, n) matches Ok((items, next)) && (read_scalar(buf, next, tag) matches Ok((item, end))
            && read_items(buf, pos, tag, n + 1) == Ok::<(Seq<ValueView>, int), ErrorView>((items.push(item), end))),
        read_items(buf, pos, tag, 0) == Ok::<(Seq<ValueView>, int), ErrorView>((Seq::empty(), pos)),
{
}

proof fn lemma_no_item(buf: Seq<u8>, pos: int, tag: u32, n: nat)
    requires
        tag == 9 || tag > 12,
        n > 0,
    ensures
        read_items(buf, pos, tag, n) is Err,
    decreases n,
{
    if n > 1 {
        lemma_no_item(buf, pos, tag, (n - 1) as nat);
    }
}

/// A list of lists is refused, and so is a tag that the format does not have.
pub proof fn lemma_refused_tags(buf: Seq<u8>, pos: int, tag: u32)
    requires
        0 <= pos,
    ensures
        tag == 9 || tag > 12 ==> read_scalar(buf, pos, tag) is Err,
        tag > 12 ==> read_value(buf, pos, tag) is Err,
        in_buffer(buf, pos, 12) && (at(buf, pos, 4) == 9 || at(buf, pos, 4) > 12) && at(buf, pos + 4, 8) > 0 ==> read_value(
            buf,
            pos,
            9,
        ) is Err,
{
    if in_buffer(buf, pos, 12) {
        lemma_at(buf, pos, 4);
        lemma_at(buf, pos + 4, 8);
        if (at(buf, pos, 4) == 9 || at(buf, pos, 4) > 12) && at(buf, pos + 4, 8) > 0 {
            lemma_no_item(buf, pos + 12, at(buf, pos, 4) as u32, at(buf, pos + 4, 8) as nat);
        }
    }
}

/// A number of any kind is worth itself, a flag 0 or 1; negative numbers,
/// fractions, texts and lists have no unsigned worth.
pub proof fn lemma_unsigned_worth(value: ValueView)
    ensures
        value.as_u64() is Some ==> match value {
            ValueView::U8(v) => value.as_u64()->Some_0 == v,
            ValueView::U16(v) => value.as_u64()->Some_0 == v,
            ValueView::U32(v) => value.as_u64()->Some_0 == v,
            ValueView::U64(v) => value.as_u64()->Some_0 == v,
            ValueView::I8(v) => value.as_u64()->Some_0 == v,
            ValueView::I16(v) => value.as_u64()->Some_0 == v,
            ValueView::I32(v) => value.as_u64()->Some_0 == v,
            ValueView::I64(v) => value.as_u64()->Some_0 == v,
            ValueView::Bool(v) => value.as_u64()->Some_0 == 1 <==> v && value.as_u64()->Some_0 <= 1,
            _ => value != value,
        },
        value.as_u64() is None ==> match value {
            ValueView::I8(v) => v < 0,
            ValueView::I16(v) => v < 0,
            ValueView::I32(v) => v < 0,
            ValueView::I64(v) => v < 0,
            _ => value is F32 || value is F64 || value is Text || value is List,
        },
        value.is_number() == !(value is Text || value is List),
{
}

// -------------------------------------------------------------------- tensors

/// The number of elements of a shape.
pub open spec fn volume(dims: Seq<u64>) -> nat
    decreases dims.len(),
{
    if dims.len() == 0 {
        1
    } else {
        dims[0] as nat * volume(dims.drop_first())
    }
}

proof fn lemma_volume_push(dims: Seq<u64>, last: u64)
    ensures
        volume(dims.push(last)) == volume(dims) * last,
    decreases dims.len(),
{
    let all = dims.push(last);
    if dims.len() == 0 {
        assert(all.drop_first() =~= Seq::empty());
        reveal_with_fuel(volume, 2);
        assert(last as nat * 1 == 1 * last as nat) by (nonlinear_arith);
    } else {
        let rest = dims.drop_first();
        assert(all.drop_first() =~= rest.push(last));
        lemma_volume_push(rest, last);
        let (a, b, c) = (dims[0] as int, volume(rest) as int, last as int);
        assert(a * (b * c) == (a * b) * c) by (nonlinear_arith);
    }
}

/// The element count of a tensor is the product of its dimensions. It is refused
/// only where the product of the first few of them is too large.
pub proof fn lemma_element_count(dims: Seq<u64>)
    ensures
        match product(dims) {
            Some(n) => n == volume(dims),
            None => exists|k: int| 0 <= k <= dims.len() && volume(#[trigger] dims.take(k)) > u64::MAX,
        },
    decreases dims.len(),
{
    if dims.len() > 0 {
        let front = dims.drop_last();
        assert(front.push(dims.last()) =~= dims);
        lemma_volume_push(front, dims.last());
        lemma_element_count(front);
        if product(front) is None {
            let k = choose|k: int| 0 <= k <= front.len() && volume(#[trigger] front.take(k)) > u64::MAX;
            assert(front.take(k) =~= dims.take(k));
        } else {
            assert(dims.take(dims.len() as int) =~= dims);
        }
    }
}

proof fn lemma_dims_lie_in_a_row(buf: Seq<u8>, pos: int, n: nat)
    requires
        read_dims(buf, pos, n) is Ok,
        0 <= pos,
    ensures
        ({
            let (dims, end) = read_dims(buf, pos, n)->Ok_0;
            &&& dims.len() == n
            &&& end == pos + 8 * n
            &&& n > 0 ==> in_buffer(buf, pos, 8 * n as int)
            &&& forall|k: int| 0 <= k < n ==> #[trigger] dims[k] == at(buf, pos + 8 * k, 8)
        }),
    decreases n,
{
    if n > 0 {
        lemma_dims_lie_in_a_row(buf, pos, (n - 1) as nat);
        let before = read_dims(buf, pos, (n - 1) as nat)->Ok_0;
        assert(in_buffer(buf, pos + 8 * (n - 1), 8));
        lemma_at(buf, pos + 8 * (n - 1), 8);
    }
}

/// The fields of a tensor's description behind its name: the number of
/// dimensions in four bytes, the dimensions in eight each, the id of the type in
/// four, the offset in eight. Its bytes are as many as its elements take at so
/// many to a block.
pub proof fn lemma_tensor_fields(buf: Seq<u8>, pos: int)
    requires
        0 <= pos,
        read_tensor(buf, pos) is Ok,
    ensures
        ({
            let (t, end) = read_tensor(buf, pos)->Ok_0;
            let (name, p) = read_text(buf, pos)->Ok_0;
            let n = at(buf, p, 4);
            &&& read_text(buf, pos) is Ok
            &&& t.name == name
            &&& 1 <= n <= 4
            &&& t.dims.len() == n
            &&& forall|k: int| 0 <= k < n ==> #[trigger] t.dims[k] == at(buf, p + 4 + 8 * k, 8)
            &&& t.ty == type_of_id(at(buf, p + 4 + 8 * n, 4) as u32)
            &&& t.offset == at(buf, p + 8 + 8 * n, 8)
            &&& end == p + 16 + 8 * n
            &&& match (t.byte_len, layout_of(t.ty)) {
                (Some(len), Some((block, size))) => len * block == volume(t.dims) * size,
                (None, None) => true,
                _ => false,
            }
        }),
{
    let (t, end) = read_tensor(buf, pos)->Ok_0;
    let (name, p) = read_text(buf, pos)->Ok_0;
    let (m, start) = read_uint(buf, pos, 8)->Ok_0;
    assert(start == pos + 8 && p == start + m);
    assert(in_buffer(buf, p, 4));
    lemma_at(buf, p, 4);
    let n = at(buf, p, 4);
    lemma_dims_lie_in_a_row(buf, p + 4, n as nat);
    assert(in_buffer(buf, p + 4 + 8 * n, 4));
    lemma_at(buf, p + 4 + 8 * n, 4);
    assert(in_buffer(buf, p + 8 + 8 * n, 8));
    lemma_at(buf, p + 8 + 8 * n, 8);
    lemma_element_count(t.dims);
    if let Some((block, size)) = layout_of(t.ty) {
        let elements = product(t.dims)->Some_0 as int;
        let (b, s) = (block as int, size as int);
        assert(b > 0);
        vstd::arithmetic::div_mod::lemma_fundamental_div_mod(elements, b);
        let q = elements / b;
        assert(elements == b * q);
        assert((q * s) * b == elements * s) by (nonlinear_arith)
            requires
                elements == b * q,
        ;
    }
}

proof fn lemma_dims_are_read(buf: Seq<u8>, pos: int, n: nat)
    requires
        0 <= pos,
        in_buffer(buf, pos, 8 * n as int),
    ensures
        read_dims(buf, pos, n) == Ok::<(Seq<u64>, int), ErrorView>(
            (Seq::new(n, |k: int| at(buf, pos + 8 * k, 8) as u64), pos + 8 * n),
        ),
    decreases n,
{
    if n > 0 {
        lemma_dims_are_read(buf, pos, (n - 1) as nat);
        lemma_at(buf, pos + 8 * (n - 1), 8);
        let before = Seq::new((n - 1) as nat, |k: int| at(buf, pos + 8 * k, 8) as u64);
        let all = Seq::new(n, |k: int| at(buf, pos + 8 * k, 8) as u64);
        assert(before.push(at(buf, pos + 8 * (n - 1), 8) as u64) =~= all);
    } else {
        assert(Seq::<u64>::empty() =~= Seq::new(n, |k: int| at(buf, pos + 8 * k, 8) as u64));
    }
}

/// A tensor has one to four dimensions. Its description is accepted where all of
/// it is there and its size can be told: its elements are counted without
/// overflow and fill whole blocks, and so do their bytes; a type without a size
/// is accepted too.
pub proof fn lemma_accepted_tensors(buf: Seq<u8>, pos: int)
    requires
        0 <= pos,
        read_text(buf, pos) is Ok,
        in_buffer(buf, read_text(buf, pos)->Ok_0.1, 4),
    ensures
        ({
            let (name, p) = read_text(buf, pos)->Ok_0;
            let n = at(buf, p, 4);
            let dims = Seq::new(n as nat, |k: int| at(buf, p + 4 + 8 * k, 8) as u64);
            let ty = type_of_id(at(buf, p + 4 + 8 * n, 4) as u32);
            &&& n == 0 || n > 4 ==> read_tensor(buf, pos) is Err
            &&& 1 <= n <= 4 && in_buffer(buf, p, 16 + 8 * n) && product(dims) is None ==> read_tensor(buf, pos) is Err
            &&& 1 <= n <= 4 && in_buffer(buf, p, 16 + 8 * n) && product(dims) is Some ==> (read_tensor(buf, pos) is Ok) == (
            match layout_of(ty) {
                None => true,
                Some((block, size)) => product(dims)->Some_0 % block == 0 && (product(dims)->Some_0 / block) * size
                    <= u64::MAX,
            })
        }),
{
    let (name, p) = read_text(buf, pos)->Ok_0;
    let (m, start) = read_uint(buf, pos, 8)->Ok_0;
    assert(start == pos + 8 && p == start + m);
    lemma_at(buf, p, 4);
    let n = at(buf, p, 4);
    if 1 <= n <= 4 && in_buffer(buf, p, 16 + 8 * n) {
        lemma_dims_are_read(buf, p + 4, n as nat);
        lemma_at(buf, p + 4 + 8 * n, 4);
        lemma_at(buf, p + 8 + 8 * n, 8);
    }
}

// ----------------------------------------------------------------------- file

/// The header: `GGUF`, the version, 2 or 3, in four bytes, how many tensors and
/// how many metadata entries there are in eight each, then the entries and the
/// descriptions. The data begin at the next multiple of the alignment, which is
/// 32 where the file names none; a tensor begins at its offset from there.
pub proof fn lemma_header_fields(bytes: Seq<u8>, t: TensorView)
    requires
        parse(bytes) is Ok,
    ensures
        ({
            let file = parse(bytes)->Ok_0;
            let (meta, p) = read_entries(bytes, 24, at(bytes, 16, 8) as nat)->Ok_0;
            let (tensors, q) = read_tensors(bytes, p, at(bytes, 8, 8) as nat)->Ok_0;
            &&& bytes.len() >= 24
            &&& bytes[0] == 'G' as u8 && bytes[1] == 'G' as u8 && bytes[2] == 'U' as u8 && bytes[3] == 'F' as u8
            &&& file.version == at(bytes, 4, 4)
            &&& file.version == 2 || file.version == 3
            &&& read_entries(bytes, 24, at(bytes, 16, 8) as nat) is Ok
            &&& read_tensors(bytes, p, at(bytes, 8, 8) as nat) is Ok
            &&& file.meta == meta
            &&& file.tensors == tensors
            &&& !meta.contains_key("general.alignment"@) ==> file.alignment == 32
            &&& meta.contains_key("general.alignment"@) ==> meta["general.alignment"@].as_u64() == Some(file.alignment)
            &&& file.alignment > 0
            &&& file.data_offset as int % file.alignment as int == 0
            &&& q <= file.data_offset < q + file.alignment
            &&& file.start(t) == file.data_offset + t.offset
            &&& file.bytes == bytes
        }),
{
    let file = parse(bytes)->Ok_0;
    let head = bytes.subrange(0, 4);
    assert(head == magic());
    assert(head[0] == bytes[0] && head[1] == bytes[1] && head[2] == bytes[2] && head[3] == bytes[3]);
    lemma_at(bytes, 4, 4);
    lemma_at(bytes, 8, 8);
    lemma_at(bytes, 16, 8);
    let (meta, p) = read_entries(bytes, 24, at(bytes, 16, 8) as nat)->Ok_0;
    let alignment = alignment_of(meta)->Ok_0;
    let (tensors, q) = read_tensors(bytes, p, at(bytes, 8, 8) as nat)->Ok_0;
    assert(is_pow2(alignment as int));
    reveal(is_pow2);
    assert(alignment > 0);
    lemma_entries_advance(bytes, 24, at(bytes, 16, 8) as nat);
    lemma_tensors_advance(bytes, p, at(bytes, 8, 8) as nat);
    lemma_aligned(q, alignment as int);
}

/// A file of version 2 or 3 is accepted exactly if its entries and descriptions
/// can be read, its alignment is one, and its data begin and every tensor ends
/// inside it.
pub proof fn lemma_accepted_files(bytes: Seq<u8>)
    requires
        24 <= bytes.len() <= usize::MAX,
        bytes[0] == 'G' as u8 && bytes[1] == 'G' as u8 && bytes[2] == 'U' as u8 && bytes[3] == 'F' as u8,
        at(bytes, 4, 4) == 2 || at(bytes, 4, 4) == 3,
    ensures
        ({
            let (meta, p) = read_entries(bytes, 24, at(bytes, 16, 8) as nat)->Ok_0;
            let (tensors, q) = read_tensors(bytes, p, at(bytes, 8, 8) as nat)->Ok_0;
            let start = aligned(q, alignment_of(meta)->Ok_0 as int);
            (parse(bytes) is Ok) == {
                &&& read_entries(bytes, 24, at(bytes, 16, 8) as nat) is Ok
                &&& alignment_of(meta) is Ok
                &&& read_tensors(bytes, p, at(bytes, 8, 8) as nat) is Ok
                &&& start <= bytes.len()
                &&& forall|i: int|
                    0 <= i < tensors.len() ==> ((#[trigger] tensors[i]).byte_len matches Some(len) ==> start
                        + tensors[i].offset + len <= bytes.len())
            }
        }),
{
    let head = bytes.subrange(0, 4);
    assert(head[0] == bytes[0] && head[1] == bytes[1] && head[2] == bytes[2] && head[3] == bytes[3]);
    assert(head =~= magic());
    lemma_at(bytes, 4, 4);
    lemma_at(bytes, 8, 8);
    lemma_at(bytes, 16, 8);
    let (meta, p) = read_entries(bytes, 24, at(bytes, 16, 8) as nat)->Ok_0;
    let (tensors, q) = read_tensors(bytes, p, at(bytes, 8, 8) as nat)->Ok_0;
    let start = aligned(q, alignment_of(meta)->Ok_0 as int);
    lemma_all_fit(tensors, tensors.len(), start, bytes.len() as int);
}

proof fn lemma_all_fit(tensors: Seq<TensorView>, n: nat, start: int, file_len: int)
    requires
        n <= tensors.len(),
        0 <= file_len <= u64::MAX,
    ensures
        (first_misfit(tensors, n, start, file_len) is None) == (forall|i: int|
            0 <= i < n ==> ((#[trigger] tensors[i]).byte_len matches Some(len) ==> start + tensors[i].offset + len
                <= file_len)),
    decreases n,
{
    if n > 0 {
        lemma_all_fit(tensors, (n - 1) as nat, start, file_len);
        lemma_tensors_must_fit(tensors[n - 1], start, file_len);
        if first_misfit(tensors, n, start, file_len) is None {
            assert forall|i: int| 0 <= i < n implies ((#[trigger] tensors[i]).byte_len matches Some(len) ==> start
                + tensors[i].offset + len <= file_len) by {
                if i == n - 1 {
                    assert(misfit(tensors[n - 1], start, file_len) is None);
                }
            }
        } else if forall|i: int|
            0 <= i < n ==> ((#[trigger] tensors[i]).byte_len matches Some(len) ==> start + tensors[i].offset + len
                <= file_len) {
            assert(tensors[n - 1].byte_len matches Some(len) ==> start + tensors[n - 1].offset + len <= file_len);
        }
    }
}

/// Of two entries under one key the later one counts, and an entry changes
/// nothing under other keys.
pub proof fn lemma_later_entry_counts(buf: Seq<u8>, pos: int, n: nat)
    requires
        read_entries(buf, pos, n + 1) is Ok,
    ensures
        ({
            let (before, next) = read_entries(buf, pos, n)->Ok_0;
            let ((key, value), end) = read_entry(buf, next)->Ok_0;
            let (after, last) = read_entries(buf, pos, n + 1)->Ok_0;
            &&& read_entries(buf, pos, n) is Ok && read_entry(buf, next) is Ok
            &&& last == end
            &&& after.contains_key(key) && after[key] == value
            &&& forall|other: Seq<char>|
                other != key ==> (#[trigger] after.contains_key(other)) == before.contains_key(other) && after[other]
                    == before[other]
            &&& read_entries(buf, pos, 0) matches Ok((none, start)) && start == pos && none.dom().is_empty()
        }),
{
    assert(read_entries(buf, pos, 0)->Ok_0.0.dom() =~= Set::empty());
}

/// An entry is a key, the tag of its value in four bytes, and the value.
pub proof fn lemma_entry_fields(buf: Seq<u8>, pos: int)
    requires
        0 <= pos,
        read_entry(buf, pos) is Ok,
    ensures
        ({
            let ((key, value), end) = read_entry(buf, pos)->Ok_0;
            let (name, p) = read_text(buf, pos)->Ok_0;
            &&& read_text(buf, pos) is Ok && key == name
            &&& in_buffer(buf, p, 4)
            &&& read_value(buf, p + 4, at(buf, p, 4) as u32) == Ok::<(ValueView, int), ErrorView>((value, end))
        }),
{
    let (name, p) = read_text(buf, pos)->Ok_0;
    let (m, start) = read_uint(buf, pos, 8)->Ok_0;
    assert(start == pos + 8 && p == start + m);
    assert(in_buffer(buf, p, 4));
    lemma_at(buf, p, 4);
}

/// A tensor whose bytes end inside the file is accepted, also where they end
/// with it; any other is refused. One without a size is not looked at.
pub proof fn lemma_tensors_must_fit(t: TensorView, data_offset: int, file_len: int)
    requires
        0 <= file_len <= u64::MAX,
    ensures
        t.byte_len matches Some(len) ==> (misfit(t, data_offset, file_len) is None) == (data_offset + t.offset + len
            <= file_len),
        t.byte_len is None ==> misfit(t, data_offset, file_len) is None,
{
}

/// An alignment is accepted exactly if it is a power of two.
pub proof fn lemma_alignments(meta: Map<Seq<char>, ValueView>, n: u64)
    requires
        meta.contains_key("general.alignment"@),
        meta["general.alignment"@].as_u64() == Some(n),
    ensures
        is_pow2(n as int) ==> alignment_of(meta) == Ok::<u64, ErrorView>(n),
        !is_pow2(n as int) ==> alignment_of(meta) is Err,
{
}

proof fn lemma_items_complaint(buf: Seq<u8>, pos: int, tag: u32, n: nat)
    ensures
        read_items(buf, pos, tag, n) matches Err(e) ==> e.kind == ErrorKind::InvalidData,
    decreases n,
{
    if n > 0 {
        lemma_items_complaint(buf, pos, tag, (n - 1) as nat);
    }
}

proof fn lemma_entries_complaint(buf: Seq<u8>, pos: int, n: nat)
    ensures
        read_entries(buf, pos, n) matches Err(e) ==> e.kind == ErrorKind::InvalidData,
    decreases n,
{
    if n > 0 {
        lemma_entries_complaint(buf, pos, (n - 1) as nat);
        if let Ok((table, next)) = read_entries(buf, pos, (n - 1) as nat) {
            if let Ok((key, p)) = read_text(buf, next) {
                if let Ok((tag, q)) = read_uint(buf, p, 4) {
                    if let Ok((inner, r)) = read_uint(buf, q, 4) {
                        if let Ok((count, t)) = read_uint(buf, r, 8) {
                            lemma_items_complaint(buf, t, inner as u32, count);
                        }
                    }
                }
            }
        }
    }
}

proof fn lemma_dims_complaint(buf: Seq<u8>, pos: int, n: nat)
    ensures
        read_dims(buf, pos, n) matches Err(e) ==> e.kind == ErrorKind::InvalidData,
    decreases n,
{
    if n > 0 {
        lemma_dims_complaint(buf, pos, (n - 1) as nat);
    }
}

proof fn lemma_tensors_complaint(buf: Seq<u8>, pos: int, n: nat)
    ensures
        read_tensors(buf, pos, n) matches Err(e) ==> e.kind == ErrorKind::InvalidData,
    decreases n,
{
    if n > 0 {
        lemma_tensors_complaint(buf, pos, (n - 1) as nat);
        if let Ok((tensors, next)) = read_tensors(buf, pos, (n - 1) as nat) {
            if let Ok((name, p)) = read_text(buf, next) {
                if let Ok((count, q)) = read_uint(buf, p, 4) {
                    lemma_dims_complaint(buf, q, count);
                }
            }
        }
    }
}

proof fn lemma_misfit_complaint(tensors: Seq<TensorView>, n: nat, data_offset: int, file_len: int)
    ensures
        first_misfit(tensors, n, data_offset, file_len) matches Some(e) ==> e.kind == ErrorKind::InvalidData,
    decreases n,
{
    if n > 0 {
        lemma_misfit_complaint(tensors, (n - 1) as nat, data_offset, file_len);
    }
}

/// Whatever is wrong with a file, the complaint is about its data.
pub proof fn lemma_complaints_are_about_data(bytes: Seq<u8>)
    ensures
        parse(bytes) matches Err(e) ==> e.kind == ErrorKind::InvalidData,
{
    if let Ok((start, p)) = read_bytes(bytes, 0, 4) {
        if let Ok((version, q)) = read_uint(bytes, p, 4) {
            if let Ok((tensor_count, r)) = read_uint(bytes, q, 8) {
                if let Ok((meta_count, s)) = read_uint(bytes, r, 8) {
                    lemma_entries_complaint(bytes, s, meta_count);
                    if let Ok((meta, t)) = read_entries(bytes, s, meta_count) {
                        if let Ok(alignment) = alignment_of(meta) {
                            lemma_tensors_complaint(bytes, t, tensor_count);
                            if let Ok((tensors, u)) = read_tensors(bytes, t, tensor_count) {
                                lemma_misfit_complaint(
                                    tensors,
                                    tensors.len(),
                                    aligned(u, alignment as int),
                                    bytes.len() as int,
                                );
                            }
                        }
                    }
                }
            }
        }
    }
}

/// A written file starts with `GGUF`, version 3, and the numbers of its tensors
/// and its metadata entries.
pub proof fn lemma_written_header(b: BuilderView)
    requires
        b.tensors.len() < 0x1_0000_0000_0000_0000,
        b.meta.len() < 0x1_0000_0000_0000_0000,
    ensures
        ({
            let bytes = file_bytes(b);
            &&& bytes.len() >= 24
            &&& bytes[0] == 'G' as u8 && bytes[1] == 'G' as u8 && bytes[2] == 'U' as u8 && bytes[3] == 'F' as u8
            &&& at(bytes, 4, 4) == 3
            &&& at(bytes, 8, 8) == b.tensors.len()
            &&& at(bytes, 16, 8) == b.meta.len()
        }),
{
    lemma_spans();
    let (v, t, m) = (le_bytes(3, 4), le_bytes(b.tensors.len(), 8), le_bytes(b.meta.len(), 8));
    lemma_le_bytes_len(3, 4);
    lemma_le_bytes_len(b.tensors.len(), 8);
    lemma_le_bytes_len(b.meta.len(), 8);
    lemma_le_round_trip(3, 4);
    lemma_le_round_trip(b.tensors.len(), 8);
    lemma_le_round_trip(b.meta.len(), 8);
    let head = head_bytes(b);
    let front = magic() + v + t + m;
    assert(front.len() == 24);
    assert(head.len() >= 24 && head.subrange(0, 24) =~= front);
    let bytes = file_bytes(b);
    assert(bytes.subrange(0, 24) =~= front);
    assert(bytes[0] == bytes.subrange(0, 24)[0] && bytes[1] == bytes.subrange(0, 24)[1]);
    assert(bytes[2] == bytes.subrange(0, 24)[2] && bytes[3] == bytes.subrange(0, 24)[3]);
    assert(bytes.subrange(4, 8) =~= bytes.subrange(0, 24).subrange(4, 8));
    assert(bytes.subrange(8, 16) =~= bytes.subrange(0, 24).subrange(8, 16));
    assert(bytes.subrange(16, 24) =~= bytes.subrange(0, 24).subrange(16, 24));
    assert(front.subrange(4, 8) =~= v);
    assert(front.subrange(8, 16) =~= t);
    assert(front.subrange(16, 24) =~= m);
}

/// A file is filled up with zeros to a multiple of 32 bytes, and no further than
/// needed.
pub proof fn lemma_padding(bytes: Seq<u8>)
    ensures
        padded(bytes).len() % 32 == 0,
        bytes.len() <= padded(bytes).len() < bytes.len() + 32,
        padded(bytes).take(bytes.len() as int) == bytes,
        forall|i: int| bytes.len() <= i < padded(bytes).len() ==> #[trigger] padded(bytes)[i] == 0,
{
    lemma_aligned(bytes.len() as int, 32);
    assert(padded(bytes).take(bytes.len() as int) =~= bytes);
}

/// A written list starts with the tag of its first item, that of a `u32` where
/// it has none, and with its length.
pub proof fn lemma_written_list(items: Seq<ValueView>)
    requires
        items.len() < 0x1_0000_0000_0000_0000,
    ensures
        ({
            let bytes = value_bytes(ValueView::List(items));
            &&& bytes.len() >= 12
            &&& at(bytes, 0, 4) == (if items.len() == 0 {
                4
            } else {
                items[0].type_id() as int
            })
            &&& at(bytes, 4, 8) == items.len()
        }),
{
    lemma_spans();
    let tag: nat = if items.len() == 0 {
        4
    } else {
        items[0].type_id() as nat
    };
    lemma_le_bytes_len(tag, 4);
    lemma_le_bytes_len(items.len(), 8);
    lemma_le_round_trip(tag, 4);
    lemma_le_round_trip(items.len(), 8);
    let bytes = value_bytes(ValueView::List(items));
    assert(bytes.subrange(0, 4) =~= le_bytes(tag, 4));
    assert(bytes.subrange(4, 12) =~= le_bytes(items.len(), 8));
}

/// A list is one of texts if every item is a text, and one of numbers if no item
/// is a text or a list.
pub proof fn lemma_lists_of_one_kind(items: Seq<ValueView>)
    ensures
        all_texts(items) == (forall|i: int| 0 <= i < items.len() ==> #[trigger] items[i] is Text),
        all_numbers(items) == (forall|i: int|
            0 <= i < items.len() ==> !(#[trigger] items[i] is Text) && !(items[i] is List)),
{
}

} // verus!
