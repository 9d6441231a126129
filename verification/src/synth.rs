//! Minimal GGUF writer, for fixtures.
//!
//! A parser that can only be tested against an 800 MB download is a parser
//! nobody tests. This writes small valid files instead. That the parser gives
//! back what was written is proved at the end of the file, not sampled.

use vstd::arithmetic::power2::is_pow2;
use vstd::prelude::*;
use vstd::slice::slice_to_vec;
use vstd::utf8::{encode_utf8, encode_utf8_decode_utf8, encode_utf8_valid_utf8};

use crate::error::ErrorView;
use crate::gguf::{
    align_up, aligned, alignment_of, first_misfit, has_name, lemma_aligned, lemma_parsed_is_valid, magic, misfit, parse, parse_body,
    product, read_bytes, read_dims, read_entries, read_entry, read_items, read_scalar, read_tensor, read_tensors,
    read_text, read_uint, read_value, GgmlType, TensorView, Value, ValueView, MAX_DIMS, MAX_STRING,
};
use crate::le::{le_bytes, lemma_le_bytes_len, lemma_le_round_trip, lemma_spans, span, write_le};
use crate::value::{layout_of, type_of_id, views};

verus! {

/// Alignment of the tensor data.
pub const ALIGNMENT: u64 = 32;

// ------------------------------------------------------------------------ spec

/// A tensor to be written.
#[verifier::ext_equal]
pub ghost struct PartView {
    pub name: Seq<char>,
    pub dims: Seq<u64>,
    pub ty: GgmlType,
    pub data: Seq<u8>,
}

/// A file to be written.
#[verifier::ext_equal]
pub ghost struct BuilderView {
    pub meta: Seq<(Seq<char>, ValueView)>,
    pub tensors: Seq<PartView>,
}

/// A string: its length in bytes, then its UTF-8.
pub open spec fn text_bytes(s: Seq<char>) -> Seq<u8> {
    le_bytes(encode_utf8(s).len(), 8) + encode_utf8(s)
}

/// The two's complement of a number.
pub open spec fn unsigned(v: int, half: int) -> nat {
    if v < 0 {
        (v + 2 * half) as nat
    } else {
        v as nat
    }
}

/// The tag in front of the items of a list: that of the first item, and that of
/// a `u32` where there is none.
pub open spec fn inner_tag(items: Seq<ValueView>) -> u32 {
    if items.len() == 0 {
        4
    } else {
        items[0].type_id()
    }
}

/// The first `n` items, one after the other.
pub open spec fn items_bytes(items: Seq<ValueView>, n: nat) -> Seq<u8>
    decreases items, n,
{
    if n == 0 || n > items.len() {
        Seq::empty()
    } else {
        items_bytes(items, (n - 1) as nat) + value_bytes(items[n - 1])
    }
}

/// A value without its type tag.
pub open spec fn value_bytes(value: ValueView) -> Seq<u8>
    decreases value, 0nat,
{
    match value {
        ValueView::U8(v) => le_bytes(v as nat, 1),
        ValueView::I8(v) => le_bytes(unsigned(v as int, 0x80), 1),
        ValueView::U16(v) => le_bytes(v as nat, 2),
        ValueView::I16(v) => le_bytes(unsigned(v as int, 0x8000), 2),
        ValueView::U32(v) => le_bytes(v as nat, 4),
        ValueView::I32(v) => le_bytes(unsigned(v as int, 0x8000_0000), 4),
        ValueView::F32(v) => le_bytes(v as nat, 4),
        ValueView::Bool(v) => le_bytes(if v { 1 } else { 0 }, 1),
        ValueView::Text(s) => text_bytes(s),
        ValueView::List(items) => le_bytes(inner_tag(items) as nat, 4) + le_bytes(items.len(), 8) + items_bytes(
            items,
            items.len(),
        ),
        ValueView::U64(v) => le_bytes(v as nat, 8),
        ValueView::I64(v) => le_bytes(unsigned(v as int, 0x8000_0000_0000_0000), 8),
        ValueView::F64(v) => le_bytes(v as nat, 8),
    }
}

/// A metadata entry.
pub open spec fn entry_bytes(entry: (Seq<char>, ValueView)) -> Seq<u8> {
    text_bytes(entry.0) + le_bytes(entry.1.type_id() as nat, 4) + value_bytes(entry.1)
}

/// The first `n` metadata entries.
pub open spec fn entries_bytes(meta: Seq<(Seq<char>, ValueView)>, n: nat) -> Seq<u8>
    decreases n,
{
    if n == 0 {
        Seq::empty()
    } else {
        entries_bytes(meta, (n - 1) as nat) + entry_bytes(meta[n - 1])
    }
}

/// The first `n` dimensions.
pub open spec fn dims_bytes(dims: Seq<u64>, n: nat) -> Seq<u8>
    decreases n,
{
    if n == 0 {
        Seq::empty()
    } else {
        dims_bytes(dims, (n - 1) as nat) + le_bytes(dims[n - 1] as nat, 8)
    }
}

/// The id of a type.
pub open spec fn id_of(ty: GgmlType) -> u32 {
    match ty {
        GgmlType::F32 => 0,
        GgmlType::F16 => 1,
        GgmlType::Q4_0 => 2,
        GgmlType::Q4_1 => 3,
        GgmlType::Q5_0 => 6,
        GgmlType::Q5_1 => 7,
        GgmlType::Q8_0 => 8,
        GgmlType::Q8_1 => 9,
        GgmlType::Q2_K => 10,
        GgmlType::Q3_K => 11,
        GgmlType::Q4_K => 12,
        GgmlType::Q5_K => 13,
        GgmlType::Q6_K => 14,
        GgmlType::Q8_K => 15,
        GgmlType::I8 => 24,
        GgmlType::I16 => 25,
        GgmlType::I32 => 26,
        GgmlType::I64 => 27,
        GgmlType::F64 => 28,
        GgmlType::BF16 => 30,
        GgmlType::Other(id) => id,
    }
}

/// Where the `n`th tensor starts in the blob: behind the earlier ones, aligned.
pub open spec fn offset_of(tensors: Seq<PartView>, n: nat) -> int
    decreases n,
{
    if n == 0 {
        0
    } else {
        aligned(offset_of(tensors, (n - 1) as nat) + tensors[n - 1].data.len(), ALIGNMENT as int)
    }
}

/// A tensor's description.
pub open spec fn info_bytes(t: PartView, offset: int) -> Seq<u8> {
    text_bytes(t.name) + le_bytes(t.dims.len(), 4) + dims_bytes(t.dims, t.dims.len()) + le_bytes(id_of(t.ty) as nat, 4)
        + le_bytes(offset as nat, 8)
}

/// The first `n` descriptions.
pub open spec fn infos_bytes(tensors: Seq<PartView>, n: nat) -> Seq<u8>
    decreases n,
{
    if n == 0 {
        Seq::empty()
    } else {
        infos_bytes(tensors, (n - 1) as nat) + info_bytes(tensors[n - 1], offset_of(tensors, (n - 1) as nat))
    }
}

/// `n` zero bytes.
pub open spec fn zeros(n: int) -> Seq<u8> {
    Seq::new(n as nat, |i: int| 0u8)
}

/// The bytes, filled up with zeros to the next multiple of the alignment.
pub open spec fn padded(bytes: Seq<u8>) -> Seq<u8> {
    bytes + zeros(aligned(bytes.len() as int, ALIGNMENT as int) - bytes.len())
}

/// The data of the first `n` tensors, each padded.
pub open spec fn blob_bytes(tensors: Seq<PartView>, n: nat) -> Seq<u8>
    decreases n,
{
    if n == 0 {
        Seq::empty()
    } else {
        padded(blob_bytes(tensors, (n - 1) as nat) + tensors[n - 1].data)
    }
}

/// Everything in front of the blob, without the padding.
pub open spec fn head_bytes(b: BuilderView) -> Seq<u8> {
    magic() + le_bytes(3, 4) + le_bytes(b.tensors.len(), 8) + le_bytes(b.meta.len(), 8) + entries_bytes(
        b.meta,
        b.meta.len(),
    ) + infos_bytes(b.tensors, b.tensors.len())
}

/// The file.
pub open spec fn file_bytes(b: BuilderView) -> Seq<u8> {
    padded(head_bytes(b)) + blob_bytes(b.tensors, b.tensors.len())
}

/// Whether the data of a tensor are as long as its shape and type ask for.
pub open spec fn fills(dims: Seq<u64>, ty: GgmlType, data_len: nat) -> bool {
    product(dims) matches Some(elements) && layout_of(ty) matches Some((block, size)) && elements % block == 0 && data_len
        == (elements / block) * size && data_len <= u64::MAX
}

proof fn lemma_blob_len(tensors: Seq<PartView>, n: nat)
    requires
        n <= tensors.len(),
    ensures
        blob_bytes(tensors, n).len() == offset_of(tensors, n),
        offset_of(tensors, n) >= 0,
    decreases n,
{
    if n > 0 {
        lemma_blob_len(tensors, (n - 1) as nat);
        lemma_aligned(offset_of(tensors, (n - 1) as nat) + tensors[n - 1].data.len(), ALIGNMENT as int);
    }
}

proof fn lemma_offset_monotonic(tensors: Seq<PartView>, k: nat, n: nat)
    requires
        k < n <= tensors.len(),
    ensures
        0 <= offset_of(tensors, k),
        offset_of(tensors, k) + tensors[k as int].data.len() <= offset_of(tensors, n),
    decreases n,
{
    lemma_aligned(offset_of(tensors, (n - 1) as nat) + tensors[n - 1].data.len(), ALIGNMENT as int);
    lemma_blob_len(tensors, k);
    if k < n - 1 {
        lemma_offset_monotonic(tensors, k, (n - 1) as nat);
    }
}

// ------------------------------------------------------------------------ exec

struct Part {
    name: String,
    dims: Vec<u64>,
    ty: GgmlType,
    data: Vec<u8>,
}

/// A file under construction.
pub struct Builder {
    meta: Vec<(String, Value)>,
    tensors: Vec<Part>,
}

impl View for Part {
    type V = PartView;

    closed spec fn view(&self) -> PartView {
        PartView { name: self.name@, dims: self.dims@, ty: self.ty, data: self.data@ }
    }
}

impl View for Builder {
    type V = BuilderView;

    closed spec fn view(&self) -> BuilderView {
        BuilderView {
            meta: self.meta@.map_values(|e: (String, Value)| (e.0@, e.1@)),
            tensors: self.tensors@.map_values(|t: Part| t@),
        }
    }
}

impl Default for Builder {
    fn default() -> (b: Self)
        ensures
            b@ == (BuilderView { meta: Seq::empty(), tensors: Seq::empty() }),
    {
        Builder::new()
    }
}

impl Builder {
    /// An empty file.
    pub fn new() -> (b: Self)
        ensures
            b@ == (BuilderView { meta: Seq::empty(), tensors: Seq::empty() }),
    {
        let b = Builder { meta: Vec::new(), tensors: Vec::new() };
        proof {
            assert(b@.meta =~= Seq::empty());
            assert(b@.tensors =~= Seq::empty());
        }
        b
    }

    /// Adds a metadata entry.
    pub fn meta(self, key: &str, value: Value) -> (b: Self)
        ensures
            b@ == (BuilderView { meta: self@.meta.push((key@, value@)), tensors: self@.tensors }),
    {
        let mut b = self;
        let ghost v = value@;
        b.meta.push((key.to_owned(), value));
        proof {
            assert(b@.meta =~= self@.meta.push((key@, v)));
        }
        b
    }

    /// Adds a tensor, whose data must match its block layout: this is a test
    /// helper, and a fixture that lies is worse than one that crashes.
    pub fn tensor(self, name: &str, dims: &[u64], ty: GgmlType, data: Vec<u8>) -> (b: Self)
        requires
            fills(dims@, ty, data@.len()),
        ensures
            b@ == (BuilderView {
                meta: self@.meta,
                tensors: self@.tensors.push(PartView { name: name@, dims: dims@, ty, data: data@ }),
            }),
    {
        let mut b = self;
        let ghost view = PartView { name: name@, dims: dims@, ty, data: data@ };
        b.tensors.push(Part { name: name.to_owned(), dims: slice_to_vec(dims), ty, data });
        proof {
            assert(b@.tensors =~= self@.tensors.push(view));
        }
        b
    }

    /// The bytes of the file.
    pub fn build(&self) -> (out: Vec<u8>)
        requires
            file_bytes(self@).len() <= usize::MAX,
        ensures
            out@ == file_bytes(self@),
    {
        let ghost b = self@;
        let mut out: Vec<u8> = Vec::new();
        out.push(0x47);
        out.push(0x47);
        out.push(0x55);
        out.push(0x46);
        proof {
            assert(out@ =~= magic());
        }
        write_le(&mut out, 3, 4);
        write_le(&mut out, self.tensors.len() as u64, 8);
        write_le(&mut out, self.meta.len() as u64, 8);
        let ghost before = out@;
        let mut i: usize = 0;
        proof {
            assert(before + entries_bytes(b.meta, 0) =~= before);
        }
        while i < self.meta.len()
            invariant
                b == self@,
                i <= self.meta@.len() == b.meta.len(),
                out@ == before + entries_bytes(b.meta, i as nat),
            decreases self.meta@.len() - i,
        {
            let ghost start = out@;
            proof {
                assert(b.meta[i as int] == (self.meta@[i as int].0@, self.meta@[i as int].1@));
            }
            write_string(&mut out, self.meta[i].0.as_str());
            write_le(&mut out, self.meta[i].1.type_id() as u64, 4);
            write_value(&mut out, &self.meta[i].1);
            proof {
                assert(out@ =~= start + entry_bytes(b.meta[i as int]));
                assert(out@ =~= before + entries_bytes(b.meta, (i + 1) as nat));
            }
            i += 1;
        }
        let ghost before = out@;
        // Data offsets are relative to the blob, and each tensor starts aligned.
        let mut offset: u64 = 0;
        let mut i: usize = 0;
        proof {
            assert(before + infos_bytes(b.tensors, 0) =~= before);
            lemma_blob_len(b.tensors, b.tensors.len());
        }
        while i < self.tensors.len()
            invariant
                b == self@,
                i <= self.tensors@.len() == b.tensors.len(),
                offset == offset_of(b.tensors, i as nat),
                offset_of(b.tensors, b.tensors.len()) <= usize::MAX,
                out@ == before + infos_bytes(b.tensors, i as nat),
            decreases self.tensors@.len() - i,
        {
            let ghost start = out@;
            let t = &self.tensors[i];
            proof {
                assert(b.tensors[i as int] == t@);
                lemma_offset_monotonic(b.tensors, i as nat, b.tensors.len());
                if i + 1 < b.tensors.len() {
                    lemma_offset_monotonic(b.tensors, (i + 1) as nat, b.tensors.len());
                }
            }
            write_string(&mut out, t.name.as_str());
            write_le(&mut out, t.dims.len() as u64, 4);
            write_dims(&mut out, t.dims.as_slice());
            write_le(&mut out, ty_id(t.ty) as u64, 4);
            write_le(&mut out, offset, 8);
            proof {
                assert(out@ =~= start + info_bytes(t@, offset as int));
                assert(out@ =~= before + infos_bytes(b.tensors, (i + 1) as nat));
            }
            offset = match align_up(offset + t.data.len() as u64, ALIGNMENT) {
                Some(next) => next,
                None => 0,
            };
            i += 1;
        }
        proof {
            assert(out@ =~= head_bytes(b));
            lemma_aligned(out@.len() as int, ALIGNMENT as int);
        }
        pad_to(&mut out, 0);
        let ghost before = out@;
        let data_start: usize = out.len();
        let mut i: usize = 0;
        proof {
            assert(before + blob_bytes(b.tensors, 0) =~= before);
        }
        while i < self.tensors.len()
            invariant
                b == self@,
                i <= self.tensors@.len() == b.tensors.len(),
                data_start == before.len(),
                before.len() + offset_of(b.tensors, b.tensors.len()) <= usize::MAX,
                out@ == before + blob_bytes(b.tensors, i as nat),
            decreases self.tensors@.len() - i,
        {
            let t = &self.tensors[i];
            let ghost start = blob_bytes(b.tensors, i as nat);
            proof {
                assert(b.tensors[i as int] == t@);
                lemma_blob_len(b.tensors, i as nat);
                lemma_blob_len(b.tensors, (i + 1) as nat);
                if i + 1 < b.tensors.len() {
                    lemma_offset_monotonic(b.tensors, (i + 1) as nat, b.tensors.len());
                }
            }
            extend(&mut out, t.data.as_slice());
            proof {
                assert(out@ =~= before + (start + t.data@));
                assert(out@.skip(before.len() as int) =~= start + t.data@);
            }
            pad_to(&mut out, data_start);
            proof {
                assert(out@ =~= before + blob_bytes(b.tensors, (i + 1) as nat));
            }
            i += 1;
        }
        out
    }
}

fn extend(out: &mut Vec<u8>, bytes: &[u8])
    ensures
        final(out)@ == old(out)@ + bytes@,
{
    out.extend_from_slice(bytes);
    proof {
        assert(out@ =~= old(out)@ + bytes@);
    }
}

fn write_string(out: &mut Vec<u8>, s: &str)
    ensures
        final(out)@ == old(out)@ + text_bytes(s@),
{
    write_le(out, s.as_bytes().len() as u64, 8);
    extend(out, s.as_bytes());
    proof {
        assert(out@ =~= old(out)@ + text_bytes(s@));
    }
}

fn write_dims(out: &mut Vec<u8>, dims: &[u64])
    ensures
        final(out)@ == old(out)@ + dims_bytes(dims@, dims@.len()),
{
    let mut i: usize = 0;
    proof {
        assert(out@ =~= old(out)@ + dims_bytes(dims@, 0));
    }
    while i < dims.len()
        invariant
            i <= dims@.len(),
            out@ == old(out)@ + dims_bytes(dims@, i as nat),
        decreases dims@.len() - i,
    {
        write_le(out, dims[i], 8);
        proof {
            assert(out@ =~= old(out)@ + dims_bytes(dims@, (i + 1) as nat));
        }
        i += 1;
    }
}

fn write_value(out: &mut Vec<u8>, value: &Value)
    ensures
        final(out)@ == old(out)@ + value_bytes(value@),
    decreases value,
{
    match value {
        Value::U8(v) => write_le(out, *v as u64, 1),
        Value::I8(v) => write_le(out, if *v < 0 { (*v as i16 + 0x100) as u64 } else { *v as u64 }, 1),
        Value::U16(v) => write_le(out, *v as u64, 2),
        Value::I16(v) => write_le(out, if *v < 0 { (*v as i32 + 0x1_0000) as u64 } else { *v as u64 }, 2),
        Value::U32(v) => write_le(out, *v as u64, 4),
        Value::I32(v) => write_le(out, if *v < 0 { (*v as i64 + 0x1_0000_0000) as u64 } else { *v as u64 }, 4),
        Value::F32(v) => write_le(out, *v as u64, 4),
        Value::Bool(v) => write_le(out, if *v { 1 } else { 0 }, 1),
        Value::String(s) => write_string(out, s.as_str()),
        Value::U64(v) => write_le(out, *v, 8),
        Value::I64(v) => write_le(
            out,
            if *v < 0 {
                0xffff_ffff_ffff_ffff - (-(*v + 1)) as u64
            } else {
                *v as u64
            },
            8,
        ),
        Value::F64(v) => write_le(out, *v, 8),
        Value::Array(items) => {
            let ghost list = views(items@);
            proof {
                crate::value::lemma_array_view(*items);
            }
            let tag: u32 = if items.len() == 0 { 4 } else { items[0].type_id() };
            write_le(out, tag as u64, 4);
            write_le(out, items.len() as u64, 8);
            let ghost start = out@;
            let mut i: usize = 0;
            proof {
                assert(start + items_bytes(list, 0) =~= start);
            }
            while i < items.len()
                invariant
                    *value == Value::Array(*items),
                    list == views(items@),
                    i <= items@.len(),
                    out@ == start + items_bytes(list, i as nat),
                decreases items@.len() - i,
            {
                let item = &items[i];
                assert(decreases_to!(items@ => items@[i as int]));
                assert(decreases_to!(*items => items@));
                assert(decreases_to!(value => value->Array_0));
                write_value(out, item);
                proof {
                    assert(list[i as int] == item@);
                    assert(out@ =~= start + items_bytes(list, (i + 1) as nat));
                }
                i += 1;
            }
            proof {
                assert(out@ =~= old(out)@ + value_bytes(value@));
            }
        },
    }
}

/// Fills up with zeros until what stands behind `base` is aligned.
fn pad_to(out: &mut Vec<u8>, base: usize)
    requires
        base <= old(out)@.len(),
        base + aligned(old(out)@.len() - base, ALIGNMENT as int) <= usize::MAX,
    ensures
        final(out)@ == old(out)@.take(base as int) + padded(old(out)@.skip(base as int)),
{
    let written: usize = out.len() - base;
    proof {
        lemma_aligned(written as int, ALIGNMENT as int);
    }
    let target: u64 = match align_up(written as u64, ALIGNMENT) {
        Some(v) => v,
        None => 0,
    };
    out.resize(base + target as usize, 0);
    proof {
        assert(out@ =~= old(out)@.take(base as int) + padded(old(out)@.skip(base as int)));
    }
}

fn ty_id(ty: GgmlType) -> (id: u32)
    ensures
        id == id_of(ty),
{
    match ty {
        GgmlType::F32 => 0,
        GgmlType::F16 => 1,
        GgmlType::Q4_0 => 2,
        GgmlType::Q4_1 => 3,
        GgmlType::Q5_0 => 6,
        GgmlType::Q5_1 => 7,
        GgmlType::Q8_0 => 8,
        GgmlType::Q8_1 => 9,
        GgmlType::Q2_K => 10,
        GgmlType::Q3_K => 11,
        GgmlType::Q4_K => 12,
        GgmlType::Q5_K => 13,
        GgmlType::Q6_K => 14,
        GgmlType::Q8_K => 15,
        GgmlType::I8 => 24,
        GgmlType::I16 => 25,
        GgmlType::I32 => 26,
        GgmlType::I64 => 27,
        GgmlType::F64 => 28,
        GgmlType::BF16 => 30,
        GgmlType::Other(id) => id,
    }
}

// ------------------------------------------------------------------ round trip

/// Whether a value is one that a file can hold: strings no longer than the
/// reader accepts, lists of one type, no lists in lists.
pub open spec fn writable(value: ValueView) -> bool {
    match value {
        ValueView::Text(s) => encode_utf8(s).len() <= MAX_STRING,
        ValueView::List(items) => items.len() <= u64::MAX && forall|i: int|
            0 <= i < items.len() ==> writable_item(#[trigger] items[i], inner_tag(items)),
        _ => true,
    }
}

/// Whether an item of a list is one that a file can hold.
pub open spec fn writable_item(item: ValueView, tag: u32) -> bool {
    &&& item.type_id() == tag
    &&& !(item is List)
    &&& item matches ValueView::Text(s) ==> encode_utf8(s).len() <= MAX_STRING
}

/// The table that entries written one after the other make.
pub open spec fn table_of(meta: Seq<(Seq<char>, ValueView)>, n: nat) -> Map<Seq<char>, ValueView>
    decreases n,
{
    if n == 0 {
        Map::empty()
    } else {
        table_of(meta, (n - 1) as nat).insert(meta[n - 1].0, meta[n - 1].1)
    }
}

/// The description of a tensor that was written.
pub open spec fn info_of(t: PartView, offset: int) -> TensorView {
    TensorView {
        name: t.name,
        dims: t.dims,
        ty: t.ty,
        offset: offset as u64,
        byte_len: Some(t.data.len() as u64),
    }
}

/// The descriptions of the first `n` tensors.
pub open spec fn infos_of(tensors: Seq<PartView>, n: nat) -> Seq<TensorView> {
    Seq::new(n, |i: int| info_of(tensors[i], offset_of(tensors, i as nat)))
}

/// Whether what a file holds is within the reader's limits, and its tensors
/// have names of their own and one to four dimensions.
pub open spec fn within_limits(b: BuilderView) -> bool {
    &&& file_bytes(b).len() <= usize::MAX
    &&& b.meta.len() <= u64::MAX
    &&& b.tensors.len() <= u64::MAX
    &&& forall|i: int|
        0 <= i < b.meta.len() ==> encode_utf8((#[trigger] b.meta[i]).0).len() <= MAX_STRING && writable(b.meta[i].1)
    &&& forall|i: int| 0 <= i < b.tensors.len() ==> readable_part(#[trigger] b.tensors[i])
    &&& forall|i: int, j: int|
        0 <= i < j < b.tensors.len() ==> (#[trigger] b.tensors[i]).name != (#[trigger] b.tensors[j]).name
}

/// Whether a file can be read back: it is within limits, and an alignment that
/// the metadata declare puts the blob where it was written.
pub open spec fn readable(b: BuilderView) -> bool {
    &&& within_limits(b)
    &&& alignment_of(table_of(b.meta, b.meta.len())) matches Ok(a) && a > 0 && aligned(
        head_bytes(b).len() as int,
        a as int,
    ) == aligned(head_bytes(b).len() as int, ALIGNMENT as int)
}

/// Whether a tensor can be read back.
pub open spec fn readable_part(t: PartView) -> bool {
    &&& encode_utf8(t.name).len() <= MAX_STRING
    &&& 1 <= t.dims.len() <= MAX_DIMS
    &&& fills(t.dims, t.ty, t.data.len())
}

/// Whether `part` stands in `buf` at `pos`.
spec fn at(buf: Seq<u8>, pos: int, part: Seq<u8>) -> bool {
    &&& 0 <= pos
    &&& pos + part.len() <= buf.len()
    &&& buf.subrange(pos, pos + part.len()) == part
}

proof fn lemma_split(buf: Seq<u8>, pos: int, a: Seq<u8>, b: Seq<u8>)
    requires
        at(buf, pos, a + b),
    ensures
        at(buf, pos, a),
        at(buf, pos + a.len(), b),
{
    let whole = buf.subrange(pos, pos + (a + b).len());
    assert forall|i: int| 0 <= i < a.len() implies buf[pos + i] == a[i] by {
        assert(whole[i] == (a + b)[i]);
    }
    assert forall|i: int| 0 <= i < b.len() implies buf[pos + a.len() + i] == b[i] by {
        assert(whole[a.len() + i] == (a + b)[a.len() + i]);
    }
    assert(buf.subrange(pos, pos + a.len()) =~= a);
    assert(buf.subrange(pos + a.len(), pos + a.len() + b.len()) =~= b);
}

proof fn lemma_uint(buf: Seq<u8>, pos: int, v: nat, n: nat)
    requires
        at(buf, pos, le_bytes(v, n)),
        v < span(n),
        buf.len() <= usize::MAX,
    ensures
        read_uint(buf, pos, n as int) == Ok::<(nat, int), ErrorView>((v, pos + n)),
        le_bytes(v, n).len() == n,
{
    lemma_le_bytes_len(v, n);
    lemma_le_round_trip(v, n);
}

proof fn lemma_text(buf: Seq<u8>, pos: int, s: Seq<char>)
    requires
        at(buf, pos, text_bytes(s)),
        encode_utf8(s).len() <= MAX_STRING,
        buf.len() <= usize::MAX,
    ensures
        read_text(buf, pos) == Ok::<(Seq<char>, int), ErrorView>((s, pos + text_bytes(s).len())),
{
    let body = encode_utf8(s);
    lemma_spans();
    lemma_split(buf, pos, le_bytes(body.len(), 8), body);
    lemma_uint(buf, pos, body.len(), 8);
    encode_utf8_valid_utf8(s);
    encode_utf8_decode_utf8(s);
}

proof fn lemma_scalar(buf: Seq<u8>, pos: int, v: ValueView)
    requires
        !(v is List),
        writable(v),
        at(buf, pos, value_bytes(v)),
        buf.len() <= usize::MAX,
    ensures
        read_scalar(buf, pos, v.type_id()) == Ok::<(ValueView, int), ErrorView>((v, pos + value_bytes(v).len())),
{
    lemma_spans();
    match v {
        ValueView::U8(x) => lemma_uint(buf, pos, x as nat, 1),
        ValueView::I8(x) => lemma_uint(buf, pos, unsigned(x as int, 0x80), 1),
        ValueView::U16(x) => lemma_uint(buf, pos, x as nat, 2),
        ValueView::I16(x) => lemma_uint(buf, pos, unsigned(x as int, 0x8000), 2),
        ValueView::U32(x) => lemma_uint(buf, pos, x as nat, 4),
        ValueView::I32(x) => lemma_uint(buf, pos, unsigned(x as int, 0x8000_0000), 4),
        ValueView::F32(x) => lemma_uint(buf, pos, x as nat, 4),
        ValueView::Bool(x) => lemma_uint(buf, pos, if x { 1 } else { 0 }, 1),
        ValueView::Text(s) => lemma_text(buf, pos, s),
        ValueView::List(items) => {},
        ValueView::U64(x) => lemma_uint(buf, pos, x as nat, 8),
        ValueView::I64(x) => lemma_uint(buf, pos, unsigned(x as int, 0x8000_0000_0000_0000), 8),
        ValueView::F64(x) => lemma_uint(buf, pos, x as nat, 8),
    }
}

proof fn lemma_items(buf: Seq<u8>, pos: int, items: Seq<ValueView>, n: nat)
    requires
        n <= items.len(),
        forall|i: int| 0 <= i < items.len() ==> writable_item(#[trigger] items[i], inner_tag(items)),
        at(buf, pos, items_bytes(items, n)),
        buf.len() <= usize::MAX,
    ensures
        read_items(buf, pos, inner_tag(items), n) == Ok::<(Seq<ValueView>, int), ErrorView>(
            (items.take(n as int), pos + items_bytes(items, n).len()),
        ),
    decreases n,
{
    if n == 0 {
        assert(items.take(0) =~= Seq::empty());
    } else {
        let m = (n - 1) as nat;
        lemma_split(buf, pos, items_bytes(items, m), value_bytes(items[n - 1]));
        lemma_items(buf, pos, items, m);
        assert(writable_item(items[n - 1], inner_tag(items)));
        lemma_scalar(buf, pos + items_bytes(items, m).len(), items[n - 1]);
        assert(items.take(n as int) =~= items.take(m as int).push(items[n - 1]));
    }
}

proof fn lemma_value(buf: Seq<u8>, pos: int, v: ValueView)
    requires
        writable(v),
        at(buf, pos, value_bytes(v)),
        buf.len() <= usize::MAX,
    ensures
        read_value(buf, pos, v.type_id()) == Ok::<(ValueView, int), ErrorView>((v, pos + value_bytes(v).len())),
{
    match v {
        ValueView::List(items) => {
            let tag = le_bytes(inner_tag(items) as nat, 4);
            let count = le_bytes(items.len(), 8);
            let body = items_bytes(items, items.len());
            lemma_spans();
            lemma_split(buf, pos, tag + count, body);
            lemma_split(buf, pos, tag, count);
            lemma_uint(buf, pos, inner_tag(items) as nat, 4);
            lemma_uint(buf, pos + 4, items.len(), 8);
            lemma_items(buf, pos + 12, items, items.len());
            assert(items.take(items.len() as int) =~= items);
        },
        _ => lemma_scalar(buf, pos, v),
    }
}

proof fn lemma_entries(buf: Seq<u8>, pos: int, meta: Seq<(Seq<char>, ValueView)>, n: nat)
    requires
        n <= meta.len(),
        forall|i: int|
            0 <= i < meta.len() ==> encode_utf8((#[trigger] meta[i]).0).len() <= MAX_STRING && writable(meta[i].1),
        at(buf, pos, entries_bytes(meta, n)),
        buf.len() <= usize::MAX,
    ensures
        read_entries(buf, pos, n) == Ok::<(Map<Seq<char>, ValueView>, int), ErrorView>(
            (table_of(meta, n), pos + entries_bytes(meta, n).len()),
        ),
    decreases n,
{
    if n > 0 {
        let m = (n - 1) as nat;
        let entry = meta[n - 1];
        let start = pos + entries_bytes(meta, m).len();
        lemma_split(buf, pos, entries_bytes(meta, m), entry_bytes(entry));
        lemma_entries(buf, pos, meta, m);
        let key = text_bytes(entry.0);
        let tag = le_bytes(entry.1.type_id() as nat, 4);
        lemma_split(buf, start, key + tag, value_bytes(entry.1));
        lemma_split(buf, start, key, tag);
        lemma_spans();
        lemma_text(buf, start, entry.0);
        lemma_uint(buf, start + key.len(), entry.1.type_id() as nat, 4);
        lemma_value(buf, start + key.len() + 4, entry.1);
        assert(read_entry(buf, start) == Ok::<((Seq<char>, ValueView), int), ErrorView>(
            (entry, start + entry_bytes(entry).len()),
        ));
    }
}

proof fn lemma_dims(buf: Seq<u8>, pos: int, dims: Seq<u64>, n: nat)
    requires
        n <= dims.len(),
        at(buf, pos, dims_bytes(dims, n)),
        buf.len() <= usize::MAX,
    ensures
        read_dims(buf, pos, n) == Ok::<(Seq<u64>, int), ErrorView>(
            (dims.take(n as int), pos + dims_bytes(dims, n).len()),
        ),
    decreases n,
{
    if n == 0 {
        assert(dims.take(0) =~= Seq::empty());
    } else {
        let m = (n - 1) as nat;
        lemma_split(buf, pos, dims_bytes(dims, m), le_bytes(dims[n - 1] as nat, 8));
        lemma_dims(buf, pos, dims, m);
        lemma_spans();
        lemma_uint(buf, pos + dims_bytes(dims, m).len(), dims[n - 1] as nat, 8);
        assert(dims.take(n as int) =~= dims.take(m as int).push(dims[n - 1]));
    }
}

proof fn lemma_info(buf: Seq<u8>, pos: int, t: PartView, offset: int)
    requires
        readable_part(t),
        0 <= offset <= u64::MAX,
        at(buf, pos, info_bytes(t, offset)),
        buf.len() <= usize::MAX,
    ensures
        read_tensor(buf, pos) == Ok::<(TensorView, int), ErrorView>(
            (info_of(t, offset), pos + info_bytes(t, offset).len()),
        ),
{
    let name = text_bytes(t.name);
    let count = le_bytes(t.dims.len(), 4);
    let dims = dims_bytes(t.dims, t.dims.len());
    let id = le_bytes(id_of(t.ty) as nat, 4);
    let place = le_bytes(offset as nat, 8);
    lemma_spans();
    lemma_split(buf, pos, name + count + dims + id, place);
    lemma_split(buf, pos, name + count + dims, id);
    lemma_split(buf, pos, name + count, dims);
    lemma_split(buf, pos, name, count);
    lemma_text(buf, pos, t.name);
    let p = pos + name.len();
    lemma_uint(buf, p, t.dims.len(), 4);
    lemma_dims(buf, p + 4, t.dims, t.dims.len());
    assert(t.dims.take(t.dims.len() as int) =~= t.dims);
    let q = p + 4 + dims.len();
    lemma_uint(buf, q, id_of(t.ty) as nat, 4);
    lemma_uint(buf, q + 4, offset as nat, 8);
    assert(type_of_id(id_of(t.ty)) == t.ty);
}

proof fn lemma_infos(buf: Seq<u8>, pos: int, tensors: Seq<PartView>, n: nat)
    requires
        n <= tensors.len(),
        forall|i: int| 0 <= i < tensors.len() ==> readable_part(#[trigger] tensors[i]),
        forall|i: int, j: int|
            0 <= i < j < tensors.len() ==> (#[trigger] tensors[i]).name != (#[trigger] tensors[j]).name,
        offset_of(tensors, tensors.len()) <= u64::MAX,
        at(buf, pos, infos_bytes(tensors, n)),
        buf.len() <= usize::MAX,
    ensures
        read_tensors(buf, pos, n) == Ok::<(Seq<TensorView>, int), ErrorView>(
            (infos_of(tensors, n), pos + infos_bytes(tensors, n).len()),
        ),
    decreases n,
{
    if n == 0 {
        assert(infos_of(tensors, 0) =~= Seq::empty());
    } else {
        let m = (n - 1) as nat;
        let t = tensors[n - 1];
        let offset = offset_of(tensors, m);
        lemma_split(buf, pos, infos_bytes(tensors, m), info_bytes(t, offset));
        lemma_infos(buf, pos, tensors, m);
        lemma_offset_monotonic(tensors, m, tensors.len());
        lemma_info(buf, pos + infos_bytes(tensors, m).len(), t, offset);
        let before = infos_of(tensors, m);
        if has_name(before, t.name) {
            let i = choose|i: int| 0 <= i < before.len() && (#[trigger] before[i]).name == t.name;
            assert(tensors[i].name != tensors[n - 1].name);
        }
        assert(infos_of(tensors, n) =~= before.push(info_of(t, offset)));
    }
}

proof fn lemma_blob_holds(tensors: Seq<PartView>, k: nat, n: nat)
    requires
        k < n <= tensors.len(),
    ensures
        at(blob_bytes(tensors, n), offset_of(tensors, k), tensors[k as int].data),
    decreases n,
{
    let m = (n - 1) as nat;
    let inner = blob_bytes(tensors, m) + tensors[m as int].data;
    let whole = blob_bytes(tensors, n);
    lemma_blob_len(tensors, m);
    lemma_blob_len(tensors, k);
    lemma_aligned(inner.len() as int, ALIGNMENT as int);
    let data = tensors[k as int].data;
    let start = offset_of(tensors, k);
    if k < m {
        lemma_blob_holds(tensors, k, m);
        assert(whole.subrange(start, start + data.len()) =~= blob_bytes(tensors, m).subrange(start, start + data.len()));
    } else {
        assert(whole.subrange(start, start + data.len()) =~= data);
    }
}

proof fn lemma_none_misfit(tensors: Seq<TensorView>, n: nat, data_offset: int, file_len: int)
    requires
        n <= tensors.len(),
        forall|i: int| 0 <= i < n ==> misfit(#[trigger] tensors[i], data_offset, file_len) is None,
    ensures
        first_misfit(tensors, n, data_offset, file_len) is None,
    decreases n,
{
    if n > 0 {
        lemma_none_misfit(tensors, (n - 1) as nat, data_offset, file_len);
    }
}

proof fn lemma_header(b: BuilderView)
    requires
        file_bytes(b).len() <= usize::MAX,
        b.meta.len() <= u64::MAX,
        b.tensors.len() <= u64::MAX,
    ensures
        ({
            let buf = file_bytes(b);
            let entries = entries_bytes(b.meta, b.meta.len());
            let infos = infos_bytes(b.tensors, b.tensors.len());
            &&& parse(buf) == parse_body(buf, 24, 3, b.tensors.len(), b.meta.len())
            &&& at(buf, 24, entries)
            &&& at(buf, 24 + entries.len() as int, infos)
            &&& 24 + entries.len() + infos.len() == head_bytes(b).len()
        }),
{
    let buf = file_bytes(b);
    let head = head_bytes(b);
    lemma_aligned(head.len() as int, ALIGNMENT as int);
    assert(at(buf, 0, head)) by {
        assert(buf.subrange(0, head.len() as int) =~= head);
    }
    let version = le_bytes(3, 4);
    let tensor_count = le_bytes(b.tensors.len(), 8);
    let meta_count = le_bytes(b.meta.len(), 8);
    let entries = entries_bytes(b.meta, b.meta.len());
    let infos = infos_bytes(b.tensors, b.tensors.len());
    lemma_spans();
    lemma_split(buf, 0, magic() + version + tensor_count + meta_count + entries, infos);
    lemma_split(buf, 0, magic() + version + tensor_count + meta_count, entries);
    lemma_split(buf, 0, magic() + version + tensor_count, meta_count);
    lemma_split(buf, 0, magic() + version, tensor_count);
    lemma_split(buf, 0, magic(), version);
    lemma_uint(buf, 4, 3, 4);
    lemma_uint(buf, 8, b.tensors.len(), 8);
    lemma_uint(buf, 16, b.meta.len(), 8);
    assert(read_bytes(buf, 0, 4) == Ok::<(Seq<u8>, int), ErrorView>((magic(), 4)));
}

proof fn lemma_all_inside(tensors: Seq<PartView>, start: int, file_len: int)
    requires
        0 <= start,
        start + offset_of(tensors, tensors.len()) <= file_len <= u64::MAX,
        forall|i: int| 0 <= i < tensors.len() ==> readable_part(#[trigger] tensors[i]),
    ensures
        first_misfit(infos_of(tensors, tensors.len()), tensors.len(), start, file_len) is None,
{
    let n = tensors.len();
    let infos = infos_of(tensors, n);
    assert forall|i: int| 0 <= i < n implies misfit(#[trigger] infos[i], start, file_len) is None by {
        lemma_offset_monotonic(tensors, i as nat, n);
        assert(readable_part(tensors[i]));
    }
    lemma_none_misfit(infos, n, start, file_len);
}

/// The tensors' bytes stand in the file where the descriptions say.
proof fn lemma_data_in_place(b: BuilderView, i: int)
    requires
        0 <= i < b.tensors.len(),
    ensures
        ({
            let start = padded(head_bytes(b)).len() + offset_of(b.tensors, i as nat);
            file_bytes(b).subrange(start, start + b.tensors[i].data.len()) == b.tensors[i].data
        }),
{
    let n = b.tensors.len();
    let base = padded(head_bytes(b)).len();
    let o = offset_of(b.tensors, i as nat);
    let data = b.tensors[i].data;
    let blob = blob_bytes(b.tensors, n);
    lemma_offset_monotonic(b.tensors, i as nat, n);
    lemma_blob_holds(b.tensors, i as nat, n);
    assert(file_bytes(b).subrange(base + o, base + o + data.len()) =~= blob.subrange(o, o + data.len()));
}

/// Reading gives back what was written: the metadata with the last value of
/// each key, every tensor's name, shape and type in order, and every tensor's
/// bytes at the place its description names.
pub proof fn lemma_round_trip(b: BuilderView)
    requires
        readable(b),
    ensures
        parse(file_bytes(b)) matches Ok(file) && {
            &&& file.version == 3
            &&& file.meta == table_of(b.meta, b.meta.len())
            &&& file.tensors == infos_of(b.tensors, b.tensors.len())
            &&& file.data_offset == padded(head_bytes(b)).len()
            &&& forall|i: int|
                0 <= i < b.tensors.len() ==> file.bytes.subrange(
                    file.start(#[trigger] file.tensors[i]),
                    file.start(file.tensors[i]) + b.tensors[i].data.len(),
                ) == b.tensors[i].data
        },
{
    let buf = file_bytes(b);
    let head = head_bytes(b);
    let n = b.tensors.len();
    lemma_header(b);
    lemma_aligned(head.len() as int, ALIGNMENT as int);
    lemma_blob_len(b.tensors, n);
    let start = padded(head).len() as int;
    assert(start == aligned(head.len() as int, ALIGNMENT as int));
    assert(start + offset_of(b.tensors, n) == buf.len());
    lemma_entries(buf, 24, b.meta, b.meta.len());
    lemma_infos(buf, 24 + entries_bytes(b.meta, b.meta.len()).len() as int, b.tensors, n);
    lemma_all_inside(b.tensors, start, buf.len() as int);
    let file = parse(buf)->Ok_0;
    assert(file.tensors == infos_of(b.tensors, n));
    assert forall|i: int| 0 <= i < n implies file.bytes.subrange(
        file.start(#[trigger] file.tensors[i]),
        file.start(file.tensors[i]) + b.tensors[i].data.len(),
    ) == b.tensors[i].data by {
        lemma_offset_monotonic(b.tensors, i as nat, n);
        lemma_data_in_place(b, i);
    }
}

proof fn lemma_key_absent(meta: Seq<(Seq<char>, ValueView)>, n: nat, key: Seq<char>)
    requires
        n <= meta.len(),
        forall|i: int| 0 <= i < meta.len() ==> (#[trigger] meta[i]).0 != key,
    ensures
        !table_of(meta, n).contains_key(key),
    decreases n,
{
    if n > 0 {
        lemma_key_absent(meta, (n - 1) as nat, key);
        assert(meta[n - 1].0 != key);
    }
}

/// A file within limits that declares no alignment can be read back.
pub proof fn lemma_readable_by_default(b: BuilderView)
    requires
        within_limits(b),
        forall|i: int| 0 <= i < b.meta.len() ==> (#[trigger] b.meta[i]).0 != "general.alignment"@,
    ensures
        readable(b),
{
    lemma_key_absent(b.meta, b.meta.len(), "general.alignment"@);
    assert(is_pow2(32)) by {
        reveal_with_fuel(is_pow2, 7);
    }
}

/// Reading a tensor by its name gives back what was written under it: the name
/// finds its description, all its bytes are in the file, and they are its data.
pub proof fn lemma_tensor_round_trip(b: BuilderView, i: int)
    requires
        readable(b),
        0 <= i < b.tensors.len(),
    ensures
        parse(file_bytes(b)) matches Ok(file) && {
            let data = b.tensors[i].data;
            &&& file.find(b.tensors[i].name) matches Some(t)
            &&& t.name == b.tensors[i].name
            &&& t.dims == b.tensors[i].dims
            &&& t.ty == b.tensors[i].ty
            &&& t.byte_len matches Some(len)
            &&& len == data.len()
            &&& file.start(t) + len <= file.bytes.len()
            &&& file.bytes.subrange(file.start(t), file.start(t) + len) == data
        },
{
    lemma_round_trip(b);
    lemma_parsed_is_valid(file_bytes(b));
    let file = parse(file_bytes(b))->Ok_0;
    let name = b.tensors[i].name;
    assert(file.tensors[i].name == name);
    let k = choose|k: int| 0 <= k < file.tensors.len() && (#[trigger] file.tensors[k]).name == name;
    if k < i {
        assert(file.tensors[k].name != file.tensors[i].name);
    } else if i < k {
        assert(file.tensors[i].name != file.tensors[k].name);
    }
    assert(readable_part(b.tensors[i]));
    lemma_offset_monotonic(b.tensors, i as nat, b.tensors.len());
    lemma_blob_len(b.tensors, b.tensors.len());
    assert(file.holds(file.tensors[i]));
    assert(b.tensors[i].data.len() <= u64::MAX);
}

/// Reading a value gives back the value that was written, and takes up every
/// byte of it.
pub proof fn lemma_value_round_trip(value: ValueView)
    requires
        writable(value),
        value_bytes(value).len() <= usize::MAX,
    ensures
        read_value(value_bytes(value), 0, value.type_id()) == Ok::<(ValueView, int), ErrorView>(
            (value, value_bytes(value).len() as int),
        ),
{
    let buf = value_bytes(value);
    assert(buf.subrange(0, buf.len() as int) =~= buf);
    lemma_value(buf, 0, value);
}

/// Every type keeps its id: writing the id of the type that was read for an id
/// gives that id again, so no two ids are read as one type.
pub proof fn lemma_type_ids_round_trip(id: u32)
    ensures
        id_of(type_of_id(id)) == id,
        forall|other: u32| #[trigger] type_of_id(other) == type_of_id(id) ==> other == id,
{
    assert forall|other: u32| #[trigger] type_of_id(other) == type_of_id(id) implies other == id by {
        assert(id_of(type_of_id(other)) == other);
    }
}

} // verus!
