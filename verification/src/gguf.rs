//! GGUF container parsing (versions 2 and 3).
//!
//! Layout: magic, version, tensor count, metadata count, then the metadata
//! key/value table, then the tensor info table, then padding to
//! `general.alignment`, then the tensor data blob. Tensor offsets are relative
//! to the start of that blob, not the file.
//!
//! Everything here treats the file as untrusted: a truncated download and a
//! hostile file look identical, so every read is bounds-checked and no
//! allocation is sized from a number the file supplied.
//!
//! `parse` says what a byte string means as a GGUF file; `Gguf::open` computes
//! exactly that, error for error.

use vstd::prelude::*;
use vstd::arithmetic::power2::is_pow2;
use vstd::hash_map::StringHashMap;
use vstd::slice::slice_to_vec;
use vstd::utf8::{decode_utf8, valid_utf8};

use crate::error::{invalid_data, Error, ErrorKind, ErrorView};
use crate::le::{le, lemma_spans, read_le};
use crate::map::Mmap;
use crate::table::Table;
use crate::text::{self, decimal};
use crate::value::{layout_of, name_of, type_of_id, views};

pub use crate::value::{GgmlType, Piece, Value, ValueView};

verus! {

/// Alignment of a file that declares none.
pub const DEFAULT_ALIGNMENT: u64 = 32;

/// The longest string a file may hold, in bytes.
pub const MAX_STRING: u64 = 0x400_0000;

/// The most dimensions a tensor may have.
pub const MAX_DIMS: u64 = 4;

// ----------------------------------------------------------------------- bytes

/// `n` bytes at `pos`, and the position behind them.
pub open spec fn read_bytes(buf: Seq<u8>, pos: int, n: int) -> Result<(Seq<u8>, int), ErrorView> {
    if pos + n > usize::MAX {
        Err(invalid_data("offset overflow"@))
    } else if pos + n > buf.len() {
        Err(invalid_data("unexpected end of file"@))
    } else {
        Ok((buf.subrange(pos, pos + n), pos + n))
    }
}

/// An unsigned number of `n` bytes at `pos`.
pub open spec fn read_uint(buf: Seq<u8>, pos: int, n: int) -> Result<(nat, int), ErrorView> {
    match read_bytes(buf, pos, n) {
        Ok((bytes, end)) => Ok((le(bytes), end)),
        Err(e) => Err(e),
    }
}

/// A number of `n` bytes read as two's complement.
pub open spec fn signed(value: nat, half: int) -> int {
    if value < half {
        value as int
    } else {
        value - 2 * half
    }
}

/// A string: its length in bytes, then its UTF-8.
pub open spec fn read_text(buf: Seq<u8>, pos: int) -> Result<(Seq<char>, int), ErrorView> {
    match read_uint(buf, pos, 8) {
        Err(e) => Err(e),
        Ok((n, start)) => if n > MAX_STRING {
            Err(invalid_data("implausible string length "@ + decimal(n)))
        } else {
            match read_bytes(buf, start, n as int) {
                Err(e) => Err(e),
                Ok((bytes, end)) => if valid_utf8(bytes) {
                    Ok((decode_utf8(bytes), end))
                } else {
                    Err(invalid_data("metadata string is not utf-8"@))
                },
            }
        },
    }
}

// ---------------------------------------------------------------------- values

/// How many bytes a number of the given type takes; 0 for the other types.
pub open spec fn width(ty: u32) -> int {
    if ty == 0 || ty == 1 || ty == 7 {
        1
    } else if ty == 2 || ty == 3 {
        2
    } else if ty == 4 || ty == 5 || ty == 6 {
        4
    } else if ty == 10 || ty == 11 || ty == 12 {
        8
    } else {
        0
    }
}

/// The number that `n` is worth under a type tag.
pub open spec fn number(ty: u32, n: nat) -> ValueView {
    if ty == 0 {
        ValueView::U8(n as u8)
    } else if ty == 1 {
        ValueView::I8(signed(n, 0x80) as i8)
    } else if ty == 2 {
        ValueView::U16(n as u16)
    } else if ty == 3 {
        ValueView::I16(signed(n, 0x8000) as i16)
    } else if ty == 4 {
        ValueView::U32(n as u32)
    } else if ty == 5 {
        ValueView::I32(signed(n, 0x8000_0000) as i32)
    } else if ty == 6 {
        ValueView::F32(n as u32)
    } else if ty == 7 {
        ValueView::Bool(n != 0)
    } else if ty == 10 {
        ValueView::U64(n as u64)
    } else if ty == 11 {
        ValueView::I64(signed(n, 0x8000_0000_0000_0000) as i64)
    } else {
        ValueView::F64(n as u64)
    }
}

/// A value that is not a list.
pub open spec fn read_scalar(buf: Seq<u8>, pos: int, ty: u32) -> Result<(ValueView, int), ErrorView> {
    if width(ty) > 0 {
        match read_uint(buf, pos, width(ty)) {
            Ok((n, end)) => Ok((number(ty, n), end)),
            Err(e) => Err(e),
        }
    } else if ty == 8 {
        match read_text(buf, pos) {
            Ok((s, end)) => Ok((ValueView::Text(s), end)),
            Err(e) => Err(e),
        }
    } else if ty == 9 {
        Err(invalid_data("nested arrays are not valid GGUF"@))
    } else {
        Err(invalid_data("unknown metadata value type "@ + decimal(ty as nat)))
    }
}

/// `n` values of one type, one after the other.
pub open spec fn read_items(buf: Seq<u8>, pos: int, ty: u32, n: nat) -> Result<(Seq<ValueView>, int), ErrorView>
    decreases n,
{
    if n == 0 {
        Ok((Seq::empty(), pos))
    } else {
        match read_items(buf, pos, ty, (n - 1) as nat) {
            Err(e) => Err(e),
            Ok((items, next)) => match read_scalar(buf, next, ty) {
                Err(e) => Err(e),
                Ok((item, end)) => Ok((items.push(item), end)),
            },
        }
    }
}

/// A value, which may be a list of values that are not lists.
pub open spec fn read_value(buf: Seq<u8>, pos: int, ty: u32) -> Result<(ValueView, int), ErrorView> {
    if ty != 9 {
        read_scalar(buf, pos, ty)
    } else {
        match read_uint(buf, pos, 4) {
            Err(e) => Err(e),
            Ok((inner, p)) => match read_uint(buf, p, 8) {
                Err(e) => Err(e),
                Ok((count, q)) => match read_items(buf, q, inner as u32, count) {
                    Err(e) => Err(e),
                    Ok((items, end)) => Ok((ValueView::List(items), end)),
                },
            },
        }
    }
}

/// A metadata entry: key, type tag, value.
pub open spec fn read_entry(buf: Seq<u8>, pos: int) -> Result<((Seq<char>, ValueView), int), ErrorView> {
    match read_text(buf, pos) {
        Err(e) => Err(e),
        Ok((key, p)) => match read_uint(buf, p, 4) {
            Err(e) => Err(e),
            Ok((ty, q)) => match read_value(buf, q, ty as u32) {
                Err(e) => Err(e),
                Ok((value, end)) => Ok(((key, value), end)),
            },
        },
    }
}

/// `n` metadata entries. A key that comes again replaces its earlier value.
pub open spec fn read_entries(buf: Seq<u8>, pos: int, n: nat) -> Result<(Map<Seq<char>, ValueView>, int), ErrorView>
    decreases n,
{
    if n == 0 {
        Ok((Map::empty(), pos))
    } else {
        match read_entries(buf, pos, (n - 1) as nat) {
            Err(e) => Err(e),
            Ok((table, next)) => match read_entry(buf, next) {
                Err(e) => Err(e),
                Ok((entry, end)) => Ok((table.insert(entry.0, entry.1), end)),
            },
        }
    }
}

// --------------------------------------------------------------------- tensors

/// A tensor's description as a mathematical object.
#[verifier::ext_equal]
pub ghost struct TensorView {
    pub name: Seq<char>,
    pub dims: Seq<u64>,
    pub ty: GgmlType,
    pub offset: u64,
    pub byte_len: Option<u64>,
}

/// The product of the dimensions, unless it stops fitting on the way.
pub open spec fn product(dims: Seq<u64>) -> Option<u64>
    decreases dims.len(),
{
    if dims.len() == 0 {
        Some(1)
    } else {
        match product(dims.drop_last()) {
            None => None,
            Some(p) => if p * dims.last() > u64::MAX {
                None
            } else {
                Some((p * dims.last()) as u64)
            },
        }
    }
}

/// `n` dimensions.
pub open spec fn read_dims(buf: Seq<u8>, pos: int, n: nat) -> Result<(Seq<u64>, int), ErrorView>
    decreases n,
{
    if n == 0 {
        Ok((Seq::empty(), pos))
    } else {
        match read_dims(buf, pos, (n - 1) as nat) {
            Err(e) => Err(e),
            Ok((dims, next)) => match read_uint(buf, next, 8) {
                Err(e) => Err(e),
                Ok((d, end)) => Ok((dims.push(d as u64), end)),
            },
        }
    }
}

/// The bytes that `dims` elements of a type take: none for a type that cannot
/// be sized.
pub open spec fn byte_length(name: Seq<char>, dims: Seq<u64>, ty: GgmlType) -> Result<Option<u64>, ErrorView> {
    match product(dims) {
        None => Err(invalid_data("tensor "@ + name + " element count overflows"@)),
        Some(elements) => match layout_of(ty) {
            None => Ok(None),
            Some((block, size)) => if elements % block != 0 {
                Err(
                    invalid_data(
                        "tensor "@ + name + ": "@ + decimal(elements as nat) + " elements is not a multiple of "@
                            + name_of(ty) + " block "@ + decimal(block as nat),
                    ),
                )
            } else if (elements / block) * size > u64::MAX {
                Err(invalid_data("tensor "@ + name + " byte length overflows"@))
            } else {
                Ok(Some(((elements / block) * size) as u64))
            },
        },
    }
}

/// A tensor's description.
pub open spec fn read_tensor(buf: Seq<u8>, pos: int) -> Result<(TensorView, int), ErrorView> {
    match read_text(buf, pos) {
        Err(e) => Err(e),
        Ok((name, p)) => match read_uint(buf, p, 4) {
            Err(e) => Err(e),
            Ok((n, q)) => if n == 0 || n > MAX_DIMS {
                Err(invalid_data("tensor "@ + name + " has "@ + decimal(n) + " dimensions"@))
            } else {
                match read_dims(buf, q, n) {
                    Err(e) => Err(e),
                    Ok((dims, r)) => match read_uint(buf, r, 4) {
                        Err(e) => Err(e),
                        Ok((id, s)) => match read_uint(buf, s, 8) {
                            Err(e) => Err(e),
                            Ok((offset, end)) => match byte_length(name, dims, type_of_id(id as u32)) {
                                Err(e) => Err(e),
                                Ok(byte_len) => Ok(
                                    (
                                        TensorView {
                                            name,
                                            dims,
                                            ty: type_of_id(id as u32),
                                            offset: offset as u64,
                                            byte_len,
                                        },
                                        end,
                                    ),
                                ),
                            },
                        },
                    },
                }
            },
        },
    }
}

/// Whether some tensor goes by the name.
pub open spec fn has_name(tensors: Seq<TensorView>, name: Seq<char>) -> bool {
    exists|i: int| 0 <= i < tensors.len() && (#[trigger] tensors[i]).name == name
}

/// `n` tensor descriptions, no two under one name.
pub open spec fn read_tensors(buf: Seq<u8>, pos: int, n: nat) -> Result<(Seq<TensorView>, int), ErrorView>
    decreases n,
{
    if n == 0 {
        Ok((Seq::empty(), pos))
    } else {
        match read_tensors(buf, pos, (n - 1) as nat) {
            Err(e) => Err(e),
            Ok((tensors, next)) => match read_tensor(buf, next) {
                Err(e) => Err(e),
                Ok((tensor, end)) => if has_name(tensors, tensor.name) {
                    Err(invalid_data("duplicate tensor name "@ + tensor.name))
                } else {
                    Ok((tensors.push(tensor), end))
                },
            },
        }
    }
}

// ------------------------------------------------------------------------ file

/// A GGUF file as a mathematical object.
#[verifier::ext_equal]
pub ghost struct FileView {
    pub bytes: Seq<u8>,
    pub version: u32,
    pub alignment: u64,
    pub meta: Map<Seq<char>, ValueView>,
    pub tensors: Seq<TensorView>,
    pub data_offset: u64,
}

/// The smallest multiple of `alignment` that is at least `value`.
pub open spec fn aligned(value: int, alignment: int) -> int {
    if value % alignment == 0 {
        value
    } else {
        value + (alignment - value % alignment)
    }
}

/// The alignment that the metadata declare.
pub open spec fn alignment_of(meta: Map<Seq<char>, ValueView>) -> Result<u64, ErrorView> {
    let key = "general.alignment"@;
    if meta.contains_key(key) && meta[key].as_u64() is None {
        Err(invalid_data("general.alignment not an int"@))
    } else {
        let alignment = if meta.contains_key(key) {
            meta[key].as_u64().unwrap()
        } else {
            DEFAULT_ALIGNMENT
        };
        if is_pow2(alignment as int) {
            Ok(alignment)
        } else {
            Err(invalid_data("alignment "@ + decimal(alignment as nat) + " is not a power of two"@))
        }
    }
}

/// The complaint about a tensor whose bytes are not all in the file.
pub open spec fn misfit(t: TensorView, data_offset: int, file_len: int) -> Option<ErrorView> {
    match t.byte_len {
        None => None,
        Some(len) => {
            let end = data_offset + t.offset + len;
            if end > u64::MAX {
                Some(invalid_data("tensor "@ + t.name + " extent overflows"@))
            } else if end > file_len {
                Some(
                    invalid_data(
                        "tensor "@ + t.name + " runs "@ + decimal((end - file_len) as nat)
                            + " bytes past end of file (truncated download?)"@,
                    ),
                )
            } else {
                None
            }
        },
    }
}

/// The complaint about the first tensor among the first `n` that does not fit.
pub open spec fn first_misfit(tensors: Seq<TensorView>, n: nat, data_offset: int, file_len: int) -> Option<ErrorView>
    decreases n,
{
    if n == 0 {
        None
    } else {
        match first_misfit(tensors, (n - 1) as nat, data_offset, file_len) {
            Some(e) => Some(e),
            None => misfit(tensors[n - 1], data_offset, file_len),
        }
    }
}

/// The file behind its header: tables, padding, blob.
pub open spec fn parse_body(
    bytes: Seq<u8>,
    pos: int,
    version: u32,
    tensor_count: nat,
    meta_count: nat,
) -> Result<FileView, ErrorView> {
    match read_entries(bytes, pos, meta_count) {
        Err(e) => Err(e),
        Ok((meta, p)) => match alignment_of(meta) {
            Err(e) => Err(e),
            Ok(alignment) => match read_tensors(bytes, p, tensor_count) {
                Err(e) => Err(e),
                Ok((tensors, q)) => {
                    let data_offset = aligned(q, alignment as int);
                    if data_offset > u64::MAX {
                        Err(invalid_data("data offset overflows"@))
                    } else if data_offset > bytes.len() {
                        Err(invalid_data("file ends before the tensor data begins"@))
                    } else {
                        match first_misfit(tensors, tensors.len(), data_offset, bytes.len() as int) {
                            Some(e) => Err(e),
                            None => Ok(
                                FileView { bytes, version, alignment, meta, tensors, data_offset: data_offset as u64 },
                            ),
                        }
                    }
                },
            },
        },
    }
}

/// The first four bytes of every file: `GGUF`.
pub open spec fn magic() -> Seq<u8> {
    seq![0x47u8, 0x47u8, 0x55u8, 0x46u8]
}

/// What a byte string means as a GGUF file.
pub open spec fn parse(bytes: Seq<u8>) -> Result<FileView, ErrorView> {
    if bytes.len() == 0 {
        Err(invalid_data("file is empty"@))
    } else {
        match read_bytes(bytes, 0, 4) {
            Err(e) => Err(e),
            Ok((start, p)) => if start != magic() {
                Err(invalid_data("not a GGUF file (bad magic)"@))
            } else {
                match read_uint(bytes, p, 4) {
                    Err(e) => Err(e),
                    Ok((version, q)) => if version < 2 || version > 3 {
                        Err(invalid_data("GGUF version "@ + decimal(version) + " unsupported (need 2 or 3)"@))
                    } else {
                        match read_uint(bytes, q, 8) {
                            Err(e) => Err(e),
                            Ok((tensor_count, r)) => match read_uint(bytes, r, 8) {
                                Err(e) => Err(e),
                                Ok((meta_count, s)) => parse_body(bytes, s, version as u32, tensor_count, meta_count),
                            },
                        }
                    },
                }
            },
        }
    }
}

// ---------------------------------------------------------------------- cursor

/// Whether a read at a cursor came out as it should: the value and the next
/// position, or the error.
pub open spec fn reads<T: View>(got: Result<T, Error>, pos: int, want: Result<(T::V, int), ErrorView>) -> bool {
    match got {
        Ok(value) => want == Ok::<(T::V, int), ErrorView>((value@, pos)),
        Err(e) => want == Err::<(T::V, int), ErrorView>(e@),
    }
}

struct Cursor<'a> {
    buf: &'a [u8],
    pos: usize,
}

impl<'a> Cursor<'a> {
    spec fn wf(&self) -> bool {
        self.pos <= self.buf@.len()
    }

    fn new(buf: &'a [u8]) -> (cursor: Self)
        ensures
            cursor.wf(),
            cursor.buf@ == buf@,
            cursor.pos == 0,
    {
        Cursor { buf, pos: 0 }
    }

    fn take(&mut self, n: usize) -> (got: Result<&'a [u8], Error>)
        requires
            old(self).wf(),
        ensures
            final(self).wf(),
            final(self).buf@ == old(self).buf@,
            match got {
                Ok(bytes) => read_bytes(old(self).buf@, old(self).pos as int, n as int) == Ok::<
                    (Seq<u8>, int),
                    ErrorView,
                >((bytes@, final(self).pos as int)),
                Err(e) => read_bytes(old(self).buf@, old(self).pos as int, n as int) == Err::<
                    (Seq<u8>, int),
                    ErrorView,
                >(e@) && final(self).pos == old(self).pos,
            },
    {
        let end: usize = match self.pos.checked_add(n) {
            Some(end) => end,
            None => return Err(Error::bad("offset overflow")),
        };
        if end > self.buf.len() {
            return Err(Error::bad("unexpected end of file"));
        }
        let out = vstd::slice::slice_subrange(self.buf, self.pos, end);
        self.pos = end;
        Ok(out)
    }

    fn uint(&mut self, n: usize) -> (got: Result<u64, Error>)
        requires
            old(self).wf(),
            n <= 8,
        ensures
            final(self).wf(),
            final(self).buf@ == old(self).buf@,
            match got {
                Ok(v) => read_uint(old(self).buf@, old(self).pos as int, n as int) == Ok::<(nat, int), ErrorView>(
                    (v as nat, final(self).pos as int),
                ) && v < crate::le::span(n as nat),
                Err(e) => read_uint(old(self).buf@, old(self).pos as int, n as int) == Err::<(nat, int), ErrorView>(e@)
                    && final(self).pos == old(self).pos,
            },
    {
        let bytes = self.take(n)?;
        Ok(read_le(bytes))
    }

    fn u32_(&mut self) -> (got: Result<u32, Error>)
        requires
            old(self).wf(),
        ensures
            final(self).wf(),
            final(self).buf@ == old(self).buf@,
            match got {
                Ok(v) => read_uint(old(self).buf@, old(self).pos as int, 4) == Ok::<(nat, int), ErrorView>(
                    (v as nat, final(self).pos as int),
                ),
                Err(e) => read_uint(old(self).buf@, old(self).pos as int, 4) == Err::<(nat, int), ErrorView>(e@)
                    && final(self).pos == old(self).pos,
            },
    {
        let v: u64 = self.uint(4)?;
        proof {
            lemma_spans();
        }
        Ok(v as u32)
    }

    /// The version and the counts of tensors and metadata entries.
    fn header(&mut self) -> (got: Result<(u32, u64, u64), Error>)
        requires
            old(self).wf(),
            old(self).pos == 0,
            old(self).buf@.len() > 0,
        ensures
            final(self).wf(),
            final(self).buf@ == old(self).buf@,
            match got {
                Ok((version, tensors, entries)) => parse(old(self).buf@) == parse_body(
                    old(self).buf@,
                    final(self).pos as int,
                    version,
                    tensors as nat,
                    entries as nat,
                ),
                Err(e) => parse(old(self).buf@) == Err::<FileView, ErrorView>(e@),
            },
    {
        let start = self.take(4)?;
        if !text::bytes_eq(start, [0x47u8, 0x47, 0x55, 0x46].as_slice()) {
            return Err(Error::bad("not a GGUF file (bad magic)"));
        }
        let version: u32 = self.u32_()?;
        if version < 2 || version > 3 {
            let mut message = "GGUF version ".to_owned();
            message.append(text::to_decimal(version as u64).as_str());
            message.append(" unsupported (need 2 or 3)");
            return Err(Error::new(ErrorKind::InvalidData, message));
        }
        let tensors: u64 = self.uint(8)?;
        let entries: u64 = self.uint(8)?;
        Ok((version, tensors, entries))
    }

    fn string(&mut self) -> (got: Result<String, Error>)
        requires
            old(self).wf(),
        ensures
            final(self).wf(),
            final(self).buf@ == old(self).buf@,
            reads(got, final(self).pos as int, read_text(old(self).buf@, old(self).pos as int)),
    {
        let n: u64 = self.uint(8)?;
        if n > MAX_STRING {
            let mut message = "implausible string length ".to_owned();
            message.append(text::to_decimal(n).as_str());
            return Err(Error::new(ErrorKind::InvalidData, message));
        }
        let bytes = self.take(n as usize)?;
        match text::from_utf8(slice_to_vec(bytes)) {
            Some(s) => Ok(s),
            None => Err(Error::bad("metadata string is not utf-8")),
        }
    }

    fn scalar(&mut self, ty: u32) -> (got: Result<Value, Error>)
        requires
            old(self).wf(),
        ensures
            final(self).wf(),
            final(self).buf@ == old(self).buf@,
            reads(got, final(self).pos as int, read_scalar(old(self).buf@, old(self).pos as int, ty)),
            got is Err && ty != 8 ==> final(self).pos == old(self).pos,
    {
        proof {
            lemma_spans();
        }
        match ty {
            0 => Ok(Value::U8(self.uint(1)? as u8)),
            1 => {
                let v: u64 = self.uint(1)?;
                Ok(Value::I8(if v < 0x80 { v as i8 } else { (v as i16 - 0x100) as i8 }))
            },
            2 => Ok(Value::U16(self.uint(2)? as u16)),
            3 => {
                let v: u64 = self.uint(2)?;
                Ok(Value::I16(if v < 0x8000 { v as i16 } else { (v as i32 - 0x1_0000) as i16 }))
            },
            4 => Ok(Value::U32(self.uint(4)? as u32)),
            5 => {
                let v: u64 = self.uint(4)?;
                Ok(Value::I32(if v < 0x8000_0000 { v as i32 } else { (v as i64 - 0x1_0000_0000) as i32 }))
            },
            6 => Ok(Value::F32(self.uint(4)? as u32)),
            7 => Ok(Value::Bool(self.uint(1)? != 0)),
            8 => Ok(Value::String(self.string()?)),
            9 => Err(Error::bad("nested arrays are not valid GGUF")),
            10 => Ok(Value::U64(self.uint(8)?)),
            11 => {
                let v: u64 = self.uint(8)?;
                Ok(
                    Value::I64(
                        if v < 0x8000_0000_0000_0000 {
                            v as i64
                        } else {
                            -((0xffff_ffff_ffff_ffff - v) as i64) - 1
                        },
                    ),
                )
            },
            12 => Ok(Value::F64(self.uint(8)?)),
            other => {
                let mut message = "unknown metadata value type ".to_owned();
                message.append(text::to_decimal(other as u64).as_str());
                Err(Error::new(ErrorKind::InvalidData, message))
            },
        }
    }

    fn value(&mut self, ty: u32) -> (got: Result<Value, Error>)
        requires
            old(self).wf(),
        ensures
            final(self).wf(),
            final(self).buf@ == old(self).buf@,
            reads(got, final(self).pos as int, read_value(old(self).buf@, old(self).pos as int, ty)),
            got is Err && ty != 8 && ty != 9 ==> final(self).pos == old(self).pos,
    {
        if ty != 9 {
            return self.scalar(ty);
        }
        let inner: u32 = self.u32_()?;
        let count: u64 = self.uint(8)?;
        let ghost buf = self.buf@;
        let ghost start = self.pos as int;
        // No capacity is reserved: the count is the file's word alone, and each
        // element is bounded by what is left to read.
        let mut items: Vec<Value> = Vec::new();
        let mut i: u64 = 0;
        proof {
            assert(views(items@) =~= Seq::empty());
        }
        while i < count
            invariant
                i <= count,
                ty == 9,
                self.wf(),
                self.buf@ == buf,
                read_items(buf, start, inner, i as nat) == Ok::<(Seq<ValueView>, int), ErrorView>(
                    (views(items@), self.pos as int),
                ),
                old(self).buf@ == buf,
                read_value(buf, old(self).pos as int, ty) == (match read_items(buf, start, inner, count as nat) {
                    Err(e) => Err::<(ValueView, int), ErrorView>(e),
                    Ok((items, end)) => Ok((ValueView::List(items), end)),
                }),
            decreases count - i,
        {
            let item = match self.scalar(inner) {
                Ok(item) => item,
                Err(e) => {
                    proof {
                        lemma_items_stop(buf, start, inner, (i + 1) as nat, count as nat);
                    }
                    return Err(e);
                },
            };
            let ghost before = items@;
            items.push(item);
            proof {
                assert(views(items@) =~= views(before).push(item@));
            }
            i += 1;
        }
        proof {
            crate::value::lemma_array_view(items);
        }
        Ok(Value::Array(items))
    }

    fn entries(&mut self, n: u64) -> (got: Result<Table, Error>)
        requires
            old(self).wf(),
        ensures
            final(self).wf(),
            final(self).buf@ == old(self).buf@,
            got matches Ok(table) ==> table.wf(),
            reads(got, final(self).pos as int, read_entries(old(self).buf@, old(self).pos as int, n as nat)),
    {
        let ghost buf = self.buf@;
        let ghost start = self.pos as int;
        let mut table = Table::new();
        let mut i: u64 = 0;
        while i < n
            invariant
                i <= n,
                self.wf(),
                self.buf@ == buf,
                old(self).buf@ == buf,
                old(self).pos == start,
                table.wf(),
                read_entries(buf, start, i as nat) == Ok::<(Map<Seq<char>, ValueView>, int), ErrorView>(
                    (table@, self.pos as int),
                ),
            decreases n - i,
        {
            proof {
                if read_entries(buf, start, (i + 1) as nat) is Err {
                    lemma_entries_stop(buf, start, (i + 1) as nat, n as nat);
                }
            }
            let key = self.string()?;
            let ty: u32 = self.u32_()?;
            let value = self.value(ty)?;
            table.insert(key, value);
            i += 1;
        }
        Ok(table)
    }
}

/// A list read that failed stays failed.
proof fn lemma_items_stop(buf: Seq<u8>, pos: int, ty: u32, k: nat, n: nat)
    requires
        k <= n,
        read_items(buf, pos, ty, k) is Err,
    ensures
        read_items(buf, pos, ty, n) == read_items(buf, pos, ty, k),
    decreases n,
{
    if k < n {
        lemma_items_stop(buf, pos, ty, k, (n - 1) as nat);
    }
}

/// A metadata read that failed stays failed.
proof fn lemma_entries_stop(buf: Seq<u8>, pos: int, k: nat, n: nat)
    requires
        k <= n,
        read_entries(buf, pos, k) is Err,
    ensures
        read_entries(buf, pos, n) == read_entries(buf, pos, k),
    decreases n,
{
    if k < n {
        lemma_entries_stop(buf, pos, k, (n - 1) as nat);
    }
}

/// A tensor table read that failed stays failed.
proof fn lemma_tensors_stop(buf: Seq<u8>, pos: int, k: nat, n: nat)
    requires
        k <= n,
        read_tensors(buf, pos, k) is Err,
    ensures
        read_tensors(buf, pos, n) == read_tensors(buf, pos, k),
    decreases n,
{
    if k < n {
        lemma_tensors_stop(buf, pos, k, (n - 1) as nat);
    }
}

/// A read of dimensions that failed stays failed.
proof fn lemma_dims_stop(buf: Seq<u8>, pos: int, k: nat, n: nat)
    requires
        k <= n,
        read_dims(buf, pos, k) is Err,
    ensures
        read_dims(buf, pos, n) == read_dims(buf, pos, k),
    decreases n,
{
    if k < n {
        lemma_dims_stop(buf, pos, k, (n - 1) as nat);
    }
}

// --------------------------------------------------------------------- tensors

/// Where a tensor stands and what it is made of.
#[derive(Clone, Debug)]
pub struct TensorInfo {
    pub name: String,
    /// Dimensions, fastest-varying first.
    pub dims: Vec<u64>,
    pub ty: GgmlType,
    /// Byte offset from the start of the tensor data blob.
    pub offset: u64,
    /// `None` when the type has no known layout.
    pub byte_len: Option<u64>,
}

impl View for TensorInfo {
    type V = TensorView;

    open spec fn view(&self) -> TensorView {
        TensorView {
            name: self.name@,
            dims: self.dims@,
            ty: self.ty,
            offset: self.offset,
            byte_len: self.byte_len,
        }
    }
}

/// The descriptions of a list of tensors.
pub open spec fn tensor_views(tensors: Seq<TensorInfo>) -> Seq<TensorView> {
    tensors.map_values(|t: TensorInfo| t@)
}

/// The decimal forms of numbers.
pub open spec fn decimals(numbers: Seq<u64>) -> Seq<Seq<char>> {
    numbers.map_values(|n: u64| decimal(n as nat))
}

/// The product of the dimensions, unless it stops fitting on the way.
fn checked_product(dims: &[u64]) -> (p: Option<u64>)
    ensures
        p == product(dims@),
{
    let mut p: u64 = 1;
    let mut i: usize = 0;
    proof {
        assert(dims@.take(0) =~= Seq::empty());
    }
    while i < dims.len()
        invariant
            i <= dims@.len(),
            product(dims@.take(i as int)) == Some(p),
        decreases dims@.len() - i,
    {
        proof {
            let next = dims@.take(i + 1);
            assert(next.drop_last() =~= dims@.take(i as int));
            assert(next.last() == dims@[i as int]);
        }
        p = match p.checked_mul(dims[i]) {
            Some(q) => q,
            None => {
                proof {
                    lemma_product_stop(dims@, i + 1);
                }
                return None;
            },
        };
        i += 1;
    }
    proof {
        assert(dims@.take(i as int) =~= dims@);
    }
    Some(p)
}

proof fn lemma_product_stop(dims: Seq<u64>, k: int)
    requires
        0 <= k <= dims.len(),
        product(dims.take(k)) is None,
    ensures
        product(dims) is None,
    decreases dims.len(),
{
    if k < dims.len() {
        assert(dims.drop_last().take(k) =~= dims.take(k));
        lemma_product_stop(dims.drop_last(), k);
    } else {
        assert(dims.take(k) =~= dims);
    }
}

impl TensorInfo {
    /// How many elements the tensor has.
    pub fn elements(&self) -> (n: u64)
        requires
            product(self@.dims) is Some,
        ensures
            Some(n) == product(self@.dims),
    {
        match checked_product(self.dims.as_slice()) {
            Some(n) => n,
            None => 0,
        }
    }

    /// The dimensions, joined by `x`.
    pub fn shape(&self) -> (shape: String)
        ensures
            shape@ == text::joined(decimals(self@.dims), "x"@),
    {
        let mut parts: Vec<String> = Vec::new();
        let mut i: usize = 0;
        while i < self.dims.len()
            invariant
                i <= self.dims@.len(),
                text::texts(parts@) == decimals(self.dims@.take(i as int)),
            decreases self.dims@.len() - i,
        {
            let ghost before = parts@;
            let part = text::to_decimal(self.dims[i]);
            parts.push(part);
            proof {
                assert(text::texts(parts@) =~= text::texts(before).push(part@));
                assert(decimals(self.dims@.take(i + 1)) =~= decimals(self.dims@.take(i as int)).push(
                    decimal(self.dims@[i as int] as nat),
                ));
            }
            i += 1;
        }
        proof {
            assert(self.dims@.take(i as int) =~= self.dims@);
        }
        text::join(parts.as_slice(), "x")
    }
}

/// The bytes of a tensor of the given shape and type.
fn checked_byte_length(name: &str, dims: &[u64], ty: GgmlType) -> (got: Result<Option<u64>, Error>)
    ensures
        match got {
            Ok(len) => byte_length(name@, dims@, ty) == Ok::<Option<u64>, ErrorView>(len),
            Err(e) => byte_length(name@, dims@, ty) == Err::<Option<u64>, ErrorView>(e@),
        },
{
    let elements: u64 = match checked_product(dims) {
        Some(n) => n,
        None => {
            let mut message = "tensor ".to_owned();
            message.append(name);
            message.append(" element count overflows");
            return Err(Error::new(ErrorKind::InvalidData, message));
        },
    };
    match ty.layout() {
        None => Ok(None),
        Some((block, size)) => {
            if elements % block != 0 {
                let mut message = "tensor ".to_owned();
                message.append(name);
                message.append(": ");
                message.append(text::to_decimal(elements).as_str());
                message.append(" elements is not a multiple of ");
                message.append(ty.name().as_str());
                message.append(" block ");
                message.append(text::to_decimal(block).as_str());
                return Err(Error::new(ErrorKind::InvalidData, message));
            }
            match (elements / block).checked_mul(size) {
                Some(len) => Ok(Some(len)),
                None => {
                    let mut message = "tensor ".to_owned();
                    message.append(name);
                    message.append(" byte length overflows");
                    Err(Error::new(ErrorKind::InvalidData, message))
                },
            }
        },
    }
}

/// The places of the names: each tensor is found under its own.
pub open spec fn indexes(index: Map<Seq<char>, usize>, tensors: Seq<TensorView>) -> bool {
    &&& forall|name: Seq<char>| #[trigger]
        index.contains_key(name) <==> has_name(tensors, name)
    &&& forall|name: Seq<char>| #[trigger]
        index.contains_key(name) ==> index[name] < tensors.len() && tensors[index[name] as int].name == name
}

impl<'a> Cursor<'a> {
    fn tensor(&mut self) -> (got: Result<TensorInfo, Error>)
        requires
            old(self).wf(),
        ensures
            final(self).wf(),
            final(self).buf@ == old(self).buf@,
            reads(got, final(self).pos as int, read_tensor(old(self).buf@, old(self).pos as int)),
    {
        let name = self.string()?;
        let n: u32 = self.u32_()?;
        if n == 0 || n as u64 > MAX_DIMS {
            let mut message = "tensor ".to_owned();
            message.append(name.as_str());
            message.append(" has ");
            message.append(text::to_decimal(n as u64).as_str());
            message.append(" dimensions");
            return Err(Error::new(ErrorKind::InvalidData, message));
        }
        let dims = self.dims(n)?;
        let ty = GgmlType::from_id(self.u32_()?);
        let offset: u64 = self.uint(8)?;
        let byte_len = checked_byte_length(name.as_str(), dims.as_slice(), ty)?;
        Ok(TensorInfo { name, dims, ty, offset, byte_len })
    }

    fn dims(&mut self, n: u32) -> (got: Result<Vec<u64>, Error>)
        requires
            old(self).wf(),
        ensures
            final(self).wf(),
            final(self).buf@ == old(self).buf@,
            reads(got, final(self).pos as int, read_dims(old(self).buf@, old(self).pos as int, n as nat)),
    {
        let ghost buf = self.buf@;
        let ghost start = self.pos as int;
        let mut dims: Vec<u64> = Vec::new();
        let mut i: u32 = 0;
        while i < n
            invariant
                i <= n,
                self.wf(),
                self.buf@ == buf,
                old(self).buf@ == buf,
                old(self).pos == start,
                read_dims(buf, start, i as nat) == Ok::<(Seq<u64>, int), ErrorView>((dims@, self.pos as int)),
            decreases n - i,
        {
            proof {
                if read_dims(buf, start, (i + 1) as nat) is Err {
                    lemma_dims_stop(buf, start, (i + 1) as nat, n as nat);
                }
            }
            let d: u64 = self.uint(8)?;
            dims.push(d);
            i += 1;
        }
        Ok(dims)
    }

    fn tensors(&mut self, n: u64) -> (got: Result<(Vec<TensorInfo>, StringHashMap<usize>), Error>)
        requires
            old(self).wf(),
        ensures
            final(self).wf(),
            final(self).buf@ == old(self).buf@,
            match got {
                Ok((tensors, index)) => read_tensors(old(self).buf@, old(self).pos as int, n as nat) == Ok::<
                    (Seq<TensorView>, int),
                    ErrorView,
                >((tensor_views(tensors@), final(self).pos as int)) && indexes(index@, tensor_views(tensors@)),
                Err(e) => read_tensors(old(self).buf@, old(self).pos as int, n as nat) == Err::<
                    (Seq<TensorView>, int),
                    ErrorView,
                >(e@),
            },
    {
        let ghost buf = self.buf@;
        let ghost start = self.pos as int;
        let mut tensors: Vec<TensorInfo> = Vec::new();
        let mut index: StringHashMap<usize> = StringHashMap::new();
        let mut i: u64 = 0;
        proof {
            assert(tensor_views(tensors@) =~= Seq::empty());
        }
        while i < n
            invariant
                i <= n,
                self.wf(),
                self.buf@ == buf,
                old(self).buf@ == buf,
                old(self).pos == start,
                indexes(index@, tensor_views(tensors@)),
                read_tensors(buf, start, i as nat) == Ok::<(Seq<TensorView>, int), ErrorView>(
                    (tensor_views(tensors@), self.pos as int),
                ),
            decreases n - i,
        {
            proof {
                if read_tensors(buf, start, (i + 1) as nat) is Err {
                    lemma_tensors_stop(buf, start, (i + 1) as nat, n as nat);
                }
            }
            let tensor = self.tensor()?;
            let ghost before = tensor_views(tensors@);
            let ghost view = tensor@;
            if index.contains_key(tensor.name.as_str()) {
                let mut message = "duplicate tensor name ".to_owned();
                message.append(tensor.name.as_str());
                return Err(Error::new(ErrorKind::InvalidData, message));
            }
            index.insert(tensor.name.clone(), tensors.len());
            tensors.push(tensor);
            proof {
                let after = tensor_views(tensors@);
                assert(after =~= before.push(view));
                assert forall|name: Seq<char>| #[trigger]
                    index@.contains_key(name) <==> has_name(after, name) by {
                    if has_name(before, name) {
                        let j = choose|j: int| 0 <= j < before.len() && (#[trigger] before[j]).name == name;
                        assert(after[j].name == name);
                    }
                    if name == view.name {
                        assert(after[before.len() as int].name == name);
                    }
                    if has_name(after, name) && name != view.name {
                        let j = choose|j: int| 0 <= j < after.len() && (#[trigger] after[j]).name == name;
                        assert(before[j].name == name);
                    }
                }
            }
            i += 1;
        }
        Ok((tensors, index))
    }
}

// ------------------------------------------------------------------------ file

/// An opened GGUF file.
pub struct Gguf<'a> {
    map: Mmap<'a>,
    pub version: u32,
    pub alignment: u64,
    pub meta: Table,
    pub tensors: Vec<TensorInfo>,
    /// Byte offset of the tensor data blob within the file.
    pub data_offset: u64,
    index: StringHashMap<usize>,
}

impl<'a> View for Gguf<'a> {
    type V = FileView;

    closed spec fn view(&self) -> FileView {
        FileView {
            bytes: self.map@,
            version: self.version,
            alignment: self.alignment,
            meta: self.meta@,
            tensors: tensor_views(self.tensors@),
            data_offset: self.data_offset,
        }
    }
}

impl FileView {
    /// The position of a tensor's first byte in the file.
    pub open spec fn start(self, t: TensorView) -> int {
        self.data_offset + t.offset
    }

    /// Whether all bytes of a tensor are in the file.
    pub open spec fn holds(self, t: TensorView) -> bool {
        t.byte_len matches Some(len) ==> self.start(t) + len <= self.bytes.len()
    }

    /// What every opened file satisfies: an alignment that is a power of two, a
    /// blob that starts aligned and inside the file, and tensors with names of
    /// their own that lie inside the file and are as long as their shape and
    /// type say.
    pub open spec fn valid(self) -> bool {
        &&& is_pow2(self.alignment as int)
        &&& self.data_offset as int % self.alignment as int == 0
        &&& self.data_offset <= self.bytes.len()
        &&& 2 <= self.version <= 3
        &&& forall|i: int| 0 <= i < self.tensors.len() ==> self.holds(#[trigger] self.tensors[i])
        &&& forall|i: int| 0 <= i < self.tensors.len() ==> sized(#[trigger] self.tensors[i])
        &&& forall|i: int, j: int|
            0 <= i < j < self.tensors.len() ==> (#[trigger] self.tensors[i]).name != (#[trigger] self.tensors[j]).name
    }

    /// The tensor of a name.
    pub open spec fn find(self, name: Seq<char>) -> Option<TensorView> {
        if has_name(self.tensors, name) {
            Some(self.tensors[choose|i: int| 0 <= i < self.tensors.len() && (#[trigger] self.tensors[i]).name == name])
        } else {
            None
        }
    }

    /// The text under a metadata key.
    pub open spec fn text(self, key: Seq<char>) -> Option<Seq<char>> {
        if self.meta.contains_key(key) {
            match self.meta[key] {
                ValueView::Text(s) => Some(s),
                _ => None,
            }
        } else {
            None
        }
    }

    /// The unsigned number under a metadata key.
    pub open spec fn number(self, key: Seq<char>) -> Option<u64> {
        if self.meta.contains_key(key) {
            self.meta[key].as_u64()
        } else {
            None
        }
    }

    /// Whether `bits` is what the metadata say under a key, as an `f32`.
    pub open spec fn nearest(self, key: Seq<char>, bits: Option<u32>) -> bool {
        match bits {
            Some(b) => self.meta.contains_key(key) && self.meta[key].is_number() && self.meta[key].rounds_to(b),
            None => !(self.meta.contains_key(key) && self.meta[key].is_number()),
        }
    }

    /// The architecture.
    pub open spec fn arch(self) -> Option<Seq<char>> {
        self.text("general.architecture"@)
    }

    /// The key of the architecture's own setting.
    pub open spec fn arch_key(self, suffix: Seq<char>) -> Seq<char> {
        self.arch().unwrap() + "."@ + suffix
    }

    /// The architecture's own number under a suffix.
    pub open spec fn arch_number(self, suffix: Seq<char>) -> Option<u64> {
        if self.arch() is Some {
            self.number(self.arch_key(suffix))
        } else {
            None
        }
    }
}

/// A file in one line, with its architecture as it is shown.
pub open spec fn described(file: FileView, arch: Seq<char>) -> Seq<char> {
    "Gguf { version: "@ + decimal(file.version as nat) + ", arch: "@ + arch + ", tensors: "@ + decimal(
        file.tensors.len(),
    ) + ", bytes: "@ + decimal(file.bytes.len()) + " }"@
}

/// Whether a tensor has as many bytes as its shape and type ask for.
pub open spec fn sized(t: TensorView) -> bool {
    &&& 1 <= t.dims.len() <= MAX_DIMS
    &&& product(t.dims) matches Some(elements) && match layout_of(t.ty) {
        None => t.byte_len is None,
        Some((block, size)) => elements % block == 0 && t.byte_len == Some(((elements / block) * size) as u64)
            && (elements / block) * size <= u64::MAX,
    }
}

proof fn lemma_items_advance(buf: Seq<u8>, pos: int, ty: u32, n: nat)
    requires
        read_items(buf, pos, ty, n) is Ok,
    ensures
        read_items(buf, pos, ty, n)->Ok_0.1 >= pos,
    decreases n,
{
    if n > 0 {
        lemma_items_advance(buf, pos, ty, (n - 1) as nat);
    }
}

/// Entries end where they begin or later.
pub proof fn lemma_entries_advance(buf: Seq<u8>, pos: int, n: nat)
    requires
        read_entries(buf, pos, n) is Ok,
    ensures
        read_entries(buf, pos, n)->Ok_0.1 >= pos,
    decreases n,
{
    if n > 0 {
        lemma_entries_advance(buf, pos, (n - 1) as nat);
        let (table, next) = read_entries(buf, pos, (n - 1) as nat)->Ok_0;
        let (key, p) = read_text(buf, next)->Ok_0;
        let (ty, q) = read_uint(buf, p, 4)->Ok_0;
        if ty as u32 == 9 {
            let (inner, r) = read_uint(buf, q, 4)->Ok_0;
            let (count, t) = read_uint(buf, r, 8)->Ok_0;
            lemma_items_advance(buf, t, inner as u32, count);
        }
    }
}

/// Descriptions end where they begin or later.
pub proof fn lemma_tensors_advance(buf: Seq<u8>, pos: int, n: nat)
    requires
        read_tensors(buf, pos, n) is Ok,
    ensures
        read_tensors(buf, pos, n)->Ok_0.1 >= pos,
    decreases n,
{
    if n > 0 {
        lemma_tensors_advance(buf, pos, (n - 1) as nat);
        let (tensors, next) = read_tensors(buf, pos, (n - 1) as nat)->Ok_0;
        let (name, p) = read_text(buf, next)->Ok_0;
        let (count, q) = read_uint(buf, p, 4)->Ok_0;
        lemma_dims_len(buf, q, count);
    }
}

/// Every file that parses is valid.
pub proof fn lemma_parsed_is_valid(bytes: Seq<u8>)
    requires
        parse(bytes) is Ok,
    ensures
        parse(bytes)->Ok_0.valid(),
        parse(bytes)->Ok_0.bytes == bytes,
{
    let file = parse(bytes)->Ok_0;
    let (start, p) = read_bytes(bytes, 0, 4)->Ok_0;
    let (version, q) = read_uint(bytes, p, 4)->Ok_0;
    let (tensor_count, r) = read_uint(bytes, q, 8)->Ok_0;
    let (meta_count, s) = read_uint(bytes, r, 8)->Ok_0;
    let (meta, t) = read_entries(bytes, s, meta_count)->Ok_0;
    let (tensors, u) = read_tensors(bytes, t, tensor_count)->Ok_0;
    assert(file == parse_body(bytes, s, version as u32, tensor_count, meta_count)->Ok_0);
    lemma_entries_advance(bytes, s, meta_count);
    lemma_tensors_advance(bytes, t, tensor_count);
    lemma_read_tensors_valid(bytes, t, tensor_count);
    lemma_pow2_positive(file.alignment as int);
    lemma_aligned(u, file.alignment as int);
    assert forall|i: int| 0 <= i < tensors.len() implies file.holds(#[trigger] tensors[i]) by {
        lemma_all_fit(tensors, tensors.len(), i, file.data_offset as int, bytes.len() as int);
    }
}

proof fn lemma_read_tensors_valid(buf: Seq<u8>, pos: int, n: nat)
    requires
        read_tensors(buf, pos, n) is Ok,
    ensures
        ({
            let tensors = read_tensors(buf, pos, n)->Ok_0.0;
            &&& forall|i: int| 0 <= i < tensors.len() ==> sized(#[trigger] tensors[i])
            &&& forall|i: int, j: int|
                0 <= i < j < tensors.len() ==> (#[trigger] tensors[i]).name != (#[trigger] tensors[j]).name
        }),
    decreases n,
{
    if n > 0 {
        lemma_read_tensors_valid(buf, pos, (n - 1) as nat);
        let (before, next) = read_tensors(buf, pos, (n - 1) as nat)->Ok_0;
        let (tensor, end) = read_tensor(buf, next)->Ok_0;
        let (name, p) = read_text(buf, next)->Ok_0;
        let (count, q) = read_uint(buf, p, 4)->Ok_0;
        lemma_dims_len(buf, q, count);
        assert(sized(tensor));
        let tensors = before.push(tensor);
        assert forall|i: int, j: int| 0 <= i < j < tensors.len() implies (#[trigger] tensors[i]).name != (
        #[trigger] tensors[j]).name by {
            assert(before[i] == tensors[i]);
            if j < before.len() {
                assert(before[j] == tensors[j]);
            }
        }
    }
}

proof fn lemma_dims_len(buf: Seq<u8>, pos: int, n: nat)
    requires
        read_dims(buf, pos, n) is Ok,
    ensures
        read_dims(buf, pos, n)->Ok_0.0.len() == n,
        read_dims(buf, pos, n)->Ok_0.1 >= pos,
    decreases n,
{
    if n > 0 {
        lemma_dims_len(buf, pos, (n - 1) as nat);
    }
}

proof fn lemma_all_fit(tensors: Seq<TensorView>, n: nat, i: int, data_offset: int, file_len: int)
    requires
        0 <= i < n <= tensors.len(),
        first_misfit(tensors, n, data_offset, file_len) is None,
    ensures
        misfit(tensors[i], data_offset, file_len) is None,
    decreases n,
{
    if i < n - 1 {
        lemma_all_fit(tensors, (n - 1) as nat, i, data_offset, file_len);
    }
}

proof fn lemma_misfit_stays(tensors: Seq<TensorView>, k: nat, n: nat, data_offset: int, file_len: int)
    requires
        k <= n,
        first_misfit(tensors, k, data_offset, file_len) is Some,
    ensures
        first_misfit(tensors, n, data_offset, file_len) == first_misfit(tensors, k, data_offset, file_len),
    decreases n,
{
    if k < n {
        lemma_misfit_stays(tensors, k, (n - 1) as nat, data_offset, file_len);
    }
}

proof fn lemma_pow2_positive(n: int)
    requires
        is_pow2(n),
    ensures
        n > 0,
{
    reveal(is_pow2);
}

/// Rounding up gives a multiple, and the nearest one above.
pub proof fn lemma_aligned(value: int, alignment: int)
    requires
        alignment > 0,
    ensures
        value <= aligned(value, alignment) < value + alignment,
        aligned(value, alignment) % alignment == 0,
{
    vstd::arithmetic::div_mod::lemma_mod_bound(value, alignment);
    if value % alignment != 0 {
        let q = value / alignment;
        vstd::arithmetic::div_mod::lemma_fundamental_div_mod(value, alignment);
        assert(alignment * q + alignment == alignment * (q + 1)) by (nonlinear_arith);
        assert(aligned(value, alignment) == alignment * (q + 1));
        vstd::arithmetic::div_mod::lemma_mod_multiples_basic(q + 1, alignment);
        assert(alignment * (q + 1) == (q + 1) * alignment) by (nonlinear_arith);
    }
}

fn power_of_two(n: u64) -> (yes: bool)
    ensures
        yes == is_pow2(n as int),
{
    if n == 0 {
        proof {
            reveal(is_pow2);
        }
        return false;
    }
    let mut rest: u64 = n;
    while rest % 2 == 0
        invariant
            rest > 0,
            is_pow2(rest as int) == is_pow2(n as int),
        decreases rest,
    {
        proof {
            reveal(is_pow2);
        }
        rest = rest / 2;
    }
    proof {
        reveal(is_pow2);
    }
    rest == 1
}

/// Rounds up to a multiple of the alignment; `None` beyond what fits.
pub fn align_up(value: u64, alignment: u64) -> (up: Option<u64>)
    requires
        alignment > 0,
    ensures
        match up {
            Some(v) => v == aligned(value as int, alignment as int),
            None => aligned(value as int, alignment as int) > u64::MAX,
        },
{
    let rem: u64 = value % alignment;
    if rem == 0 {
        Some(value)
    } else {
        value.checked_add(alignment - rem)
    }
}

fn declared_alignment(meta: &Table) -> (got: Result<u64, Error>)
    requires
        meta.wf(),
    ensures
        match got {
            Ok(alignment) => alignment_of(meta@) == Ok::<u64, ErrorView>(alignment) && alignment > 0,
            Err(e) => alignment_of(meta@) == Err::<u64, ErrorView>(e@),
        },
{
    let alignment: u64 = match meta.get("general.alignment") {
        Some(v) => match v.as_u64() {
            Some(n) => n,
            None => return Err(Error::bad("general.alignment not an int")),
        },
        None => DEFAULT_ALIGNMENT,
    };
    if !power_of_two(alignment) {
        let mut message = "alignment ".to_owned();
        message.append(text::to_decimal(alignment).as_str());
        message.append(" is not a power of two");
        return Err(Error::new(ErrorKind::InvalidData, message));
    }
    proof {
        lemma_pow2_positive(alignment as int);
    }
    Ok(alignment)
}

fn check_extent(t: &TensorInfo, data_offset: u64, file_len: u64) -> (got: Result<(), Error>)
    ensures
        match got {
            Ok(_) => misfit(t@, data_offset as int, file_len as int) is None,
            Err(e) => misfit(t@, data_offset as int, file_len as int) == Some(e@),
        },
{
    let len: u64 = match t.byte_len {
        Some(len) => len,
        None => return Ok(()),
    };
    let end: Option<u64> = match data_offset.checked_add(t.offset) {
        Some(start) => start.checked_add(len),
        None => None,
    };
    match end {
        None => {
            let mut message = "tensor ".to_owned();
            message.append(t.name.as_str());
            message.append(" extent overflows");
            Err(Error::new(ErrorKind::InvalidData, message))
        },
        Some(end) => {
            if end > file_len {
                let mut message = "tensor ".to_owned();
                message.append(t.name.as_str());
                message.append(" runs ");
                message.append(text::to_decimal(end - file_len).as_str());
                message.append(" bytes past end of file (truncated download?)");
                return Err(Error::new(ErrorKind::InvalidData, message));
            }
            Ok(())
        },
    }
}

fn check_extents(tensors: &[TensorInfo], data_offset: u64, file_len: u64) -> (got: Result<(), Error>)
    ensures
        match got {
            Ok(_) => first_misfit(tensor_views(tensors@), tensors@.len(), data_offset as int, file_len as int) is None,
            Err(e) => first_misfit(tensor_views(tensors@), tensors@.len(), data_offset as int, file_len as int)
                == Some(e@),
        },
{
    let ghost all = tensor_views(tensors@);
    let mut i: usize = 0;
    while i < tensors.len()
        invariant
            i <= tensors@.len(),
            all == tensor_views(tensors@),
            first_misfit(all, i as nat, data_offset as int, file_len as int) is None,
        decreases tensors@.len() - i,
    {
        proof {
            assert(all[i as int] == tensors@[i as int]@);
            if first_misfit(all, (i + 1) as nat, data_offset as int, file_len as int) is Some {
                lemma_misfit_stays(all, (i + 1) as nat, tensors@.len(), data_offset as int, file_len as int);
            }
        }
        check_extent(&tensors[i], data_offset, file_len)?;
        i += 1;
    }
    Ok(())
}

impl<'a> Gguf<'a> {
    /// What every opened file keeps: it is valid, and the index finds each
    /// tensor under its name.
    pub closed spec fn wf(&self) -> bool {
        &&& self.meta.wf()
        &&& self@.valid()
        &&& indexes(self.index@, self@.tensors)
    }

    /// What holds of every opened file.
    pub proof fn lemma_valid(&self)
        requires
            self.wf(),
        ensures
            self@.valid(),
    {
    }

    /// Reads a file.
    pub fn open(bytes: &'a [u8]) -> (file: Result<Self, Error>)
        ensures
            match file {
                Ok(f) => parse(bytes@) == Ok::<FileView, ErrorView>(f@) && f.wf(),
                Err(e) => parse(bytes@) == Err::<FileView, ErrorView>(e@),
            },
    {
        let map = Mmap::open(bytes)?;
        let file_len: u64 = map.len() as u64;
        let mut cur = Cursor::new(map.as_slice());
        let (version, tensor_count, meta_count) = cur.header()?;
        let meta = cur.entries(meta_count)?;
        let alignment: u64 = declared_alignment(&meta)?;
        let (tensors, index) = cur.tensors(tensor_count)?;
        let data_offset: u64 = match align_up(cur.pos as u64, alignment) {
            Some(v) => v,
            None => return Err(Error::bad("data offset overflows")),
        };
        if data_offset > file_len {
            return Err(Error::bad("file ends before the tensor data begins"));
        }
        // Every sized tensor must fit inside the file. Catches truncated
        // downloads before a kernel reads past the mapping.
        check_extents(tensors.as_slice(), data_offset, file_len)?;
        let file = Gguf { map, version, alignment, meta, tensors, data_offset, index };
        proof {
            lemma_parsed_is_valid(bytes@);
        }
        Ok(file)
    }

    /// A metadata value.
    pub fn get(&self, key: &str) -> (found: Option<&Value>)
        requires
            self.wf(),
        ensures
            match found {
                Some(value) => self@.meta.contains_key(key@) && value@ == self@.meta[key@],
                None => !self@.meta.contains_key(key@),
            },
    {
        self.meta.get(key)
    }

    /// A metadata text.
    pub fn meta_str(&self, key: &str) -> (found: Option<&str>)
        requires
            self.wf(),
        ensures
            match found {
                Some(s) => self@.text(key@) == Some(s@),
                None => self@.text(key@) is None,
            },
    {
        match self.get(key) {
            Some(value) => value.as_str(),
            None => None,
        }
    }

    /// A metadata number.
    pub fn meta_u64(&self, key: &str) -> (found: Option<u64>)
        requires
            self.wf(),
        ensures
            found == self@.number(key@),
    {
        match self.get(key) {
            Some(value) => value.as_u64(),
            None => None,
        }
    }

    /// A metadata number as the nearest `f32`.
    pub fn meta_f32(&self, key: &str) -> (found: Option<u32>)
        requires
            self.wf(),
        ensures
            self@.nearest(key@, found),
    {
        match self.get(key) {
            Some(value) => value.as_f32(),
            None => None,
        }
    }

    /// `llama`, `qwen2`, `gemma`, ... Drives which weight names to expect.
    pub fn arch(&self) -> (found: Option<&str>)
        requires
            self.wf(),
        ensures
            match found {
                Some(s) => self@.arch() == Some(s@),
                None => self@.arch() is None,
            },
    {
        self.meta_str("general.architecture")
    }

    /// The architecture's own number: `block_count` reads `llama.block_count`
    /// for a llama model.
    pub fn arch_u64(&self, suffix: &str) -> (found: Option<u64>)
        requires
            self.wf(),
        ensures
            found == self@.arch_number(suffix@),
    {
        match self.arch() {
            None => None,
            Some(arch) => {
                let mut key = arch.to_owned();
                key.append(".");
                key.append(suffix);
                self.meta_u64(key.as_str())
            },
        }
    }

    /// The architecture's own number as the nearest `f32`.
    pub fn arch_f32(&self, suffix: &str) -> (found: Option<u32>)
        requires
            self.wf(),
        ensures
            self@.arch() is None ==> found is None,
            self@.arch() is Some ==> self@.nearest(self@.arch_key(suffix@), found),
    {
        match self.arch() {
            None => None,
            Some(arch) => {
                let mut key = arch.to_owned();
                key.append(".");
                key.append(suffix);
                self.meta_f32(key.as_str())
            },
        }
    }

    /// The tensor of a name.
    pub fn tensor(&self, name: &str) -> (found: Option<&TensorInfo>)
        requires
            self.wf(),
        ensures
            match found {
                Some(t) => self@.find(name@) == Some(t@) && self@.tensors.contains(t@) && t@.name == name@,
                None => self@.find(name@) is None,
            },
    {
        match self.index.get(name) {
            Some(i) => {
                proof {
                    let all = self@.tensors;
                    assert(all[*i as int] == self.tensors@[*i as int]@);
                    let k = choose|k: int| 0 <= k < all.len() && (#[trigger] all[k]).name == name@;
                    if k < *i {
                        assert(all[k].name != all[*i as int].name);
                    } else if *i < k {
                        assert(all[*i as int].name != all[k].name);
                    }
                }
                Some(&self.tensors[*i])
            },
            None => None,
        }
    }

    /// Raw bytes of a tensor, straight out of the mapping, without a copy.
    pub fn tensor_bytes(&self, t: &TensorInfo) -> (got: Result<&'a [u8], Error>)
        requires
            self.wf(),
            t@.byte_len matches Some(len) ==> self@.start(t@) + len <= usize::MAX,
        ensures
            match got {
                Ok(bytes) => t@.byte_len matches Some(len) && self@.start(t@) + len <= self@.bytes.len()
                    && bytes@ == self@.bytes.subrange(self@.start(t@), self@.start(t@) + len),
                Err(e) => match t@.byte_len {
                    None => e@ == invalid_data("tensor "@ + t@.name + " has unsupported type "@ + name_of(t@.ty)),
                    Some(len) => self@.start(t@) + len > self@.bytes.len()
                        && e@ == invalid_data("tensor "@ + t@.name + " out of bounds"@),
                },
            },
    {
        let len: u64 = match t.byte_len {
            Some(len) => len,
            None => {
                let mut message = "tensor ".to_owned();
                message.append(t.name.as_str());
                message.append(" has unsupported type ");
                message.append(t.ty.name().as_str());
                return Err(Error::new(ErrorKind::InvalidData, message));
            },
        };
        let start: usize = (self.data_offset + t.offset) as usize;
        let end: usize = start + len as usize;
        if end > self.map.len() {
            let mut message = "tensor ".to_owned();
            message.append(t.name.as_str());
            message.append(" out of bounds");
            return Err(Error::new(ErrorKind::InvalidData, message));
        }
        Ok(vstd::slice::slice_subrange(self.map.as_slice(), start, end))
    }

    /// The version of the format.
    pub fn version(&self) -> (version: u32)
        ensures
            version == self@.version,
    {
        self.version
    }

    /// The alignment of the tensor data.
    pub fn alignment(&self) -> (alignment: u64)
        ensures
            alignment == self@.alignment,
    {
        self.alignment
    }

    /// Where the tensor data begin in the file.
    pub fn data_offset(&self) -> (offset: u64)
        ensures
            offset == self@.data_offset,
    {
        self.data_offset
    }

    /// The metadata.
    pub fn meta(&self) -> (table: &Table)
        requires
            self.wf(),
        ensures
            table.wf(),
            table@ == self@.meta,
    {
        &self.meta
    }

    /// How many tensors there are.
    pub fn tensor_count(&self) -> (n: usize)
        ensures
            n == self@.tensors.len(),
    {
        self.tensors.len()
    }

    /// The tensor at a place of the table.
    pub fn tensor_at(&self, i: usize) -> (t: &TensorInfo)
        requires
            i < self@.tensors.len(),
        ensures
            t@ == self@.tensors[i as int],
    {
        &self.tensors[i]
    }

    /// The fields anyone wants in a panic message. Deliberately not the full
    /// metadata: a vocabulary would bury them.
    pub fn describe(&self) -> (text: String)
        requires
            self.wf(),
        ensures
            text@ == described(
                self@,
                match self@.arch() {
                    Some(arch) => "Some("@ + text::quoted(arch) + ")"@,
                    None => "None"@,
                },
            ),
    {
        match self.arch() {
            Some(arch) => {
                let mut shown = "Some(".to_owned();
                shown.append(text::quote(arch).as_str());
                shown.append(")");
                self.describe_as(shown.as_str())
            },
            None => self.describe_as("None"),
        }
    }

    /// The same with the architecture as it is shown.
    pub fn describe_as(&self, arch: &str) -> (text: String)
        ensures
            text@ == described(self@, arch@),
    {
        let mut text = "Gguf { version: ".to_owned();
        text.append(text::to_decimal(self.version as u64).as_str());
        text.append(", arch: ");
        text.append(arch);
        text.append(", tensors: ");
        text.append(text::to_decimal(self.tensors.len() as u64).as_str());
        text.append(", bytes: ");
        text.append(text::to_decimal(self.map.len() as u64).as_str());
        text.append(" }");
        text
    }

    /// The length of the file.
    pub fn file_len(&self) -> (n: u64)
        ensures
            n == self@.bytes.len(),
            n <= usize::MAX,
    {
        self.map.len() as u64
    }
}

// ------------------------------------------------------------------- histogram

/// How many of the first `n` tensors have the type.
pub open spec fn count_of(tensors: Seq<TensorView>, ty: GgmlType, n: nat) -> nat
    decreases n,
{
    if n == 0 {
        0
    } else {
        count_of(tensors, ty, (n - 1) as nat) + if tensors[n - 1].ty == ty { 1nat } else { 0nat }
    }
}

/// The bytes of a tensor; none for a type that cannot be sized.
pub open spec fn size_of(t: TensorView) -> nat {
    match t.byte_len {
        Some(len) => len as nat,
        None => 0,
    }
}

/// How many bytes the tensors of the type take among the first `n`.
pub open spec fn bytes_of(tensors: Seq<TensorView>, ty: GgmlType, n: nat) -> nat
    decreases n,
{
    if n == 0 {
        0
    } else {
        bytes_of(tensors, ty, (n - 1) as nat) + if tensors[n - 1].ty == ty { size_of(tensors[n - 1]) } else { 0 }
    }
}

/// How many bytes the first `n` tensors take.
pub open spec fn total_bytes(tensors: Seq<TensorView>, n: nat) -> nat
    decreases n,
{
    if n == 0 {
        0
    } else {
        total_bytes(tensors, (n - 1) as nat) + size_of(tensors[n - 1])
    }
}

/// The types of the tensors with their counts and bytes: each type that occurs
/// once and no other, largest first.
pub open spec fn is_histogram(tensors: Seq<TensorView>, rows: Seq<(GgmlType, u64, u64)>) -> bool {
    &&& forall|k: int|
        0 <= k < rows.len() ==> (#[trigger] rows[k]).1 == count_of(tensors, rows[k].0, tensors.len()) && rows[k].1 > 0
            && rows[k].2 == bytes_of(tensors, rows[k].0, tensors.len())
    &&& forall|k: int, l: int|
        0 <= k < l < rows.len() ==> (#[trigger] rows[k]).0 != (#[trigger] rows[l]).0 && rows[k].2 >= rows[l].2
    &&& forall|i: int| 0 <= i < tensors.len() ==> lists(rows, (#[trigger] tensors[i]).ty)
}

/// Whether some row is about the type.
pub open spec fn lists(rows: Seq<(GgmlType, u64, u64)>, ty: GgmlType) -> bool {
    exists|k: int| 0 <= k < rows.len() && (#[trigger] rows[k]).0 == ty
}

proof fn lemma_part_of_total(tensors: Seq<TensorView>, ty: GgmlType, n: nat, m: nat)
    requires
        n <= m <= tensors.len(),
    ensures
        bytes_of(tensors, ty, n) <= total_bytes(tensors, m),
        count_of(tensors, ty, n) <= n,
    decreases m,
{
    if n < m {
        lemma_part_of_total(tensors, ty, n, (m - 1) as nat);
    } else if n > 0 {
        lemma_part_of_total(tensors, ty, (n - 1) as nat, (m - 1) as nat);
    }
}

proof fn lemma_counted(tensors: Seq<TensorView>, i: int, n: nat)
    requires
        0 <= i < n <= tensors.len(),
    ensures
        count_of(tensors, tensors[i].ty, n) > 0,
    decreases n,
{
    if i < n - 1 {
        lemma_counted(tensors, i, (n - 1) as nat);
    }
}

impl<'a> Gguf<'a> {
    fn tally(&self, ty: GgmlType) -> (row: (GgmlType, u64, u64))
        requires
            self.wf(),
            total_bytes(self@.tensors, self@.tensors.len()) <= u64::MAX,
        ensures
            row.0 == ty,
            row.1 == count_of(self@.tensors, ty, self@.tensors.len()),
            row.2 == bytes_of(self@.tensors, ty, self@.tensors.len()),
    {
        let ghost all = self@.tensors;
        let mut count: u64 = 0;
        let mut bytes: u64 = 0;
        let mut i: usize = 0;
        while i < self.tensors.len()
            invariant
                i <= self.tensors@.len(),
                all == self@.tensors,
                all.len() == self.tensors@.len(),
                total_bytes(all, all.len()) <= u64::MAX,
                count == count_of(all, ty, i as nat),
                bytes == bytes_of(all, ty, i as nat),
            decreases self.tensors@.len() - i,
        {
            proof {
                assert(all[i as int] == self.tensors@[i as int]@);
                lemma_part_of_total(all, ty, (i + 1) as nat, all.len());
            }
            if self.tensors[i].ty == ty {
                count += 1;
                bytes += match self.tensors[i].byte_len {
                    Some(len) => len,
                    None => 0,
                };
            }
            i += 1;
        }
        (ty, count, bytes)
    }

    /// Bytes per quantization type, largest first. This is what tells at a
    /// glance whether a "Q4_K_M" file is really mostly Q4_K.
    pub fn quant_histogram(&self) -> (rows: Vec<(GgmlType, u64, u64)>)
        requires
            self.wf(),
            total_bytes(self@.tensors, self@.tensors.len()) <= u64::MAX,
        ensures
            is_histogram(self@.tensors, rows@),
    {
        let ghost all = self@.tensors;
        let mut rows: Vec<(GgmlType, u64, u64)> = Vec::new();
        let mut i: usize = 0;
        while i < self.tensors.len()
            invariant
                i <= self.tensors@.len(),
                self.wf(),
                all == self@.tensors,
                all.len() == self.tensors@.len(),
                total_bytes(all, all.len()) <= u64::MAX,
                forall|k: int|
                    0 <= k < rows@.len() ==> (#[trigger] rows@[k]).1 == count_of(all, rows@[k].0, all.len())
                        && rows@[k].1 > 0 && rows@[k].2 == bytes_of(all, rows@[k].0, all.len()),
                forall|k: int, l: int|
                    0 <= k < l < rows@.len() ==> (#[trigger] rows@[k]).0 != (#[trigger] rows@[l]).0 && rows@[k].2
                        >= rows@[l].2,
                forall|j: int| 0 <= j < i ==> lists(rows@, (#[trigger] all[j]).ty),
            decreases self.tensors@.len() - i,
        {
            let ty = self.tensors[i].ty;
            proof {
                assert(all[i as int] == self.tensors@[i as int]@);
                lemma_counted(all, i as int, all.len());
            }
            let ghost before = rows@;
            if !Self::listed(rows.as_slice(), ty) {
                let row = self.tally(ty);
                let p: usize = Self::place(rows.as_slice(), row.2);
                rows.insert(p, row);
                proof {
                    assert(rows@[p as int] == row);
                    assert forall|j: int| 0 <= j < i + 1 implies lists(rows@, (#[trigger] all[j]).ty) by {
                        if j < i {
                            let k = choose|k: int| 0 <= k < before.len() && (#[trigger] before[k]).0 == all[j].ty;
                            let k1 = if k < p { k } else { k + 1 };
                            assert(rows@[k1].0 == all[j].ty);
                        }
                    }
                    assert forall|k: int, l: int| 0 <= k < l < rows@.len() implies (#[trigger] rows@[k]).0 != (
                    #[trigger] rows@[l]).0 && rows@[k].2 >= rows@[l].2 by {
                        let k0 = if k < p { k } else { k - 1 };
                        let l0 = if l < p { l } else { l - 1 };
                        if k != p && l != p {
                            assert(before[k0].0 != before[l0].0);
                        } else if k == p {
                            assert(rows@[l] == before[l0]);
                        } else {
                            assert(rows@[k] == before[k0]);
                        }
                    }
                }
            }
            i += 1;
        }
        rows
    }

    fn listed(rows: &[(GgmlType, u64, u64)], ty: GgmlType) -> (yes: bool)
        ensures
            yes == lists(rows@, ty),
    {
        let mut k: usize = 0;
        while k < rows.len()
            invariant
                k <= rows@.len(),
                forall|j: int| 0 <= j < k ==> (#[trigger] rows@[j]).0 != ty,
            decreases rows@.len() - k,
        {
            if rows[k].0 == ty {
                return true;
            }
            k += 1;
        }
        false
    }

    fn place(rows: &[(GgmlType, u64, u64)], bytes: u64) -> (p: usize)
        requires
            forall|k: int, l: int| 0 <= k < l < rows@.len() ==> (#[trigger] rows@[k]).2 >= (#[trigger] rows@[l]).2,
        ensures
            p <= rows@.len(),
            forall|k: int| 0 <= k < p ==> (#[trigger] rows@[k]).2 >= bytes,
            forall|k: int| p <= k < rows@.len() ==> (#[trigger] rows@[k]).2 < bytes,
    {
        let mut p: usize = 0;
        while p < rows.len() && rows[p].2 >= bytes
            invariant
                p <= rows@.len(),
                forall|k: int| 0 <= k < p ==> (#[trigger] rows@[k]).2 >= bytes,
            decreases rows@.len() - p,
        {
            p += 1;
        }
        p
    }
}

} // verus!
