//! What a GGUF file is made of: element types and metadata values.

use vstd::prelude::*;
use vstd::utf8::encode_utf8;

use crate::float;
use crate::text;

verus! {

// --------------------------------------------------------------- element types

/// Tensor element encoding. Some number of elements share one quantization
/// block.
#[derive(Clone, Copy, Debug, PartialEq, Eq, Hash, Structural)]
#[allow(non_camel_case_types)]
pub enum GgmlType {
    F32,
    F16,
    Q4_0,
    Q4_1,
    Q5_0,
    Q5_1,
    Q8_0,
    Q8_1,
    Q2_K,
    Q3_K,
    Q4_K,
    Q5_K,
    Q6_K,
    Q8_K,
    I8,
    I16,
    I32,
    I64,
    F64,
    BF16,
    /// A type that can be named but not sized, such as the IQ family.
    /// Inspecting a model that uses one works; reading its bytes does not.
    Other(u32),
}

/// The type that an id stands for.
pub open spec fn type_of_id(id: u32) -> GgmlType {
    if id == 0 { GgmlType::F32 }
    else if id == 1 { GgmlType::F16 }
    else if id == 2 { GgmlType::Q4_0 }
    else if id == 3 { GgmlType::Q4_1 }
    else if id == 6 { GgmlType::Q5_0 }
    else if id == 7 { GgmlType::Q5_1 }
    else if id == 8 { GgmlType::Q8_0 }
    else if id == 9 { GgmlType::Q8_1 }
    else if id == 10 { GgmlType::Q2_K }
    else if id == 11 { GgmlType::Q3_K }
    else if id == 12 { GgmlType::Q4_K }
    else if id == 13 { GgmlType::Q5_K }
    else if id == 14 { GgmlType::Q6_K }
    else if id == 15 { GgmlType::Q8_K }
    else if id == 24 { GgmlType::I8 }
    else if id == 25 { GgmlType::I16 }
    else if id == 26 { GgmlType::I32 }
    else if id == 27 { GgmlType::I64 }
    else if id == 28 { GgmlType::F64 }
    else if id == 30 { GgmlType::BF16 }
    else { GgmlType::Other(id) }
}

/// Elements per block and bytes per block of a type that can be sized.
pub open spec fn layout_of(ty: GgmlType) -> Option<(u64, u64)> {
    match ty {
        GgmlType::F32 | GgmlType::I32 => Some((1, 4)),
        GgmlType::F16 | GgmlType::BF16 | GgmlType::I16 => Some((1, 2)),
        GgmlType::I8 => Some((1, 1)),
        GgmlType::F64 | GgmlType::I64 => Some((1, 8)),
        GgmlType::Q4_0 => Some((32, 18)),
        GgmlType::Q4_1 => Some((32, 20)),
        GgmlType::Q5_0 => Some((32, 22)),
        GgmlType::Q5_1 => Some((32, 24)),
        GgmlType::Q8_0 => Some((32, 34)),
        GgmlType::Q8_1 => Some((32, 36)),
        GgmlType::Q2_K => Some((256, 84)),
        GgmlType::Q3_K => Some((256, 110)),
        GgmlType::Q4_K => Some((256, 144)),
        GgmlType::Q5_K => Some((256, 176)),
        GgmlType::Q6_K => Some((256, 210)),
        GgmlType::Q8_K => Some((256, 292)),
        GgmlType::Other(_) => None,
    }
}

/// The name a type is printed under.
pub open spec fn name_of(ty: GgmlType) -> Seq<char> {
    match ty {
        GgmlType::F32 => "F32"@,
        GgmlType::F16 => "F16"@,
        GgmlType::Q4_0 => "Q4_0"@,
        GgmlType::Q4_1 => "Q4_1"@,
        GgmlType::Q5_0 => "Q5_0"@,
        GgmlType::Q5_1 => "Q5_1"@,
        GgmlType::Q8_0 => "Q8_0"@,
        GgmlType::Q8_1 => "Q8_1"@,
        GgmlType::Q2_K => "Q2_K"@,
        GgmlType::Q3_K => "Q3_K"@,
        GgmlType::Q4_K => "Q4_K"@,
        GgmlType::Q5_K => "Q5_K"@,
        GgmlType::Q6_K => "Q6_K"@,
        GgmlType::Q8_K => "Q8_K"@,
        GgmlType::I8 => "I8"@,
        GgmlType::I16 => "I16"@,
        GgmlType::I32 => "I32"@,
        GgmlType::I64 => "I64"@,
        GgmlType::F64 => "F64"@,
        GgmlType::BF16 => "BF16"@,
        GgmlType::Other(id) => "type"@ + text::decimal(id as nat),
    }
}

impl GgmlType {
    /// The type that an id stands for.
    pub fn from_id(id: u32) -> (ty: Self)
        ensures
            ty == type_of_id(id),
            (ty == GgmlType::F32) == (id == 0),
            (ty == GgmlType::F16) == (id == 1),
            (ty == GgmlType::Q4_0) == (id == 2),
            (ty == GgmlType::Q4_1) == (id == 3),
            (ty == GgmlType::Q5_0) == (id == 6),
            (ty == GgmlType::Q5_1) == (id == 7),
            (ty == GgmlType::Q8_0) == (id == 8),
            (ty == GgmlType::Q8_1) == (id == 9),
            (ty == GgmlType::Q2_K) == (id == 10),
            (ty == GgmlType::Q3_K) == (id == 11),
            (ty == GgmlType::Q4_K) == (id == 12),
            (ty == GgmlType::Q5_K) == (id == 13),
            (ty == GgmlType::Q6_K) == (id == 14),
            (ty == GgmlType::Q8_K) == (id == 15),
            (ty == GgmlType::I8) == (id == 24),
            (ty == GgmlType::I16) == (id == 25),
            (ty == GgmlType::I32) == (id == 26),
            (ty == GgmlType::I64) == (id == 27),
            (ty == GgmlType::F64) == (id == 28),
            (ty == GgmlType::BF16) == (id == 30),
            ty is Other ==> ty == GgmlType::Other(id),
    {
        match id {
            0 => GgmlType::F32,
            1 => GgmlType::F16,
            2 => GgmlType::Q4_0,
            3 => GgmlType::Q4_1,
            6 => GgmlType::Q5_0,
            7 => GgmlType::Q5_1,
            8 => GgmlType::Q8_0,
            9 => GgmlType::Q8_1,
            10 => GgmlType::Q2_K,
            11 => GgmlType::Q3_K,
            12 => GgmlType::Q4_K,
            13 => GgmlType::Q5_K,
            14 => GgmlType::Q6_K,
            15 => GgmlType::Q8_K,
            24 => GgmlType::I8,
            25 => GgmlType::I16,
            26 => GgmlType::I32,
            27 => GgmlType::I64,
            28 => GgmlType::F64,
            30 => GgmlType::BF16,
            other => GgmlType::Other(other),
        }
    }

    /// Elements and bytes per block. `None` for types that cannot be sized.
    pub fn layout(self) -> (layout: Option<(u64, u64)>)
        ensures
            layout == layout_of(self),
            layout matches Some((block, size)) ==> block > 0 && size > 0,
            layout is None == self is Other,
    {
        match self {
            GgmlType::F32 | GgmlType::I32 => Some((1, 4)),
            GgmlType::F16 | GgmlType::BF16 | GgmlType::I16 => Some((1, 2)),
            GgmlType::I8 => Some((1, 1)),
            GgmlType::F64 | GgmlType::I64 => Some((1, 8)),
            GgmlType::Q4_0 => Some((32, 18)),
            GgmlType::Q4_1 => Some((32, 20)),
            GgmlType::Q5_0 => Some((32, 22)),
            GgmlType::Q5_1 => Some((32, 24)),
            GgmlType::Q8_0 => Some((32, 34)),
            GgmlType::Q8_1 => Some((32, 36)),
            GgmlType::Q2_K => Some((256, 84)),
            GgmlType::Q3_K => Some((256, 110)),
            GgmlType::Q4_K => Some((256, 144)),
            GgmlType::Q5_K => Some((256, 176)),
            GgmlType::Q6_K => Some((256, 210)),
            GgmlType::Q8_K => Some((256, 292)),
            GgmlType::Other(_) => None,
        }
    }

    /// The name of the type.
    pub fn name(self) -> (name: String)
        ensures
            name@ == name_of(self),
    {
        match self {
            GgmlType::F32 => "F32".to_owned(),
            GgmlType::F16 => "F16".to_owned(),
            GgmlType::Q4_0 => "Q4_0".to_owned(),
            GgmlType::Q4_1 => "Q4_1".to_owned(),
            GgmlType::Q5_0 => "Q5_0".to_owned(),
            GgmlType::Q5_1 => "Q5_1".to_owned(),
            GgmlType::Q8_0 => "Q8_0".to_owned(),
            GgmlType::Q8_1 => "Q8_1".to_owned(),
            GgmlType::Q2_K => "Q2_K".to_owned(),
            GgmlType::Q3_K => "Q3_K".to_owned(),
            GgmlType::Q4_K => "Q4_K".to_owned(),
            GgmlType::Q5_K => "Q5_K".to_owned(),
            GgmlType::Q6_K => "Q6_K".to_owned(),
            GgmlType::Q8_K => "Q8_K".to_owned(),
            GgmlType::I8 => "I8".to_owned(),
            GgmlType::I16 => "I16".to_owned(),
            GgmlType::I32 => "I32".to_owned(),
            GgmlType::I64 => "I64".to_owned(),
            GgmlType::F64 => "F64".to_owned(),
            GgmlType::BF16 => "BF16".to_owned(),
            GgmlType::Other(id) => {
                let mut name = "type".to_owned();
                name.append(text::to_decimal(id as u64).as_str());
                name
            },
        }
    }
}

// ---------------------------------------------------------------------- values

/// A metadata value: the thirteen types of GGUF. Floating-point numbers are
/// held as their bits.
#[derive(Debug, PartialEq)]
pub enum Value {
    U8(u8),
    I8(i8),
    U16(u16),
    I16(i16),
    U32(u32),
    I32(i32),
    F32(u32),
    Bool(bool),
    String(String),
    Array(Vec<Value>),
    U64(u64),
    I64(i64),
    F64(u64),
}

/// A metadata value as a mathematical object.
pub ghost enum ValueView {
    U8(u8),
    I8(i8),
    U16(u16),
    I16(i16),
    U32(u32),
    I32(i32),
    F32(u32),
    Bool(bool),
    Text(Seq<char>),
    List(Seq<ValueView>),
    U64(u64),
    I64(i64),
    F64(u64),
}

/// The contents of a value.
pub open spec fn view_of(value: Value) -> ValueView
    decreases value,
{
    match value {
        Value::U8(v) => ValueView::U8(v),
        Value::I8(v) => ValueView::I8(v),
        Value::U16(v) => ValueView::U16(v),
        Value::I16(v) => ValueView::I16(v),
        Value::U32(v) => ValueView::U32(v),
        Value::I32(v) => ValueView::I32(v),
        Value::F32(v) => ValueView::F32(v),
        Value::Bool(v) => ValueView::Bool(v),
        Value::String(v) => ValueView::Text(v@),
        Value::Array(v) => ValueView::List(
            Seq::new(
                v@.len(),
                |i: int|
                    if 0 <= i < v@.len() {
                        view_of(v@[i])
                    } else {
                        arbitrary()
                    },
            ),
        ),
        Value::U64(v) => ValueView::U64(v),
        Value::I64(v) => ValueView::I64(v),
        Value::F64(v) => ValueView::F64(v),
    }
}

impl View for Value {
    type V = ValueView;

    open spec fn view(&self) -> ValueView {
        view_of(*self)
    }
}

/// The contents of a list of values.
pub open spec fn views(items: Seq<Value>) -> Seq<ValueView> {
    Seq::new(items.len(), |i: int| items[i]@)
}

/// Whether every item is a text.
pub open spec fn all_texts(items: Seq<ValueView>) -> bool {
    forall|i: int| 0 <= i < items.len() ==> #[trigger] items[i] is Text
}

/// Whether every item is a number.
pub open spec fn all_numbers(items: Seq<ValueView>) -> bool {
    forall|i: int| 0 <= i < items.len() ==> (#[trigger] items[i]).is_number()
}

/// A list value holds the contents of its items.
pub proof fn lemma_array_view(items: Vec<Value>)
    ensures
        Value::Array(items)@ == ValueView::List(views(items@)),
{
    match Value::Array(items)@ {
        ValueView::List(list) => {
            assert(list =~= views(items@));
        },
        _ => {},
    }
}

impl ValueView {
    /// Any integer or flag as an unsigned number; `None` for everything else
    /// and for negative numbers.
    pub open spec fn as_u64(self) -> Option<u64> {
        match self {
            ValueView::U8(v) => Some(v as u64),
            ValueView::U16(v) => Some(v as u64),
            ValueView::U32(v) => Some(v as u64),
            ValueView::U64(v) => Some(v),
            ValueView::I8(v) => if v >= 0 { Some(v as u64) } else { None },
            ValueView::I16(v) => if v >= 0 { Some(v as u64) } else { None },
            ValueView::I32(v) => if v >= 0 { Some(v as u64) } else { None },
            ValueView::I64(v) => if v >= 0 { Some(v as u64) } else { None },
            ValueView::Bool(v) => Some(if v { 1 } else { 0 }),
            _ => None,
        }
    }

    /// Whether the value is a number (a flag counts as one).
    pub open spec fn is_number(self) -> bool {
        !(self is Text) && !(self is List)
    }

    /// Whether `bits` is the value as an `f32`: the nearest one.
    pub open spec fn rounds_to(self, bits: u32) -> bool {
        match self {
            ValueView::F32(v) => bits == v,
            ValueView::F64(v) => float::f32_of_f64(v, bits),
            ValueView::I8(v) => bits == float::f32_of_int(v as int),
            ValueView::I16(v) => bits == float::f32_of_int(v as int),
            ValueView::I32(v) => bits == float::f32_of_int(v as int),
            ValueView::I64(v) => bits == float::f32_of_int(v as int),
            _ => self.as_u64() matches Some(v) && bits == float::f32_of_nat(v as nat),
        }
    }

    /// The tag of the value's type in a file.
    pub open spec fn type_id(self) -> u32 {
        match self {
            ValueView::U8(_) => 0,
            ValueView::I8(_) => 1,
            ValueView::U16(_) => 2,
            ValueView::I16(_) => 3,
            ValueView::U32(_) => 4,
            ValueView::I32(_) => 5,
            ValueView::F32(_) => 6,
            ValueView::Bool(_) => 7,
            ValueView::Text(_) => 8,
            ValueView::List(_) => 9,
            ValueView::U64(_) => 10,
            ValueView::I64(_) => 11,
            ValueView::F64(_) => 12,
        }
    }
}

impl Value {
    /// Any integer type widened. `None` for non-integers.
    pub fn as_u64(&self) -> (number: Option<u64>)
        ensures
            number == self@.as_u64(),
    {
        match self {
            Value::U8(v) => Some(*v as u64),
            Value::U16(v) => Some(*v as u64),
            Value::U32(v) => Some(*v as u64),
            Value::U64(v) => Some(*v),
            Value::I8(v) => if *v >= 0 { Some(*v as u64) } else { None },
            Value::I16(v) => if *v >= 0 { Some(*v as u64) } else { None },
            Value::I32(v) => if *v >= 0 { Some(*v as u64) } else { None },
            Value::I64(v) => if *v >= 0 { Some(*v as u64) } else { None },
            Value::Bool(v) => Some(if *v { 1 } else { 0 }),
            _ => None,
        }
    }

    /// Any number as the nearest `f32`. `None` for texts and lists.
    pub fn as_f32(&self) -> (bits: Option<u32>)
        ensures
            bits is Some <==> self@.is_number(),
            bits matches Some(b) ==> self@.rounds_to(b),
    {
        match self {
            Value::F32(v) => Some(*v),
            Value::F64(v) => Some(float::from_f64(*v)),
            Value::I8(v) => Some(float::from_i64(*v as i64)),
            Value::I16(v) => Some(float::from_i64(*v as i64)),
            Value::I32(v) => Some(float::from_i64(*v as i64)),
            Value::I64(v) => Some(float::from_i64(*v)),
            other => match other.as_u64() {
                Some(v) => Some(float::from_u64(v)),
                None => None,
            },
        }
    }

    /// The text of a text value.
    pub fn as_str(&self) -> (found: Option<&str>)
        ensures
            match found {
                Some(s) => self@ == ValueView::Text(s@),
                None => !(self@ is Text),
            },
    {
        match self {
            Value::String(s) => Some(s.as_str()),
            _ => None,
        }
    }

    /// The items of a list.
    pub fn as_array(&self) -> (found: Option<&[Value]>)
        ensures
            match found {
                Some(items) => self@ == ValueView::List(views(items@)),
                None => !(self@ is List),
            },
    {
        match self {
            Value::Array(v) => {
                proof {
                    lemma_array_view(*v);
                }
                Some(v.as_slice())
            },
            _ => None,
        }
    }

    /// Borrowed view of a list of texts, e.g. `tokenizer.ggml.tokens`.
    pub fn as_strings(&self) -> (found: Option<Vec<&str>>)
        ensures
            match found {
                Some(list) => self@ matches ValueView::List(items) && list@.len() == items.len()
                    && forall|i: int| 0 <= i < items.len() ==> #[trigger] items[i] == ValueView::Text(list@[i]@),
                None => self@ matches ValueView::List(items) ==> !all_texts(items),
            },
    {
        let items = match self.as_array() {
            Some(items) => items,
            None => return None,
        };
        let mut list: Vec<&str> = Vec::new();
        let mut i: usize = 0;
        while i < items.len()
            invariant
                self@ == ValueView::List(views(items@)),
                i == list@.len(),
                i <= items@.len(),
                forall|j: int| 0 <= j < i ==> #[trigger] views(items@)[j] == ValueView::Text(list@[j]@),
            decreases items@.len() - i,
        {
            match items[i].as_str() {
                Some(s) => list.push(s),
                None => {
                    assert(!(views(items@)[i as int] is Text));
                    return None;
                },
            }
            i += 1;
        }
        Some(list)
    }

    /// The numbers of a list, each as the nearest `f32`.
    pub fn as_f32s(&self) -> (found: Option<Vec<u32>>)
        ensures
            match found {
                Some(list) => self@ matches ValueView::List(items) && list@.len() == items.len()
                    && forall|i: int| 0 <= i < items.len() ==> (#[trigger] items[i]).is_number() && items[i].rounds_to(list@[i]),
                None => self@ matches ValueView::List(items) ==> !all_numbers(items),
            },
    {
        let items = match self.as_array() {
            Some(items) => items,
            None => return None,
        };
        let mut list: Vec<u32> = Vec::new();
        let mut i: usize = 0;
        while i < items.len()
            invariant
                self@ == ValueView::List(views(items@)),
                i == list@.len(),
                i <= items@.len(),
                forall|j: int| 0 <= j < i ==> (#[trigger] views(items@)[j]).is_number() && views(items@)[j].rounds_to(list@[j]),
            decreases items@.len() - i,
        {
            match items[i].as_f32() {
                Some(bits) => list.push(bits),
                None => {
                    assert(!views(items@)[i as int].is_number());
                    return None;
                },
            }
            i += 1;
        }
        Some(list)
    }

    /// The tag that a file stores in front of a value of this type.
    pub fn type_id(&self) -> (id: u32)
        ensures
            id == self@.type_id(),
    {
        match self {
            Value::U8(_) => 0,
            Value::I8(_) => 1,
            Value::U16(_) => 2,
            Value::I16(_) => 3,
            Value::U32(_) => 4,
            Value::I32(_) => 5,
            Value::F32(_) => 6,
            Value::Bool(_) => 7,
            Value::String(_) => 8,
            Value::Array(_) => 9,
            Value::U64(_) => 10,
            Value::I64(_) => 11,
            Value::F64(_) => 12,
        }
    }
}

// --------------------------------------------------------------------- display

/// A piece of printed output: finished text, or a number whose decimal form is
/// for the printer to find.
#[derive(Debug)]
pub enum Piece {
    Text(String),
    F32(u32),
    F64(u64),
}

/// A piece as a mathematical object.
pub ghost enum PieceView {
    Text(Seq<char>),
    F32(u32),
    F64(u64),
}

impl View for Piece {
    type V = PieceView;

    open spec fn view(&self) -> PieceView {
        match self {
            Piece::Text(s) => PieceView::Text(s@),
            Piece::F32(bits) => PieceView::F32(*bits),
            Piece::F64(bits) => PieceView::F64(*bits),
        }
    }
}

/// The contents of a list of pieces.
pub open spec fn piece_views(pieces: Seq<Piece>) -> Seq<PieceView> {
    pieces.map_values(|p: Piece| p@)
}

/// The decimal form of an integer.
pub open spec fn signed_decimal(n: int) -> Seq<char> {
    if n < 0 {
        "-"@ + text::decimal((-n) as nat)
    } else {
        text::decimal(n as nat)
    }
}

/// How many items of a list are printed.
pub const SHOWN: usize = 6;

/// What is printed of the first `n` items of a list, with commas between them.
pub open spec fn shown_items(items: Seq<ValueView>, n: nat) -> Seq<PieceView>
    decreases items, n,
{
    if n == 0 || n > items.len() {
        Seq::empty()
    } else {
        let before = shown_items(items, (n - 1) as nat);
        let comma = if n > 1 { seq![PieceView::Text(", "@)] } else { Seq::empty() };
        before + comma + shown(items[n - 1])
    }
}

/// What is printed of a value. Long texts and long lists are cut short: a
/// vocabulary has a hundred thousand entries, and nobody wants it printed.
pub open spec fn shown(value: ValueView) -> Seq<PieceView>
    decreases value, 0nat,
{
    match value {
        ValueView::U8(v) => seq![PieceView::Text(signed_decimal(v as int))],
        ValueView::I8(v) => seq![PieceView::Text(signed_decimal(v as int))],
        ValueView::U16(v) => seq![PieceView::Text(signed_decimal(v as int))],
        ValueView::I16(v) => seq![PieceView::Text(signed_decimal(v as int))],
        ValueView::U32(v) => seq![PieceView::Text(signed_decimal(v as int))],
        ValueView::I32(v) => seq![PieceView::Text(signed_decimal(v as int))],
        ValueView::U64(v) => seq![PieceView::Text(signed_decimal(v as int))],
        ValueView::I64(v) => seq![PieceView::Text(signed_decimal(v as int))],
        ValueView::F32(v) => seq![PieceView::F32(v)],
        ValueView::F64(v) => seq![PieceView::F64(v)],
        ValueView::Bool(v) => seq![PieceView::Text(if v { "true"@ } else { "false"@ })],
        ValueView::Text(s) => if encode_utf8(s).len() > 120 {
            seq![PieceView::Text(s.take(if s.len() < 117 { s.len() as int } else { 117 }) + "..."@)]
        } else {
            seq![PieceView::Text(s)]
        },
        ValueView::List(items) => {
            let n: nat = if items.len() < 6 { items.len() } else { 6 };
            let body = seq![PieceView::Text("["@)] + shown_items(items, n);
            let tail = if items.len() > 6 {
                seq![PieceView::Text(", ... "@ + text::decimal(items.len()) + " total"@)]
            } else {
                Seq::empty()
            };
            body + tail + seq![PieceView::Text("]"@)]
        },
    }
}

fn signed_text(n: i64) -> (out: String)
    ensures
        out@ == signed_decimal(n as int),
{
    if n < 0 {
        let magnitude: u64 = (-(n + 1)) as u64 + 1;
        let mut out = "-".to_owned();
        out.append(text::to_decimal(magnitude).as_str());
        out
    } else {
        text::to_decimal(n as u64)
    }
}

fn one(out: &mut Vec<Piece>, s: String)
    ensures
        piece_views(final(out)@) == piece_views(old(out)@) + seq![PieceView::Text(s@)],
{
    out.push(Piece::Text(s));
    proof {
        assert(piece_views(out@) =~= piece_views(old(out)@) + seq![PieceView::Text(s@)]);
    }
}

impl Value {
    /// What to print of the value.
    pub fn display(&self) -> (pieces: Vec<Piece>)
        ensures
            piece_views(pieces@) == shown(self@),
    {
        let mut out: Vec<Piece> = Vec::new();
        self.display_onto(&mut out);
        proof {
            assert(piece_views(Seq::empty()) + shown(self@) =~= shown(self@));
        }
        out
    }

    fn display_onto(&self, out: &mut Vec<Piece>)
        ensures
            piece_views(final(out)@) == piece_views(old(out)@) + shown(self@),
        decreases self,
    {
        match self {
            Value::U8(v) => one(out, text::to_decimal(*v as u64)),
            Value::I8(v) => one(out, signed_text(*v as i64)),
            Value::U16(v) => one(out, text::to_decimal(*v as u64)),
            Value::I16(v) => one(out, signed_text(*v as i64)),
            Value::U32(v) => one(out, text::to_decimal(*v as u64)),
            Value::I32(v) => one(out, signed_text(*v as i64)),
            Value::U64(v) => one(out, text::to_decimal(*v)),
            Value::I64(v) => one(out, signed_text(*v)),
            Value::F32(v) => {
                out.push(Piece::F32(*v));
                assert(piece_views(out@) =~= piece_views(old(out)@) + shown(self@));
            },
            Value::F64(v) => {
                out.push(Piece::F64(*v));
                assert(piece_views(out@) =~= piece_views(old(out)@) + shown(self@));
            },
            Value::Bool(v) => one(out, if *v { "true".to_owned() } else { "false".to_owned() }),
            Value::String(s) => {
                if s.as_str().as_bytes().len() > 120 {
                    let chars = text::to_chars(s.as_str());
                    let keep: usize = if chars.len() < 117 { chars.len() } else { 117 };
                    let mut cut = text::from_chars(chars.as_slice(), 0, keep);
                    cut.append("...");
                    one(out, cut);
                } else {
                    one(out, s.clone());
                }
            },
            Value::Array(items) => {
                proof {
                    lemma_array_view(*items);
                }
                let ghost list = views(items@);
                let ghost before = piece_views(out@);
                one(out, "[".to_owned());
                let n: usize = if items.len() < SHOWN { items.len() } else { SHOWN };
                let ghost start = piece_views(out@);
                let mut i: usize = 0;
                proof {
                    assert(start + shown_items(list, 0) =~= start);
                }
                while i < n
                    invariant
                        *self == Value::Array(*items),
                        list == views(items@),
                        i <= n <= items@.len(),
                        piece_views(out@) == start + shown_items(list, i as nat),
                    decreases n - i,
                {
                    if i > 0 {
                        one(out, ", ".to_owned());
                    }
                    let item = &items[i];
                    assert(decreases_to!(items@ => items@[i as int]));
                    assert(decreases_to!(*items => items@));
                    assert(decreases_to!(self => self->Array_0));
                    item.display_onto(out);
                    proof {
                        assert(list[i as int] == items@[i as int]@);
                        assert(piece_views(out@) =~= start + shown_items(list, (i + 1) as nat));
                    }
                    i += 1;
                }
                if items.len() > SHOWN {
                    let mut tail = ", ... ".to_owned();
                    tail.append(text::to_decimal(items.len() as u64).as_str());
                    tail.append(" total");
                    one(out, tail);
                }
                one(out, "]".to_owned());
                proof {
                    assert(piece_views(out@) =~= before + shown(self@));
                }
            },
        }
    }
}

} // verus!
