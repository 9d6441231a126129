//! What `info` says about a file, and the units in which sizes are shown.
//!
//! The lines are put together here; printing them, and the decimals of sizes
//! and floats, is left to the caller.

use vstd::prelude::*;

use crate::gguf::{product, FileView, Gguf, TensorView};
use crate::text::{self, decimal, quoted};
use crate::value::{Value, ValueView};

verus! {

// ----------------------------------------------------------------------- units

/// The unit in which a number of bytes is shown.
#[derive(Clone, Copy, Debug, PartialEq, Eq, Structural)]
pub enum Unit {
    B,
    KB,
    MB,
    GB,
    TB,
}

/// The largest unit that goes into the number at least once; terabytes are the
/// last.
pub open spec fn unit_of(bytes: u64) -> Unit {
    if bytes < 1024 {
        Unit::B
    } else if bytes < 1024 * 1024 {
        Unit::KB
    } else if bytes < 1024 * 1024 * 1024 {
        Unit::MB
    } else if bytes < 1024 * 1024 * 1024 * 1024 {
        Unit::GB
    } else {
        Unit::TB
    }
}

/// The unit in which a number of bytes is shown.
pub fn human(bytes: u64) -> (unit: Unit)
    ensures
        unit == unit_of(bytes),
{
    let mut value: u64 = bytes;
    if value < 1024 {
        return Unit::B;
    }
    value = value / 1024;
    if value < 1024 {
        return Unit::KB;
    }
    value = value / 1024;
    if value < 1024 {
        return Unit::MB;
    }
    value = value / 1024;
    if value < 1024 {
        Unit::GB
    } else {
        Unit::TB
    }
}

/// The power of ten in which an amount is shown.
#[derive(Clone, Copy, Debug, PartialEq, Eq, Structural)]
pub enum Scale {
    Ones,
    Thousands,
    Millions,
    Billions,
}

/// The power of ten in which an amount is shown.
pub fn si(n: u64) -> (scale: Scale)
    ensures
        scale == (if n >= 1_000_000_000 {
            Scale::Billions
        } else if n >= 1_000_000 {
            Scale::Millions
        } else if n >= 1_000 {
            Scale::Thousands
        } else {
            Scale::Ones
        }),
{
    if n >= 1_000_000_000 {
        Scale::Billions
    } else if n >= 1_000_000 {
        Scale::Millions
    } else if n >= 1_000 {
        Scale::Thousands
    } else {
        Scale::Ones
    }
}

// ----------------------------------------------------------------------- lines

/// What a line says: a text, a number of bytes, an amount, or the bits of an
/// `f32`.
#[derive(Debug)]
pub enum Cell {
    Text(String),
    Size(u64),
    Amount(u64),
    Real(u32),
}

/// A line with its label.
#[derive(Debug)]
pub struct Line {
    pub label: String,
    pub cell: Cell,
}

/// The contents of a cell.
pub ghost enum CellView {
    Text(Seq<char>),
    Size(u64),
    Amount(u64),
    Real(u32),
}

impl View for Cell {
    type V = CellView;

    open spec fn view(&self) -> CellView {
        match *self {
            Cell::Text(s) => CellView::Text(s@),
            Cell::Size(n) => CellView::Size(n),
            Cell::Amount(n) => CellView::Amount(n),
            Cell::Real(bits) => CellView::Real(bits),
        }
    }
}

impl View for Line {
    type V = (Seq<char>, CellView);

    open spec fn view(&self) -> (Seq<char>, CellView) {
        (self.label@, self.cell@)
    }
}

/// The contents of lines.
pub open spec fn line_views(lines: Seq<Line>) -> Seq<(Seq<char>, CellView)> {
    Seq::new(lines.len(), |i: int| lines[i]@)
}

/// A line, if there is something to say.
pub open spec fn maybe(label: Seq<char>, cell: Option<CellView>) -> Seq<(Seq<char>, CellView)> {
    match cell {
        Some(c) => seq![(label, c)],
        None => Seq::empty(),
    }
}

/// A number as a cell.
pub open spec fn number_cell(n: Option<u64>) -> Option<CellView> {
    match n {
        Some(v) => Some(CellView::Text(decimal(v as nat))),
        None => None,
    }
}

/// The bits of a float as a cell.
pub open spec fn real_cell(bits: Option<u32>) -> Option<CellView> {
    match bits {
        Some(b) => Some(CellView::Real(b)),
        None => None,
    }
}

/// A text as a cell.
pub open spec fn text_cell(text: Option<Seq<char>>) -> Option<CellView> {
    match text {
        Some(s) => Some(CellView::Text(s)),
        None => None,
    }
}

/// The elements of the first `n` tensors together.
pub open spec fn total_elements(tensors: Seq<TensorView>, n: nat) -> nat
    decreases n,
{
    if n == 0 {
        0
    } else {
        total_elements(tensors, (n - 1) as nat) + product(tensors[n - 1].dims).unwrap() as nat
    }
}

/// The lines on the file itself.
pub open spec fn header_of(f: FileView) -> Seq<(Seq<char>, CellView)> {
    maybe("size"@, Some(CellView::Size(f.bytes.len() as u64))) + maybe(
        "gguf"@,
        Some(CellView::Text("v"@ + decimal(f.version as nat))),
    ) + maybe("name"@, text_cell(f.text("general.name"@))) + maybe(
        "arch"@,
        Some(
            CellView::Text(
                match f.arch() {
                    Some(arch) => arch,
                    None => "(unspecified)"@,
                },
            ),
        ),
    ) + maybe("parameters"@, Some(CellView::Amount(total_elements(f.tensors, f.tensors.len()) as u64)))
}

/// The lines on the network's shape.
pub open spec fn shape_of(f: FileView) -> Seq<(Seq<char>, CellView)> {
    maybe("layers"@, number_cell(f.arch_number("block_count"@))) + maybe(
        "embedding"@,
        number_cell(f.arch_number("embedding_length"@)),
    ) + maybe("feed forward"@, number_cell(f.arch_number("feed_forward_length"@))) + maybe(
        "heads"@,
        number_cell(f.arch_number("attention.head_count"@)),
    ) + maybe("kv heads"@, number_cell(f.arch_number("attention.head_count_kv"@))) + maybe(
        "context length"@,
        number_cell(f.arch_number("context_length"@)),
    )
}

/// The vocabulary.
pub open spec fn vocabulary(f: FileView) -> Seq<ValueView> {
    let key = "tokenizer.ggml.tokens"@;
    if f.meta.contains_key(key) {
        match f.meta[key] {
            ValueView::List(items) => items,
            _ => Seq::empty(),
        }
    } else {
        Seq::empty()
    }
}

/// The text of a token, or a question mark.
pub open spec fn token_text(f: FileView, id: u64) -> Seq<char> {
    if id < vocabulary(f).len() {
        match vocabulary(f)[id as int] {
            ValueView::Text(s) => s,
            _ => "?"@,
        }
    } else {
        "?"@
    }
}

/// A token's number and text.
pub open spec fn token_cell(f: FileView, id: Option<u64>) -> Option<CellView> {
    match id {
        Some(v) => Some(CellView::Text(numbered(v, quoted(token_text(f, v))))),
        None => None,
    }
}

/// A token's number with the token as it is shown.
pub open spec fn numbered(id: u64, shown: Seq<char>) -> Seq<char> {
    decimal(id as nat) + " "@ + shown
}

/// A token's number with the token as it is shown.
pub fn number_token(id: u64, shown: &str) -> (text: String)
    ensures
        text@ == numbered(id, shown@),
{
    let mut text = text::to_decimal(id);
    text.append(" ");
    text.append(shown);
    text
}

/// The lines on the tokenizer.
pub open spec fn tokenizer_of(f: FileView) -> Seq<(Seq<char>, CellView)> {
    match f.text("tokenizer.ggml.model"@) {
        None => Seq::empty(),
        Some(kind) => maybe(
            "tokenizer"@,
            Some(CellView::Text(kind + " ("@ + decimal(vocabulary(f).len()) + " tokens)"@)),
        ) + maybe("bos token"@, token_cell(f, f.number("tokenizer.ggml.bos_token_id"@))) + maybe(
            "eos token"@,
            token_cell(f, f.number("tokenizer.ggml.eos_token_id"@)),
        ),
    }
}

/// Whether `bits` is the architecture's own float under a suffix.
pub open spec fn arch_real(f: FileView, suffix: Seq<char>, bits: Option<u32>) -> bool {
    if f.arch() is Some {
        f.nearest(f.arch_key(suffix), bits)
    } else {
        bits is None
    }
}

/// The lines on the file, given its two floats.
pub open spec fn info_of(f: FileView, base: Option<u32>, eps: Option<u32>) -> Seq<(Seq<char>, CellView)> {
    header_of(f) + shape_of(f) + maybe("rope freq base"@, real_cell(base)) + maybe("rms eps"@, real_cell(eps))
        + tokenizer_of(f)
}

// ----------------------------------------------------------------- the building

fn push(lines: &mut Vec<Line>, label: &str, cell: Cell)
    ensures
        line_views(final(lines)@) == line_views(old(lines)@) + maybe(label@, Some(cell@)),
{
    lines.push(Line { label: label.to_owned(), cell });
    proof {
        assert(line_views(lines@) =~= line_views(old(lines)@) + maybe(label@, Some(cell@)));
    }
}

fn push_number(lines: &mut Vec<Line>, label: &str, n: Option<u64>)
    ensures
        line_views(final(lines)@) == line_views(old(lines)@) + maybe(label@, number_cell(n)),
{
    match n {
        Some(v) => push(lines, label, Cell::Text(text::to_decimal(v))),
        None => {
            assert(line_views(lines@) =~= line_views(lines@) + maybe(label@, number_cell(n)));
        },
    }
}

fn push_real(lines: &mut Vec<Line>, label: &str, bits: Option<u32>)
    ensures
        line_views(final(lines)@) == line_views(old(lines)@) + maybe(label@, real_cell(bits)),
{
    match bits {
        Some(b) => push(lines, label, Cell::Real(b)),
        None => {
            assert(line_views(lines@) =~= line_views(lines@) + maybe(label@, real_cell(bits)));
        },
    }
}

proof fn lemma_regroup<T>(a: Seq<T>, b: Seq<T>, c: Seq<T>)
    ensures
        (a + b) + c == a + (b + c),
{
    assert((a + b) + c =~= a + (b + c));
}

proof fn lemma_elements_grow(tensors: Seq<TensorView>, n: nat, m: nat)
    requires
        n <= m,
    ensures
        total_elements(tensors, n) <= total_elements(tensors, m),
    decreases m,
{
    if n < m {
        lemma_elements_grow(tensors, n, (m - 1) as nat);
    }
}

/// How many parameters the file holds. Counting tensor elements beats trusting
/// `general.parameter_count`, which is frequently absent and occasionally
/// wrong.
pub fn parameters(model: &Gguf) -> (n: u64)
    requires
        model.wf(),
        total_elements(model@.tensors, model@.tensors.len()) <= u64::MAX,
    ensures
        n == total_elements(model@.tensors, model@.tensors.len()),
{
    let ghost all = model@.tensors;
    proof {
        model.lemma_valid();
    }
    let mut n: u64 = 0;
    let mut i: usize = 0;
    let count: usize = model.tensor_count();
    while i < count
        invariant
            i <= count,
            all == model@.tensors,
            all.len() == count,
            model@.valid(),
            total_elements(all, all.len()) <= u64::MAX,
            n == total_elements(all, i as nat),
        decreases count - i,
    {
        proof {
            assert(crate::gguf::sized(all[i as int]));
            lemma_elements_grow(all, (i + 1) as nat, all.len());
        }
        n += model.tensor_at(i).elements();
        i += 1;
    }
    n
}

fn push_header(lines: &mut Vec<Line>, model: &Gguf)
    requires
        model.wf(),
        total_elements(model@.tensors, model@.tensors.len()) <= u64::MAX,
    ensures
        line_views(final(lines)@) == line_views(old(lines)@) + header_of(model@),
{
    let ghost start = line_views(lines@);
    push(lines, "size", Cell::Size(model.file_len()));
    let mut version = "v".to_owned();
    version.append(text::to_decimal(model.version() as u64).as_str());
    push(lines, "gguf", Cell::Text(version));
    let ghost before = line_views(lines@);
    match model.meta_str("general.name") {
        Some(name) => push(lines, "name", Cell::Text(name.to_owned())),
        None => {
            assert(before =~= before + maybe("name"@, None));
        },
    }
    let arch = match model.arch() {
        Some(arch) => arch,
        None => "(unspecified)",
    };
    push(lines, "arch", Cell::Text(arch.to_owned()));
    let total: u64 = parameters(model);
    push(lines, "parameters", Cell::Amount(total));
    proof {
        let f = model@;
        let a = maybe("size"@, Some(CellView::Size(f.bytes.len() as u64)));
        let b = maybe("gguf"@, Some(CellView::Text(version@)));
        let c = maybe("name"@, text_cell(f.text("general.name"@)));
        let d = maybe("arch"@, Some(CellView::Text(arch@)));
        let e = maybe("parameters"@, Some(CellView::Amount(total)));
        lemma_regroup(start, a, b);
        lemma_regroup(start, a + b, c);
        lemma_regroup(start, a + b + c, d);
        lemma_regroup(start, a + b + c + d, e);
    }
}

fn push_shape(lines: &mut Vec<Line>, model: &Gguf)
    requires
        model.wf(),
    ensures
        line_views(final(lines)@) == line_views(old(lines)@) + shape_of(model@),
{
    let ghost start = line_views(lines@);
    push_number(lines, "layers", model.arch_u64("block_count"));
    push_number(lines, "embedding", model.arch_u64("embedding_length"));
    push_number(lines, "feed forward", model.arch_u64("feed_forward_length"));
    push_number(lines, "heads", model.arch_u64("attention.head_count"));
    push_number(lines, "kv heads", model.arch_u64("attention.head_count_kv"));
    push_number(lines, "context length", model.arch_u64("context_length"));
    proof {
        let f = model@;
        let a = maybe("layers"@, number_cell(f.arch_number("block_count"@)));
        let b = maybe("embedding"@, number_cell(f.arch_number("embedding_length"@)));
        let c = maybe("feed forward"@, number_cell(f.arch_number("feed_forward_length"@)));
        let d = maybe("heads"@, number_cell(f.arch_number("attention.head_count"@)));
        let e = maybe("kv heads"@, number_cell(f.arch_number("attention.head_count_kv"@)));
        let g = maybe("context length"@, number_cell(f.arch_number("context_length"@)));
        lemma_regroup(start, a, b);
        lemma_regroup(start, a + b, c);
        lemma_regroup(start, a + b + c, d);
        lemma_regroup(start, a + b + c + d, e);
        lemma_regroup(start, a + b + c + d + e, g);
    }
}

fn tokens<'b>(model: &'b Gguf) -> (items: Option<&'b [Value]>)
    requires
        model.wf(),
    ensures
        match items {
            Some(list) => crate::value::views(list@) == vocabulary(model@),
            None => vocabulary(model@).len() == 0,
        },
{
    match model.get("tokenizer.ggml.tokens") {
        Some(value) => value.as_array(),
        None => None,
    }
}

fn push_token(lines: &mut Vec<Line>, model: &Gguf, label: &str, id: Option<u64>)
    requires
        model.wf(),
    ensures
        line_views(final(lines)@) == line_views(old(lines)@) + maybe(label@, token_cell(model@, id)),
{
    match id {
        None => {
            assert(line_views(lines@) =~= line_views(lines@) + maybe(label@, token_cell(model@, id)));
        },
        Some(v) => {
            let mut found: Option<&str> = None;
            match tokens(model) {
                Some(list) => {
                    if v < list.len() as u64 {
                        assert(vocabulary(model@)[v as int] == list@[v as int]@);
                        found = list[v as usize].as_str();
                    }
                },
                None => {},
            }
            let shown = match found {
                Some(s) => s,
                None => "?",
            };
            let cell = number_token(v, text::quote(shown).as_str());
            push(lines, label, Cell::Text(cell));
        },
    }
}

fn push_tokenizer(lines: &mut Vec<Line>, model: &Gguf)
    requires
        model.wf(),
    ensures
        line_views(final(lines)@) == line_views(old(lines)@) + tokenizer_of(model@),
{
    let ghost start = line_views(lines@);
    match model.meta_str("tokenizer.ggml.model") {
        None => {
            assert(start =~= start + tokenizer_of(model@));
        },
        Some(kind) => {
            let vocab: usize = match tokens(model) {
                Some(list) => list.len(),
                None => 0,
            };
            let mut cell = kind.to_owned();
            cell.append(" (");
            cell.append(text::to_decimal(vocab as u64).as_str());
            cell.append(" tokens)");
            let ghost a = maybe("tokenizer"@, Some(CellView::Text(cell@)));
            push(lines, "tokenizer", Cell::Text(cell));
            push_token(lines, model, "bos token", model.meta_u64("tokenizer.ggml.bos_token_id"));
            push_token(lines, model, "eos token", model.meta_u64("tokenizer.ggml.eos_token_id"));
            proof {
                let f = model@;
                let b = maybe("bos token"@, token_cell(f, f.number("tokenizer.ggml.bos_token_id"@)));
                let c = maybe("eos token"@, token_cell(f, f.number("tokenizer.ggml.eos_token_id"@)));
                lemma_regroup(start, a, b);
                lemma_regroup(start, a + b, c);
            }
        },
    }
}

/// What there is to say about a file: its header, hyperparameters and
/// tokenizer.
pub fn info(model: &Gguf) -> (lines: Vec<Line>)
    requires
        model.wf(),
        total_elements(model@.tensors, model@.tensors.len()) <= u64::MAX,
    ensures
        exists|base: Option<u32>, eps: Option<u32>| #[trigger]
            arch_real(model@, "rope.freq_base"@, base) && #[trigger] arch_real(
                model@,
                "attention.layer_norm_rms_epsilon"@,
                eps,
            ) && line_views(lines@) == info_of(model@, base, eps),
{
    let mut lines: Vec<Line> = Vec::new();
    let ghost start = line_views(lines@);
    push_header(&mut lines, model);
    push_shape(&mut lines, model);
    let base = model.arch_f32("rope.freq_base");
    push_real(&mut lines, "rope freq base", base);
    let eps = model.arch_f32("attention.layer_norm_rms_epsilon");
    push_real(&mut lines, "rms eps", eps);
    push_tokenizer(&mut lines, model);
    proof {
        assert(arch_real(model@, "rope.freq_base"@, base));
        assert(arch_real(model@, "attention.layer_norm_rms_epsilon"@, eps));
        let a = header_of(model@);
        assert(start + a =~= a);
    }
    lines
}

} // verus!
