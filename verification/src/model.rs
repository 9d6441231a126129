//! Llama-family transformer: hyperparameters, weight binding, forward pass.
//!
//! The forward pass is a list of operations on named buffers. Which operations,
//! in which order, on which ranges, is decided here, and every range is proved
//! to lie inside its buffer. Carrying an operation out is a kernel's business.

use vstd::prelude::*;

use crate::error::{invalid_data, unsupported, Error, ErrorKind, ErrorView};
use crate::gguf::{product, FileView, GgmlType, Gguf};
use crate::quant::activation::Quantized;
use crate::quant::dot::{self, chosen, covered, fused_schedule, reference_schedule, Step};
use crate::quant::idot::{self, covers, has_integer_kernel, terms_of, Term};
use crate::quant::{self, expand_error, row_element, Element};
use crate::text::{self, decimal};
use crate::value::{layout_of, name_of};

pub use crate::plan::{State, DEFAULT_CONTEXT};

verus! {

/// One hundred-thousandth, as the bits of an `f32`.
pub const DEFAULT_EPS: u32 = 0x3727_C5AC;

/// Ten thousand, as the bits of an `f32`.
pub const DEFAULT_ROPE_BASE: u32 = 0x461C_4000;

// ---------------------------------------------------------------------- config

/// Hyperparameters.
#[derive(Clone, Debug)]
pub struct Config {
    pub arch: String,
    pub layers: usize,
    pub embedding: usize,
    pub heads: usize,
    pub kv_heads: usize,
    /// Usually `embedding / heads`, but the file can say otherwise.
    pub head_dim: usize,
    pub ffn: usize,
    pub context: usize,
    pub vocab: usize,
    /// The bits of an `f32`.
    pub eps: u32,
    /// The bits of an `f32`.
    pub rope_base: u32,
}

/// The complaint about a setting that is missing.
pub open spec fn missing(file: FileView, suffix: Seq<char>) -> Option<ErrorView> {
    if file.arch_number(suffix) is None {
        Some(invalid_data("missing "@ + file.arch()->Some_0 + "."@ + suffix))
    } else {
        None
    }
}

/// The architecture's own number, as a size.
pub open spec fn size_of(file: FileView, suffix: Seq<char>) -> usize {
    file.arch_number(suffix)->Some_0 as usize
}

/// The number of key/value heads: that of the heads unless the file says
/// otherwise.
pub open spec fn kv_heads_of(file: FileView) -> usize {
    match file.arch_number("attention.head_count_kv"@) {
        Some(n) => n as usize,
        None => size_of(file, "attention.head_count"@),
    }
}

/// The width of a head.
pub open spec fn head_dim_of(file: FileView) -> usize {
    match file.arch_number("rope.dimension_count"@) {
        Some(n) => n as usize,
        None => if size_of(file, "attention.head_count"@) == 0 {
            0
        } else {
            size_of(file, "embedding_length"@) / size_of(file, "attention.head_count"@)
        },
    }
}

/// The size of the vocabulary: that of the token list, else the second
/// dimension of the embedding table.
pub open spec fn vocab_of(file: FileView) -> Option<usize> {
    let key = "tokenizer.ggml.tokens"@;
    if file.meta.contains_key(key) && file.meta[key] is List {
        Some(file.meta[key]->List_0.len() as usize)
    } else {
        match file.find("token_embd.weight"@) {
            Some(t) => if t.dims.len() > 1 {
                Some(t.dims[1] as usize)
            } else {
                None
            },
            None => None,
        }
    }
}

/// The complaint about hyperparameters that do not fit together.
pub open spec fn shape_error(heads: usize, kv_heads: usize, head_dim: usize, embedding: usize) -> Option<ErrorView> {
    if heads == 0 || kv_heads == 0 || head_dim == 0 {
        Some(invalid_data("head counts must be non-zero"@))
    } else if heads % kv_heads != 0 {
        Some(
            invalid_data(
                decimal(heads as nat) + " heads is not a multiple of "@ + decimal(kv_heads as nat) + " kv heads"@,
            ),
        )
    } else if heads * head_dim != embedding {
        Some(
            invalid_data(
                decimal(heads as nat) + " heads of "@ + decimal(head_dim as nat) + " do not add up to an embedding of "@
                    + decimal(embedding as nat),
            ),
        )
    } else {
        None
    }
}

/// The complaint about an architecture that is shown as `shown`.
pub open spec fn unknown_architecture_of(shown: Seq<char>) -> ErrorView {
    unsupported("architecture "@ + shown + " is not implemented (supported: [\"llama\"])"@)
}

/// The complaint about an architecture that is shown as `shown`.
pub fn unknown_architecture(shown: &str) -> (error: Error)
    ensures
        error@ == unknown_architecture_of(shown@),
{
    let mut message = "architecture ".to_owned();
    message.append(shown);
    message.append(" is not implemented (supported: [\"llama\"])");
    Error::new(ErrorKind::Unsupported, message)
}

/// The complaint about a file that cannot be configured from.
pub open spec fn config_error(file: FileView) -> Option<ErrorView> {
    match file.arch() {
        None => Some(invalid_data("file does not name an architecture"@)),
        Some(arch) => if arch != "llama"@ {
            Some(unknown_architecture_of(text::quoted(arch)))
        } else if missing(file, "block_count"@) is Some {
            missing(file, "block_count"@)
        } else if missing(file, "embedding_length"@) is Some {
            missing(file, "embedding_length"@)
        } else if missing(file, "attention.head_count"@) is Some {
            missing(file, "attention.head_count"@)
        } else if missing(file, "feed_forward_length"@) is Some {
            missing(file, "feed_forward_length"@)
        } else {
            let shape = shape_error(
                size_of(file, "attention.head_count"@),
                kv_heads_of(file),
                head_dim_of(file),
                size_of(file, "embedding_length"@),
            );
            if shape is Some {
                shape
            } else if vocab_of(file) is None {
                Some(invalid_data("cannot determine vocabulary size"@))
            } else {
                None
            }
        },
    }
}

/// Whether a configuration is the one that a file declares.
pub open spec fn configured(file: FileView, c: Config) -> bool {
    &&& file.arch() == Some(c.arch@)
    &&& c.layers == size_of(file, "block_count"@)
    &&& c.embedding == size_of(file, "embedding_length"@)
    &&& c.heads == size_of(file, "attention.head_count"@)
    &&& c.ffn == size_of(file, "feed_forward_length"@)
    &&& c.kv_heads == kv_heads_of(file)
    &&& c.head_dim == head_dim_of(file)
    &&& vocab_of(file) == Some(c.vocab)
    &&& c.context == (match file.arch_number("context_length"@) {
        Some(n) => n as usize,
        None => 2048,
    })
    &&& real_or(file, "attention.layer_norm_rms_epsilon"@, DEFAULT_EPS, c.eps)
    &&& real_or(file, "rope.freq_base"@, DEFAULT_ROPE_BASE, c.rope_base)
}

/// Whether `bits` is the architecture's own setting as an `f32`, or the default
/// where there is none.
pub open spec fn real_or(file: FileView, suffix: Seq<char>, default: u32, bits: u32) -> bool {
    file.nearest(file.arch_key(suffix), Some(bits)) || (file.nearest(file.arch_key(suffix), None) && bits == default)
}

fn need(model: &Gguf, arch: &str, suffix: &str) -> (got: Result<usize, Error>)
    requires
        model.wf(),
        model@.arch() == Some(arch@),
    ensures
        match got {
            Ok(n) => missing(model@, suffix@) is None && n == size_of(model@, suffix@),
            Err(e) => missing(model@, suffix@) == Some(e@),
        },
{
    match model.arch_u64(suffix) {
        Some(n) => Ok(n as usize),
        None => {
            let mut message = "missing ".to_owned();
            message.append(arch);
            message.append(".");
            message.append(suffix);
            Err(Error::new(ErrorKind::InvalidData, message))
        },
    }
}

fn check_shape(heads: usize, kv_heads: usize, head_dim: usize, embedding: usize) -> (got: Result<(), Error>)
    ensures
        match got {
            Ok(_) => shape_error(heads, kv_heads, head_dim, embedding) is None,
            Err(e) => shape_error(heads, kv_heads, head_dim, embedding) == Some(e@),
        },
{
    if heads == 0 || kv_heads == 0 || head_dim == 0 {
        return Err(Error::bad("head counts must be non-zero"));
    }
    if heads % kv_heads != 0 {
        let mut message = text::to_decimal(heads as u64);
        message.append(" heads is not a multiple of ");
        message.append(text::to_decimal(kv_heads as u64).as_str());
        message.append(" kv heads");
        return Err(Error::new(ErrorKind::InvalidData, message));
    }
    // The attention output projection consumes heads * head_dim and emits
    // embedding, so the two have to agree.
    let agree: bool = match heads.checked_mul(head_dim) {
        Some(width) => width == embedding,
        None => false,
    };
    if !agree {
        let mut message = text::to_decimal(heads as u64);
        message.append(" heads of ");
        message.append(text::to_decimal(head_dim as u64).as_str());
        message.append(" do not add up to an embedding of ");
        message.append(text::to_decimal(embedding as u64).as_str());
        return Err(Error::new(ErrorKind::InvalidData, message));
    }
    Ok(())
}

fn vocabulary(model: &Gguf) -> (n: Option<usize>)
    requires
        model.wf(),
    ensures
        n == vocab_of(model@),
{
    if let Some(value) = model.get("tokenizer.ggml.tokens") {
        if let Some(items) = value.as_array() {
            return Some(items.len());
        }
    }
    match model.tensor("token_embd.weight") {
        Some(t) => if t.dims.len() > 1 {
            Some(t.dims[1] as usize)
        } else {
            None
        },
        None => None,
    }
}

impl Config {
    /// What every configuration keeps: heads fill the embedding, and key/value
    /// heads share them evenly.
    pub open spec fn wf(&self) -> bool {
        &&& self.heads > 0
        &&& self.kv_heads > 0
        &&& self.head_dim > 0
        &&& self.heads % self.kv_heads == 0
        &&& self.heads * self.head_dim == self.embedding
    }

    /// The hyperparameters that a file declares. Architectures other than
    /// `llama` are refused by name rather than half-loaded: a model that runs
    /// with the wrong layer structure produces fluent nonsense, not an error.
    pub fn from_gguf(model: &Gguf) -> (got: Result<Self, Error>)
        requires
            model.wf(),
        ensures
            match got {
                Ok(c) => config_error(model@) is None && configured(model@, c) && c.wf(),
                Err(e) => config_error(model@) == Some(e@),
            },
    {
        let arch = match model.arch() {
            Some(arch) => arch,
            None => return Err(Error::bad("file does not name an architecture")),
        };
        if !text::str_eq(arch, "llama") {
            return Err(unknown_architecture(text::quote(arch).as_str()));
        }
        let layers: usize = need(model, arch, "block_count")?;
        let embedding: usize = need(model, arch, "embedding_length")?;
        let heads: usize = need(model, arch, "attention.head_count")?;
        let ffn: usize = need(model, arch, "feed_forward_length")?;
        let kv_heads: usize = match model.arch_u64("attention.head_count_kv") {
            Some(n) => n as usize,
            None => heads,
        };
        let head_dim: usize = match model.arch_u64("rope.dimension_count") {
            Some(n) => n as usize,
            None => if heads == 0 {
                0
            } else {
                embedding / heads
            },
        };
        check_shape(heads, kv_heads, head_dim, embedding)?;
        let vocab: usize = match vocabulary(model) {
            Some(n) => n,
            None => return Err(Error::bad("cannot determine vocabulary size")),
        };
        let context: usize = match model.arch_u64("context_length") {
            Some(n) => n as usize,
            None => 2048,
        };
        let eps: u32 = match model.arch_f32("attention.layer_norm_rms_epsilon") {
            Some(bits) => bits,
            None => DEFAULT_EPS,
        };
        let rope_base: u32 = match model.arch_f32("rope.freq_base") {
            Some(bits) => bits,
            None => DEFAULT_ROPE_BASE,
        };
        let c = Config {
            arch: arch.to_owned(),
            layers,
            embedding,
            heads,
            kv_heads,
            head_dim,
            ffn,
            context,
            vocab,
            eps,
            rope_base,
        };
        Ok(c)
    }

    /// Width of the key and value vectors, which is smaller than `embedding`
    /// whenever grouped-query attention is in use.
    pub fn kv_dim(&self) -> (n: usize)
        requires
            self.wf(),
        ensures
            n == self.kv_heads * self.head_dim,
            n <= self.embedding,
    {
        proof {
            lemma_kv_dim(self.heads as int, self.kv_heads as int, self.head_dim as int);
        }
        self.kv_heads * self.head_dim
    }

    /// How many query heads share each key/value head.
    pub fn group(&self) -> (n: usize)
        requires
            self.wf(),
        ensures
            n == self.heads / self.kv_heads,
            n > 0,
    {
        proof {
            lemma_kv_dim(self.heads as int, self.kv_heads as int, self.head_dim as int);
        }
        self.heads / self.kv_heads
    }
}

/// Key/value heads never outnumber heads, and groups of them make up all heads.
pub proof fn lemma_kv_dim(heads: int, kv_heads: int, head_dim: int)
    requires
        heads > 0,
        kv_heads > 0,
        head_dim > 0,
        heads % kv_heads == 0,
    ensures
        kv_heads * head_dim <= heads * head_dim,
        heads / kv_heads > 0,
        kv_heads * (heads / kv_heads) == heads,
        forall|h: int| 0 <= h < heads ==> 0 <= #[trigger] (h / (heads / kv_heads)) < kv_heads,
{
    let group = heads / kv_heads;
    vstd::arithmetic::div_mod::lemma_fundamental_div_mod(heads, kv_heads);
    assert(group > 0) by (nonlinear_arith)
        requires
            kv_heads * group == heads,
            heads > 0,
            kv_heads > 0,
    ;
    assert(kv_heads <= heads) by (nonlinear_arith)
        requires
            kv_heads * group == heads,
            group > 0,
            kv_heads > 0,
    ;
    assert(kv_heads * head_dim <= heads * head_dim) by (nonlinear_arith)
        requires
            kv_heads <= heads,
            head_dim > 0,
    ;
    assert forall|h: int| 0 <= h < heads implies 0 <= #[trigger] (h / group) < kv_heads by {
        vstd::arithmetic::div_mod::lemma_fundamental_div_mod(h, group);
        vstd::arithmetic::div_mod::lemma_mod_bound(h, group);
        assert(0 <= h / group < kv_heads) by (nonlinear_arith)
            requires
                h == group * (h / group) + h % group,
                0 <= h % group,
                0 <= h,
                h < kv_heads * group,
                h % group < group,
                group > 0,
        ;
    }
}

// --------------------------------------------------------------------- weights

/// A weight matrix left in its stored, quantized form.
///
/// Rows are expanded one at a time during a matvec rather than up front: a 4 GB
/// model would otherwise need 16 GB of numbers to multiply by.
pub struct Weight<'a> {
    pub rows: usize,
    pub cols: usize,
    pub ty: GgmlType,
    row_bytes: usize,
    bytes: &'a [u8],
}

/// A weight matrix as a mathematical object.
#[verifier::ext_equal]
pub ghost struct WeightView {
    pub rows: usize,
    pub cols: usize,
    pub ty: GgmlType,
    pub row_bytes: usize,
    pub bytes: Seq<u8>,
}

impl<'a> View for Weight<'a> {
    type V = WeightView;

    closed spec fn view(&self) -> WeightView {
        WeightView {
            rows: self.rows,
            cols: self.cols,
            ty: self.ty,
            row_bytes: self.row_bytes,
            bytes: self.bytes@,
        }
    }
}

impl WeightView {
    /// Whether the bytes of a row are there.
    pub open spec fn has_row(self, index: int) -> bool {
        0 <= index && index * self.row_bytes + self.row_bytes <= self.bytes.len()
    }

    /// Whether the bytes of all rows are there.
    pub open spec fn whole(self) -> bool {
        self.rows * self.row_bytes <= self.bytes.len()
    }

    /// The bytes of a row.
    pub open spec fn row(self, index: int) -> Seq<u8> {
        self.bytes.subrange(index * self.row_bytes, index * self.row_bytes + self.row_bytes)
    }
}

/// A matrix with all its bytes has each of its rows.
pub proof fn lemma_whole_has_rows(w: WeightView, index: int)
    requires
        w.whole(),
        0 <= index < w.rows,
    ensures
        w.has_row(index),
{
    assert(index * w.row_bytes + w.row_bytes <= w.rows * w.row_bytes) by (nonlinear_arith)
        requires
            0 <= index,
            index + 1 <= w.rows,
    ;
}

/// The bytes of one row, if they can be counted.
pub open spec fn row_width(cols: usize, block: u64, size: u64) -> int {
    (cols as u64 / block) * size
}

/// What binding a tensor of a file as a matrix gives. Dimension 0 varies
/// fastest, so a matrix listed as `[in, out]` is `out` rows of `in` contiguous
/// elements.
pub open spec fn bind_of(file: FileView, name: Seq<char>) -> Result<WeightView, ErrorView> {
    match file.find(name) {
        None => Err(invalid_data("missing tensor "@ + name)),
        Some(t) => {
            let cols = t.dims[0] as usize;
            let rows: usize = if t.dims.len() > 1 { t.dims[1] as usize } else { 1 };
            if cols == 0 {
                Err(invalid_data("tensor "@ + name + " has no columns"@))
            } else {
                match layout_of(t.ty) {
                    None => Err(invalid_data("tensor "@ + name + " has unsupported type "@ + name_of(t.ty))),
                    Some((block, size)) => if cols as u64 % block != 0 {
                        Err(
                            invalid_data(
                                "tensor "@ + name + ": "@ + decimal(cols as nat) + " columns do not fill whole "@
                                    + name_of(t.ty) + " blocks"@,
                            ),
                        )
                    } else if row_width(cols, block, size) > usize::MAX {
                        Err(invalid_data("tensor "@ + name + " row length overflows"@))
                    } else {
                        Ok(
                            WeightView {
                                rows,
                                cols,
                                ty: t.ty,
                                row_bytes: row_width(cols, block, size) as usize,
                                bytes: file.bytes.subrange(file.start(t), file.start(t) + t.byte_len->Some_0),
                            },
                        )
                    },
                }
            }
        },
    }
}

/// A matrix of one or two dimensions has all its rows.
pub proof fn lemma_bound_is_whole(file: FileView, name: Seq<char>)
    requires
        file.valid(),
        bind_of(file, name) is Ok,
        file.find(name)->Some_0.dims.len() <= 2,
    ensures
        bind_of(file, name)->Ok_0.whole(),
{
    let t = file.find(name)->Some_0;
    let w = bind_of(file, name)->Ok_0;
    let k = choose|i: int| 0 <= i < file.tensors.len() && (#[trigger] file.tensors[i]).name == name;
    assert(sized_at(file, k));
    let (block, size) = layout_of(t.ty)->Some_0;
    let elements = product(t.dims)->Some_0;
    let d0 = t.dims[0];
    if t.dims.len() == 1 {
        lemma_product_one(t.dims);
        assert(elements == d0);
        assert(w.cols <= d0);
        assert(w.row_bytes <= (elements / block) * size) by (nonlinear_arith)
            requires
                w.row_bytes == (w.cols as u64 / block) * size,
                w.cols <= elements,
                block > 0,
                size > 0,
        ;
        assert(1 * w.row_bytes == w.row_bytes);
    } else {
        let d1 = t.dims[1];
        lemma_product_two(t.dims);
        assert(elements == d0 * d1);
        assert(w.cols <= d0 && w.rows <= d1);
        let q = w.cols as u64 / block;
        assert(w.cols == block * q) by (nonlinear_arith)
            requires
                q == w.cols as u64 / block,
                w.cols as u64 % block == 0,
                block > 0,
        ;
        assert(w.rows * q <= elements / block) by (nonlinear_arith)
            requires
                w.cols == block * q,
                w.cols <= d0,
                w.rows <= d1,
                elements == d0 * d1,
                block > 0,
                q >= 0,
        {
            assert(w.rows * w.cols <= d1 * d0);
            assert(w.rows * w.cols == block * (w.rows * q));
        }
        assert(w.rows * (q * size) <= (elements / block) * size) by (nonlinear_arith)
            requires
                w.rows * q <= elements / block,
                size > 0,
        ;
    }
}

spec fn sized_at(file: FileView, k: int) -> bool {
    crate::gguf::sized(file.tensors[k]) && file.holds(file.tensors[k])
}

proof fn lemma_product_one(dims: Seq<u64>)
    requires
        dims.len() == 1,
    ensures
        product(dims) == Some(dims[0]),
{
    reveal_with_fuel(product, 2);
    assert(dims.drop_last().len() == 0);
    assert(1 * dims[0] == dims[0]);
}

proof fn lemma_product_two(dims: Seq<u64>)
    requires
        dims.len() == 2,
        product(dims) is Some,
    ensures
        product(dims)->Some_0 == dims[0] * dims[1],
{
    lemma_product_one(dims.drop_last());
}

/// How a row is to be dotted.
#[derive(Debug)]
pub enum RowPlan {
    /// Multiply and accumulate in lanes, straight from the stored row.
    Fused(Vec<Step>),
    /// The same for a row that was expanded first.
    Reference(Vec<Step>),
    /// Scale and sum the integer dots of the blocks.
    Integer(Vec<Term>),
}

impl<'a> Weight<'a> {
    /// Finds a tensor of a file and takes it as a matrix.
    pub fn bind(model: &Gguf<'a>, name: &str) -> (got: Result<Self, Error>)
        requires
            model.wf(),
        ensures
            match got {
                Ok(w) => bind_of(model@, name@) == Ok::<WeightView, ErrorView>(w@),
                Err(e) => bind_of(model@, name@) == Err::<WeightView, ErrorView>(e@),
            },
    {
        let info = match model.tensor(name) {
            Some(info) => info,
            None => {
                let mut message = "missing tensor ".to_owned();
                message.append(name);
                return Err(Error::new(ErrorKind::InvalidData, message));
            },
        };
        proof {
            model.lemma_valid();
            let k = choose|k: int| 0 <= k < model@.tensors.len() && model@.tensors[k] == info@;
            assert(model@.tensors.contains(info@));
            assert(sized_at(model@, k));
        }
        let cols: usize = info.dims[0] as usize;
        let rows: usize = if info.dims.len() > 1 { info.dims[1] as usize } else { 1 };
        if cols == 0 {
            let mut message = "tensor ".to_owned();
            message.append(name);
            message.append(" has no columns");
            return Err(Error::new(ErrorKind::InvalidData, message));
        }
        let (block, size) = match info.ty.layout() {
            Some(layout) => layout,
            None => {
                let mut message = "tensor ".to_owned();
                message.append(name);
                message.append(" has unsupported type ");
                message.append(info.ty.name().as_str());
                return Err(Error::new(ErrorKind::InvalidData, message));
            },
        };
        if cols as u64 % block != 0 {
            let mut message = "tensor ".to_owned();
            message.append(name);
            message.append(": ");
            message.append(text::to_decimal(cols as u64).as_str());
            message.append(" columns do not fill whole ");
            message.append(info.ty.name().as_str());
            message.append(" blocks");
            return Err(Error::new(ErrorKind::InvalidData, message));
        }
        let count: u64 = cols as u64 / block;
        let fits: bool = match count.checked_mul(size) {
            Some(width) => width <= usize::MAX as u64,
            None => false,
        };
        if !fits {
            let mut message = "tensor ".to_owned();
            message.append(name);
            message.append(" row length overflows");
            return Err(Error::new(ErrorKind::InvalidData, message));
        }
        let row_bytes: usize = (count * size) as usize;
        let file_len: u64 = model.file_len();
        assert(model@.start(info@) + info@.byte_len->Some_0 <= file_len);
        let bytes = model.tensor_bytes(info)?;
        Ok(Weight { rows, cols, ty: info.ty, row_bytes, bytes })
    }

    /// How many rows there are.
    pub fn rows(&self) -> (n: usize)
        ensures
            n == self@.rows,
    {
        self.rows
    }

    /// How many elements a row has.
    pub fn cols(&self) -> (n: usize)
        ensures
            n == self@.cols,
    {
        self.cols
    }

    /// How elements are stored.
    pub fn ty(&self) -> (ty: GgmlType)
        ensures
            ty == self@.ty,
    {
        self.ty
    }

    /// Whether the bytes of all rows are there.
    pub fn is_whole(&self) -> (yes: bool)
        ensures
            yes == self@.whole(),
    {
        let there: usize = self.bytes.len();
        match self.rows.checked_mul(self.row_bytes) {
            Some(total) => total <= there,
            None => false,
        }
    }

    /// Whether the bytes of a row are there.
    pub fn has_row(&self, index: usize) -> (yes: bool)
        ensures
            yes == self@.has_row(index as int),
    {
        let there: usize = self.bytes.len();
        match index.checked_mul(self.row_bytes) {
            Some(start) => start <= there && self.row_bytes <= there - start,
            None => false,
        }
    }

    fn row_bytes_at(&self, index: usize) -> (row: &'a [u8])
        requires
            self@.has_row(index as int),
        ensures
            row@ == self@.row(index as int),
    {
        let total: usize = self.bytes.len();
        assert(index * self.row_bytes + self.row_bytes <= total);
        assert(index * self.row_bytes >= 0) by (nonlinear_arith)
            requires
                index >= 0,
                self.row_bytes >= 0,
        ;
        let start: usize = index * self.row_bytes;
        vstd::slice::slice_subrange(self.bytes, start, start + self.row_bytes)
    }

    /// Expands one row into `out`, which must be `cols` long.
    pub fn row(&self, index: usize, out: &mut [Element]) -> (done: Result<(), Error>)
        requires
            index < self@.rows ==> self@.has_row(index as int),
        ensures
            final(out)@.len() == old(out)@.len(),
            match done {
                Ok(_) => index < self@.rows && expand_error(self@.ty, self@.row_bytes as nat, old(out)@.len()) is None
                    && forall|i: int|
                    0 <= i < final(out)@.len() ==> #[trigger] final(out)@[i] == row_element(
                        self@.ty,
                        self@.row(index as int),
                        i,
                    ),
                Err(e) => if index >= self@.rows {
                    e@ == invalid_data(
                        "row "@ + decimal(index as nat) + " of "@ + decimal(self@.rows as nat) + " out of range"@,
                    )
                } else {
                    expand_error(self@.ty, self@.row_bytes as nat, old(out)@.len()) == Some(e@)
                },
            },
    {
        if index >= self.rows {
            let mut message = "row ".to_owned();
            message.append(text::to_decimal(index as u64).as_str());
            message.append(" of ");
            message.append(text::to_decimal(self.rows as u64).as_str());
            message.append(" out of range");
            return Err(Error::new(ErrorKind::InvalidData, message));
        }
        quant::dequantize(self.ty, self.row_bytes_at(index), out)
    }

    /// How to dot one row with `x_len` activations by expanding it first.
    pub fn matvec_reference(&self, index: usize, x_len: usize) -> (plan: Result<Vec<Step>, Error>)
        requires
            self@.has_row(index as int),
        ensures
            match plan {
                Ok(steps) => expand_error(self@.ty, self@.row_bytes as nat, x_len as nat) is None && steps@
                    == reference_schedule(
                    Seq::new(x_len as nat, |i: int| row_element(self@.ty, self@.row(index as int), i)),
                ),
                Err(e) => expand_error(self@.ty, self@.row_bytes as nat, x_len as nat) == Some(e@),
            },
    {
        let elements = quant::dequantize_to_vec(self.ty, self.row_bytes_at(index), x_len)?;
        Ok(dot::reference(elements.as_slice()))
    }

    /// How to dot one row with `x_len` activations: by the fused kernel where
    /// that is worth it and gives the same bits, else by expanding the row
    /// first.
    pub fn matvec(&self, index: usize, x_len: usize) -> (plan: Result<RowPlan, Error>)
        requires
            self@.has_row(index as int),
        ensures
            match plan {
                Ok(RowPlan::Fused(steps)) => fuses(self@.ty, self@.row_bytes as nat, x_len as nat) && steps@
                    == row_schedule(self@, index as int, x_len as nat),
                Ok(RowPlan::Reference(steps)) => !fuses(self@.ty, self@.row_bytes as nat, x_len as nat)
                    && expand_error(self@.ty, self@.row_bytes as nat, x_len as nat) is None && steps@ == row_schedule(
                    self@,
                    index as int,
                    x_len as nat,
                ),
                Ok(RowPlan::Integer(_)) => false,
                Err(e) => expand_error(self@.ty, self@.row_bytes as nat, x_len as nat) == Some(e@),
            },
    {
        if dot::supports(self.ty) && x_len % 4 == 0 && quant::expands(self.ty, self.row_bytes, x_len) {
            if let Some(steps) = dot::fused(self.ty, self.row_bytes_at(index), x_len) {
                return Ok(RowPlan::Fused(steps));
            }
        }
        Ok(RowPlan::Reference(self.matvec_reference(index, x_len)?))
    }

    /// Whether quantized activations cover a row.
    pub fn takes_int8(&self, x: &Quantized) -> (yes: bool)
        ensures
            yes == (has_integer_kernel(self@.ty) && covers(self@.ty, self@.row_bytes as nat, *x)),
    {
        idot::supports(self.ty) && idot::is_covered(self.ty, self.row_bytes, x)
    }

    /// How to dot one row with quantized activations, for types with an integer
    /// kernel.
    pub fn matvec_int8(&self, index: usize, x: &Quantized) -> (plan: Option<RowPlan>)
        requires
            self@.has_row(index as int),
            x.wf(),
            covers(self@.ty, self@.row_bytes as nat, *x),
        ensures
            match plan {
                Some(RowPlan::Integer(terms)) => has_integer_kernel(self@.ty) && terms@ == terms_of(
                    self@.ty,
                    self@.row(index as int),
                    *x,
                ),
                Some(_) => false,
                None => !has_integer_kernel(self@.ty),
            },
    {
        match idot::integer(self.ty, self.row_bytes_at(index), x) {
            Some(terms) => Some(RowPlan::Integer(terms)),
            None => None,
        }
    }
}

impl<'a> Weight<'a> {
    /// The row ranges that `threads` workers take.
    pub fn matvec_threaded(&self, threads: usize) -> (ranges: Vec<(usize, usize)>)
        ensures
            is_split(ranges@, self@.rows as int, threads as int),
    {
        split_rows(self.rows, threads)
    }
}

/// Whether a row is dotted by the fused kernel: one is selected for the type,
/// the row expands, and there is nothing behind the last group of four. Only
/// plain numbers can have such a rest, which expanding first sums up apart.
pub open spec fn fuses(ty: GgmlType, row_bytes: nat, x_len: nat) -> bool {
    chosen(ty) && expand_error(ty, row_bytes, x_len) is None && x_len % 4 == 0
}

/// The steps of expanding a row first and dotting it then.
pub open spec fn unfused_schedule(w: WeightView, index: int, x_len: nat) -> Seq<Step> {
    reference_schedule(Seq::new(x_len, |i: int| row_element(w.ty, w.row(index), i)))
}

/// The steps by which a row is dotted.
pub open spec fn row_schedule(w: WeightView, index: int, x_len: nat) -> Seq<Step> {
    if fuses(w.ty, w.row_bytes as nat, x_len) {
        fused_schedule(w.ty, w.row(index), covered(w.ty, w.row_bytes as nat, x_len))
    } else {
        unfused_schedule(w, index, x_len)
    }
}

/// Fusing changes nothing: wherever a row can be dotted, it is dotted by the
/// steps of expanding it first, one for one.
pub proof fn lemma_matvec_is_reference(w: WeightView, index: int, x_len: nat)
    requires
        w.has_row(index),
        expand_error(w.ty, w.row_bytes as nat, x_len) is None,
    ensures
        row_schedule(w, index, x_len) == unfused_schedule(w, index, x_len),
{
    if fuses(w.ty, w.row_bytes as nat, x_len) {
        let (block, size) = layout_of(w.ty)->Some_0;
        let blocks = x_len / block as nat;
        vstd::arithmetic::div_mod::lemma_fundamental_div_mod(x_len as int, block as int);
        assert(blocks * block as nat == block as nat * blocks) by (nonlinear_arith);
        vstd::arithmetic::div_mod::lemma_div_by_multiple(blocks as int, size as int);
        assert(w.row_bytes as nat / size as nat == blocks);
        assert(covered(w.ty, w.row_bytes as nat, x_len) == x_len);
        dot::lemma_fused_is_reference(w.ty, w.row(index), x_len);
    }
}

// --------------------------------------------------------------------- threads

/// Whether ranges cover `0..rows` one after the other, without gap or overlap.
pub open spec fn partitions(ranges: Seq<(usize, usize)>, rows: int) -> bool {
    &&& ranges.len() > 0
    &&& ranges[0].0 == 0
    &&& ranges[ranges.len() - 1].1 == rows
    &&& forall|i: int| 0 <= i < ranges.len() ==> (#[trigger] ranges[i]).0 <= ranges[i].1
    &&& forall|i: int| 0 < i < ranges.len() ==> #[trigger] ranges[i].0 == ranges[i - 1].1
}

/// How many rows each of several workers takes.
pub open spec fn chunk_of(rows: int, threads: int) -> int {
    (rows + threads - 1) / threads
}

/// The range of the `i`th worker.
pub open spec fn range_of(rows: int, chunk: int, i: int) -> (usize, usize) {
    let end = (i + 1) * chunk;
    ((i * chunk) as usize, (if end < rows { end } else { rows }) as usize)
}

/// How the rows of a matvec are split across workers: one takes them all if
/// there is only one or there are few rows, else all take the same number and
/// the last one what is left.
pub open spec fn is_split(ranges: Seq<(usize, usize)>, rows: int, threads: int) -> bool {
    &&& partitions(ranges, rows)
    &&& threads <= 1 || rows < 4 * threads ==> ranges == seq![(0usize, rows as usize)]
    &&& threads > 1 && rows >= 4 * threads ==> ranges.len() <= threads && forall|i: int|
        0 <= i < ranges.len() ==> #[trigger] ranges[i] == range_of(rows, chunk_of(rows, threads), i)
}

/// Splits the rows of a matvec across workers.
///
/// Rows are independent and each is reduced by the same steps in the same
/// order, so the result is the same to the last bit no matter how the split
/// falls. Below a few rows per worker the spawn costs more than the work.
pub fn split_rows(rows: usize, threads: usize) -> (ranges: Vec<(usize, usize)>)
    ensures
        is_split(ranges@, rows as int, threads as int),
{
    let mut ranges: Vec<(usize, usize)> = Vec::new();
    if threads <= 1 || rows / 4 < threads {
        ranges.push((0, rows));
        proof {
            assert(ranges@ =~= seq![(0usize, rows)]);
        }
        return ranges;
    }
    let mut chunk: usize = rows / threads;
    if rows % threads != 0 {
        assert(chunk < rows) by (nonlinear_arith)
            requires
                chunk == rows / threads,
                threads > 1,
                rows > 0,
        ;
        chunk = chunk + 1;
    }
    proof {
        lemma_ceil(rows as int, threads as int, chunk as int);
    }
    let mut start: usize = 0;
    let ghost mut k: int = 0;
    while start < rows
        invariant
            rows > 0,
            chunk > 0,
            start <= rows,
            k == ranges@.len(),
            start == (if k * chunk < rows { k * chunk } else { rows as int }),
            k > 0 ==> (k - 1) * chunk < rows,
            k > 0 ==> ranges@[k - 1].1 == start,
            k == 0 ==> start == 0,
            k > 0 ==> ranges@[0].0 == 0,
            forall|i: int| 0 <= i < k ==> (#[trigger] ranges@[i]).0 <= ranges@[i].1,
            forall|i: int| 0 < i < k ==> #[trigger] ranges@[i].0 == ranges@[i - 1].1,
            forall|i: int| 0 <= i < k ==> #[trigger] ranges@[i] == range_of(rows as int, chunk as int, i),
        decreases rows - start,
    {
        let end: usize = if rows - start <= chunk { rows } else { start + chunk };
        proof {
            assert((k + 1) * chunk == k * chunk + chunk) by (nonlinear_arith);
        }
        ranges.push((start, end));
        start = end;
        proof {
            k = k + 1;
        }
    }
    proof {
        assert(k > 0);
        assert(k <= threads) by (nonlinear_arith)
            requires
                k > 0,
                (k - 1) * chunk < rows,
                rows <= threads * chunk,
                chunk > 0,
        ;
    }
    ranges
}

/// What workers leave behind together: each row of each range in turn.
pub open spec fn gathered<T>(ranges: Seq<(usize, usize)>, row: spec_fn(int) -> T) -> Seq<T>
    decreases ranges.len(),
{
    if ranges.len() == 0 {
        Seq::empty()
    } else {
        let (first, end) = ranges.last();
        gathered(ranges.drop_last(), row) + Seq::new((end - first) as nat, |i: int| row(first + i))
    }
}

proof fn lemma_gathered<T>(ranges: Seq<(usize, usize)>, row: spec_fn(int) -> T)
    requires
        partitions(ranges, ranges[ranges.len() - 1].1 as int),
    ensures
        gathered(ranges, row) == Seq::new(ranges[ranges.len() - 1].1 as nat, row),
    decreases ranges.len(),
{
    let (first, end) = ranges.last();
    let rest = ranges.drop_last();
    assert(ranges[ranges.len() - 1].0 <= ranges[ranges.len() - 1].1);
    if rest.len() == 0 {
        assert(gathered(rest, row) =~= Seq::empty());
    } else {
        assert(ranges[ranges.len() - 1].0 == ranges[ranges.len() - 2].1);
        assert forall|i: int| 0 <= i < rest.len() implies (#[trigger] rest[i]).0 <= rest[i].1 by {
            assert(ranges[i].0 <= ranges[i].1);
        }
        assert forall|i: int| 0 < i < rest.len() implies #[trigger] rest[i].0 == rest[i - 1].1 by {
            assert(ranges[i].0 == ranges[i - 1].1);
        }
        lemma_gathered(rest, row);
    }
    assert(gathered(ranges, row) =~= Seq::new(end as nat, row));
}

/// Threading changes nothing: whatever a row comes to, its bits or its error,
/// any number of workers leave behind what a single one does, row by row.
pub proof fn lemma_threads_change_nothing<T>(
    ranges: Seq<(usize, usize)>,
    rows: usize,
    threads: usize,
    row: spec_fn(int) -> T,
)
    requires
        is_split(ranges, rows as int, threads as int),
    ensures
        gathered(ranges, row) == Seq::new(rows as nat, row),
        gathered(ranges, row) == gathered(seq![(0usize, rows)], row),
{
    lemma_gathered(ranges, row);
    lemma_gathered(seq![(0usize, rows)], row);
}

proof fn lemma_ceil(rows: int, threads: int, chunk: int)
    requires
        threads > 1,
        rows >= 4 * threads,
        chunk == rows / threads + (if rows % threads != 0 { 1int } else { 0int }),
    ensures
        chunk == chunk_of(rows, threads),
        chunk > 0,
        rows <= threads * chunk,
{
    vstd::arithmetic::div_mod::lemma_fundamental_div_mod(rows, threads);
    vstd::arithmetic::div_mod::lemma_mod_bound(rows, threads);
    let q = rows / threads;
    let r = rows % threads;
    assert(q > 0) by (nonlinear_arith)
        requires
            rows == threads * q + r,
            r < threads,
            rows >= 4 * threads,
            threads > 1,
    ;
    if r == 0 {
        vstd::arithmetic::div_mod::lemma_fundamental_div_mod_converse(rows + threads - 1, threads, q, threads - 1);
    } else {
        assert(threads * (q + 1) == threads * q + threads) by (nonlinear_arith);
        vstd::arithmetic::div_mod::lemma_fundamental_div_mod_converse(rows + threads - 1, threads, q + 1, r - 1);
    }
}

// ----------------------------------------------------------------------- model

/// The weights of one layer.
pub struct Layer<'a> {
    pub attn_norm: Vec<Element>,
    pub wq: Weight<'a>,
    pub wk: Weight<'a>,
    pub wv: Weight<'a>,
    pub wo: Weight<'a>,
    pub ffn_norm: Vec<Element>,
    pub gate: Weight<'a>,
    pub up: Weight<'a>,
    pub down: Weight<'a>,
}

/// A model with its weights bound.
pub struct Model<'a> {
    pub config: Config,
    pub token_embd: Weight<'a>,
    pub layers: Vec<Layer<'a>>,
    pub output_norm: Vec<Element>,
    pub output: Weight<'a>,
}

/// What reading a small tensor whole gives.
pub open spec fn vector_of(file: FileView, name: Seq<char>) -> Result<Seq<Element>, ErrorView> {
    match file.find(name) {
        None => Err(invalid_data("missing tensor "@ + name)),
        Some(t) => match t.byte_len {
            None => Err(invalid_data("tensor "@ + name + " has unsupported type "@ + name_of(t.ty))),
            Some(len) => {
                let elements = product(t.dims)->Some_0 as usize;
                let bytes = file.bytes.subrange(file.start(t), file.start(t) + len);
                match expand_error(t.ty, len as nat, elements as nat) {
                    Some(e) => Err(e),
                    None => Ok(Seq::new(elements as nat, |i: int| row_element(t.ty, bytes, i))),
                }
            },
        },
    }
}

/// Reads a small tensor whole. Norm weights are one vector each, so keeping
/// them expanded costs nothing and saves a dequantize per layer.
fn load_vector(model: &Gguf, name: &str) -> (got: Result<Vec<Element>, Error>)
    requires
        model.wf(),
    ensures
        match got {
            Ok(v) => vector_of(model@, name@) == Ok::<Seq<Element>, ErrorView>(v@),
            Err(e) => vector_of(model@, name@) == Err::<Seq<Element>, ErrorView>(e@),
        },
{
    let info = match model.tensor(name) {
        Some(info) => info,
        None => {
            let mut message = "missing tensor ".to_owned();
            message.append(name);
            return Err(Error::new(ErrorKind::InvalidData, message));
        },
    };
    let file_len: u64 = model.file_len();
    proof {
        model.lemma_valid();
        let k = choose|k: int| 0 <= k < model@.tensors.len() && model@.tensors[k] == info@;
        assert(model@.tensors.contains(info@));
        assert(sized_at(model@, k));
        if info@.byte_len is Some {
            assert(model@.start(info@) + info@.byte_len->Some_0 <= file_len);
        }
    }
    let bytes = model.tensor_bytes(info)?;
    quant::dequantize_to_vec(info.ty, bytes, info.elements() as usize)
}

/// The name of a layer's tensor.
pub open spec fn layer_key(layer: nat, suffix: Seq<char>) -> Seq<char> {
    "blk."@ + decimal(layer) + suffix
}

fn layer_name(layer: usize, suffix: &str) -> (name: String)
    ensures
        name@ == layer_key(layer as nat, suffix@),
{
    let mut name = "blk.".to_owned();
    name.append(text::to_decimal(layer as u64).as_str());
    name.append(suffix);
    name
}

/// The error of a read that may have failed.
pub open spec fn error_of<T>(got: Result<T, ErrorView>) -> Option<ErrorView> {
    match got {
        Ok(_) => None,
        Err(e) => Some(e),
    }
}

/// The first complaint of two, in order.
pub open spec fn first_of(a: Option<ErrorView>, b: Option<ErrorView>) -> Option<ErrorView> {
    if a is Some {
        a
    } else {
        b
    }
}

/// The complaint about a layer whose weights cannot be bound.
pub open spec fn layer_error(file: FileView, l: nat) -> Option<ErrorView> {
    first_of(
        error_of(vector_of(file, layer_key(l, ".attn_norm.weight"@))),
        first_of(
            error_of(bind_of(file, layer_key(l, ".attn_q.weight"@))),
            first_of(
                error_of(bind_of(file, layer_key(l, ".attn_k.weight"@))),
                first_of(
                    error_of(bind_of(file, layer_key(l, ".attn_v.weight"@))),
                    first_of(
                        error_of(bind_of(file, layer_key(l, ".attn_output.weight"@))),
                        first_of(
                            error_of(vector_of(file, layer_key(l, ".ffn_norm.weight"@))),
                            first_of(
                                error_of(bind_of(file, layer_key(l, ".ffn_gate.weight"@))),
                                first_of(
                                    error_of(bind_of(file, layer_key(l, ".ffn_up.weight"@))),
                                    error_of(bind_of(file, layer_key(l, ".ffn_down.weight"@))),
                                ),
                            ),
                        ),
                    ),
                ),
            ),
        ),
    )
}

/// The complaint about the first of `n` layers that cannot be bound.
pub open spec fn layers_error(file: FileView, n: nat) -> Option<ErrorView>
    decreases n,
{
    if n == 0 {
        None
    } else {
        first_of(layers_error(file, (n - 1) as nat), layer_error(file, (n - 1) as nat))
    }
}

/// The output projection. Small models tie it to the embedding table and omit
/// `output.weight` entirely.
pub open spec fn output_of(file: FileView) -> Result<WeightView, ErrorView> {
    match bind_of(file, "output.weight"@) {
        Ok(w) => Ok(w),
        Err(_) => bind_of(file, "token_embd.weight"@),
    }
}

/// The complaint about a file that holds no model.
pub open spec fn load_error(file: FileView) -> Option<ErrorView> {
    first_of(
        config_error(file),
        first_of(
            error_of(bind_of(file, "token_embd.weight"@)),
            first_of(
                layers_error(file, size_of(file, "block_count"@) as nat),
                first_of(error_of(output_of(file)), error_of(vector_of(file, "output_norm.weight"@))),
            ),
        ),
    )
}

/// Whether a layer holds the weights of a file's layer.
pub open spec fn layer_loaded(file: FileView, l: nat, layer: Layer) -> bool {
    &&& vector_of(file, layer_key(l, ".attn_norm.weight"@)) == Ok::<Seq<Element>, ErrorView>(layer.attn_norm@)
    &&& bind_of(file, layer_key(l, ".attn_q.weight"@)) == Ok::<WeightView, ErrorView>(layer.wq@)
    &&& bind_of(file, layer_key(l, ".attn_k.weight"@)) == Ok::<WeightView, ErrorView>(layer.wk@)
    &&& bind_of(file, layer_key(l, ".attn_v.weight"@)) == Ok::<WeightView, ErrorView>(layer.wv@)
    &&& bind_of(file, layer_key(l, ".attn_output.weight"@)) == Ok::<WeightView, ErrorView>(layer.wo@)
    &&& vector_of(file, layer_key(l, ".ffn_norm.weight"@)) == Ok::<Seq<Element>, ErrorView>(layer.ffn_norm@)
    &&& bind_of(file, layer_key(l, ".ffn_gate.weight"@)) == Ok::<WeightView, ErrorView>(layer.gate@)
    &&& bind_of(file, layer_key(l, ".ffn_up.weight"@)) == Ok::<WeightView, ErrorView>(layer.up@)
    &&& bind_of(file, layer_key(l, ".ffn_down.weight"@)) == Ok::<WeightView, ErrorView>(layer.down@)
}

/// Whether a model holds the configuration and the weights of a file.
pub open spec fn model_loaded(file: FileView, m: Model) -> bool {
    &&& configured(file, m.config)
    &&& bind_of(file, "token_embd.weight"@) == Ok::<WeightView, ErrorView>(m.token_embd@)
    &&& m.layers@.len() == m.config.layers
    &&& forall|l: int| 0 <= l < m.layers@.len() ==> layer_loaded(file, l as nat, #[trigger] m.layers@[l])
    &&& output_of(file) == Ok::<WeightView, ErrorView>(m.output@)
    &&& vector_of(file, "output_norm.weight"@) == Ok::<Seq<Element>, ErrorView>(m.output_norm@)
}

proof fn lemma_layers_stop(file: FileView, k: nat, n: nat)
    requires
        k <= n,
        layers_error(file, k) is Some,
    ensures
        layers_error(file, n) == layers_error(file, k),
    decreases n,
{
    if k < n {
        lemma_layers_stop(file, k, (n - 1) as nat);
    }
}

fn load_layer<'a>(gguf: &Gguf<'a>, l: usize) -> (got: Result<Layer<'a>, Error>)
    requires
        gguf.wf(),
    ensures
        match got {
            Ok(layer) => layer_error(gguf@, l as nat) is None && layer_loaded(gguf@, l as nat, layer),
            Err(e) => layer_error(gguf@, l as nat) == Some(e@),
        },
{
    let attn_norm = load_vector(gguf, layer_name(l, ".attn_norm.weight").as_str())?;
    let wq = Weight::bind(gguf, layer_name(l, ".attn_q.weight").as_str())?;
    let wk = Weight::bind(gguf, layer_name(l, ".attn_k.weight").as_str())?;
    let wv = Weight::bind(gguf, layer_name(l, ".attn_v.weight").as_str())?;
    let wo = Weight::bind(gguf, layer_name(l, ".attn_output.weight").as_str())?;
    let ffn_norm = load_vector(gguf, layer_name(l, ".ffn_norm.weight").as_str())?;
    let gate = Weight::bind(gguf, layer_name(l, ".ffn_gate.weight").as_str())?;
    let up = Weight::bind(gguf, layer_name(l, ".ffn_up.weight").as_str())?;
    let down = Weight::bind(gguf, layer_name(l, ".ffn_down.weight").as_str())?;
    Ok(Layer { attn_norm, wq, wk, wv, wo, ffn_norm, gate, up, down })
}

impl<'a> Model<'a> {
    /// Binds all weights of a file.
    pub fn load(gguf: &Gguf<'a>) -> (got: Result<Self, Error>)
        requires
            gguf.wf(),
        ensures
            match got {
                Ok(m) => load_error(gguf@) is None && model_loaded(gguf@, m) && m.config.wf(),
                Err(e) => load_error(gguf@) == Some(e@),
            },
    {
        let config = Config::from_gguf(gguf)?;
        let token_embd = Weight::bind(gguf, "token_embd.weight")?;
        let mut layers: Vec<Layer<'a>> = Vec::new();
        let ghost file = gguf@;
        let n: usize = config.layers;
        let mut l: usize = 0;
        while l < n
            invariant
                gguf.wf(),
                file == gguf@,
                l <= n,
                n == size_of(file, "block_count"@),
                config_error(file) is None,
                bind_of(file, "token_embd.weight"@) is Ok,
                layers@.len() == l,
                layers_error(file, l as nat) is None,
                forall|k: int| 0 <= k < l ==> layer_loaded(file, k as nat, #[trigger] layers@[k]),
            decreases n - l,
        {
            proof {
                if layer_error(file, l as nat) is Some {
                    lemma_layers_stop(file, (l + 1) as nat, n as nat);
                }
            }
            layers.push(load_layer(gguf, l)?);
            l += 1;
        }
        let output = match Weight::bind(gguf, "output.weight") {
            Ok(weight) => weight,
            Err(_) => Weight::bind(gguf, "token_embd.weight")?,
        };
        let output_norm = load_vector(gguf, "output_norm.weight")?;
        Ok(Model { config, token_embd, layers, output_norm, output })
    }
}

} // verus!
