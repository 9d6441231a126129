//! Which entry of a file decides which setting.
//!
//! The laws name the metadata keys and the tensors as they stand in a file.

use vstd::prelude::*;

use crate::error::{ErrorKind, ErrorView};
use crate::format::volume;
use crate::gguf::{product, FileView, ValueView};
use crate::model::{
    bind_of, config_error, configured, layer_loaded, model_loaded, shape_error, vector_of, Config, Layer, Model, WeightView,
};
use crate::quant::element::Element;
use crate::quant::row_element;
use crate::report::{
    header_of, info_of, maybe, number_cell, real_cell, shape_of, text_cell, token_cell, tokenizer_of,
    total_elements, CellView,
};
use crate::text::{decimal, quoted};
use crate::tokenizer::choices::lemma_line_ranks_its_pair;
use crate::tokenizer::laws::lemma_ids_are_places;
use crate::tokenizer::{load_error, loaded, Kind, TokenKind, TokenizerView};
use crate::value::{all_numbers, all_texts, layout_of};

verus! {

/// Whether a file has the whole number `n` under a key.
pub open spec fn says(file: FileView, key: Seq<char>, n: u64) -> bool {
    file.meta.contains_key(key) && file.meta[key].as_u64() == Some(n)
}

/// Whether a file has a word under a key.
pub open spec fn names(file: FileView, key: Seq<char>, word: Seq<char>) -> bool {
    file.meta.contains_key(key) && file.meta[key] == ValueView::Text(word)
}

proof fn lemma_llama_keys(file: FileView)
    requires
        names(file, "general.architecture"@, "llama"@),
    ensures
        file.arch_key("block_count"@) == "llama.block_count"@,
        file.arch_key("embedding_length"@) == "llama.embedding_length"@,
        file.arch_key("attention.head_count"@) == "llama.attention.head_count"@,
        file.arch_key("attention.head_count_kv"@) == "llama.attention.head_count_kv"@,
        file.arch_key("feed_forward_length"@) == "llama.feed_forward_length"@,
        file.arch_key("rope.dimension_count"@) == "llama.rope.dimension_count"@,
        file.arch_key("context_length"@) == "llama.context_length"@,
        file.arch_key("attention.layer_norm_rms_epsilon"@) == "llama.attention.layer_norm_rms_epsilon"@,
        file.arch_key("rope.freq_base"@) == "llama.rope.freq_base"@,
        file.arch() == Some("llama"@),
{
    reveal_strlit("llama");
    reveal_strlit(".");
    assert(file.arch_key("block_count"@) =~= "llama.block_count"@) by {
        reveal_strlit("block_count");
        reveal_strlit("llama.block_count");
    }
    assert(file.arch_key("embedding_length"@) =~= "llama.embedding_length"@) by {
        reveal_strlit("embedding_length");
        reveal_strlit("llama.embedding_length");
    }
    assert(file.arch_key("attention.head_count"@) =~= "llama.attention.head_count"@) by {
        reveal_strlit("attention.head_count");
        reveal_strlit("llama.attention.head_count");
    }
    assert(file.arch_key("attention.head_count_kv"@) =~= "llama.attention.head_count_kv"@) by {
        reveal_strlit("attention.head_count_kv");
        reveal_strlit("llama.attention.head_count_kv");
    }
    assert(file.arch_key("feed_forward_length"@) =~= "llama.feed_forward_length"@) by {
        reveal_strlit("feed_forward_length");
        reveal_strlit("llama.feed_forward_length");
    }
    assert(file.arch_key("rope.dimension_count"@) =~= "llama.rope.dimension_count"@) by {
        reveal_strlit("rope.dimension_count");
        reveal_strlit("llama.rope.dimension_count");
    }
    assert(file.arch_key("context_length"@) =~= "llama.context_length"@) by {
        reveal_strlit("context_length");
        reveal_strlit("llama.context_length");
    }
    assert(file.arch_key("attention.layer_norm_rms_epsilon"@) =~= "llama.attention.layer_norm_rms_epsilon"@) by {
        reveal_strlit("attention.layer_norm_rms_epsilon");
        reveal_strlit("llama.attention.layer_norm_rms_epsilon");
    }
    assert(file.arch_key("rope.freq_base"@) =~= "llama.rope.freq_base"@) by {
        reveal_strlit("rope.freq_base");
        reveal_strlit("llama.rope.freq_base");
    }
}

/// The hyperparameters of a `llama` file, each under its own key. Without
/// `attention.head_count_kv` there are as many key/value heads as heads; without
/// `context_length` the context is 2048; the heads share the embedding evenly,
/// and the key/value heads share the heads evenly.
pub proof fn lemma_hyperparameters(file: FileView, c: Config, n: u64)
    requires
        configured(file, c),
        config_error(file) is None,
        n <= usize::MAX,
    ensures
        names(file, "general.architecture"@, "llama"@),
        c.arch@ == "llama"@,
        says(file, "llama.block_count"@, n) ==> c.layers == n,
        says(file, "llama.embedding_length"@, n) ==> c.embedding == n,
        says(file, "llama.attention.head_count"@, n) ==> c.heads == n,
        says(file, "llama.attention.head_count_kv"@, n) ==> c.kv_heads == n,
        says(file, "llama.feed_forward_length"@, n) ==> c.ffn == n,
        says(file, "llama.rope.dimension_count"@, n) ==> c.head_dim == n,
        says(file, "llama.context_length"@, n) ==> c.context == n,
        !file.meta.contains_key("llama.attention.head_count_kv"@) ==> c.kv_heads == c.heads,
        !file.meta.contains_key("llama.context_length"@) ==> c.context == 2048,
        c.heads > 0 && c.kv_heads > 0 && c.head_dim > 0,
        c.heads % c.kv_heads == 0,
        c.heads * c.head_dim == c.embedding,
        file.meta.contains_key("tokenizer.ggml.tokens"@) && file.meta["tokenizer.ggml.tokens"@] is List
            && file.meta["tokenizer.ggml.tokens"@]->List_0.len() <= usize::MAX ==> c.vocab
            == file.meta["tokenizer.ggml.tokens"@]->List_0.len(),
{
    lemma_llama_keys(file);
}

/// Hyperparameters that fit together are accepted: no head count or width is 0,
/// the key/value heads divide the heads, and the heads fill the embedding.
pub proof fn lemma_shapes(heads: usize, kv_heads: usize, head_dim: usize, embedding: usize)
    ensures
        shape_error(heads, kv_heads, head_dim, embedding) is None <==> heads > 0 && kv_heads > 0 && head_dim > 0 && heads
            % kv_heads == 0 && heads * head_dim == embedding,
{
}

/// A file without a list of tokens has as many as its embedding table has rows.
pub proof fn lemma_vocabulary_size(file: FileView, c: Config)
    requires
        configured(file, c),
        !file.meta.contains_key("tokenizer.ggml.tokens"@),
    ensures
        file.find("token_embd.weight"@) matches Some(t) && t.dims.len() > 1 && (t.dims[1] <= usize::MAX ==> c.vocab
            == t.dims[1]),
{
}

/// The two settings that are numbers with a fraction: as they stand in the file,
/// or 1e-5 and 10000 where the file has none.
pub proof fn lemma_fractions(file: FileView, c: Config, bits: u32)
    requires
        configured(file, c),
        config_error(file) is None,
    ensures
        file.meta.contains_key("llama.attention.layer_norm_rms_epsilon"@)
            && file.meta["llama.attention.layer_norm_rms_epsilon"@] == ValueView::F32(bits) ==> c.eps == bits,
        !file.meta.contains_key("llama.attention.layer_norm_rms_epsilon"@) ==> c.eps == 0x3727_C5AC,
        file.meta.contains_key("llama.rope.freq_base"@) && file.meta["llama.rope.freq_base"@] == ValueView::F32(bits)
            ==> c.rope_base == bits,
        !file.meta.contains_key("llama.rope.freq_base"@) ==> c.rope_base == 0x461C_4000,
{
    lemma_llama_keys(file);
}

/// The special tokens of a vocabulary, each under its own key, and when they are
/// put around a text: begin of sequence for `llama` vocabularies and not for
/// `gpt2` ones, end of sequence for none, unless the file says otherwise.
pub proof fn lemma_special_token_keys(file: FileView, v: TokenizerView, n: u64)
    requires
        loaded(file, v),
    ensures
        names(file, "tokenizer.ggml.model"@, "llama"@) ==> v.kind == Kind::Spm,
        names(file, "tokenizer.ggml.model"@, "gpt2"@) ==> v.kind == Kind::Bpe,
        says(file, "tokenizer.ggml.bos_token_id"@, n) && n <= u32::MAX ==> v.bos == Some(n as u32),
        says(file, "tokenizer.ggml.bos_token_id"@, n) && n > u32::MAX ==> v.bos is None,
        says(file, "tokenizer.ggml.eos_token_id"@, n) && n <= u32::MAX ==> v.eos == Some(n as u32),
        says(file, "tokenizer.ggml.eos_token_id"@, n) && n > u32::MAX ==> v.eos is None,
        says(file, "tokenizer.ggml.unknown_token_id"@, n) && n <= u32::MAX ==> v.unknown == Some(n as u32),
        says(file, "tokenizer.ggml.unknown_token_id"@, n) && n > u32::MAX ==> v.unknown is None,
        !file.meta.contains_key("tokenizer.ggml.bos_token_id"@) ==> v.bos is None,
        !file.meta.contains_key("tokenizer.ggml.eos_token_id"@) ==> v.eos is None,
        !file.meta.contains_key("tokenizer.ggml.unknown_token_id"@) ==> v.unknown is None,
        says(file, "tokenizer.ggml.add_bos_token"@, n) ==> v.add_bos == (n != 0),
        says(file, "tokenizer.ggml.add_eos_token"@, n) ==> v.add_eos == (n != 0),
        !file.meta.contains_key("tokenizer.ggml.add_bos_token"@) && names(file, "tokenizer.ggml.model"@, "llama"@)
            ==> v.add_bos,
        !file.meta.contains_key("tokenizer.ggml.add_bos_token"@) && names(file, "tokenizer.ggml.model"@, "gpt2"@)
            ==> !v.add_bos,
        !file.meta.contains_key("tokenizer.ggml.add_eos_token"@) ==> !v.add_eos,
{
    reveal_strlit("llama");
    reveal_strlit("gpt2");
    assert("gpt2"@.len() == 4);
    assert("llama"@.len() == 5);
}

/// A vocabulary is refused exactly if it is of no known family, has no list of
/// texts for tokens or an empty one, has as many scores or types as not to match
/// its tokens, or is a `gpt2` one without a list of merges. The complaint is
/// about the data.
pub proof fn lemma_refused_vocabularies(file: FileView)
    ensures
        load_error(file) matches Some(e) ==> e.kind == ErrorKind::InvalidData,
        (load_error(file) is None) == ({
            let llama = names(file, "tokenizer.ggml.model"@, "llama"@);
            let gpt2 = names(file, "tokenizer.ggml.model"@, "gpt2"@);
            let tokens = file.meta["tokenizer.ggml.tokens"@];
            let scores = file.meta["tokenizer.ggml.scores"@];
            let types = file.meta["tokenizer.ggml.token_type"@];
            let merges = file.meta["tokenizer.ggml.merges"@];
            &&& llama || gpt2
            &&& file.meta.contains_key("tokenizer.ggml.tokens"@)
            &&& tokens matches ValueView::List(items) && items.len() > 0 && all_texts(items) && {
                &&& file.meta.contains_key("tokenizer.ggml.scores"@) && scores is List && all_numbers(scores->List_0)
                    ==> scores->List_0.len() == items.len()
                &&& file.meta.contains_key("tokenizer.ggml.token_type"@) && types is List ==> types->List_0.len()
                    == items.len()
                &&& gpt2 ==> file.meta.contains_key("tokenizer.ggml.merges"@) && merges is List && all_texts(
                    merges->List_0,
                )
            }
        }),
{
    reveal_strlit("llama");
    reveal_strlit("gpt2");
    assert("gpt2"@.len() == 4);
    assert("llama"@.len() == 5);
}

/// A file without an architecture is bad data, one with another than `llama`
/// unsupported; so is bad data whatever else keeps it from being configured.
pub proof fn lemma_refused_architectures(file: FileView, other: Seq<char>)
    ensures
        !file.meta.contains_key("general.architecture"@) ==> (config_error(file) matches Some(e) && e.kind
            == ErrorKind::InvalidData),
        names(file, "general.architecture"@, other) && other != "llama"@ ==> (config_error(file) matches Some(e) && e.kind
            == ErrorKind::Unsupported),
        names(file, "general.architecture"@, "llama"@) ==> (config_error(file) matches Some(e) ==> e.kind
            == ErrorKind::InvalidData),
        names(file, "general.architecture"@, "llama"@) && (!file.meta.contains_key("llama.block_count"@)
            || !file.meta.contains_key("llama.embedding_length"@) || !file.meta.contains_key(
            "llama.attention.head_count"@,
        ) || !file.meta.contains_key("llama.feed_forward_length"@)) ==> config_error(file) is Some,
{
    if names(file, "general.architecture"@, "llama"@) {
        lemma_llama_keys(file);
    }
}

/// Each token has its text, its score and its type at its own place in the three
/// lists. Without scores all are 0; without types all are ordinary.
pub proof fn lemma_token_lists(file: FileView, v: TokenizerView, i: int)
    requires
        loaded(file, v),
        0 <= i < v.tokens.len(),
    ensures
        file.meta.contains_key("tokenizer.ggml.tokens"@),
        file.meta["tokenizer.ggml.tokens"@] matches ValueView::List(items) && items.len() == v.tokens.len() && items[i]
            == ValueView::Text(v.tokens[i]),
        v.scores.len() == v.tokens.len(),
        v.kinds.len() == v.tokens.len(),
        file.meta.contains_key("tokenizer.ggml.scores"@) ==> (file.meta["tokenizer.ggml.scores"@] matches ValueView::List(
            items,
        ) ==> all_numbers(items) && items[i] is F32 ==> v.scores[i] == items[i]->F32_0),
        !file.meta.contains_key("tokenizer.ggml.scores"@) ==> v.scores[i] == 0,
        file.meta.contains_key("tokenizer.ggml.token_type"@) ==> (
        file.meta["tokenizer.ggml.token_type"@] matches ValueView::List(items) ==> {
            &&& (v.kinds[i] == TokenKind::Unknown) == (items[i].as_u64() == Some(2u64))
            &&& (v.kinds[i] == TokenKind::Control) == (items[i].as_u64() == Some(3u64))
            &&& (v.kinds[i] == TokenKind::UserDefined) == (items[i].as_u64() == Some(4u64))
            &&& (v.kinds[i] == TokenKind::Unused) == (items[i].as_u64() == Some(5u64))
            &&& (v.kinds[i] == TokenKind::Byte) == (items[i].as_u64() == Some(6u64))
        }),
        !file.meta.contains_key("tokenizer.ggml.token_type"@) ==> v.kinds[i] == TokenKind::Normal,
{
    let items = file.meta["tokenizer.ggml.tokens"@]->List_0;
    assert(all_texts(items));
    assert(v.tokens[i] == items[i]->Text_0);
    assert(v.scores[i] == v.scores[i] && v.kinds[i] == v.kinds[i]);
}

/// A `gpt2` vocabulary merges by the list in its file: line `l`, two tokens with
/// a space between them that make a token together, has rank `l`, unless the
/// same line came before. A `llama` one has no merges.
pub proof fn lemma_merge_list(file: FileView, v: TokenizerView, l: int, left: Seq<char>, right: Seq<char>)
    requires
        loaded(file, v),
        v.tokens.len() <= u32::MAX,
    ensures
        v.kind == Kind::Spm ==> v.merges == Map::<(u32, u32), (u32, u32)>::empty(),
        v.kind == Kind::Bpe && file.meta.contains_key("tokenizer.ggml.merges"@) ==> (
        file.meta["tokenizer.ggml.merges"@] matches ValueView::List(items) && all_texts(items) && 0 <= l < items.len() && l
            <= u32::MAX && items[l] == ValueView::Text(left + seq![' '] + right) && !left.contains(' ') && v.id(left) is Some
            && v.id(right) is Some && v.id(left + right) is Some && (forall|m: int|
            0 <= m < l ==> #[trigger] items[m] != items[l]) ==> {
            let pair = (v.id(left)->Some_0, v.id(right)->Some_0);
            v.merges.contains_key(pair) && v.merges[pair] == (l as u32, v.id(left + right)->Some_0)
        }),
{
    if v.kind == Kind::Bpe && file.meta.contains_key("tokenizer.ggml.merges"@) {
        if let ValueView::List(items) = file.meta["tokenizer.ggml.merges"@] {
            if all_texts(items) && 0 <= l < items.len() && l <= u32::MAX && items[l] == ValueView::Text(
                left + seq![' '] + right,
            ) && !left.contains(' ') && v.id(left) is Some && v.id(right) is Some && v.id(left + right) is Some && (
            forall|m: int| 0 <= m < l ==> #[trigger] items[m] != items[l]) {
                let lines = Seq::new(items.len(), |i: int| items[i]->Text_0);
                assert forall|m: int| 0 <= m < l implies #[trigger] lines[m] != lines[l] by {
                    assert(items[m] != items[l]);
                    assert(items[m] is Text && items[l] is Text);
                }
                lemma_ids_are_places(v.tokens, v.tokens.len());
                lemma_line_ranks_its_pair(lines, v.ids(), v.tokens, l, left, right, lines.len());
            }
        }
    }
}

// -------------------------------------------------------------------- weights

/// The name of a tensor of layer `l`.
pub open spec fn in_layer(l: nat, name: Seq<char>) -> Seq<char> {
    "blk."@ + decimal(l) + "."@ + name + ".weight"@
}

proof fn lemma_layer_names(l: nat)
    ensures
        crate::model::layer_key(l, ".attn_norm.weight"@) == in_layer(l, "attn_norm"@),
        crate::model::layer_key(l, ".attn_q.weight"@) == in_layer(l, "attn_q"@),
        crate::model::layer_key(l, ".attn_k.weight"@) == in_layer(l, "attn_k"@),
        crate::model::layer_key(l, ".attn_v.weight"@) == in_layer(l, "attn_v"@),
        crate::model::layer_key(l, ".attn_output.weight"@) == in_layer(l, "attn_output"@),
        crate::model::layer_key(l, ".ffn_norm.weight"@) == in_layer(l, "ffn_norm"@),
        crate::model::layer_key(l, ".ffn_gate.weight"@) == in_layer(l, "ffn_gate"@),
        crate::model::layer_key(l, ".ffn_up.weight"@) == in_layer(l, "ffn_up"@),
        crate::model::layer_key(l, ".ffn_down.weight"@) == in_layer(l, "ffn_down"@),
{
    reveal_strlit(".");
    reveal_strlit(".weight");
    assert(crate::model::layer_key(l, ".attn_norm.weight"@) =~= in_layer(l, "attn_norm"@)) by {
        reveal_strlit(".attn_norm.weight");
        reveal_strlit("attn_norm");
    }
    assert(crate::model::layer_key(l, ".attn_q.weight"@) =~= in_layer(l, "attn_q"@)) by {
        reveal_strlit(".attn_q.weight");
        reveal_strlit("attn_q");
    }
    assert(crate::model::layer_key(l, ".attn_k.weight"@) =~= in_layer(l, "attn_k"@)) by {
        reveal_strlit(".attn_k.weight");
        reveal_strlit("attn_k");
    }
    assert(crate::model::layer_key(l, ".attn_v.weight"@) =~= in_layer(l, "attn_v"@)) by {
        reveal_strlit(".attn_v.weight");
        reveal_strlit("attn_v");
    }
    assert(crate::model::layer_key(l, ".attn_output.weight"@) =~= in_layer(l, "attn_output"@)) by {
        reveal_strlit(".attn_output.weight");
        reveal_strlit("attn_output");
    }
    assert(crate::model::layer_key(l, ".ffn_norm.weight"@) =~= in_layer(l, "ffn_norm"@)) by {
        reveal_strlit(".ffn_norm.weight");
        reveal_strlit("ffn_norm");
    }
    assert(crate::model::layer_key(l, ".ffn_gate.weight"@) =~= in_layer(l, "ffn_gate"@)) by {
        reveal_strlit(".ffn_gate.weight");
        reveal_strlit("ffn_gate");
    }
    assert(crate::model::layer_key(l, ".ffn_up.weight"@) =~= in_layer(l, "ffn_up"@)) by {
        reveal_strlit(".ffn_up.weight");
        reveal_strlit("ffn_up");
    }
    assert(crate::model::layer_key(l, ".ffn_down.weight"@) =~= in_layer(l, "ffn_down"@)) by {
        reveal_strlit(".ffn_down.weight");
        reveal_strlit("ffn_down");
    }
}

/// Each weight of a layer comes from the tensor of its own name.
pub proof fn lemma_layer_tensors(file: FileView, l: nat, layer: Layer)
    requires
        layer_loaded(file, l, layer),
    ensures
        vector_of(file, in_layer(l, "attn_norm"@)) == Ok::<Seq<Element>, ErrorView>(layer.attn_norm@),
        bind_of(file, in_layer(l, "attn_q"@)) == Ok::<WeightView, ErrorView>(layer.wq@),
        bind_of(file, in_layer(l, "attn_k"@)) == Ok::<WeightView, ErrorView>(layer.wk@),
        bind_of(file, in_layer(l, "attn_v"@)) == Ok::<WeightView, ErrorView>(layer.wv@),
        bind_of(file, in_layer(l, "attn_output"@)) == Ok::<WeightView, ErrorView>(layer.wo@),
        vector_of(file, in_layer(l, "ffn_norm"@)) == Ok::<Seq<Element>, ErrorView>(layer.ffn_norm@),
        bind_of(file, in_layer(l, "ffn_gate"@)) == Ok::<WeightView, ErrorView>(layer.gate@),
        bind_of(file, in_layer(l, "ffn_up"@)) == Ok::<WeightView, ErrorView>(layer.up@),
        bind_of(file, in_layer(l, "ffn_down"@)) == Ok::<WeightView, ErrorView>(layer.down@),
{
    lemma_layer_names(l);
}

/// The output projection is the tensor `output.weight`; a file without it shares
/// the embedding table.
pub proof fn lemma_output_tensor(file: FileView, m: Model)
    requires
        model_loaded(file, m),
    ensures
        bind_of(file, "token_embd.weight"@) == Ok::<WeightView, ErrorView>(m.token_embd@),
        bind_of(file, "output.weight"@) matches Ok(w) ==> m.output@ == w,
        file.find("output.weight"@) is None ==> m.output@ == m.token_embd@,
        vector_of(file, "output_norm.weight"@) == Ok::<Seq<Element>, ErrorView>(m.output_norm@),
        m.layers@.len() == m.config.layers,
{
}

/// A vector is read whole: as many elements as its shape says, in order, from the
/// data that begin at its offset.
pub proof fn lemma_vector_elements(file: FileView, name: Seq<char>, i: int)
    requires
        vector_of(file, name) is Ok,
        product(file.find(name)->Some_0.dims) is Some,
        volume(file.find(name)->Some_0.dims) <= usize::MAX,
    ensures
        ({
            let t = file.find(name)->Some_0;
            let v = vector_of(file, name)->Ok_0;
            let first = file.data_offset + t.offset;
            &&& v.len() == volume(t.dims)
            &&& 0 <= i < v.len() ==> v[i] == row_element(
                t.ty,
                file.bytes.subrange(first, first + t.byte_len->Some_0),
                i,
            )
        }),
{
    crate::format::lemma_element_count(file.find(name)->Some_0.dims);
}

/// A matrix is stored row after row: the first dimension of the tensor counts
/// the columns, the second the rows, and element `c` of row `r` is element
/// `r * columns + c` of the tensor's data, which begin at its offset.
pub proof fn lemma_matrix_elements(file: FileView, name: Seq<char>, r: int, c: int)
    requires
        file.valid(),
        bind_of(file, name) is Ok,
        file.find(name)->Some_0.dims.len() == 2,
        file.find(name)->Some_0.dims[0] <= usize::MAX,
        file.find(name)->Some_0.dims[1] <= usize::MAX,
        0 <= r < bind_of(file, name)->Ok_0.rows,
        0 <= c < bind_of(file, name)->Ok_0.cols,
    ensures
        ({
            let t = file.find(name)->Some_0;
            let w = bind_of(file, name)->Ok_0;
            let first = file.data_offset + t.offset;
            &&& t.name == name
            &&& w.cols == t.dims[0]
            &&& w.rows == t.dims[1]
            &&& w.ty == t.ty
            &&& row_element(w.ty, w.row(r), c) == row_element(
                t.ty,
                file.bytes.subrange(first, first + t.byte_len->Some_0),
                r * w.cols + c,
            )
        }),
{
    let t = file.find(name)->Some_0;
    let w = bind_of(file, name)->Ok_0;
    let k = choose|i: int| 0 <= i < file.tensors.len() && (#[trigger] file.tensors[i]).name == name;
    assert(t == file.tensors[k]);
    crate::model::lemma_bound_is_whole(file, name);
    crate::model::lemma_whole_has_rows(w, r);
    let (block, size) = layout_of(t.ty)->Some_0;
    let (n, s) = (block as int, size as int);
    let per_row = w.cols as int / n;
    vstd::arithmetic::div_mod::lemma_fundamental_div_mod(w.cols as int, n);
    vstd::arithmetic::div_mod::lemma_fundamental_div_mod(c, n);
    let (q, rest) = (c / n, c % n);
    let at = r * w.cols + c;
    assert(at == (r * per_row + q) * n + rest) by (nonlinear_arith)
        requires
            at == r * w.cols + c,
            w.cols == n * per_row,
            c == n * q + rest,
    ;
    vstd::arithmetic::div_mod::lemma_mod_bound(c, n);
    vstd::arithmetic::div_mod::lemma_fundamental_div_mod_converse(at, n, r * per_row + q, rest);
    assert(w.row_bytes == per_row * s);
    assert(0 <= q && q + 1 <= per_row) by (nonlinear_arith)
        requires
            0 <= c < w.cols,
            w.cols == n * per_row,
            c == n * q + rest,
            0 <= rest < n,
            n > 0,
    ;
    assert((r * per_row + q) * s == r * w.row_bytes + q * s) by (nonlinear_arith)
        requires
            w.row_bytes == per_row * s,
    ;
    assert(0 <= q * s && q * s + s <= w.row_bytes) by (nonlinear_arith)
        requires
            w.row_bytes == per_row * s,
            0 <= q,
            q + 1 <= per_row,
            s > 0,
    ;
    assert(0 <= r * w.row_bytes) by (nonlinear_arith)
        requires
            0 <= r,
    ;
    let b = r * per_row + q;
    assert(w.row(r).subrange(q * s, q * s + s) =~= w.bytes.subrange(b * s, b * s + s));
}

// --------------------------------------------------------------------- report

/// Whether a report has a line.
pub open spec fn reports(lines: Seq<(Seq<char>, CellView)>, label: Seq<char>, cell: CellView) -> bool {
    exists|i: int| 0 <= i < lines.len() && #[trigger] lines[i] == (label, cell)
}

proof fn lemma_left(a: Seq<(Seq<char>, CellView)>, b: Seq<(Seq<char>, CellView)>, label: Seq<char>, cell: CellView)
    requires
        reports(a, label, cell),
    ensures
        reports(a + b, label, cell),
{
    let i = choose|i: int| 0 <= i < a.len() && #[trigger] a[i] == (label, cell);
    assert((a + b)[i] == (label, cell));
}

proof fn lemma_right(a: Seq<(Seq<char>, CellView)>, b: Seq<(Seq<char>, CellView)>, label: Seq<char>, cell: CellView)
    requires
        reports(b, label, cell),
    ensures
        reports(a + b, label, cell),
{
    let i = choose|i: int| 0 <= i < b.len() && #[trigger] b[i] == (label, cell);
    assert((a + b)[a.len() + i] == (label, cell));
}

proof fn lemma_one_line(label: Seq<char>, cell: CellView)
    ensures
        reports(maybe(label, Some(cell)), label, cell),
{
    assert(maybe(label, Some(cell))[0] == (label, cell));
}

proof fn lemma_in_shape(f: FileView, base: Option<u32>, eps: Option<u32>, label: Seq<char>, cell: CellView)
    requires
        reports(shape_of(f), label, cell),
    ensures
        reports(info_of(f, base, eps), label, cell),
{
    lemma_right(header_of(f), shape_of(f), label, cell);
    lemma_left(header_of(f) + shape_of(f), maybe("rope freq base"@, real_cell(base)), label, cell);
    lemma_left(
        header_of(f) + shape_of(f) + maybe("rope freq base"@, real_cell(base)),
        maybe("rms eps"@, real_cell(eps)),
        label,
        cell,
    );
    lemma_left(
        header_of(f) + shape_of(f) + maybe("rope freq base"@, real_cell(base)) + maybe("rms eps"@, real_cell(eps)),
        tokenizer_of(f),
        label,
        cell,
    );
}

/// The report starts with the size of the file and the version, and has a line
/// for each hyperparameter that the file declares.
pub proof fn lemma_report_lines(f: FileView, base: Option<u32>, eps: Option<u32>, n: u64)
    requires
        names(f, "general.architecture"@, "llama"@),
    ensures
        info_of(f, base, eps).len() >= 4,
        f.bytes.len() <= u64::MAX ==> info_of(f, base, eps)[0] == ("size"@, CellView::Size(f.bytes.len() as u64)),
        info_of(f, base, eps)[1] == ("gguf"@, CellView::Text("v"@ + decimal(f.version as nat))),
        says(f, "llama.block_count"@, n) ==> reports(
            info_of(f, base, eps),
            "layers"@,
            CellView::Text(decimal(n as nat)),
        ),
        says(f, "llama.embedding_length"@, n) ==> reports(
            info_of(f, base, eps),
            "embedding"@,
            CellView::Text(decimal(n as nat)),
        ),
        says(f, "llama.feed_forward_length"@, n) ==> reports(
            info_of(f, base, eps),
            "feed forward"@,
            CellView::Text(decimal(n as nat)),
        ),
        says(f, "llama.attention.head_count"@, n) ==> reports(
            info_of(f, base, eps),
            "heads"@,
            CellView::Text(decimal(n as nat)),
        ),
        says(f, "llama.attention.head_count_kv"@, n) ==> reports(
            info_of(f, base, eps),
            "kv heads"@,
            CellView::Text(decimal(n as nat)),
        ),
        says(f, "llama.context_length"@, n) ==> reports(
            info_of(f, base, eps),
            "context length"@,
            CellView::Text(decimal(n as nat)),
        ),
        base matches Some(bits) ==> reports(info_of(f, base, eps), "rope freq base"@, CellView::Real(bits)),
        eps matches Some(bits) ==> reports(info_of(f, base, eps), "rms eps"@, CellView::Real(bits)),
{
    lemma_llama_keys(f);
    let cell = CellView::Text(decimal(n as nat));
    let m0 = maybe("layers"@, number_cell(f.arch_number("block_count"@)));
    let m1 = maybe("embedding"@, number_cell(f.arch_number("embedding_length"@)));
    let m2 = maybe("feed forward"@, number_cell(f.arch_number("feed_forward_length"@)));
    let m3 = maybe("heads"@, number_cell(f.arch_number("attention.head_count"@)));
    let m4 = maybe("kv heads"@, number_cell(f.arch_number("attention.head_count_kv"@)));
    let m5 = maybe("context length"@, number_cell(f.arch_number("context_length"@)));
    if says(f, "llama.block_count"@, n) {
        lemma_one_line("layers"@, cell);
        lemma_left(m0, m1, "layers"@, cell);
        lemma_left(m0 + m1, m2, "layers"@, cell);
        lemma_left(m0 + m1 + m2, m3, "layers"@, cell);
        lemma_left(m0 + m1 + m2 + m3, m4, "layers"@, cell);
        lemma_left(m0 + m1 + m2 + m3 + m4, m5, "layers"@, cell);
        assert(reports(shape_of(f), "layers"@, cell));
        lemma_in_shape(f, base, eps, "layers"@, cell);
    }
    if says(f, "llama.embedding_length"@, n) {
        lemma_one_line("embedding"@, cell);
        lemma_right(m0, m1, "embedding"@, cell);
        lemma_left(m0 + m1, m2, "embedding"@, cell);
        lemma_left(m0 + m1 + m2, m3, "embedding"@, cell);
        lemma_left(m0 + m1 + m2 + m3, m4, "embedding"@, cell);
        lemma_left(m0 + m1 + m2 + m3 + m4, m5, "embedding"@, cell);
        assert(reports(shape_of(f), "embedding"@, cell));
        lemma_in_shape(f, base, eps, "embedding"@, cell);
    }
    if says(f, "llama.feed_forward_length"@, n) {
        lemma_one_line("feed forward"@, cell);
        lemma_right(m0 + m1, m2, "feed forward"@, cell);
        lemma_left(m0 + m1 + m2, m3, "feed forward"@, cell);
        lemma_left(m0 + m1 + m2 + m3, m4, "feed forward"@, cell);
        lemma_left(m0 + m1 + m2 + m3 + m4, m5, "feed forward"@, cell);
        assert(reports(shape_of(f), "feed forward"@, cell));
        lemma_in_shape(f, base, eps, "feed forward"@, cell);
    }
    if says(f, "llama.attention.head_count"@, n) {
        lemma_one_line("heads"@, cell);
        lemma_right(m0 + m1 + m2, m3, "heads"@, cell);
        lemma_left(m0 + m1 + m2 + m3, m4, "heads"@, cell);
        lemma_left(m0 + m1 + m2 + m3 + m4, m5, "heads"@, cell);
        assert(reports(shape_of(f), "heads"@, cell));
        lemma_in_shape(f, base, eps, "heads"@, cell);
    }
    if says(f, "llama.attention.head_count_kv"@, n) {
        lemma_one_line("kv heads"@, cell);
        lemma_right(m0 + m1 + m2 + m3, m4, "kv heads"@, cell);
        lemma_left(m0 + m1 + m2 + m3 + m4, m5, "kv heads"@, cell);
        assert(reports(shape_of(f), "kv heads"@, cell));
        lemma_in_shape(f, base, eps, "kv heads"@, cell);
    }
    if says(f, "llama.context_length"@, n) {
        lemma_one_line("context length"@, cell);
        lemma_right(m0 + m1 + m2 + m3 + m4, m5, "context length"@, cell);
        assert(reports(shape_of(f), "context length"@, cell));
        lemma_in_shape(f, base, eps, "context length"@, cell);
    }
    let front = header_of(f) + shape_of(f);
    let b = maybe("rope freq base"@, real_cell(base));
    let e = maybe("rms eps"@, real_cell(eps));
    if let Some(bits) = base {
        lemma_one_line("rope freq base"@, CellView::Real(bits));
        lemma_right(front, b, "rope freq base"@, CellView::Real(bits));
        lemma_left(front + b, e, "rope freq base"@, CellView::Real(bits));
        lemma_left(front + b + e, tokenizer_of(f), "rope freq base"@, CellView::Real(bits));
    }
    if let Some(bits) = eps {
        lemma_one_line("rms eps"@, CellView::Real(bits));
        lemma_right(front + b, e, "rms eps"@, CellView::Real(bits));
        lemma_left(front + b + e, tokenizer_of(f), "rms eps"@, CellView::Real(bits));
    }
}

/// The report names the family of the vocabulary and its size, and the tokens at
/// the begin and the end of a text by number and text.
pub proof fn lemma_report_tokens(f: FileView, base: Option<u32>, eps: Option<u32>, kind: Seq<char>, n: u64)
    requires
        names(f, "tokenizer.ggml.model"@, kind),
        f.meta.contains_key("tokenizer.ggml.tokens"@),
        f.meta["tokenizer.ggml.tokens"@] is List,
    ensures
        ({
            let items = f.meta["tokenizer.ggml.tokens"@]->List_0;
            let lines = info_of(f, base, eps);
            &&& reports(lines, "tokenizer"@, CellView::Text(kind + " ("@ + decimal(items.len()) + " tokens)"@))
            &&& says(f, "tokenizer.ggml.bos_token_id"@, n) && n < items.len() && items[n as int] is Text ==> reports(
                lines,
                "bos token"@,
                CellView::Text(decimal(n as nat) + " "@ + quoted(items[n as int]->Text_0)),
            )
            &&& says(f, "tokenizer.ggml.eos_token_id"@, n) && n < items.len() && items[n as int] is Text ==> reports(
                lines,
                "eos token"@,
                CellView::Text(decimal(n as nat) + " "@ + quoted(items[n as int]->Text_0)),
            )
        }),
{
    let items = f.meta["tokenizer.ggml.tokens"@]->List_0;
    let front = header_of(f) + shape_of(f) + maybe("rope freq base"@, real_cell(base)) + maybe("rms eps"@, real_cell(eps));
    let family = CellView::Text(kind + " ("@ + decimal(items.len()) + " tokens)"@);
    let m0 = maybe("tokenizer"@, Some(family));
    let m1 = maybe("bos token"@, token_cell(f, f.number("tokenizer.ggml.bos_token_id"@)));
    let m2 = maybe("eos token"@, token_cell(f, f.number("tokenizer.ggml.eos_token_id"@)));
    assert(tokenizer_of(f) == m0 + m1 + m2);
    lemma_one_line("tokenizer"@, family);
    lemma_left(m0, m1, "tokenizer"@, family);
    lemma_left(m0 + m1, m2, "tokenizer"@, family);
    lemma_right(front, tokenizer_of(f), "tokenizer"@, family);
    if n < items.len() && items[n as int] is Text {
        let token = CellView::Text(decimal(n as nat) + " "@ + quoted(items[n as int]->Text_0));
        if says(f, "tokenizer.ggml.bos_token_id"@, n) {
            lemma_one_line("bos token"@, token);
            lemma_right(m0, m1, "bos token"@, token);
            lemma_left(m0 + m1, m2, "bos token"@, token);
            lemma_right(front, tokenizer_of(f), "bos token"@, token);
        }
        if says(f, "tokenizer.ggml.eos_token_id"@, n) {
            lemma_one_line("eos token"@, token);
            lemma_right(m0 + m1, m2, "eos token"@, token);
            lemma_right(front, tokenizer_of(f), "eos token"@, token);
        }
    }
}

/// The report names the model, its architecture, and how many numbers it is made
/// of.
pub proof fn lemma_report_model(f: FileView, base: Option<u32>, eps: Option<u32>, name: Seq<char>, arch: Seq<char>)
    ensures
        names(f, "general.name"@, name) ==> reports(info_of(f, base, eps), "name"@, CellView::Text(name)),
        names(f, "general.architecture"@, arch) ==> reports(info_of(f, base, eps), "arch"@, CellView::Text(arch)),
        reports(
            info_of(f, base, eps),
            "parameters"@,
            CellView::Amount(total_elements(f.tensors, f.tensors.len()) as u64),
        ),
{
    let h = header_of(f);
    let m0 = maybe("size"@, Some(CellView::Size(f.bytes.len() as u64)));
    let m1 = maybe("gguf"@, Some(CellView::Text("v"@ + decimal(f.version as nat))));
    let m2 = maybe("name"@, text_cell(f.text("general.name"@)));
    let shown = CellView::Text(
        match f.arch() {
            Some(arch) => arch,
            None => "(unspecified)"@,
        },
    );
    let m3 = maybe("arch"@, Some(shown));
    let amount = CellView::Amount(total_elements(f.tensors, f.tensors.len()) as u64);
    let m4 = maybe("parameters"@, Some(amount));
    assert(h == m0 + m1 + m2 + m3 + m4);
    lemma_one_line("parameters"@, amount);
    lemma_right(m0 + m1 + m2 + m3, m4, "parameters"@, amount);
    lemma_in_header(f, base, eps, "parameters"@, amount);
    lemma_one_line("arch"@, shown);
    lemma_right(m0 + m1 + m2, m3, "arch"@, shown);
    lemma_left(m0 + m1 + m2 + m3, m4, "arch"@, shown);
    lemma_in_header(f, base, eps, "arch"@, shown);
    if names(f, "general.name"@, name) {
        let cell = CellView::Text(name);
        lemma_one_line("name"@, cell);
        lemma_right(m0 + m1, m2, "name"@, cell);
        lemma_left(m0 + m1 + m2, m3, "name"@, cell);
        lemma_left(m0 + m1 + m2 + m3, m4, "name"@, cell);
        lemma_in_header(f, base, eps, "name"@, cell);
    }
}

proof fn lemma_in_header(f: FileView, base: Option<u32>, eps: Option<u32>, label: Seq<char>, cell: CellView)
    requires
        reports(header_of(f), label, cell),
    ensures
        reports(info_of(f, base, eps), label, cell),
{
    let b = maybe("rope freq base"@, real_cell(base));
    let e = maybe("rms eps"@, real_cell(eps));
    lemma_left(header_of(f), shape_of(f), label, cell);
    lemma_left(header_of(f) + shape_of(f), b, label, cell);
    lemma_left(header_of(f) + shape_of(f) + b, e, label, cell);
    lemma_left(header_of(f) + shape_of(f) + b + e, tokenizer_of(f), label, cell);
}

} // verus!
