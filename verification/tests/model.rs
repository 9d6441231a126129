//! Forward-pass tests against a model small enough to work out by hand.
//!
//! A transformer with the wrong wiring does not crash, it produces plausible
//! numbers. So these fixtures zero out most of the network, leaving a path
//! whose output can be computed exactly and compared — the residual stream, the
//! KV cache, and the attention average each get their own arithmetic check.

use ferrite::generate::{Generation, Verdict};
use ferrite::gguf::{GgmlType, Gguf, Value};
use ferrite::model::{split_rows, Config, Model, RowPlan, State, Weight, DEFAULT_CONTEXT};
use ferrite::plan::{Buffer, Matrix, Op};
use ferrite::quant::activation::{Quantized, BLOCK};
use ferrite::quant::dot::{Step, TAIL};
use ferrite::quant::idot::{self, Term};
use ferrite::quant::Element;
use ferrite::sample::argmax;
use ferrite::synth::Builder;
use ferrite::Tokenizer;

const DIM: usize = 4;
const VOCAB: usize = 4;
/// Deliberately not equal to DIM: a workspace is sized for the widest matrix in
/// the model, so a narrower one has to keep to its own width.
const FFN: usize = 8;
const EPS: f32 = 1e-5;

fn bytes(values: &[f32]) -> Vec<u8> {
    values.iter().flat_map(|v| v.to_le_bytes()).collect()
}

fn identity(n: usize) -> Vec<f32> {
    let mut out = vec![0.0; n * n];
    for i in 0..n {
        out[i * n + i] = 1.0;
    }
    out
}

/// Embedding table: one distinct vector per token.
///
/// Deliberately not collinear: RMS normalization would erase the difference
/// between tokens entirely, and any test asking "does history change the
/// output" would pass vacuously.
fn embeddings() -> Vec<f32> {
    vec![
        1.0, 0.0, 0.0, 0.0, //
        0.0, 2.0, 0.0, -1.0, //
        1.0, 2.0, 3.0, 4.0, //
        -2.0, 0.5, 1.0, 0.0,
    ]
}

fn embedding_of(token: usize) -> Vec<f32> {
    embeddings()[token * DIM..(token + 1) * DIM].to_vec()
}

/// `attention` and `value` select which paths stay live; everything else is
/// zeroed so the arithmetic stays closed-form.
fn fixture(kv_heads: usize, value_path: bool) -> Builder {
    let zero = vec![0.0; DIM * DIM];
    let kv_dim = kv_heads * (DIM / 2);
    let heads = 2;

    let mut builder = Builder::new()
        .meta("general.architecture", Value::String("llama".into()))
        .meta("llama.block_count", Value::U32(1))
        .meta("llama.embedding_length", Value::U32(DIM as u32))
        .meta("llama.feed_forward_length", Value::U32(FFN as u32))
        .meta("llama.attention.head_count", Value::U32(heads))
        .meta("llama.attention.head_count_kv", Value::U32(kv_heads as u32))
        .meta("llama.context_length", Value::U32(16))
        .meta("llama.attention.layer_norm_rms_epsilon", Value::F32(EPS.to_bits()))
        .meta("llama.rope.freq_base", Value::F32(10000.0f32.to_bits()))
        .meta("tokenizer.ggml.model", Value::String("llama".into()))
        .meta(
            "tokenizer.ggml.tokens",
            Value::Array((0..VOCAB).map(|i| Value::String(format!("t{i}"))).collect()),
        )
        .tensor(
            "token_embd.weight",
            &[DIM as u64, VOCAB as u64],
            GgmlType::F32,
            bytes(&embeddings()),
        )
        .tensor(
            "blk.0.attn_norm.weight",
            &[DIM as u64],
            GgmlType::F32,
            bytes(&[1.0; DIM]),
        )
        // Zero queries and keys mean every attention score is zero, so softmax
        // spreads weight evenly over the past. That is what makes the expected
        // value a plain average.
        .tensor(
            "blk.0.attn_q.weight",
            &[DIM as u64, DIM as u64],
            GgmlType::F32,
            bytes(&zero),
        )
        .tensor(
            "blk.0.attn_k.weight",
            &[DIM as u64, kv_dim as u64],
            GgmlType::F32,
            bytes(&vec![0.0; DIM * kv_dim]),
        );

    let value_weights = if value_path {
        identity(DIM)
    } else {
        zero.clone()
    };
    builder = builder
        .tensor(
            "blk.0.attn_v.weight",
            &[DIM as u64, kv_dim as u64],
            GgmlType::F32,
            bytes(&value_weights[..DIM * kv_dim]),
        )
        .tensor(
            "blk.0.attn_output.weight",
            &[DIM as u64, DIM as u64],
            GgmlType::F32,
            bytes(&if value_path {
                identity(DIM)
            } else {
                zero.clone()
            }),
        )
        .tensor(
            "blk.0.ffn_norm.weight",
            &[DIM as u64],
            GgmlType::F32,
            bytes(&[1.0; DIM]),
        )
        // A zeroed gate makes the whole feed-forward branch contribute nothing.
        .tensor(
            "blk.0.ffn_gate.weight",
            &[DIM as u64, FFN as u64],
            GgmlType::F32,
            bytes(&vec![0.0; DIM * FFN]),
        )
        .tensor(
            "blk.0.ffn_up.weight",
            &[DIM as u64, FFN as u64],
            GgmlType::F32,
            bytes(&vec![0.0; DIM * FFN]),
        )
        .tensor(
            "blk.0.ffn_down.weight",
            &[FFN as u64, DIM as u64],
            GgmlType::F32,
            bytes(&vec![0.0; FFN * DIM]),
        )
        .tensor(
            "output_norm.weight",
            &[DIM as u64],
            GgmlType::F32,
            bytes(&[1.0; DIM]),
        )
        .tensor(
            "output.weight",
            &[DIM as u64, VOCAB as u64],
            GgmlType::F32,
            bytes(&identity(DIM)),
        );
    builder
}

fn normalized(x: &[f32]) -> Vec<f32> {
    let mut out = vec![0.0; x.len()];
    rms_norm(x, &vec![1.0f32; x.len()], EPS, &mut out);
    out
}

fn assert_close(actual: &[f32], expected: &[f32]) {
    assert_eq!(actual.len(), expected.len());
    for (index, (a, b)) in actual.iter().zip(expected).enumerate() {
        assert!(
            (a - b).abs() < 1e-4,
            "element {index}: got {a}, expected {b}\n  actual {actual:?}\n  expected {expected:?}"
        );
    }
}

// ----------------------------------------------------- carrying out a decode step

fn float(bits: u32) -> f32 {
    f32::from_bits(bits)
}

fn value(e: &Element) -> f32 {
    match *e {
        Element::Exact { bits } => float(bits),
        Element::Scaled { d, quant } => float(d) * quant as f32,
        Element::Offset { d, quant, base } => float(d) * quant as f32 + float(base),
        Element::Affine { d, scale, quant, dmin, min } => {
            (float(d) * scale as f32) * quant as f32 - float(dmin) * min as f32
        }
        Element::Centred { d, factor, quant } => float(d) * factor as f32 * quant as f32,
    }
}

fn values(elements: &[Element]) -> Vec<f32> {
    elements.iter().map(value).collect()
}

fn rms_norm(x: &[f32], weight: &[f32], eps: f32, out: &mut [f32]) {
    let sum: f64 = x.iter().map(|v| (*v as f64) * (*v as f64)).sum();
    let scale = 1.0 / ((sum / x.len() as f64) + eps as f64).sqrt();
    for ((slot, value), w) in out.iter_mut().zip(x).zip(weight) {
        *slot = (*value as f64 * scale) as f32 * w;
    }
}

fn softmax(x: &mut [f32]) {
    let max = x.iter().copied().fold(f32::NEG_INFINITY, f32::max);
    let mut total = 0.0;
    for value in x.iter_mut() {
        *value = (*value - max).exp();
        total += *value;
    }
    for value in x.iter_mut() {
        *value /= total;
    }
}

fn rope(vector: &mut [f32], position: usize, base: f32) {
    let dim = vector.len();
    for pair in 0..dim / 2 {
        let frequency = 1.0 / base.powf(2.0 * pair as f32 / dim as f32);
        let (sin, cos) = (position as f32 * frequency).sin_cos();
        let (x, y) = (vector[pair * 2], vector[pair * 2 + 1]);
        vector[pair * 2] = x * cos - y * sin;
        vector[pair * 2 + 1] = x * sin + y * cos;
    }
}

fn lanes(steps: &[Step], x: &[f32]) -> [f32; 5] {
    let mut lanes = [0.0f32; 5];
    for s in steps {
        lanes[s.lane] += value(&s.element) * x[s.at];
    }
    lanes
}

fn row_value(plan: &RowPlan, x: &[f32]) -> f32 {
    match plan {
        RowPlan::Fused(steps) => {
            let l = lanes(steps, x);
            l[0] + l[1] + l[2] + l[3]
        }
        RowPlan::Reference(steps) => {
            let l = lanes(steps, x);
            l[0] + l[1] + l[2] + l[3] + l[TAIL]
        }
        RowPlan::Integer(terms) => terms.iter().fold(0.0f32, |acc, t| {
            acc + match *t {
                Term::Plain { d, step, dot } => float(d) * float(step) * dot as f32,
                Term::Affine { step, d, scale, dot, dmin, min, sum } => {
                    float(step)
                        * ((float(d) * scale as f32) * dot as f32 - (float(dmin) * min as f32) * sum as f32)
                }
            }
        }),
    }
}

fn quantize(x: &[f32]) -> Quantized {
    let mut rounded = Vec::new();
    let mut steps = Vec::new();
    for values in x.chunks_exact(BLOCK) {
        let step = values.iter().fold(0.0f32, |acc, v| acc.max(v.abs())) / 127.0;
        let inverse = if step > 0.0 { 1.0 / step } else { 0.0 };
        rounded.extend(values.iter().map(|v| (v * inverse).round() as i32));
        steps.push(step.to_bits());
    }
    let mut q = Quantized::with_capacity(x.len());
    q.fill(&rounded, &steps);
    q
}

fn matvec(weight: &Weight, x: &[f32], out: &mut [f32], state: &State) {
    let quantized = if state.int8 && idot::supports(weight.ty) && x.len() == weight.cols {
        Some(quantize(x))
    } else {
        None
    };
    for (first, last) in weight.matvec_threaded(state.threads) {
        for index in first..last {
            assert!(weight.has_row(index));
            let plan = match &quantized {
                Some(q) => {
                    assert!(weight.takes_int8(q));
                    weight.matvec_int8(index, q).expect("integer kernel")
                }
                None => weight.matvec(index, x.len()).expect("matvec"),
            };
            out[index] = row_value(&plan, x);
        }
    }
}

/// The buffers that a plan speaks of.
struct Session<'m, 'a> {
    model: &'m Model<'a>,
    state: State,
    x: Vec<f32>,
    named: [Vec<f32>; 7],
    att: Vec<f32>,
    keys: Vec<f32>,
    cached: Vec<f32>,
    logits: Vec<f32>,
}

fn slot(buffer: Buffer) -> usize {
    match buffer {
        Buffer::Xb => 0,
        Buffer::Xb2 => 1,
        Buffer::Hb => 2,
        Buffer::Hb2 => 3,
        Buffer::Q => 4,
        Buffer::K => 5,
        Buffer::V => 6,
    }
}

impl<'m, 'a> Session<'m, 'a> {
    fn new(model: &'m Model<'a>, state: State) -> Self {
        let s = &state;
        Session {
            model,
            x: vec![0.0; s.x],
            named: [s.xb, s.xb2, s.hb, s.hb2, s.q, s.k, s.v].map(|n| vec![0.0; n]),
            att: vec![0.0; s.att],
            keys: vec![0.0; s.key_cache],
            cached: vec![0.0; s.value_cache],
            logits: vec![0.0; s.logits],
            state,
        }
    }

    fn norm(&mut self, weight: &[Element]) {
        let eps = float(self.model.config.eps);
        rms_norm(&self.x, &values(weight), eps, &mut self.named[0]);
    }

    fn forward(&mut self, token: u32, position: usize) -> Result<(), String> {
        let ops = self.model.forward(&self.state, token, position).map_err(|e| e.message().to_string())?;
        for op in ops {
            self.apply(op, position);
        }
        Ok(())
    }

    fn apply(&mut self, op: Op, position: usize) {
        let model = self.model;
        match op {
            Op::Embed { token } => {
                let mut row = vec![Element::Exact { bits: 0 }; self.x.len()];
                assert!(model.token_embd.has_row(token as usize));
                model.token_embd.row(token as usize, &mut row).expect("embedding");
                self.x = values(&row);
            }
            Op::AttentionNorm { layer } => self.norm(&model.layers[layer].attn_norm),
            Op::FeedForwardNorm { layer } => self.norm(&model.layers[layer].ffn_norm),
            Op::OutputNorm => self.norm(&model.output_norm),
            Op::MatVec { layer, matrix, from, to } => {
                let l = &model.layers[layer];
                let weight = match matrix {
                    Matrix::Query => &l.wq,
                    Matrix::Key => &l.wk,
                    Matrix::Value => &l.wv,
                    Matrix::Output => &l.wo,
                    Matrix::Gate => &l.gate,
                    Matrix::Up => &l.up,
                    Matrix::Down => &l.down,
                };
                let x = self.named[slot(from)].clone();
                matvec(weight, &x, &mut self.named[slot(to)], &self.state);
            }
            Op::Rope { buffer, start, len } => {
                rope(&mut self.named[slot(buffer)][start..start + len], position, float(model.config.rope_base));
            }
            Op::Store { at, len } => {
                self.keys[at..at + len].copy_from_slice(&self.named[5]);
                self.cached[at..at + len].copy_from_slice(&self.named[6]);
            }
            Op::Score { past, start, at, len } => {
                let scale = 1.0 / (len as f32).sqrt();
                let products = self.named[4][start..start + len].iter().zip(&self.keys[at..at + len]);
                self.att[past] = products.map(|(a, b)| a * b).sum::<f32>() * scale;
            }
            Op::Softmax { len } => softmax(&mut self.att[..len]),
            Op::Clear { start, len } => self.named[0][start..start + len].fill(0.0),
            Op::Mix { past, start, at, len } => {
                let weight = self.att[past];
                for i in 0..len {
                    self.named[0][start + i] += weight * self.cached[at + i];
                }
            }
            Op::Residual => {
                for (slot, delta) in self.x.iter_mut().zip(&self.named[1]) {
                    *slot += delta;
                }
            }
            Op::Swiglu => {
                for i in 0..self.named[2].len() {
                    let gate = self.named[2][i];
                    self.named[2][i] = gate / (1.0 + (-gate).exp()) * self.named[3][i];
                }
            }
            Op::Logits => matvec(&model.output, &self.named[0], &mut self.logits, &self.state),
        }
    }
}

fn logits_with(model: &Model, state: State, tokens: &[u32]) -> Vec<f32> {
    let mut session = Session::new(model, state);
    for (position, token) in tokens.iter().enumerate() {
        session.forward(*token, position).expect("forward");
    }
    session.logits
}

fn run(file: &Builder, tokens: &[u32]) -> Vec<f32> {
    let bytes = file.build();
    let gguf = Gguf::open(&bytes).expect("open");
    let model = Model::load(&gguf).expect("load");
    logits_with(&model, State::new(&model.config, 1), tokens)
}

// ------------------------------------------------------------------------- tests

#[test]
fn dead_network_passes_the_embedding_through() {
    // Attention and feed-forward both contribute zero, so the residual stream
    // is exactly the embedding, and the logits are its normalization.
    let file = fixture(2, false);
    let logits = run(&file, &[2]);
    assert_close(&logits, &normalized(&embedding_of(2)));
}

#[test]
fn attention_adds_the_average_of_past_values() {
    // With identity value and output projections, the attention branch returns
    // the mean of the normalized inputs it has seen. Position 0 sees only
    // itself.
    let file = fixture(2, true);

    let e0 = embedding_of(1);
    let expected_first = {
        let mut x = e0.clone();
        for (slot, delta) in x.iter_mut().zip(normalized(&e0)) {
            *slot += delta;
        }
        normalized(&x)
    };
    assert_close(&run(&file, &[1]), &expected_first);

    // Position 1 averages both cached values: this is the check that the KV
    // cache is written, read back, and weighted correctly.
    let e1 = embedding_of(3);
    let expected_second = {
        let (n0, n1) = (normalized(&e0), normalized(&e1));
        let mut x = e1.clone();
        for channel in 0..DIM {
            x[channel] += 0.5 * (n0[channel] + n1[channel]);
        }
        normalized(&x)
    };
    assert_close(&run(&file, &[1, 3]), &expected_second);

}

#[test]
fn grouped_query_attention_runs_with_fewer_kv_heads() {
    let file = fixture(1, false);
    let stored = file.build();
    let gguf = Gguf::open(&stored).expect("open");
    let config = Config::from_gguf(&gguf).expect("config");
    assert_eq!(config.kv_heads, 1);
    assert_eq!(config.group(), 2, "two query heads share one kv head");
    assert_eq!(config.kv_dim(), 2);

    let logits = run(&file, &[0, 1, 2]);
    assert!(logits.iter().all(|v| v.is_finite()), "{logits:?}");
}

#[test]
fn decoding_is_deterministic_and_position_dependent() {
    let file = fixture(2, true);
    assert_eq!(run(&file, &[1, 2]), run(&file, &[1, 2]));
    assert_ne!(
        run(&file, &[1, 2]),
        run(&file, &[3, 2]),
        "history must change the outcome"
    );
}

#[test]
fn threading_does_not_change_the_answer() {
    // Rows are independent and each is reduced in the same order regardless of
    // how they are split, so this must hold exactly, not approximately.
    let file = fixture(2, true);
    let stored = file.build();
    let gguf = Gguf::open(&stored).expect("open");
    let model = Model::load(&gguf).expect("load");

    let logits_for = |threads: usize| {
        let mut state = State::new(&model.config, 1);
        state.threads = threads;
        logits_with(&model, state, &[1, 3, 2])
    };

    assert_eq!(
        logits_for(1),
        logits_for(4),
        "bit-identical, not merely close"
    );
    assert_eq!(logits_for(1), logits_for(8));
}

#[test]
fn the_fused_matvec_agrees_with_the_reference() {
    // Same guarantee as the threading test, one level down: fusing the
    // dequantize into the dot must not move a single bit.
    let file = fixture(2, true);
    let stored = file.build();
    let gguf = Gguf::open(&stored).expect("open");
    let model = Model::load(&gguf).expect("load");

    let x: Vec<f32> = (0..DIM).map(|i| (i as f32 * 0.7).cos()).collect();
    let weight = &model.layers[0].wo;
    let rows = 0..weight.rows;
    let fused: Vec<f32> = rows
        .clone()
        .map(|i| row_value(&weight.matvec(i, x.len()).expect("fused"), &x))
        .collect();
    let reference: Vec<f32> = rows
        .map(|i| row_value(&RowPlan::Reference(weight.matvec_reference(i, x.len()).expect("reference")), &x))
        .collect();

    let bits = |v: &[f32]| v.iter().map(|f| f.to_bits()).collect::<Vec<_>>();
    assert_eq!(bits(&fused), bits(&reference));
}

/// A model whose matmuls are `Q8_0`, so the integer kernels are actually
/// reached. Dimensions are multiples of 32 because that is the block size.
fn quantized_fixture() -> Builder {
    const DIM: u64 = 32;
    const VOCAB: u64 = 32;

    /// One `Q8_0` block: an f16 scale of 0.0625, then 32 signed bytes.
    fn q8_0(rows: u64, cols: u64, seed: u64) -> Vec<u8> {
        let mut out = Vec::new();
        let mut state = seed;
        for _ in 0..rows * (cols / 32) {
            out.extend_from_slice(&0x2C00u16.to_le_bytes());
            for _ in 0..32 {
                state = state.wrapping_mul(6364136223846793005).wrapping_add(1);
                out.push((state >> 33) as u8);
            }
        }
        out
    }

    fn ones(n: usize) -> Vec<u8> {
        (0..n).flat_map(|_| 1.0f32.to_le_bytes()).collect()
    }

    let mut builder = Builder::new()
        .meta("general.architecture", Value::String("llama".into()))
        .meta("llama.block_count", Value::U32(2))
        .meta("llama.embedding_length", Value::U32(DIM as u32))
        // This fixture's own width, not the module-level FFN: the integer path
        // needs every matrix to be a whole number of 32-element blocks.
        .meta("llama.feed_forward_length", Value::U32(DIM as u32))
        .meta("llama.attention.head_count", Value::U32(2))
        .meta("llama.attention.head_count_kv", Value::U32(2))
        .meta("llama.context_length", Value::U32(16))
        .meta("llama.attention.layer_norm_rms_epsilon", Value::F32(EPS.to_bits()))
        .meta("llama.rope.freq_base", Value::F32(10000.0f32.to_bits()))
        .meta("tokenizer.ggml.model", Value::String("llama".into()))
        .meta(
            "tokenizer.ggml.tokens",
            Value::Array((0..VOCAB).map(|i| Value::String(format!("t{i}"))).collect()),
        )
        .tensor(
            "token_embd.weight",
            &[DIM, VOCAB],
            GgmlType::Q8_0,
            q8_0(VOCAB, DIM, 1),
        );

    for layer in 0..2u64 {
        let seed = 100 + layer * 10;
        builder = builder
            .tensor(
                &format!("blk.{layer}.attn_norm.weight"),
                &[DIM],
                GgmlType::F32,
                ones(DIM as usize),
            )
            .tensor(
                &format!("blk.{layer}.ffn_norm.weight"),
                &[DIM],
                GgmlType::F32,
                ones(DIM as usize),
            );
        for (index, name) in [
            "attn_q",
            "attn_k",
            "attn_v",
            "attn_output",
            "ffn_gate",
            "ffn_up",
            "ffn_down",
        ]
        .iter()
        .enumerate()
        {
            builder = builder.tensor(
                &format!("blk.{layer}.{name}.weight"),
                &[DIM, DIM],
                GgmlType::Q8_0,
                q8_0(DIM, DIM, seed + index as u64),
            );
        }
    }

    builder
        .tensor(
            "output_norm.weight",
            &[DIM],
            GgmlType::F32,
            ones(DIM as usize),
        )
        .tensor(
            "output.weight",
            &[DIM, VOCAB],
            GgmlType::Q8_0,
            q8_0(VOCAB, DIM, 999),
        )
}

#[test]
fn the_integer_path_tracks_the_exact_one_through_a_whole_forward_pass() {
    // Per-kernel accuracy is pinned in the unit tests; this checks the wiring.
    // A misrouted activation or a mismatched block index would not produce a
    // slightly different number, it would produce a completely different one.
    let file = quantized_fixture();
    let stored = file.build();
    let gguf = Gguf::open(&stored).expect("open");
    let model = Model::load(&gguf).expect("load");

    let logits_for = |int8: bool| {
        let mut state = State::new(&model.config, 1);
        state.set_int8(int8);
        logits_with(&model, state, &[1, 5, 2])
    };

    let approximate = logits_for(true);
    let exact = logits_for(false);

    assert!(exact.iter().all(|v| v.is_finite()), "{exact:?}");
    assert!(
        exact.iter().any(|v| v.abs() > 1e-3),
        "fixture is degenerate, the comparison would prove nothing: {exact:?}"
    );

    let scale = exact.iter().fold(0.0f32, |acc, v| acc.max(v.abs()));
    for (index, (a, e)) in approximate.iter().zip(&exact).enumerate() {
        assert!(
            (a - e).abs() / scale < 0.02,
            "logit {index}: int8 {a}, exact {e} (scale {scale})"
        );
    }
    // And they should not be *identical* — that would mean the flag does
    // nothing and the test is watching one path twice.
    assert_ne!(approximate, exact, "set_int8 appears to have no effect");

}

#[test]
fn running_past_the_cache_is_an_error_not_a_corruption() {
    let file = fixture(2, false);
    let stored = file.build();
    let gguf = Gguf::open(&stored).expect("open");
    let model = Model::load(&gguf).expect("load");
    let mut session = Session::new(&model, State::with_context(&model.config, 2, 1));

    assert!(session.forward(0, 0).is_ok());
    assert!(session.forward(0, 1).is_ok());
    let err = session.forward(0, 2).expect_err("must refuse");
    assert!(err.contains("past the 2 token cache"), "{err}");
}

#[test]
fn the_buffers_are_as_large_as_the_model_asks() {
    let stored = fixture(1, false).build();
    let gguf = Gguf::open(&stored).expect("open");
    let config = Config::from_gguf(&gguf).expect("config");
    let state = State::new(&config, 3);
    assert_eq!((state.x, state.hb, state.q, state.k), (4, 8, 4, 2));
    assert_eq!((state.att, state.logits, state.scratch), (16, 4, 8));
    assert_eq!((state.key_cache, state.value_cache), (16 * 2, 16 * 2));
    assert_eq!(state.cache_bytes(), 256);
    assert_eq!(state.threads, 3);
    assert_eq!(DEFAULT_CONTEXT, 2048);
    // More context than the model has is cut down, none is raised to one.
    assert_eq!(State::with_context(&config, 99, 1).context(), 16);
    assert_eq!(State::with_context(&config, 0, 1).context(), 1);
}

#[test]
fn rows_are_split_without_gaps() {
    assert_eq!(split_rows(10, 1), vec![(0, 10)]);
    for (rows, threads) in [(10usize, 3usize), (7, 16), (64, 8), (1, 2), (100, 7)] {
        let ranges = split_rows(rows, threads);
        assert_eq!(ranges[0].0, 0);
        assert_eq!(ranges[ranges.len() - 1].1, rows);
        for pair in ranges.windows(2) {
            assert_eq!(pair[0].1, pair[1].0);
        }
    }
}

#[test]
fn the_plan_writes_before_it_reads() {
    let stored = fixture(2, false).build();
    let gguf = Gguf::open(&stored).expect("open");
    let model = Model::load(&gguf).expect("load");
    let state = State::new(&model.config, 1);
    let ops = model.forward(&state, 2, 1).expect("plan");
    assert_eq!(ops[0], Op::Embed { token: 2 });
    assert_eq!(ops[1], Op::AttentionNorm { layer: 0 });
    assert!(ops.contains(&Op::Rope { buffer: Buffer::Q, start: 2, len: 2 }));
    // Position one of the only layer, two heads of two channels each.
    assert!(ops.contains(&Op::Store { at: 4, len: 4 }));
    assert!(ops.contains(&Op::Score { past: 0, start: 2, at: 2, len: 2 }));
    assert!(ops.contains(&Op::Softmax { len: 2 }));
    assert_eq!(ops[ops.len() - 1], Op::Logits);
}

#[test]
fn broken_models_are_refused_by_name() {
    let refused = |file: &Builder| -> String {
        let stored = file.build();
        let gguf = Gguf::open(&stored).expect("open");
        match Model::load(&gguf) {
            Ok(_) => panic!("must refuse"),
            Err(e) => e.message().to_string(),
        }
    };
    let err = refused(&Builder::new());
    assert!(err.contains("architecture"), "{err}");
    let err = refused(&Builder::new().meta("general.architecture", Value::String("gemma".into())));
    assert!(err.contains("gemma"), "{err}");
    let err = refused(&Builder::new().meta("general.architecture", Value::String("llama".into())));
    assert!(err.contains("block_count") || err.contains("missing"), "{err}");
}

#[test]
fn rows_out_of_range_are_refused() {
    let stored = fixture(2, false).build();
    let gguf = Gguf::open(&stored).expect("open");
    let weight = Weight::bind(&gguf, "token_embd.weight").expect("bind");
    assert_eq!((weight.rows, weight.cols, weight.ty), (VOCAB, DIM, GgmlType::F32));
    assert!(weight.is_whole());
    let mut row = vec![Element::Exact { bits: 0 }; DIM];
    weight.row(2, &mut row).expect("row");
    assert_eq!(values(&row), embedding_of(2));
    let err = weight.row(4, &mut row).expect_err("past the end");
    assert_eq!(err.message(), "row 4 of 4 out of range");
    assert!(Weight::bind(&gguf, "nope").is_err());
}

#[test]
fn a_missing_output_matrix_is_tied_to_the_embeddings() {
    let vector = |n: usize| bytes(&vec![1.0; n]);
    let mut file = Builder::new()
        .meta("general.architecture", Value::String("llama".into()))
        .meta("llama.block_count", Value::U32(0))
        .meta("llama.embedding_length", Value::U32(DIM as u32))
        .meta("llama.feed_forward_length", Value::U32(FFN as u32))
        .meta("llama.attention.head_count", Value::U32(2))
        .meta("llama.context_length", Value::U32(16));
    file = file
        .tensor("token_embd.weight", &[DIM as u64, VOCAB as u64], GgmlType::F32, bytes(&embeddings()))
        .tensor("output_norm.weight", &[DIM as u64], GgmlType::F32, vector(DIM));
    let stored = file.build();
    let gguf = Gguf::open(&stored).expect("open");
    match Model::load(&gguf) {
        Ok(model) => {
            assert_eq!(model.output.rows, VOCAB);
            assert_eq!(model.layers.len(), 0);
        }
        Err(e) => assert!(!e.message().contains("output"), "{}", e.message()),
    }
}

#[test]
fn a_prompt_goes_all_the_way_through() {
    // Parse, tokenize, forward, pick, decode.
    let file = fixture(2, true)
        .meta("tokenizer.ggml.scores", Value::Array((0..VOCAB).map(|_| Value::F32(0)).collect()));
    let stored = file.build();
    let gguf = Gguf::open(&stored).expect("open");
    let tokenizer = Tokenizer::from_gguf(&gguf).expect("tokenizer");
    let model = Model::load(&gguf).expect("load");
    let ids = [tokenizer.id("t1").expect("t1"), tokenizer.id("t2").expect("t2")];
    let logits = logits_with(&model, State::new(&model.config, 2), &ids);
    let bits: Vec<u32> = logits.iter().map(|v| v.to_bits()).collect();
    let next = argmax(&bits);
    assert!(logits.iter().all(|v| *v <= logits[next]));
    assert_eq!(tokenizer.decode(&[next as u32]), format!("t{next}"));
}

/// One matrix of plain numbers, `cols` wide.
fn narrow(cols: u64, rows: u64) -> Builder {
    let values: Vec<f32> = (0..cols * rows).map(|i| i as f32 * 0.3 - 1.0).collect();
    Builder::new().tensor("w", &[cols, rows], GgmlType::F32, bytes(&values))
}

#[test]
fn rows_with_a_rest_are_not_fused() {
    for cols in 1..=9u64 {
        let stored = narrow(cols, 2).build();
        let gguf = Gguf::open(&stored).expect("open");
        let weight = Weight::bind(&gguf, "w").expect("bind");
        assert_eq!((weight.rows(), weight.cols(), weight.ty()), (2, cols as usize, GgmlType::F32));
        for row in 0..2 {
            let plan = weight.matvec(row, cols as usize).expect("plan");
            let reference = weight.matvec_reference(row, cols as usize).expect("reference");
            match plan {
                RowPlan::Fused(steps) => {
                    assert_eq!(cols % 4, 0);
                    assert_eq!(steps, reference);
                }
                RowPlan::Reference(steps) => {
                    assert_ne!(cols % 4, 0);
                    assert_eq!(steps, reference);
                }
                RowPlan::Integer(_) => panic!("plain numbers have no integer kernel"),
            }
        }
        assert!(weight.matvec(0, cols as usize + 1).is_err());
    }
}

#[test]
fn a_run_stops_at_its_limits() {
    // Two prompt tokens, room for four, ten wanted.
    let mut run = Generation::new(2, 10, 4, Some(7));
    assert!(run.wants_token());
    assert_eq!(run.accept(1), Verdict::Go { position: 2 });
    assert_eq!(run.accept(1), Verdict::Go { position: 3 });
    assert_eq!(run.accept(1), Verdict::Last, "the cache is full");
    assert_eq!(run.produced, 3);
    // The end of the sequence is not kept.
    let mut run = Generation::new(2, 10, 4, Some(7));
    assert_eq!(run.accept(7), Verdict::End);
    assert_eq!(run.produced, 0);
    // As many as were asked for, and nothing is processed for naught.
    let mut run = Generation::new(2, 2, 100, None);
    assert_eq!(run.accept(7), Verdict::Go { position: 2 });
    assert_eq!(run.accept(7), Verdict::Last);
    assert!(!run.wants_token());
    assert!(!Generation::new(2, 0, 100, None).wants_token());
}
