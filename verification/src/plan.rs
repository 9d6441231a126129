//! One decode step as a list of operations.
//!
//! A transformer with the wrong wiring does not crash, it produces plausible
//! numbers. So the wiring is stated once, as the list [`plan`] gives, and
//! `Model::forward` is proved to produce that list with every range inside its
//! buffer.

use vstd::prelude::*;

use crate::error::{invalid_data, Error, ErrorKind};
use crate::model::{lemma_kv_dim, Config, Model};
use crate::text::{self, decimal};

verus! {

/// Cap on the cache a bare `State::new` asks for.
///
/// The KV cache is layers times context times the key/value width, twice over.
/// A model advertising 128k context would ask for several gigabytes before
/// generating a single token, so the default is a working size and the full
/// window is opt-in through `with_context`.
pub const DEFAULT_CONTEXT: usize = 2048;

/// Everything one sequence needs that is not a weight: how long each buffer is,
/// and how to run.
///
/// Separate from `Model` so the weights stay shareable: two sequences decoding
/// at once want two of these and one of those.
#[derive(Clone, Copy, Debug, PartialEq, Eq, Structural)]
pub struct State {
    pub x: usize,
    pub xb: usize,
    pub xb2: usize,
    pub hb: usize,
    pub hb2: usize,
    pub q: usize,
    pub k: usize,
    pub v: usize,
    pub att: usize,
    /// Scores for the last token processed, one per vocabulary entry.
    pub logits: usize,
    pub scratch: usize,
    pub key_cache: usize,
    pub value_cache: usize,
    pub context: usize,
    /// Workers per matvec.
    pub threads: usize,
    /// Whether matvecs quantize their activations where a kernel allows it.
    pub int8: bool,
}

/// A wish kept inside what the model allows, and at least one.
pub open spec fn allowed_context(config: Config, context: usize) -> usize {
    if context < 1 {
        1
    } else if context > config.context {
        config.context
    } else {
        context
    }
}

/// The context of a bare state.
pub open spec fn default_context(config: Config) -> usize {
    if config.context < DEFAULT_CONTEXT {
        config.context
    } else {
        DEFAULT_CONTEXT
    }
}

/// How many numbers the key cache holds.
pub open spec fn cache_len(config: Config, context: int) -> int {
    config.layers * context * (config.kv_heads * config.head_dim)
}

/// The state for a configuration.
pub open spec fn state_for(config: Config, context: usize, threads: usize, int8: bool) -> State {
    State {
        x: config.embedding,
        xb: config.embedding,
        xb2: config.embedding,
        hb: config.ffn,
        hb2: config.ffn,
        q: config.embedding,
        k: (config.kv_heads * config.head_dim) as usize,
        v: (config.kv_heads * config.head_dim) as usize,
        att: context,
        logits: config.vocab,
        scratch: if config.embedding > config.ffn { config.embedding } else { config.ffn },
        key_cache: cache_len(config, context as int) as usize,
        value_cache: cache_len(config, context as int) as usize,
        context,
        threads,
        int8,
    }
}

impl State {
    /// Whether the buffers are those of a configuration.
    pub open spec fn fits(&self, config: Config) -> bool {
        &&& *self == state_for(config, self.context, self.threads, self.int8)
        &&& cache_len(config, self.context as int) <= usize::MAX
        &&& self.context >= 1
    }

    /// A working state for a model.
    pub fn new(config: &Config, threads: usize) -> (state: Self)
        requires
            config.wf(),
            config.context >= 1,
            cache_len(*config, default_context(*config) as int) <= usize::MAX,
        ensures
            state == state_for(*config, default_context(*config), threads, false),
            state.fits(*config),
    {
        let context: usize = if config.context < DEFAULT_CONTEXT { config.context } else { DEFAULT_CONTEXT };
        Self::with_context(config, context, threads)
    }

    /// A state for sequences of up to `context` tokens, as far as the model
    /// goes.
    pub fn with_context(config: &Config, context: usize, threads: usize) -> (state: Self)
        requires
            config.wf(),
            config.context >= 1,
            cache_len(*config, allowed_context(*config, context) as int) <= usize::MAX,
        ensures
            state == state_for(*config, allowed_context(*config, context), threads, false),
            state.fits(*config),
    {
        let context: usize = if context < 1 {
            1
        } else if context > config.context {
            config.context
        } else {
            context
        };
        let kv_dim: usize = config.kv_dim();
        proof {
            lemma_positive(config.kv_heads as int, config.head_dim as int);
            assert(config.layers * context <= cache_len(*config, context as int)) by (nonlinear_arith)
                requires
                    cache_len(*config, context as int) == config.layers * context * kv_dim,
                    kv_dim >= 1,
                    config.layers >= 0,
                    context >= 1,
            ;
        }
        let kv: usize = config.layers * context * kv_dim;
        State {
            x: config.embedding,
            xb: config.embedding,
            xb2: config.embedding,
            hb: config.ffn,
            hb2: config.ffn,
            q: config.heads * config.head_dim,
            k: kv_dim,
            v: kv_dim,
            att: context,
            logits: config.vocab,
            scratch: if config.embedding > config.ffn { config.embedding } else { config.ffn },
            key_cache: kv,
            value_cache: kv,
            context,
            threads,
            int8: false,
        }
    }

    /// How many tokens fit before `forward` refuses.
    pub fn context(&self) -> (n: usize)
        ensures
            n == self.context,
    {
        self.context
    }

    /// Chooses whether matvecs quantize their activations.
    pub fn set_int8(&mut self, on: bool)
        ensures
            *final(self) == (State { int8: on, ..*old(self) }),
    {
        self.int8 = on;
    }

    /// Bytes held by the KV cache, which dominates everything else here.
    pub fn cache_bytes(&self) -> (n: usize)
        requires
            (self.key_cache + self.value_cache) * 4 <= usize::MAX,
        ensures
            n == (self.key_cache + self.value_cache) * 4,
    {
        (self.key_cache + self.value_cache) * 4
    }
}

proof fn lemma_positive(a: int, b: int)
    requires
        a > 0,
        b > 0,
    ensures
        a * b > 0,
{
    assert(a * b > 0) by (nonlinear_arith)
        requires
            a > 0,
            b > 0,
    ;
}

// ------------------------------------------------------------------ operations

/// A buffer that a matrix is multiplied with or into.
#[derive(Clone, Copy, Debug, PartialEq, Eq, Structural)]
pub enum Buffer {
    Xb,
    Xb2,
    Hb,
    Hb2,
    Q,
    K,
    V,
}

/// A matrix of a layer.
#[derive(Clone, Copy, Debug, PartialEq, Eq, Structural)]
pub enum Matrix {
    Query,
    Key,
    Value,
    Output,
    Gate,
    Up,
    Down,
}

/// One operation of a decode step.
#[derive(Clone, Copy, Debug, PartialEq, Eq, Structural)]
pub enum Op {
    /// `x` becomes the token's row of the embedding table.
    Embed { token: u32 },
    /// `xb` becomes `x` normalized by the layer's attention weights.
    AttentionNorm { layer: usize },
    /// `xb` becomes `x` normalized by the layer's feed-forward weights.
    FeedForwardNorm { layer: usize },
    /// `to` becomes the matrix times `from`.
    MatVec { layer: usize, matrix: Matrix, from: Buffer, to: Buffer },
    /// The head at `start` of `buffer` is rotated by the token's position.
    Rope { buffer: Buffer, start: usize, len: usize },
    /// `k` and `v` go into the caches at `at`.
    Store { at: usize, len: usize },
    /// `att[past]` becomes the scaled dot of the query head at `start` with the
    /// cached key at `at`.
    Score { past: usize, start: usize, at: usize, len: usize },
    /// The first `len` scores become weights.
    Softmax { len: usize },
    /// The head at `start` of `xb` becomes zero.
    Clear { start: usize, len: usize },
    /// The cached value at `at`, times `att[past]`, is added to the head at
    /// `start` of `xb`.
    Mix { past: usize, start: usize, at: usize, len: usize },
    /// `xb2` is added to `x`.
    Residual,
    /// `hb` becomes its squashed self times `hb2`.
    Swiglu,
    /// `xb` becomes `x` normalized by the output weights.
    OutputNorm,
    /// `logits` becomes the output matrix times `xb`.
    Logits,
}

/// The length of a buffer.
pub open spec fn buffer_len(state: State, buffer: Buffer) -> usize {
    match buffer {
        Buffer::Xb => state.xb,
        Buffer::Xb2 => state.xb2,
        Buffer::Hb => state.hb,
        Buffer::Hb2 => state.hb2,
        Buffer::Q => state.q,
        Buffer::K => state.k,
        Buffer::V => state.v,
    }
}

/// Whether every range that an operation names lies inside its buffer.
pub open spec fn inside(op: Op, state: State, layers: int) -> bool {
    match op {
        Op::AttentionNorm { layer } => layer < layers,
        Op::FeedForwardNorm { layer } => layer < layers,
        Op::MatVec { layer, .. } => layer < layers,
        Op::Rope { buffer, start, len } => start + len <= buffer_len(state, buffer),
        Op::Store { at, len } => at + len <= state.key_cache && at + len <= state.value_cache && len == state.k && len
            == state.v,
        Op::Score { past, start, at, len } => past < state.att && start + len <= state.q && at + len <= state.key_cache,
        Op::Softmax { len } => len <= state.att,
        Op::Clear { start, len } => start + len <= state.xb,
        Op::Mix { past, start, at, len } => past < state.att && start + len <= state.xb && at + len
            <= state.value_cache,
        _ => true,
    }
}

/// Where the key and value of a position of a layer stand in the caches.
pub open spec fn slot(config: Config, context: int, layer: int, position: int) -> int {
    (layer * context + position) * (config.kv_heads * config.head_dim)
}

/// Slots of different layers or positions do not overlap, and all lie inside
/// the cache: storing one token leaves every other one as it was.
pub proof fn lemma_slots_disjoint(config: Config, context: int, l1: int, p1: int, l2: int, p2: int)
    requires
        config.wf(),
        0 <= l1 < config.layers,
        0 <= l2 < config.layers,
        0 <= p1 < context,
        0 <= p2 < context,
        l1 != l2 || p1 != p2,
    ensures
        ({
            let kv = config.kv_heads * config.head_dim;
            let a = slot(config, context, l1, p1);
            let b = slot(config, context, l2, p2);
            &&& a + kv <= b || b + kv <= a
            &&& 0 <= a && a + kv <= cache_len(config, context)
            &&& 0 <= b && b + kv <= cache_len(config, context)
        }),
{
    let kv = config.kv_heads * config.head_dim;
    lemma_positive(config.kv_heads as int, config.head_dim as int);
    lemma_slot_inside(config, context, l1, p1);
    lemma_slot_inside(config, context, l2, p2);
    let i = l1 * context + p1;
    let j = l2 * context + p2;
    assert(i != j) by (nonlinear_arith)
        requires
            i == l1 * context + p1,
            j == l2 * context + p2,
            0 <= p1 < context,
            0 <= p2 < context,
            l1 != l2 || p1 != p2,
    ;
    if i < j {
        assert(i * kv + kv <= j * kv) by (nonlinear_arith)
            requires
                i + 1 <= j,
                kv >= 0,
        ;
    } else {
        assert(j * kv + kv <= i * kv) by (nonlinear_arith)
            requires
                j + 1 <= i,
                kv >= 0,
        ;
    }
}

proof fn lemma_slot_inside(config: Config, context: int, layer: int, position: int)
    requires
        config.wf(),
        0 <= layer < config.layers,
        0 <= position < context,
    ensures
        ({
            let kv = config.kv_heads * config.head_dim;
            &&& 0 <= layer * context
            &&& 0 <= slot(config, context, layer, position)
            &&& slot(config, context, layer, position) + kv <= cache_len(config, context)
            &&& kv > 0
            &&& layer * context + position <= slot(config, context, layer, position)
        }),
{
    let kv = config.kv_heads * config.head_dim;
    lemma_positive(config.kv_heads as int, config.head_dim as int);
    let i = layer * context + position;
    assert(0 <= layer * context) by (nonlinear_arith)
        requires
            0 <= layer,
            0 <= context,
    ;
    assert(i + 1 <= config.layers * context) by (nonlinear_arith)
        requires
            i == layer * context + position,
            layer + 1 <= config.layers,
            position < context,
            0 <= context,
    ;
    assert(0 <= i * kv && i * kv + kv <= (config.layers * context) * kv && i <= i * kv) by (nonlinear_arith)
        requires
            0 <= i,
            i + 1 <= config.layers * context,
            kv >= 1,
    ;
}

// ------------------------------------------------------------------------ plan

/// Where a head of a cached key or value stands.
pub open spec fn head_at(config: Config, context: int, layer: int, past: int, head: int) -> int {
    slot(config, context, layer, past) + (head / (config.heads as int / config.kv_heads as int)) * config.head_dim
}

/// The scores of a head against the first `n` positions.
pub open spec fn score_ops(config: Config, context: int, layer: int, head: int, n: nat) -> Seq<Op> {
    Seq::new(
        n,
        |past: int|
            Op::Score {
                past: past as usize,
                start: (head * config.head_dim) as usize,
                at: head_at(config, context, layer, past, head) as usize,
                len: config.head_dim,
            },
    )
}

/// The mixing of the first `n` values into a head.
pub open spec fn mix_ops(config: Config, context: int, layer: int, head: int, n: nat) -> Seq<Op> {
    Seq::new(
        n,
        |past: int|
            Op::Mix {
                past: past as usize,
                start: (head * config.head_dim) as usize,
                at: head_at(config, context, layer, past, head) as usize,
                len: config.head_dim,
            },
    )
}

/// The attention of one head: score everything up to the position, turn scores
/// into weights, average the values.
pub open spec fn head_ops(config: Config, context: int, layer: int, position: int, head: int) -> Seq<Op> {
    let n = (position + 1) as nat;
    score_ops(config, context, layer, head, n) + seq![
        Op::Softmax { len: n as usize },
        Op::Clear { start: (head * config.head_dim) as usize, len: config.head_dim },
    ] + mix_ops(config, context, layer, head, n)
}

/// The attention of the first `n` heads.
pub open spec fn heads_ops(config: Config, context: int, layer: int, position: int, n: nat) -> Seq<Op>
    decreases n,
{
    if n == 0 {
        Seq::empty()
    } else {
        heads_ops(config, context, layer, position, (n - 1) as nat) + head_ops(config, context, layer, position, n - 1)
    }
}

/// The rotation of the first `n` heads of a buffer.
pub open spec fn rope_ops(config: Config, buffer: Buffer, n: nat) -> Seq<Op> {
    Seq::new(n, |h: int| Op::Rope { buffer, start: (h * config.head_dim) as usize, len: config.head_dim })
}

/// One layer: attention, then feed-forward, each added to the residual stream.
/// Position is baked into the query and key, never into the value.
pub open spec fn layer_ops(config: Config, context: int, position: int, layer: int) -> Seq<Op> {
    let l = layer as usize;
    seq![
        Op::AttentionNorm { layer: l },
        Op::MatVec { layer: l, matrix: Matrix::Query, from: Buffer::Xb, to: Buffer::Q },
        Op::MatVec { layer: l, matrix: Matrix::Key, from: Buffer::Xb, to: Buffer::K },
        Op::MatVec { layer: l, matrix: Matrix::Value, from: Buffer::Xb, to: Buffer::V },
    ] + rope_ops(config, Buffer::Q, config.heads as nat) + rope_ops(config, Buffer::K, config.kv_heads as nat) + seq![
        Op::Store {
            at: slot(config, context, layer, position) as usize,
            len: (config.kv_heads * config.head_dim) as usize,
        },
    ] + heads_ops(config, context, layer, position, config.heads as nat) + seq![
        Op::MatVec { layer: l, matrix: Matrix::Output, from: Buffer::Xb, to: Buffer::Xb2 },
        Op::Residual,
        Op::FeedForwardNorm { layer: l },
        Op::MatVec { layer: l, matrix: Matrix::Gate, from: Buffer::Xb, to: Buffer::Hb },
        Op::MatVec { layer: l, matrix: Matrix::Up, from: Buffer::Xb, to: Buffer::Hb2 },
        Op::Swiglu,
        Op::MatVec { layer: l, matrix: Matrix::Down, from: Buffer::Hb, to: Buffer::Xb2 },
        Op::Residual,
    ]
}

/// The first `n` layers.
pub open spec fn layers_ops(config: Config, context: int, position: int, n: nat) -> Seq<Op>
    decreases n,
{
    if n == 0 {
        Seq::empty()
    } else {
        layers_ops(config, context, position, (n - 1) as nat) + layer_ops(config, context, position, n - 1)
    }
}

/// One decode step: token in, logits out, KV cache extended by one.
pub open spec fn plan(config: Config, context: int, token: u32, position: int) -> Seq<Op> {
    seq![Op::Embed { token }] + layers_ops(config, context, position, config.layers as nat) + seq![
        Op::OutputNorm,
        Op::Logits,
    ]
}

/// Whether every operation of a list stays inside the buffers.
pub open spec fn all_inside(ops: Seq<Op>, state: State, layers: int) -> bool {
    forall|i: int| 0 <= i < ops.len() ==> inside(#[trigger] ops[i], state, layers)
}

// ------------------------------------------------------------------------ exec

fn push(out: &mut Vec<Op>, op: Op, Ghost(state): Ghost<State>, Ghost(layers): Ghost<int>)
    requires
        all_inside(old(out)@, state, layers),
        inside(op, state, layers),
    ensures
        final(out)@ == old(out)@.push(op),
        all_inside(final(out)@, state, layers),
{
    out.push(op);
}

fn push_ropes(out: &mut Vec<Op>, config: &Config, buffer: Buffer, n: usize, state: &State)
    requires
        config.wf(),
        state.fits(*config),
        all_inside(old(out)@, *state, config.layers as int),
        n * config.head_dim <= buffer_len(*state, buffer),
    ensures
        final(out)@ == old(out)@ + rope_ops(*config, buffer, n as nat),
        all_inside(final(out)@, *state, config.layers as int),
{
    let mut h: usize = 0;
    proof {
        assert(out@ =~= old(out)@ + rope_ops(*config, buffer, 0));
    }
    while h < n
        invariant
            config.wf(),
            state.fits(*config),
            n * config.head_dim <= buffer_len(*state, buffer),
            h <= n,
            out@ == old(out)@ + rope_ops(*config, buffer, h as nat),
            all_inside(out@, *state, config.layers as int),
        decreases n - h,
    {
        proof {
            assert(0 <= h * config.head_dim && h * config.head_dim + config.head_dim <= n * config.head_dim)
                by (nonlinear_arith)
                requires
                    h + 1 <= n,
                    h >= 0,
                    config.head_dim >= 0,
            ;
        }
        let op = Op::Rope { buffer, start: h * config.head_dim, len: config.head_dim };
        push(out, op, Ghost(*state), Ghost(config.layers as int));
        proof {
            assert(out@ =~= old(out)@ + rope_ops(*config, buffer, (h + 1) as nat));
        }
        h += 1;
    }
}

/// Where the ranges of one head stand.
proof fn lemma_head_inside(config: Config, state: State, layer: int, past: int, head: int)
    requires
        config.wf(),
        state.fits(config),
        0 <= layer < config.layers,
        0 <= past < state.context,
        0 <= head < config.heads,
    ensures
        ({
            let group = config.heads as int / config.kv_heads as int;
            let at = head_at(config, state.context as int, layer, past, head);
            &&& group > 0
            &&& 0 <= head * config.head_dim
            &&& head * config.head_dim + config.head_dim <= state.q
            &&& 0 <= (head / group) * config.head_dim
            &&& 0 <= at
            &&& at + config.head_dim <= state.key_cache
            &&& slot(config, state.context as int, layer, past) + config.kv_heads * config.head_dim <= state.key_cache
        }),
{
    let group = config.heads as int / config.kv_heads as int;
    let kv = config.kv_heads * config.head_dim;
    lemma_kv_dim(config.heads as int, config.kv_heads as int, config.head_dim as int);
    lemma_slot_inside(config, state.context as int, layer, past);
    let share = head / group;
    assert(0 <= share < config.kv_heads);
    assert(0 <= head * config.head_dim && head * config.head_dim + config.head_dim <= config.heads * config.head_dim)
        by (nonlinear_arith)
        requires
            0 <= head,
            head + 1 <= config.heads,
            config.head_dim >= 0,
    ;
    assert(0 <= share * config.head_dim && share * config.head_dim + config.head_dim <= kv) by (nonlinear_arith)
        requires
            0 <= share,
            share + 1 <= config.kv_heads,
            config.head_dim >= 0,
            kv == config.kv_heads * config.head_dim,
    ;
}

fn push_head(out: &mut Vec<Op>, config: &Config, state: &State, layer: usize, position: usize, head: usize)
    requires
        config.wf(),
        state.fits(*config),
        layer < config.layers,
        position < state.context,
        head < config.heads,
        all_inside(old(out)@, *state, config.layers as int),
    ensures
        final(out)@ == old(out)@ + head_ops(*config, state.context as int, layer as int, position as int, head as int),
        all_inside(final(out)@, *state, config.layers as int),
{
    let ghost layers = config.layers as int;
    let ghost ctx = state.context as int;
    let ghost n = (position + 1) as nat;
    let kv_dim: usize = config.kv_dim();
    let group: usize = config.group();
    proof {
        lemma_head_inside(*config, *state, layer as int, position as int, head as int);
    }
    let start: usize = head * config.head_dim;
    // Grouped-query attention: several query heads share one KV head.
    let share: usize = head / group;
    let mut past: usize = 0;
    proof {
        assert(out@ =~= old(out)@ + score_ops(*config, ctx, layer as int, head as int, 0));
    }
    while past <= position
        invariant
            config.wf(),
            state.fits(*config),
            layers == config.layers,
            ctx == state.context,
            layer < config.layers,
            position < state.context,
            head < config.heads,
            kv_dim == config.kv_heads * config.head_dim,
            group == config.heads / config.kv_heads,
            start == head * config.head_dim,
            share == head / group,
            past <= position + 1,
            out@ == old(out)@ + score_ops(*config, ctx, layer as int, head as int, past as nat),
            all_inside(out@, *state, layers),
        decreases position + 1 - past,
    {
        proof {
            lemma_head_inside(*config, *state, layer as int, past as int, head as int);
            lemma_slot_inside(*config, ctx, layer as int, past as int);
        }
        let at: usize = (layer * state.context + past) * kv_dim + share * config.head_dim;
        push(out, Op::Score { past, start, at, len: config.head_dim }, Ghost(*state), Ghost(layers));
        proof {
            assert(out@ =~= old(out)@ + score_ops(*config, ctx, layer as int, head as int, (past + 1) as nat));
        }
        past += 1;
    }
    push(out, Op::Softmax { len: past }, Ghost(*state), Ghost(layers));
    push(out, Op::Clear { start, len: config.head_dim }, Ghost(*state), Ghost(layers));
    let ghost middle = out@;
    let mut past: usize = 0;
    proof {
        assert(out@ =~= middle + mix_ops(*config, ctx, layer as int, head as int, 0));
    }
    while past <= position
        invariant
            config.wf(),
            state.fits(*config),
            layers == config.layers,
            ctx == state.context,
            layer < config.layers,
            position < state.context,
            head < config.heads,
            kv_dim == config.kv_heads * config.head_dim,
            group == config.heads / config.kv_heads,
            start == head * config.head_dim,
            share == head / group,
            past <= position + 1,
            out@ == middle + mix_ops(*config, ctx, layer as int, head as int, past as nat),
            all_inside(out@, *state, layers),
        decreases position + 1 - past,
    {
        proof {
            lemma_head_inside(*config, *state, layer as int, past as int, head as int);
            lemma_slot_inside(*config, ctx, layer as int, past as int);
        }
        let at: usize = (layer * state.context + past) * kv_dim + share * config.head_dim;
        push(out, Op::Mix { past, start, at, len: config.head_dim }, Ghost(*state), Ghost(layers));
        proof {
            assert(out@ =~= middle + mix_ops(*config, ctx, layer as int, head as int, (past + 1) as nat));
        }
        past += 1;
    }
    proof {
        assert(out@ =~= old(out)@ + head_ops(*config, ctx, layer as int, position as int, head as int));
    }
}

fn push_heads(out: &mut Vec<Op>, config: &Config, state: &State, layer: usize, position: usize)
    requires
        config.wf(),
        state.fits(*config),
        layer < config.layers,
        position < state.context,
        all_inside(old(out)@, *state, config.layers as int),
    ensures
        final(out)@ == old(out)@ + heads_ops(
            *config,
            state.context as int,
            layer as int,
            position as int,
            config.heads as nat,
        ),
        all_inside(final(out)@, *state, config.layers as int),
{
    let ghost ctx = state.context as int;
    let mut head: usize = 0;
    proof {
        assert(out@ =~= old(out)@ + heads_ops(*config, ctx, layer as int, position as int, 0));
    }
    while head < config.heads
        invariant
            config.wf(),
            state.fits(*config),
            ctx == state.context,
            layer < config.layers,
            position < state.context,
            head <= config.heads,
            out@ == old(out)@ + heads_ops(*config, ctx, layer as int, position as int, head as nat),
            all_inside(out@, *state, config.layers as int),
        decreases config.heads - head,
    {
        let ghost before = out@;
        push_head(out, config, state, layer, position, head);
        proof {
            let done = heads_ops(*config, ctx, layer as int, position as int, head as nat);
            let next = head_ops(*config, ctx, layer as int, position as int, head as int);
            assert(old(out)@ + done + next =~= old(out)@ + (done + next));
        }
        head += 1;
    }
}

fn push_layer(out: &mut Vec<Op>, config: &Config, state: &State, layer: usize, position: usize)
    requires
        config.wf(),
        state.fits(*config),
        layer < config.layers,
        position < state.context,
        all_inside(old(out)@, *state, config.layers as int),
    ensures
        final(out)@ == old(out)@ + layer_ops(*config, state.context as int, position as int, layer as int),
        all_inside(final(out)@, *state, config.layers as int),
{
    let ghost s = *state;
    let ghost layers = config.layers as int;
    let ghost ctx = state.context as int;
    let kv_dim: usize = config.kv_dim();
    proof {
        lemma_slot_inside(*config, ctx, layer as int, position as int);
        lemma_kv_dim(config.heads as int, config.kv_heads as int, config.head_dim as int);
    }
    push(out, Op::AttentionNorm { layer }, Ghost(s), Ghost(layers));
    push(out, Op::MatVec { layer, matrix: Matrix::Query, from: Buffer::Xb, to: Buffer::Q }, Ghost(s), Ghost(layers));
    push(out, Op::MatVec { layer, matrix: Matrix::Key, from: Buffer::Xb, to: Buffer::K }, Ghost(s), Ghost(layers));
    push(out, Op::MatVec { layer, matrix: Matrix::Value, from: Buffer::Xb, to: Buffer::V }, Ghost(s), Ghost(layers));
    push_ropes(out, config, Buffer::Q, config.heads, state);
    push_ropes(out, config, Buffer::K, config.kv_heads, state);
    let at: usize = (layer * state.context + position) * kv_dim;
    push(out, Op::Store { at, len: kv_dim }, Ghost(s), Ghost(layers));
    push_heads(out, config, state, layer, position);
    push(out, Op::MatVec { layer, matrix: Matrix::Output, from: Buffer::Xb, to: Buffer::Xb2 }, Ghost(s), Ghost(layers));
    push(out, Op::Residual, Ghost(s), Ghost(layers));
    push(out, Op::FeedForwardNorm { layer }, Ghost(s), Ghost(layers));
    push(out, Op::MatVec { layer, matrix: Matrix::Gate, from: Buffer::Xb, to: Buffer::Hb }, Ghost(s), Ghost(layers));
    push(out, Op::MatVec { layer, matrix: Matrix::Up, from: Buffer::Xb, to: Buffer::Hb2 }, Ghost(s), Ghost(layers));
    push(out, Op::Swiglu, Ghost(s), Ghost(layers));
    push(out, Op::MatVec { layer, matrix: Matrix::Down, from: Buffer::Hb, to: Buffer::Xb2 }, Ghost(s), Ghost(layers));
    push(out, Op::Residual, Ghost(s), Ghost(layers));
    proof {
        assert(out@ =~= old(out)@ + layer_ops(*config, ctx, position as int, layer as int));
    }
}

/// The operations of one decode step.
///
/// `position` is where the token sits in the sequence; it drives the rotation
/// and decides how far back attention looks. A position past the cache is
/// refused.
pub fn step(config: &Config, state: &State, token: u32, position: usize) -> (got: Result<Vec<Op>, Error>)
    requires
        config.wf(),
        state.fits(*config),
    ensures
        match got {
            Ok(ops) => position < state.context && ops@ == plan(*config, state.context as int, token, position as int)
                && all_inside(ops@, *state, config.layers as int),
            Err(e) => position >= state.context && e@ == invalid_data(
                "position "@ + decimal(position as nat) + " is past the "@ + decimal(state.context as nat)
                    + " token cache"@,
            ),
        },
{
    if position >= state.context {
        let mut message = "position ".to_owned();
        message.append(text::to_decimal(position as u64).as_str());
        message.append(" is past the ");
        message.append(text::to_decimal(state.context as u64).as_str());
        message.append(" token cache");
        return Err(Error::new(ErrorKind::InvalidData, message));
    }
    let ghost ctx = state.context as int;
    let mut ops: Vec<Op> = Vec::new();
    push(&mut ops, Op::Embed { token }, Ghost(*state), Ghost(config.layers as int));
    let ghost start = ops@;
    let mut layer: usize = 0;
    proof {
        assert(ops@ =~= start + layers_ops(*config, ctx, position as int, 0));
    }
    while layer < config.layers
        invariant
            config.wf(),
            state.fits(*config),
            ctx == state.context,
            position < state.context,
            layer <= config.layers,
            ops@ == start + layers_ops(*config, ctx, position as int, layer as nat),
            all_inside(ops@, *state, config.layers as int),
        decreases config.layers - layer,
    {
        push_layer(&mut ops, config, state, layer, position);
        proof {
            let done = layers_ops(*config, ctx, position as int, layer as nat);
            let next = layer_ops(*config, ctx, position as int, layer as int);
            assert(start + done + next =~= start + (done + next));
        }
        layer += 1;
    }
    push(&mut ops, Op::OutputNorm, Ghost(*state), Ghost(config.layers as int));
    push(&mut ops, Op::Logits, Ghost(*state), Ghost(config.layers as int));
    proof {
        assert(ops@ =~= plan(*config, ctx, token, position as int));
    }
    Ok(ops)
}

impl<'a> Model<'a> {
    /// One decode step: token in, logits out, KV cache extended by one. Gives
    /// the operations to carry out, in order.
    pub fn forward(&self, state: &State, token: u32, position: usize) -> (got: Result<Vec<Op>, Error>)
        requires
            self.config.wf(),
            state.fits(self.config),
        ensures
            match got {
                Ok(ops) => position < state.context && ops@ == plan(
                    self.config,
                    state.context as int,
                    token,
                    position as int,
                ) && all_inside(ops@, *state, self.config.layers as int),
                Err(e) => position >= state.context && e@ == invalid_data(
                    "position "@ + decimal(position as nat) + " is past the "@ + decimal(state.context as nat)
                        + " token cache"@,
                ),
            },
    {
        step(&self.config, state, token, position)
    }
}

} // verus!
