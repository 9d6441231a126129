//! What a decode step computes.
//!
//! A plan is a list of operations on buffers. Here the operations get a meaning,
//! any meaning: what it is to multiply, to normalize, to rotate and so on is left
//! open. Running a plan under it gives the equations of the transformer.

use vstd::prelude::*;

use crate::model::Config;
use crate::plan::{
    allowed_context, cache_len, default_context, head_at, head_ops, heads_ops, layer_ops, layers_ops, mix_ops, plan,
    rope_ops, score_ops, slot, state_for, Buffer, Matrix, Op,
};

verus! {

/// The contents of the buffers of a decode step.
pub ghost struct Buffers<T> {
    pub x: T,
    pub xb: T,
    pub xb2: T,
    pub hb: T,
    pub hb2: T,
    pub q: T,
    pub k: T,
    pub v: T,
    pub att: T,
    pub keys: T,
    pub values: T,
    pub logits: T,
}

/// What the operations mean.
#[verifier::reject_recursive_types(T)]
pub ghost struct Meaning<T> {
    /// The row of the embedding table for a token.
    pub embed: spec_fn(u32) -> T,
    /// A vector normalized by the weights of a layer's attention.
    pub attention_norm: spec_fn(int, T) -> T,
    /// A vector normalized by the weights of a layer's feed-forward part.
    pub feed_forward_norm: spec_fn(int, T) -> T,
    /// A vector normalized by the output weights.
    pub output_norm: spec_fn(T) -> T,
    /// A matrix of a layer times a vector.
    pub times: spec_fn(int, Matrix, T) -> T,
    /// The output matrix times a vector.
    pub project: spec_fn(T) -> T,
    /// A vector with the part at a place rotated.
    pub rotate: spec_fn(T, int, int) -> T,
    /// A cache with a vector at a place.
    pub store: spec_fn(T, int, T) -> T,
    /// Scores with the one for a position set: a query part against a cached key.
    pub score: spec_fn(T, int, T, int, T, int, int) -> T,
    /// So many scores as weights.
    pub soften: spec_fn(T, int) -> T,
    /// A vector with the part at a place zero.
    pub clear: spec_fn(T, int, int) -> T,
    /// A vector with a cached value added to the part at a place, times the weight
    /// of a position.
    pub mix: spec_fn(T, int, T, int, T, int, int) -> T,
    /// The sum of two vectors.
    pub plus: spec_fn(T, T) -> T,
    /// A squashed vector times another.
    pub gated: spec_fn(T, T) -> T,
}

/// What is in a buffer.
pub open spec fn content<T>(s: Buffers<T>, buffer: Buffer) -> T {
    match buffer {
        Buffer::Xb => s.xb,
        Buffer::Xb2 => s.xb2,
        Buffer::Hb => s.hb,
        Buffer::Hb2 => s.hb2,
        Buffer::Q => s.q,
        Buffer::K => s.k,
        Buffer::V => s.v,
    }
}

/// The buffers with a new content of one.
pub open spec fn with_content<T>(s: Buffers<T>, buffer: Buffer, content: T) -> Buffers<T> {
    match buffer {
        Buffer::Xb => Buffers { xb: content, ..s },
        Buffer::Xb2 => Buffers { xb2: content, ..s },
        Buffer::Hb => Buffers { hb: content, ..s },
        Buffer::Hb2 => Buffers { hb2: content, ..s },
        Buffer::Q => Buffers { q: content, ..s },
        Buffer::K => Buffers { k: content, ..s },
        Buffer::V => Buffers { v: content, ..s },
    }
}

/// What an operation does to the buffers.
pub open spec fn done<T>(m: Meaning<T>, op: Op, s: Buffers<T>) -> Buffers<T> {
    match op {
        Op::Embed { token } => Buffers { x: (m.embed)(token), ..s },
        Op::AttentionNorm { layer } => Buffers { xb: (m.attention_norm)(layer as int, s.x), ..s },
        Op::FeedForwardNorm { layer } => Buffers { xb: (m.feed_forward_norm)(layer as int, s.x), ..s },
        Op::MatVec { layer, matrix, from, to } => with_content(s, to, (m.times)(layer as int, matrix, content(s, from))),
        Op::Rope { buffer, start, len } => with_content(
            s,
            buffer,
            (m.rotate)(content(s, buffer), start as int, len as int),
        ),
        Op::Store { at, .. } => Buffers {
            keys: (m.store)(s.keys, at as int, s.k),
            values: (m.store)(s.values, at as int, s.v),
            ..s
        },
        Op::Score { past, start, at, len } => Buffers {
            att: (m.score)(s.att, past as int, s.q, start as int, s.keys, at as int, len as int),
            ..s
        },
        Op::Softmax { len } => Buffers { att: (m.soften)(s.att, len as int), ..s },
        Op::Clear { start, len } => Buffers { xb: (m.clear)(s.xb, start as int, len as int), ..s },
        Op::Mix { past, start, at, len } => Buffers {
            xb: (m.mix)(s.xb, start as int, s.att, past as int, s.values, at as int, len as int),
            ..s
        },
        Op::Residual => Buffers { x: (m.plus)(s.x, s.xb2), ..s },
        Op::Swiglu => Buffers { hb: (m.gated)(s.hb, s.hb2), ..s },
        Op::OutputNorm => Buffers { xb: (m.output_norm)(s.x), ..s },
        Op::Logits => Buffers { logits: (m.project)(s.xb), ..s },
    }
}

/// What a list of operations does, one after the other.
pub open spec fn run<T>(m: Meaning<T>, ops: Seq<Op>, s: Buffers<T>) -> Buffers<T>
    decreases ops.len(),
{
    if ops.len() == 0 {
        s
    } else {
        done(m, ops.last(), run(m, ops.drop_last(), s))
    }
}

proof fn lemma_run_add<T>(m: Meaning<T>, a: Seq<Op>, b: Seq<Op>, s: Buffers<T>)
    ensures
        run(m, a + b, s) == run(m, b, run(m, a, s)),
    decreases b.len(),
{
    if b.len() == 0 {
        assert(a + b =~= a);
    } else {
        assert((a + b).drop_last() =~= a + b.drop_last());
        lemma_run_add(m, a, b.drop_last(), s);
    }
}

proof fn lemma_run_push<T>(m: Meaning<T>, a: Seq<Op>, op: Op, s: Buffers<T>)
    ensures
        run(m, a.push(op), s) == done(m, op, run(m, a, s)),
{
    assert(a.push(op).drop_last() =~= a);
}

// ------------------------------------------------------------------- equations

/// The key/value head that a head reads: the heads share them evenly, in order.
pub open spec fn shared_head(config: Config, head: int) -> int {
    (head * config.kv_heads) / config.heads as int
}

/// Where the key and the value of a shared head stand that were stored for a
/// position of a layer: layer by layer, position by position, head by head.
pub open spec fn stored_at(config: Config, context: int, layer: int, position: int, shared: int) -> int {
    ((layer * context + position) * config.kv_heads + shared) * config.head_dim
}

/// A vector with its first `n` heads rotated.
pub open spec fn rotated<T>(m: Meaning<T>, config: Config, vector: T, n: nat) -> T
    decreases n,
{
    if n == 0 {
        vector
    } else {
        (m.rotate)(
            rotated(m, config, vector, (n - 1) as nat),
            (n - 1) * config.head_dim,
            config.head_dim as int,
        )
    }
}

/// The scores of a head against the first `n` positions.
pub open spec fn scored<T>(m: Meaning<T>, config: Config, context: int, layer: int, head: int, s: Buffers<T>, n: nat) -> T
    decreases n,
{
    if n == 0 {
        s.att
    } else {
        (m.score)(
            scored(m, config, context, layer, head, s, (n - 1) as nat),
            n - 1,
            s.q,
            head * config.head_dim,
            s.keys,
            stored_at(config, context, layer, n - 1, shared_head(config, head)),
            config.head_dim as int,
        )
    }
}

/// A head with the values of the first `n` positions mixed in.
pub open spec fn mixed<T>(
    m: Meaning<T>,
    config: Config,
    context: int,
    layer: int,
    head: int,
    s: Buffers<T>,
    n: nat,
) -> T
    decreases n,
{
    if n == 0 {
        s.xb
    } else {
        (m.mix)(
            mixed(m, config, context, layer, head, s, (n - 1) as nat),
            head * config.head_dim,
            s.att,
            n - 1,
            s.values,
            stored_at(config, context, layer, n - 1, shared_head(config, head)),
            config.head_dim as int,
        )
    }
}

/// The buffers after a head has looked at every position up to its own: scores,
/// then weights, then an average of the values.
pub open spec fn looked<T>(
    m: Meaning<T>,
    config: Config,
    context: int,
    layer: int,
    position: int,
    head: int,
    s: Buffers<T>,
) -> Buffers<T> {
    let n = (position + 1) as nat;
    let weights = (m.soften)(scored(m, config, context, layer, head, s, n), n as int);
    let cleared = Buffers { att: weights, xb: (m.clear)(s.xb, head * config.head_dim, config.head_dim as int), ..s };
    Buffers { xb: mixed(m, config, context, layer, head, cleared, n), ..cleared }
}

/// The buffers after the first `n` heads.
pub open spec fn attended<T>(
    m: Meaning<T>,
    config: Config,
    context: int,
    layer: int,
    position: int,
    s: Buffers<T>,
    n: nat,
) -> Buffers<T>
    decreases n,
{
    if n == 0 {
        s
    } else {
        looked(m, config, context, layer, position, n - 1, attended(m, config, context, layer, position, s, (n - 1) as nat))
    }
}

/// The buffers in front of a layer's attention: query, key and value of the
/// normalized stream, the first two rotated, and the last two stored for the
/// position.
pub open spec fn asked<T>(m: Meaning<T>, config: Config, context: int, layer: int, position: int, s: Buffers<T>) -> Buffers<
    T,
> {
    let h = (m.attention_norm)(layer, s.x);
    let q = rotated(m, config, (m.times)(layer, Matrix::Query, h), config.heads as nat);
    let k = rotated(m, config, (m.times)(layer, Matrix::Key, h), config.kv_heads as nat);
    let v = (m.times)(layer, Matrix::Value, h);
    let at = stored_at(config, context, layer, position, 0);
    Buffers { xb: h, q, k, v, keys: (m.store)(s.keys, at, k), values: (m.store)(s.values, at, v), ..s }
}

/// The stream behind a layer: attention is added to it, then the gated
/// feed-forward part of the sum.
pub open spec fn stream_behind<T>(
    m: Meaning<T>,
    config: Config,
    context: int,
    layer: int,
    position: int,
    s: Buffers<T>,
) -> T {
    let ready = asked(m, config, context, layer, position, s);
    let heads = attended(m, config, context, layer, position, ready, config.heads as nat);
    let x1 = (m.plus)(s.x, (m.times)(layer, Matrix::Output, heads.xb));
    let h = (m.feed_forward_norm)(layer, x1);
    let inner = (m.gated)((m.times)(layer, Matrix::Gate, h), (m.times)(layer, Matrix::Up, h));
    (m.plus)(x1, (m.times)(layer, Matrix::Down, inner))
}

// ------------------------------------------------------------------------ laws

/// Whether every place that the plan of a step names is a number that the
/// machine can hold.
pub open spec fn places_fit(config: Config, context: int) -> bool {
    &&& config.wf()
    &&& 0 < context <= usize::MAX
    &&& cache_len(config, context) <= usize::MAX
}

proof fn lemma_head_place(config: Config, context: int, layer: int, past: int, head: int)
    requires
        places_fit(config, context),
        0 <= layer < config.layers,
        0 <= past < context,
        0 <= head < config.heads,
    ensures
        head_at(config, context, layer, past, head) == stored_at(
            config,
            context,
            layer,
            past,
            shared_head(config, head),
        ),
        0 <= shared_head(config, head) < config.kv_heads,
        0 <= head_at(config, context, layer, past, head) <= usize::MAX,
        0 <= head * config.head_dim <= usize::MAX,
        slot(config, context, layer, past) == stored_at(config, context, layer, past, 0),
        0 <= slot(config, context, layer, past) <= usize::MAX,
{
    let (h, kv, d) = (config.heads as int, config.kv_heads as int, config.head_dim as int);
    let group = h / kv;
    vstd::arithmetic::div_mod::lemma_fundamental_div_mod(h, kv);
    assert(h == kv * group);
    assert(group > 0) by (nonlinear_arith)
        requires
            h == kv * group,
            h > 0,
            kv > 0,
    ;
    let g = head / group;
    vstd::arithmetic::div_mod::lemma_fundamental_div_mod(head, group);
    vstd::arithmetic::div_mod::lemma_mod_bound(head, group);
    let r = head % group;
    assert(head * kv == g * h + r * kv) by (nonlinear_arith)
        requires
            head == group * g + r,
            h == kv * group,
    ;
    assert(0 <= r * kv < h) by (nonlinear_arith)
        requires
            0 <= r < group,
            h == kv * group,
            kv > 0,
    ;
    vstd::arithmetic::div_mod::lemma_fundamental_div_mod_converse(head * kv, h, g, r * kv);
    assert(shared_head(config, head) == g);
    assert(0 <= g < kv) by (nonlinear_arith)
        requires
            head == group * g + r,
            0 <= r < group,
            0 <= head < h,
            h == kv * group,
            group > 0,
    ;
    let i = layer * context + past;
    assert((i * kv + g) * d == i * (kv * d) + g * d) by (nonlinear_arith);
    assert((i * kv + 0) * d == i * (kv * d)) by (nonlinear_arith);
    let w = kv * d;
    assert(0 <= i && i + 1 <= config.layers * context) by (nonlinear_arith)
        requires
            i == layer * context + past,
            0 <= past < context,
            0 <= layer < config.layers,
    ;
    assert(w > 0) by (nonlinear_arith)
        requires
            w == kv * d,
            kv > 0,
            d > 0,
    ;
    assert(0 <= i * w && i * w + w <= config.layers * context * w) by (nonlinear_arith)
        requires
            0 <= i,
            i + 1 <= config.layers * context,
            w > 0,
    ;
    assert(0 <= g * d && g * d + d <= w) by (nonlinear_arith)
        requires
            0 <= g < kv,
            w == kv * d,
            d > 0,
    ;
    assert(0 <= head * d <= h * d) by (nonlinear_arith)
        requires
            0 <= head < h,
            d > 0,
    ;
}

proof fn lemma_rotations<T>(m: Meaning<T>, config: Config, buffer: Buffer, s: Buffers<T>, n: nat)
    requires
        config.wf(),
        n <= config.heads,
    ensures
        run(m, rope_ops(config, buffer, n), s) == with_content(s, buffer, rotated(m, config, content(s, buffer), n)),
    decreases n,
{
    let ops = rope_ops(config, buffer, n);
    if n > 0 {
        let front = rope_ops(config, buffer, (n - 1) as nat);
        assert(ops.drop_last() =~= front);
        lemma_rotations(m, config, buffer, s, (n - 1) as nat);
        assert(0 <= (n - 1) * config.head_dim <= config.heads * config.head_dim) by (nonlinear_arith)
            requires
                0 < n <= config.heads,
                config.head_dim > 0,
        ;
    }
}

proof fn lemma_scores<T>(m: Meaning<T>, config: Config, context: int, layer: int, head: int, s: Buffers<T>, n: nat)
    requires
        places_fit(config, context),
        0 <= layer < config.layers,
        n <= context,
        0 <= head < config.heads,
    ensures
        run(m, score_ops(config, context, layer, head, n), s) == (Buffers {
            att: scored(m, config, context, layer, head, s, n),
            ..s
        }),
    decreases n,
{
    let ops = score_ops(config, context, layer, head, n);
    if n > 0 {
        assert(ops.drop_last() =~= score_ops(config, context, layer, head, (n - 1) as nat));
        lemma_scores(m, config, context, layer, head, s, (n - 1) as nat);
        lemma_head_place(config, context, layer, n - 1, head);
    }
}

proof fn lemma_mixes<T>(m: Meaning<T>, config: Config, context: int, layer: int, head: int, s: Buffers<T>, n: nat)
    requires
        places_fit(config, context),
        0 <= layer < config.layers,
        n <= context,
        0 <= head < config.heads,
    ensures
        run(m, mix_ops(config, context, layer, head, n), s) == (Buffers {
            xb: mixed(m, config, context, layer, head, s, n),
            ..s
        }),
    decreases n,
{
    let ops = mix_ops(config, context, layer, head, n);
    if n > 0 {
        assert(ops.drop_last() =~= mix_ops(config, context, layer, head, (n - 1) as nat));
        lemma_mixes(m, config, context, layer, head, s, (n - 1) as nat);
        lemma_head_place(config, context, layer, n - 1, head);
    }
}

proof fn lemma_head<T>(m: Meaning<T>, config: Config, context: int, layer: int, position: int, head: int, s: Buffers<T>)
    requires
        places_fit(config, context),
        0 <= layer < config.layers,
        0 <= position < context,
        0 <= head < config.heads,
    ensures
        run(m, head_ops(config, context, layer, position, head), s) == looked(
            m,
            config,
            context,
            layer,
            position,
            head,
            s,
        ),
{
    let n = (position + 1) as nat;
    let scores = score_ops(config, context, layer, head, n);
    let middle = seq![
        Op::Softmax { len: n as usize },
        Op::Clear { start: (head * config.head_dim) as usize, len: config.head_dim },
    ];
    let mixes = mix_ops(config, context, layer, head, n);
    lemma_head_place(config, context, layer, 0, head);
    lemma_scores(m, config, context, layer, head, s, n);
    lemma_run_add(m, scores + middle, mixes, s);
    lemma_run_add(m, scores, middle, s);
    let s1 = run(m, scores, s);
    let s2 = run(m, middle, s1);
    assert(middle.drop_last().drop_last() =~= Seq::empty());
    reveal_with_fuel(run, 3);
    assert(s2 == done(m, middle[1], done(m, middle[0], s1)));
    lemma_mixes(m, config, context, layer, head, s2, n);
}

proof fn lemma_heads<T>(m: Meaning<T>, config: Config, context: int, layer: int, position: int, s: Buffers<T>, n: nat)
    requires
        places_fit(config, context),
        0 <= layer < config.layers,
        0 <= position < context,
        n <= config.heads,
    ensures
        run(m, heads_ops(config, context, layer, position, n), s) == attended(m, config, context, layer, position, s, n),
    decreases n,
{
    if n > 0 {
        let front = heads_ops(config, context, layer, position, (n - 1) as nat);
        lemma_heads(m, config, context, layer, position, s, (n - 1) as nat);
        lemma_run_add(m, front, head_ops(config, context, layer, position, n - 1), s);
        lemma_head(m, config, context, layer, position, n - 1, run(m, front, s));
    }
}

proof fn lemma_attended_keeps<T>(
    m: Meaning<T>,
    config: Config,
    context: int,
    layer: int,
    position: int,
    s: Buffers<T>,
    n: nat,
)
    ensures
        ({
            let after = attended(m, config, context, layer, position, s, n);
            after == (Buffers { att: after.att, xb: after.xb, ..s })
        }),
    decreases n,
{
    if n > 0 {
        lemma_attended_keeps(m, config, context, layer, position, s, (n - 1) as nat);
    }
}

/// A layer computes what the equations say: its stream is the one behind
/// attention and feed-forward part, and of the caches exactly the place of its
/// position is written, with the rotated key and the plain value.
pub proof fn lemma_layer_equations<T>(
    m: Meaning<T>,
    config: Config,
    context: int,
    layer: int,
    position: int,
    s: Buffers<T>,
)
    requires
        places_fit(config, context),
        0 <= layer < config.layers,
        0 <= position < context,
    ensures
        ({
            let after = run(m, layer_ops(config, context, position, layer), s);
            let ready = asked(m, config, context, layer, position, s);
            &&& after.x == stream_behind(m, config, context, layer, position, s)
            &&& after.keys == ready.keys
            &&& after.values == ready.values
        }),
{
    let l = layer as usize;
    let a = seq![
        Op::AttentionNorm { layer: l },
        Op::MatVec { layer: l, matrix: Matrix::Query, from: Buffer::Xb, to: Buffer::Q },
        Op::MatVec { layer: l, matrix: Matrix::Key, from: Buffer::Xb, to: Buffer::K },
        Op::MatVec { layer: l, matrix: Matrix::Value, from: Buffer::Xb, to: Buffer::V },
    ];
    let b = rope_ops(config, Buffer::Q, config.heads as nat);
    let c = rope_ops(config, Buffer::K, config.kv_heads as nat);
    let d = seq![
        Op::Store {
            at: slot(config, context, layer, position) as usize,
            len: (config.kv_heads * config.head_dim) as usize,
        },
    ];
    let e = heads_ops(config, context, layer, position, config.heads as nat);
    let f = seq![
        Op::MatVec { layer: l, matrix: Matrix::Output, from: Buffer::Xb, to: Buffer::Xb2 },
        Op::Residual,
        Op::FeedForwardNorm { layer: l },
        Op::MatVec { layer: l, matrix: Matrix::Gate, from: Buffer::Xb, to: Buffer::Hb },
        Op::MatVec { layer: l, matrix: Matrix::Up, from: Buffer::Xb, to: Buffer::Hb2 },
        Op::Swiglu,
        Op::MatVec { layer: l, matrix: Matrix::Down, from: Buffer::Hb, to: Buffer::Xb2 },
        Op::Residual,
    ];
    assert(layer_ops(config, context, position, layer) == a + b + c + d + e + f);
    lemma_run_add(m, a + b + c + d + e, f, s);
    lemma_run_add(m, a + b + c + d, e, s);
    lemma_run_add(m, a + b + c, d, s);
    lemma_run_add(m, a + b, c, s);
    lemma_run_add(m, a, b, s);
    let s1 = run(m, a, s);
    let s2 = run(m, b, s1);
    let s3 = run(m, c, s2);
    let s4 = run(m, d, s3);
    let s5 = run(m, e, s4);
    lemma_run_four(m, a, s);
    lemma_rotations(m, config, Buffer::Q, s1, config.heads as nat);
    lemma_kv_fewer(config);
    lemma_rotations(m, config, Buffer::K, s2, config.kv_heads as nat);
    lemma_head_place(config, context, layer, position, 0);
    assert(d =~= Seq::<Op>::empty().push(d[0]));
    lemma_run_push(m, Seq::empty(), d[0], s3);
    assert(s4 == asked(m, config, context, layer, position, s));
    lemma_heads(m, config, context, layer, position, s4, config.heads as nat);
    lemma_attended_keeps(m, config, context, layer, position, s4, config.heads as nat);
    lemma_run_eight(m, f, s5);
}

proof fn lemma_kv_fewer(config: Config)
    requires
        config.wf(),
    ensures
        config.kv_heads <= config.heads,
{
    let (h, kv) = (config.heads as int, config.kv_heads as int);
    vstd::arithmetic::div_mod::lemma_fundamental_div_mod(h, kv);
    let group = h / kv;
    assert(kv <= h) by (nonlinear_arith)
        requires
            h == kv * group,
            h > 0,
            kv > 0,
    ;
}

proof fn lemma_run_four<T>(m: Meaning<T>, ops: Seq<Op>, s: Buffers<T>)
    requires
        ops.len() == 4,
    ensures
        run(m, ops, s) == done(m, ops[3], done(m, ops[2], done(m, ops[1], done(m, ops[0], s)))),
{
    assert(ops =~= Seq::<Op>::empty().push(ops[0]).push(ops[1]).push(ops[2]).push(ops[3]));
    let e = Seq::<Op>::empty();
    lemma_run_push(m, e, ops[0], s);
    lemma_run_push(m, e.push(ops[0]), ops[1], s);
    lemma_run_push(m, e.push(ops[0]).push(ops[1]), ops[2], s);
    lemma_run_push(m, e.push(ops[0]).push(ops[1]).push(ops[2]), ops[3], s);
}

proof fn lemma_run_eight<T>(m: Meaning<T>, ops: Seq<Op>, s: Buffers<T>)
    requires
        ops.len() == 8,
    ensures
        run(m, ops, s) == done(
            m,
            ops[7],
            done(
                m,
                ops[6],
                done(m, ops[5], done(m, ops[4], done(m, ops[3], done(m, ops[2], done(m, ops[1], done(m, ops[0], s)))))),
            ),
        ),
{
    let (a, b) = (ops.take(4), ops.skip(4));
    assert(ops =~= a + b);
    lemma_run_add(m, a, b, s);
    lemma_run_four(m, a, s);
    lemma_run_four(m, b, run(m, a, s));
}

/// The buffers after the first `n` layers of a step are what the layers make of
/// them in order; a step starts from the token's embedding and ends with the
/// projection of the normalized stream.
pub proof fn lemma_step_equations<T>(
    m: Meaning<T>,
    config: Config,
    context: int,
    token: u32,
    position: int,
    s: Buffers<T>,
    n: nat,
)
    ensures
        ({
            let start = Buffers { x: (m.embed)(token), ..s };
            let end = run(m, plan(config, context, token, position), s);
            let behind = run(m, layers_ops(config, context, position, config.layers as nat), start);
            &&& end.logits == (m.project)((m.output_norm)(behind.x))
            &&& end.keys == behind.keys && end.values == behind.values
            &&& run(m, layers_ops(config, context, position, 0), start) == start
            &&& run(m, layers_ops(config, context, position, n + 1), start) == run(
                m,
                layer_ops(config, context, position, n as int),
                run(m, layers_ops(config, context, position, n), start),
            )
        }),
{
    let start = Buffers { x: (m.embed)(token), ..s };
    let first = seq![Op::Embed { token }];
    let layers = layers_ops(config, context, position, config.layers as nat);
    let tail = seq![Op::OutputNorm, Op::Logits];
    lemma_run_add(m, first + layers, tail, s);
    lemma_run_add(m, first, layers, s);
    assert(first =~= Seq::<Op>::empty().push(first[0]));
    lemma_run_push(m, Seq::empty(), first[0], s);
    assert(run(m, first, s) == start);
    let behind = run(m, layers, start);
    assert(tail =~= Seq::<Op>::empty().push(tail[0]).push(tail[1]));
    lemma_run_push(m, Seq::empty(), tail[0], behind);
    lemma_run_push(m, Seq::<Op>::empty().push(tail[0]), tail[1], behind);
    lemma_run_add(
        m,
        layers_ops(config, context, position, n),
        layer_ops(config, context, position, n as int),
        start,
    );
}

/// A state has room for what the operations put into its buffers, and its
/// context is at least one position and at most what the model allows.
pub proof fn lemma_state_sizes(config: Config, context: usize, threads: usize, int8: bool)
    requires
        config.kv_heads * config.head_dim <= usize::MAX,
        0 <= cache_len(config, context as int) <= usize::MAX,
    ensures
        ({
            let s = state_for(config, context, threads, int8);
            &&& s.x == config.embedding && s.xb == config.embedding && s.xb2 == config.embedding && s.q
                == config.embedding
            &&& s.hb == config.ffn && s.hb2 == config.ffn
            &&& s.k == config.kv_heads * config.head_dim && s.v == s.k
            &&& s.att == context && s.logits == config.vocab
            &&& s.scratch >= config.embedding && s.scratch >= config.ffn
            &&& s.key_cache == config.layers * context * (config.kv_heads * config.head_dim)
            &&& s.value_cache == s.key_cache
            &&& s.context == context && s.threads == threads && s.int8 == int8
        }),
        config.context > 0 ==> 1 <= allowed_context(config, context) <= config.context,
        1 <= context <= config.context ==> allowed_context(config, context) == context,
        default_context(config) <= config.context && default_context(config) <= 2048,
        default_context(config) == config.context || default_context(config) == 2048,
{
}

} // verus!
