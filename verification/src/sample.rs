//! Turning logits into a token.
//!
//! Temperature, top-k and top-p compose in that order, which is the order
//! everyone else uses: swapping top-k and top-p changes the output, so it is
//! worth being deliberate about. The sums between the decisions are taken
//! elsewhere; every decision is made here.

use vstd::bits::lemma_u64_shr_is_div;
use vstd::arithmetic::power2::lemma2_to64;
use vstd::prelude::*;

use crate::float::{self, f32_of_nat, ge, gt, is_nan, total_rank, INFINITY, ONE};
use crate::tokenizer::heap::{leads, Candidate, Heap};

verus! {

// ------------------------------------------------------------------------- rng

/// xorshift64*, seeded. Deterministic runs matter more here than statistical
/// perfection: "same seed, same output" is what makes a sampling bug findable.
#[derive(Clone, Copy, Debug, PartialEq, Eq, Structural)]
pub struct Rng(pub u64);

/// The state behind a state.
pub open spec fn next_state(x: u64) -> u64 {
    let a = x ^ (x >> 12);
    let b = a ^ (a << 25);
    b ^ (b >> 27)
}

/// The number that a state gives.
pub open spec fn output(x: u64) -> u64 {
    (x * 0x2545_F491_4F6C_DD1D % 0x1_0000_0000_0000_0000) as u64
}

/// The state that a seed stands for. Zero is a fixed point of xorshift, so it
/// can never be the state.
pub open spec fn seeded(seed: u64) -> u64 {
    if seed == 0 {
        0x9E37_79B9_7F4A_7C15
    } else {
        seed
    }
}

/// A state that is not zero never becomes zero.
pub proof fn lemma_never_zero(x: u64)
    requires
        x != 0,
    ensures
        next_state(x) != 0,
{
    assert(({
        let a = x ^ (x >> 12);
        let b = a ^ (a << 25);
        b ^ (b >> 27)
    }) != 0) by (bit_vector)
        requires
            x != 0,
    ;
}

/// `n` steps of 2 to the minus 24, as the bits of an `f32`.
pub open spec fn unit(n: nat) -> int {
    if n == 0 {
        0
    } else {
        f32_of_nat(n) - 24 * 0x80_0000
    }
}

impl Rng {
    /// A generator for a seed.
    pub fn new(seed: u64) -> (rng: Self)
        ensures
            rng.0 == seeded(seed),
            rng.0 != 0,
    {
        Rng(if seed == 0 { 0x9E37_79B9_7F4A_7C15 } else { seed })
    }

    /// The next number.
    pub fn next_u64(&mut self) -> (n: u64)
        ensures
            final(self).0 == next_state(old(self).0),
            n == output(final(self).0),
            old(self).0 != 0 ==> final(self).0 != 0,
    {
        proof {
            if self.0 != 0 {
                lemma_never_zero(self.0);
            }
        }
        let mut x: u64 = self.0;
        x = x ^ (x >> 12);
        x = x ^ (x << 25);
        x = x ^ (x >> 27);
        self.0 = x;
        x.wrapping_mul(0x2545_F491_4F6C_DD1D)
    }

    /// Uniform in `[0, 1)`, using the 24 bits an `f32` can actually hold: the
    /// top bits of the next number, in units of 2 to the minus 24.
    pub fn next_f32(&mut self) -> (bits: u32)
        ensures
            final(self).0 == next_state(old(self).0),
            bits == unit(output(final(self).0) as nat / 0x100_0000_0000),
            bits < ONE,
    {
        let n: u64 = self.next_u64();
        proof {
            lemma_u64_shr_is_div(n, 40);
            lemma2_to64();
            vstd::arithmetic::power2::lemma2_to64_rest();
        }
        let top: u64 = n >> 40;
        if top == 0 {
            return 0;
        }
        proof {
            float::lemma_exact_significand(top as nat);
        }
        float::from_u64(top) - 0xC00_0000
    }
}

// -------------------------------------------------------------------- decisions

/// How tokens are chosen.
#[derive(Clone, Copy, Debug, PartialEq, Eq, Structural)]
pub struct Sampler {
    /// The bits of an `f32`. 0 means greedy. Higher flattens the distribution.
    pub temperature: u32,
    /// Keep only the k most likely tokens. 0 disables.
    pub top_k: usize,
    /// The bits of an `f32`. Keep the smallest set whose probabilities reach p.
    /// 1.0 disables.
    pub top_p: u32,
    pub rng: Rng,
}

impl Default for Sampler {
    fn default() -> (s: Self)
        ensures
            s == (Sampler { temperature: 0, top_k: 0, top_p: ONE, rng: Rng(1) }),
    {
        Self::greedy()
    }
}

/// Where the first maximum of the first `n` values stands: a later value takes
/// over only if it is greater.
pub open spec fn max_at(values: Seq<u32>, n: nat) -> int
    decreases n,
{
    if n <= 1 {
        0
    } else {
        let best = max_at(values, (n - 1) as nat);
        if gt(values[n - 1], values[best]) {
            n - 1
        } else {
            best
        }
    }
}

/// Among values that are numbers, the first maximum is at least every value and
/// greater than every earlier one.
pub proof fn lemma_max_is_first(values: Seq<u32>, n: nat)
    requires
        0 < n <= values.len(),
        forall|i: int| 0 <= i < values.len() ==> !is_nan(#[trigger] values[i]),
    ensures
        0 <= max_at(values, n) < n,
        forall|i: int| 0 <= i < n ==> ge(values[max_at(values, n)], #[trigger] values[i]),
        forall|i: int| 0 <= i < max_at(values, n) ==> gt(values[max_at(values, n)], #[trigger] values[i]),
    decreases n,
{
    if n > 1 {
        lemma_max_is_first(values, (n - 1) as nat);
    }
}

proof fn lemma_max_inside(values: Seq<u32>, n: nat)
    requires
        0 < n,
    ensures
        0 <= max_at(values, n) < n,
    decreases n,
{
    if n > 1 {
        lemma_max_inside(values, (n - 1) as nat);
    }
}

/// The position of the first maximum.
pub fn argmax(values: &[u32]) -> (best: usize)
    requires
        values@.len() > 0,
    ensures
        best == max_at(values@, values@.len()),
        best < values@.len(),
{
    let mut best: usize = 0;
    let mut i: usize = 1;
    while i < values.len()
        invariant
            1 <= i <= values@.len(),
            best < i,
            best == max_at(values@, i as nat),
        decreases values@.len() - i,
    {
        if float::greater(values[i], values[best]) {
            best = i;
        }
        i += 1;
    }
    best
}

/// Whether token `a` ranks before token `b`: by probability, then by index.
pub open spec fn outranks(probs: Seq<u32>, a: int, b: int) -> bool {
    total_rank(probs[a]) > total_rank(probs[b]) || (total_rank(probs[a]) == total_rank(probs[b]) && a < b)
}

/// Whether `list` holds the first tokens by rank, in order.
pub open spec fn is_ranking(probs: Seq<u32>, list: Seq<usize>) -> bool {
    &&& forall|i: int| 0 <= i < list.len() ==> (#[trigger] list[i]) < probs.len()
    &&& forall|i: int, j: int| 0 <= i < j < list.len() ==> outranks(probs, #[trigger] list[i] as int, #[trigger] list[j] as int)
    &&& forall|i: int, t: int|
        0 <= i < list.len() && 0 <= t < probs.len() && !list.contains(t as usize) ==> #[trigger] outranks(
            probs,
            list[i] as int,
            t,
        )
}

/// How many tokens top-k keeps.
pub open spec fn kept(top_k: usize, n: nat) -> nat {
    if top_k == 0 || top_k >= n {
        n
    } else {
        top_k as nat
    }
}

/// How many tokens the nucleus keeps: the shortest prefix whose running total
/// reaches `top_p`, at least one.
pub open spec fn nucleus_of(totals: Seq<u32>, top_p: u32, from: int) -> int
    decreases totals.len() - from,
{
    if 0 <= from < totals.len() {
        if ge(totals[from], top_p) {
            from + 1
        } else {
            nucleus_of(totals, top_p, from + 1)
        }
    } else if totals.len() == 0 {
        1
    } else {
        totals.len() as int
    }
}

/// Which token a draw picks: the first at which nothing is left of the target,
/// else the last.
pub open spec fn pick_of(remaining: Seq<u32>, from: int) -> int
    decreases remaining.len() - from,
{
    if 0 <= from < remaining.len() - 1 && !ge(0, remaining[from]) {
        pick_of(remaining, from + 1)
    } else {
        from
    }
}

impl Sampler {
    /// Always take the most likely token. Reproducible, and the right default
    /// when checking whether the model works at all.
    pub fn greedy() -> (s: Self)
        ensures
            s == (Sampler { temperature: 0, top_k: 0, top_p: ONE, rng: Rng(1) }),
    {
        Sampler { temperature: 0, top_k: 0, top_p: ONE, rng: Rng::new(1) }
    }

    /// A sampler with the given settings.
    pub fn new(temperature: u32, top_k: usize, top_p: u32, seed: u64) -> (s: Self)
        ensures
            s == (Sampler { temperature, top_k, top_p, rng: Rng(seeded(seed)) }),
    {
        Sampler { temperature, top_k, top_p, rng: Rng::new(seed) }
    }

    /// Whether the most likely token is taken without a draw.
    pub fn is_greedy(&self) -> (yes: bool)
        ensures
            yes == ge(0, self.temperature),
    {
        float::at_least(0, self.temperature)
    }

    /// The tokens that top-k keeps, by descending probability; ties go to the
    /// lower index.
    pub fn rank(&self, probs: &[u32]) -> (list: Vec<usize>)
        ensures
            list@.len() == kept(self.top_k, probs@.len()),
            is_ranking(probs@, list@),
    {
        let n: usize = probs.len();
        let keep: usize = if self.top_k == 0 || self.top_k >= n { n } else { self.top_k };
        top(probs, keep)
    }

    /// How many of the ranked tokens the nucleus keeps, given the running totals
    /// of their probabilities.
    pub fn nucleus(&self, totals: &[u32]) -> (n: usize)
        ensures
            n == nucleus_of(totals@, self.top_p, 0),
            n >= 1,
    {
        let mut i: usize = 0;
        while i < totals.len()
            invariant
                i <= totals@.len(),
                nucleus_of(totals@, self.top_p, 0) == nucleus_of(totals@, self.top_p, i as int),
            decreases totals@.len() - i,
        {
            if float::at_least(totals[i], self.top_p) {
                return i + 1;
            }
            i += 1;
        }
        if totals.len() == 0 {
            1
        } else {
            totals.len()
        }
    }

    /// The position of the drawn token, given what is left of the target after
    /// each probability is taken off it.
    pub fn pick(remaining: &[u32]) -> (at: usize)
        requires
            remaining@.len() > 0,
        ensures
            at == pick_of(remaining@, 0),
            at < remaining@.len(),
    {
        let mut i: usize = 0;
        while i < remaining.len() - 1 && !float::at_least(0, remaining[i])
            invariant
                i < remaining@.len(),
                pick_of(remaining@, 0) == pick_of(remaining@, i as int),
            decreases remaining@.len() - i,
        {
            i += 1;
        }
        i
    }
}

/// What happened since the last question.
#[derive(Debug)]
pub enum Event<'e> {
    /// The logits came in, each as the bits of an `f32`.
    Logits(&'e [u32]),
    /// The logits were scaled by the temperature and became probabilities.
    Probabilities(&'e [u32]),
    /// The probabilities of the listed tokens were summed up, one by one.
    Totals { tokens: Vec<usize>, totals: &'e [u32] },
    /// The probabilities of the listed tokens were taken off the target, one by
    /// one.
    Remaining { tokens: Vec<usize>, remaining: &'e [u32] },
}

/// What to do next.
#[derive(Debug)]
pub enum Action {
    /// This is the token.
    Take(u32),
    /// Divide the logits by the temperature and make probabilities of them.
    Weigh,
    /// Sum up the probabilities of these tokens, one by one.
    Sum(Vec<usize>),
    /// Multiply the draw, the bits of an `f32`, by the probability of these
    /// tokens together, and take theirs off it one by one.
    Draw { tokens: Vec<usize>, draw: u32 },
}

/// Whether an event makes sense: as many sums as tokens, and at least one.
pub open spec fn sensible(event: Event) -> bool {
    match event {
        Event::Logits(_) => true,
        Event::Probabilities(_) => true,
        Event::Totals { tokens, totals } => tokens@.len() == totals@.len() && totals@.len() > 0,
        Event::Remaining { tokens, remaining } => tokens@.len() == remaining@.len() && remaining@.len() > 0,
    }
}

/// Whether a question is answered right: the first token for no logits, the
/// most likely one for a greedy sampler; else the head of the ranking, then its
/// nucleus with a draw, then the token that the draw falls on.
pub open spec fn answers(before: Sampler, event: Event, action: Action, after: Sampler) -> bool {
    match event {
        Event::Logits(logits) => after == before && (if logits@.len() == 0 {
            action == Action::Take(0)
        } else if ge(0, before.temperature) {
            action == Action::Take(max_at(logits@, logits@.len()) as u32)
        } else {
            action == Action::Weigh
        }),
        Event::Probabilities(probs) => after == before && (action matches Action::Sum(list) && list@.len() == kept(
            before.top_k,
            probs@.len(),
        ) && is_ranking(probs@, list@)),
        Event::Totals { tokens, totals } => action matches Action::Draw { tokens: head, draw } && head@ == tokens@.take(
            nucleus_of(totals@, before.top_p, 0),
        ) && draw == unit(output(next_state(before.rng.0)) as nat / 0x100_0000_0000) && after == (Sampler {
            rng: Rng(next_state(before.rng.0)),
            ..before
        }),
        Event::Remaining { tokens, remaining } => after == before && action == Action::Take(
            tokens@[pick_of(remaining@, 0)] as u32,
        ),
    }
}

proof fn lemma_nucleus_inside(totals: Seq<u32>, top_p: u32, from: int)
    requires
        0 <= from <= totals.len(),
        totals.len() > 0,
    ensures
        1 <= nucleus_of(totals, top_p, from) <= totals.len(),
    decreases totals.len() - from,
{
    if from < totals.len() && !ge(totals[from], top_p) {
        lemma_nucleus_inside(totals, top_p, from + 1);
    }
}

impl Sampler {
    /// Picks a token, one question at a time.
    pub fn sample(&mut self, event: Event) -> (action: Action)
        requires
            sensible(event),
        ensures
            answers(*old(self), event, action, *final(self)),
    {
        match event {
            Event::Logits(logits) => {
                if logits.len() == 0 {
                    Action::Take(0)
                } else if self.is_greedy() {
                    Action::Take(argmax(logits) as u32)
                } else {
                    Action::Weigh
                }
            },
            Event::Probabilities(probs) => Action::Sum(self.rank(probs)),
            Event::Totals { tokens, totals } => {
                let mut tokens = tokens;
                proof {
                    lemma_nucleus_inside(totals@, self.top_p, 0);
                }
                tokens.truncate(self.nucleus(totals));
                let draw: u32 = self.rng.next_f32();
                Action::Draw { tokens, draw }
            },
            Event::Remaining { tokens, remaining } => Action::Take(tokens[Self::pick(remaining)] as u32),
        }
    }
}

spec fn entry(probs: Seq<u32>, t: int) -> Candidate {
    Candidate { left: t as usize, right: 0, score: probs[t], size: 0 }
}

/// The first `keep` tokens by rank.
fn top(probs: &[u32], keep: usize) -> (list: Vec<usize>)
    requires
        keep <= probs@.len(),
    ensures
        list@.len() == keep,
        is_ranking(probs@, list@),
{
    let n: usize = probs.len();
    let mut heap = Heap::new();
    let mut i: usize = 0;
    while i < n
        invariant
            n == probs@.len(),
            i <= n,
            heap.wf(),
            heap@.len() == i,
            forall|t: int| 0 <= t < i ==> heap@.count(#[trigger] entry(probs@, t)) == 1,
            forall|c: Candidate| #[trigger] heap@.count(c) > 0 ==> c.left < i && c == entry(probs@, c.left as int),
        decreases n - i,
    {
        let ghost before = heap@;
        let c = Candidate { left: i, right: 0, score: probs[i], size: 0 };
        heap.push(c);
        proof {
            assert(c == entry(probs@, i as int));
            if before.count(c) > 0 {
                assert(c.left < i);
            }
            assert forall|t: int| 0 <= t < i + 1 implies heap@.count(#[trigger] entry(probs@, t)) == 1 by {
                if t < i {
                    assert(before.count(entry(probs@, t)) == 1);
                }
            }
            assert forall|d: Candidate| #[trigger] heap@.count(d) > 0 implies d.left < i + 1 && d == entry(
                probs@,
                d.left as int,
            ) by {
                if d != c {
                    assert(before.count(d) > 0);
                }
            }
        }
        i += 1;
    }
    let mut list: Vec<usize> = Vec::new();
    let mut k: usize = 0;
    while k < keep
        invariant
            n == probs@.len(),
            keep <= n,
            k <= keep,
            list@.len() == k,
            heap.wf(),
            heap@.len() == n - k,
            forall|t: int|
                0 <= t < n ==> heap@.count(#[trigger] entry(probs@, t)) == (if list@.contains(t as usize) {
                    0nat
                } else {
                    1nat
                }),
            forall|c: Candidate| #[trigger] heap@.count(c) > 0 ==> c.left < n && c == entry(probs@, c.left as int),
            is_ranking(probs@, list@),
        decreases keep - k,
    {
        let ghost before = heap@;
        let ghost earlier = list@;
        let c = match heap.pop() {
            Some(c) => c,
            None => {
                proof {
                    assert(before.len() == 0);
                }
                return list;
            },
        };
        list.push(c.left);
        proof {
            let m = c.left as int;
            assert(before.count(c) > 0);
            assert(c == entry(probs@, m));
            assert(!earlier.contains(c.left));
            assert(list@[k as int] == c.left);
            assert forall|t: int| 0 <= t < n implies heap@.count(#[trigger] entry(probs@, t)) == (if list@.contains(
                t as usize,
            ) {
                0nat
            } else {
                1nat
            }) by {
                assert(before.count(entry(probs@, t)) == (if earlier.contains(t as usize) { 0nat } else { 1nat }));
                if earlier.contains(t as usize) {
                    let j = choose|j: int| 0 <= j < earlier.len() && earlier[j] == t as usize;
                    assert(list@[j] == t as usize);
                    assert(entry(probs@, t) != c);
                } else if t == m {
                    assert(list@.contains(t as usize));
                } else {
                    assert(entry(probs@, t) != c);
                    if list@.contains(t as usize) {
                        let j = choose|j: int| 0 <= j < list@.len() && list@[j] == t as usize;
                        assert(j == k);
                    }
                }
            }
            assert forall|d: Candidate| #[trigger] heap@.count(d) > 0 implies d.left < n && d == entry(
                probs@,
                d.left as int,
            ) by {
                assert(before.count(d) > 0);
            }
            assert forall|i: int, j: int| 0 <= i < j < list@.len() implies outranks(
                probs@,
                #[trigger] list@[i] as int,
                #[trigger] list@[j] as int,
            ) by {
                if j == k {
                    assert(outranks(probs@, earlier[i] as int, m));
                } else {
                    assert(outranks(probs@, earlier[i] as int, earlier[j] as int));
                }
            }
            assert forall|i: int, t: int|
                0 <= i < list@.len() && 0 <= t < probs@.len() && !list@.contains(t as usize) implies #[trigger] outranks(
                probs@,
                list@[i] as int,
                t,
            ) by {
                assert(!earlier.contains(t as usize)) by {
                    if earlier.contains(t as usize) {
                        let j = choose|j: int| 0 <= j < earlier.len() && earlier[j] == t as usize;
                        assert(list@[j] == t as usize);
                    }
                }
                if i < k {
                    assert(outranks(probs@, earlier[i] as int, t));
                } else {
                    assert(before.count(entry(probs@, t)) == 1);
                    assert(leads(c, entry(probs@, t)));
                    assert(t != m);
                }
            }
        }
        k += 1;
    }
    list
}

/// Whether the values are non-negative numbers, as probabilities are.
pub open spec fn non_negative(values: Seq<u32>) -> bool {
    forall|i: int| 0 <= i < values.len() ==> (#[trigger] values[i]) <= INFINITY
}

proof fn lemma_lead_is_max(probs: Seq<u32>, list: Seq<usize>, n: nat)
    requires
        non_negative(probs),
        is_ranking(probs, list),
        list.len() == 1,
        list[0] < n <= probs.len() <= usize::MAX,
    ensures
        max_at(probs, n) == list[0],
    decreases n,
{
    let t = list[0] as int;
    lemma_max_inside(probs, n);
    if n > 1 {
        let last = n - 1;
        let best = max_at(probs, last as nat);
        lemma_max_inside(probs, last as nat);
        assert(probs[last] <= INFINITY && probs[best] <= INFINITY && probs[t] <= INFINITY);
        if t < last {
            lemma_lead_is_max(probs, list, last as nat);
            assert(!list.contains(last as usize)) by {
                if list.contains(last as usize) {
                    let j = choose|j: int| 0 <= j < list.len() && list[j] == last as usize;
                    assert(j == 0);
                }
            }
            assert(outranks(probs, list[0] as int, last));
        } else {
            assert(!list.contains(best as usize)) by {
                if list.contains(best as usize) {
                    let j = choose|j: int| 0 <= j < list.len() && list[j] == best as usize;
                    assert(j == 0);
                }
            }
            assert(outranks(probs, list[0] as int, best));
        }
    }
}

/// Keeping one token is greedy at any temperature: the only token on the list
/// is the first most likely one, the nucleus keeps it, and every draw falls on
/// it.
pub proof fn lemma_top_one_is_greedy(
    sampler: Sampler,
    probs: Seq<u32>,
    list: Seq<usize>,
    totals: Seq<u32>,
    remaining: Seq<u32>,
)
    requires
        sampler.top_k == 1,
        0 < probs.len() <= usize::MAX,
        non_negative(probs),
        list.len() == kept(sampler.top_k, probs.len()),
        is_ranking(probs, list),
        totals.len() == list.len(),
        remaining.len() == nucleus_of(totals, sampler.top_p, 0),
    ensures
        list.len() == 1,
        list[0] == max_at(probs, probs.len()),
        nucleus_of(totals, sampler.top_p, 0) == 1,
        pick_of(remaining, 0) == 0,
{
    assert(list[0] < probs.len());
    lemma_lead_is_max(probs, list, probs.len());
    lemma_nucleus_inside(totals, sampler.top_p, 0);
}

} // verus!
