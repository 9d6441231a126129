//! What sampling does, in numbers.
//!
//! The decisions compare bit patterns. The laws say what they decide about the
//! numbers that the patterns stand for, and what the generator's steps are.

use vstd::arithmetic::div_mod::{lemma_mul_mod_noop, lemma_small_mod};
use vstd::arithmetic::power2::{lemma2_to64_rest, lemma_pow2_adds, lemma_pow2_pos, pow2};
use vstd::prelude::*;

use crate::float::{ge, is_nan};
use crate::order::{finite, lemma_comparison_is_numeric, lemma_total_order_is_numeric, number};
use crate::quant::half::f32_units;
use crate::rounding::lemma_draw_is_exact;
use crate::sample::{
    answers, is_ranking, kept, lemma_max_is_first, max_at, next_state, nucleus_of, outranks, output, pick_of, seeded,
    sensible, Action, Event, Sampler,
};

verus! {

/// Whether all values are finite numbers.
pub open spec fn all_finite(values: Seq<u32>) -> bool {
    forall|i: int| 0 <= i < values.len() ==> finite(#[trigger] values[i])
}

/// The greedy choice is the first of the largest numbers.
pub proof fn lemma_greedy_is_largest(logits: Seq<u32>)
    requires
        logits.len() > 0,
        all_finite(logits),
    ensures
        ({
            let best = max_at(logits, logits.len());
            &&& 0 <= best < logits.len()
            &&& forall|i: int| 0 <= i < logits.len() ==> number(#[trigger] logits[i]) <= number(logits[best])
            &&& forall|i: int| 0 <= i < best ==> number(#[trigger] logits[i]) < number(logits[best])
        }),
{
    assert forall|i: int| 0 <= i < logits.len() implies !is_nan(#[trigger] logits[i]) by {
        lemma_comparison_is_numeric(logits[i], logits[i]);
    }
    lemma_max_is_first(logits, logits.len());
    let best = max_at(logits, logits.len());
    assert forall|i: int| 0 <= i < logits.len() implies number(#[trigger] logits[i]) <= number(logits[best]) by {
        lemma_comparison_is_numeric(logits[best], logits[i]);
    }
    assert forall|i: int| 0 <= i < best implies number(#[trigger] logits[i]) < number(logits[best]) by {
        lemma_comparison_is_numeric(logits[best], logits[i]);
    }
}

/// A temperature of zero or below is greedy, a positive one is not.
pub proof fn lemma_greedy_temperature(temperature: u32)
    requires
        finite(temperature),
    ensures
        ge(0, temperature) == (number(temperature) <= 0),
{
    assert(finite(0) && number(0) == 0);
    lemma_comparison_is_numeric(0, temperature);
}

/// Top-k keeps `k` tokens where there are as many, and all of them for 0.
pub proof fn lemma_top_k(k: usize, n: nat)
    ensures
        k == 0 ==> kept(k, n) == n,
        0 < k <= n ==> kept(k, n) == k,
        k > n ==> kept(k, n) == n,
{
}

/// A ranking goes from large probabilities to small ones, equal ones by index;
/// no token is on it twice, and none that was left out is larger than one on it.
pub proof fn lemma_ranking_descends(probs: Seq<u32>, list: Seq<usize>)
    requires
        all_finite(probs),
        is_ranking(probs, list),
    ensures
        forall|i: int, j: int|
            0 <= i < j < list.len() ==> number(probs[#[trigger] list[i] as int]) >= number(
                probs[#[trigger] list[j] as int],
            ) && list[i] != list[j] && (probs[list[i] as int] == probs[list[j] as int] ==> list[i] < list[j]),
        forall|i: int, t: int|
            0 <= i < list.len() && 0 <= t < probs.len() && !list.contains(t as usize) ==> number(
                probs[#[trigger] list[i] as int],
            ) >= number(#[trigger] probs[t]),
{
    assert forall|i: int, j: int| 0 <= i < j < list.len() implies number(probs[#[trigger] list[i] as int]) >= number(
        probs[#[trigger] list[j] as int],
    ) && list[i] != list[j] && (probs[list[i] as int] == probs[list[j] as int] ==> list[i] < list[j]) by {
        let (a, b) = (list[i] as int, list[j] as int);
        assert(outranks(probs, a, b));
        lemma_total_order_is_numeric(probs[a], probs[b]);
    }
    assert forall|i: int, t: int|
        0 <= i < list.len() && 0 <= t < probs.len() && !list.contains(t as usize) implies number(
        probs[#[trigger] list[i] as int],
    ) >= number(#[trigger] probs[t]) by {
        let a = list[i] as int;
        assert(outranks(probs, list[i] as int, t));
        lemma_total_order_is_numeric(probs[a], probs[t]);
    }
}

proof fn lemma_nucleus_from(totals: Seq<u32>, top_p: u32, from: int)
    requires
        all_finite(totals),
        finite(top_p),
        0 <= from < totals.len(),
    ensures
        ({
            let n = nucleus_of(totals, top_p, from);
            &&& from < n <= totals.len()
            &&& forall|i: int| from <= i < n - 1 ==> number(#[trigger] totals[i]) < number(top_p)
            &&& n < totals.len() ==> number(totals[n - 1]) >= number(top_p)
        }),
    decreases totals.len() - from,
{
    lemma_comparison_is_numeric(totals[from], top_p);
    reveal_with_fuel(nucleus_of, 2);
    if !ge(totals[from], top_p) && from + 1 < totals.len() {
        lemma_nucleus_from(totals, top_p, from + 1);
    }
}

/// The nucleus is the shortest head of the ranking whose probabilities add up to
/// `top_p`; all of it where they never do.
pub proof fn lemma_nucleus_is_shortest(totals: Seq<u32>, top_p: u32)
    requires
        all_finite(totals),
        finite(top_p),
        totals.len() > 0,
    ensures
        ({
            let n = nucleus_of(totals, top_p, 0);
            &&& 1 <= n <= totals.len()
            &&& forall|i: int| 0 <= i < n - 1 ==> number(#[trigger] totals[i]) < number(top_p)
            &&& n < totals.len() ==> number(totals[n - 1]) >= number(top_p)
        }),
{
    lemma_nucleus_from(totals, top_p, 0);
}

proof fn lemma_pick_from(remaining: Seq<u32>, from: int)
    requires
        all_finite(remaining),
        0 <= from < remaining.len(),
    ensures
        ({
            let k = pick_of(remaining, from);
            &&& from <= k < remaining.len()
            &&& forall|i: int| from <= i < k ==> number(#[trigger] remaining[i]) > 0
            &&& k < remaining.len() - 1 ==> number(remaining[k]) <= 0
        }),
    decreases remaining.len() - from,
{
    assert(finite(0) && number(0) == 0);
    lemma_comparison_is_numeric(0, remaining[from]);
    if from < remaining.len() - 1 && !ge(0, remaining[from]) {
        lemma_pick_from(remaining, from + 1);
    }
}

/// A draw falls on the first token at which nothing is left of it; on the last
/// one where something is left throughout.
pub proof fn lemma_draw_falls_on_first(remaining: Seq<u32>)
    requires
        all_finite(remaining),
        remaining.len() > 0,
    ensures
        ({
            let k = pick_of(remaining, 0);
            &&& 0 <= k < remaining.len()
            &&& forall|i: int| 0 <= i < k ==> number(#[trigger] remaining[i]) > 0
            &&& k < remaining.len() - 1 ==> number(remaining[k]) <= 0
        }),
{
    lemma_pick_from(remaining, 0);
}

// -------------------------------------------------------------------- numbers

/// A step of the generator, taken back: the three shifts are 12 to the right, 25
/// to the left and 27 to the right.
pub proof fn lemma_step_can_be_undone(x: u64)
    ensures
        ({
            let y = next_state(x);
            let b = y ^ (y >> 27) ^ (y >> 54);
            let a = b ^ (b << 25) ^ (b << 50);
            a ^ (a >> 12) ^ (a >> 24) ^ (a >> 36) ^ (a >> 48) ^ (a >> 60)
        }) == x,
{
    assert(({
        let p = x ^ (x >> 12);
        let q = p ^ (p << 25);
        let y = q ^ (q >> 27);
        let b = y ^ (y >> 27) ^ (y >> 54);
        let a = b ^ (b << 25) ^ (b << 50);
        a ^ (a >> 12) ^ (a >> 24) ^ (a >> 36) ^ (a >> 48) ^ (a >> 60)
    }) == x) by (bit_vector);
}

/// The number that a state gives has the state for its multiple, modulo 2 to the
/// 64: the two constants are inverse to each other.
pub proof fn lemma_output_can_be_undone(x: u64)
    ensures
        (output(x) * 0x5907_1D96_D81E_CD35) % 0x1_0000_0000_0000_0000 == x,
        forall|seed: u64| seed != 0 ==> #[trigger] seeded(seed) == seed,
        seeded(0) == 0x9E37_79B9_7F4A_7C15,
{
    let n: int = 0x1_0000_0000_0000_0000;
    let m: int = 0x2545_F491_4F6C_DD1D;
    let inverse: int = 0x5907_1D96_D81E_CD35;
    assert((m * inverse) % n == 1);
    let p = x * m;
    assert(output(x) == p % n);
    lemma_mul_mod_noop(p, inverse, n);
    lemma_mul_mod_noop(p % n, inverse, n);
    vstd::arithmetic::div_mod::lemma_mod_twice(p, n);
    assert(((p % n) * inverse) % n == (p * inverse) % n);
    assert(p * inverse == x * (m * inverse)) by (nonlinear_arith)
        requires
            p == x * m,
    ;
    lemma_mul_mod_noop(x as int, m * inverse, n);
    lemma_small_mod(x as nat, n as nat);
    assert((x * (m * inverse)) % n == ((x as int % n) * 1) % n);
}

/// A draw is the generator's next number, taken as a fraction of 2 to the 64 and
/// cut off after 24 binary digits; the generator has moved one step.
pub proof fn lemma_draw_is_leading_digits(before: Sampler, event: Event, action: Action, after: Sampler)
    requires
        answers(before, event, action, after),
        event is Totals,
    ensures
        after.rng.0 == next_state(before.rng.0),
        after.temperature == before.temperature && after.top_k == before.top_k && after.top_p == before.top_p,
        action matches Action::Draw { draw, .. } && {
            let exact = output(after.rng.0) * pow2(85);
            f32_units(draw as int) <= exact < f32_units(draw as int) + pow2(125)
        },
{
    let n = output(after.rng.0) as nat / 0x100_0000_0000;
    lemma_draw_is_exact(n);
    lemma2_to64_rest();
    lemma_pow2_adds(40, 85);
    lemma_pow2_pos(85);
    let c = pow2(85) as int;
    let out = output(after.rng.0) as int;
    assert(n * (0x100_0000_0000 * c) <= out * c < n * (0x100_0000_0000 * c) + 0x100_0000_0000 * c) by (nonlinear_arith)
        requires
            n * 0x100_0000_0000 <= out < n * 0x100_0000_0000 + 0x100_0000_0000,
            c > 0,
    ;
}

/// Without logits the first token is taken; a greedy sampler takes the first of
/// the tokens with the largest logit; any other asks for probabilities.
pub proof fn lemma_logits_are_answered(before: Sampler, logits: &[u32], action: Action, after: Sampler)
    requires
        answers(before, Event::Logits(logits), action, after),
        finite(before.temperature),
        all_finite(logits@),
        logits@.len() <= u32::MAX,
    ensures
        after == before,
        logits@.len() == 0 ==> action == Action::Take(0),
        logits@.len() > 0 && number(before.temperature) > 0 ==> action == Action::Weigh,
        logits@.len() > 0 && number(before.temperature) <= 0 ==> (action matches Action::Take(t) && t < logits@.len()
            && forall|i: int|
            0 <= i < logits@.len() ==> number(#[trigger] logits@[i]) <= number(logits@[t as int]) && (i < t ==> number(
                logits@[i],
            ) < number(logits@[t as int]))),
{
    lemma_greedy_temperature(before.temperature);
    if logits@.len() > 0 {
        lemma_greedy_is_largest(logits@);
    }
}

/// Probabilities are answered by the top of their ranking: as many tokens as
/// top-k allows, from the most likely one down.
pub proof fn lemma_probabilities_are_answered(before: Sampler, probs: &[u32], action: Action, after: Sampler)
    requires
        answers(before, Event::Probabilities(probs), action, after),
        all_finite(probs@),
    ensures
        after == before,
        action matches Action::Sum(list) && {
            &&& before.top_k == 0 || before.top_k >= probs@.len() ==> list@.len() == probs@.len()
            &&& 0 < before.top_k < probs@.len() ==> list@.len() == before.top_k
            &&& forall|i: int, j: int|
                0 <= i < j < list@.len() ==> number(probs@[#[trigger] list@[i] as int]) >= number(
                    probs@[#[trigger] list@[j] as int],
                ) && list@[i] != list@[j]
        },
{
    if let Action::Sum(list) = action {
        lemma_ranking_descends(probs@, list@);
    }
}

/// A draw takes the token at which nothing of it is left.
pub proof fn lemma_remainders_are_answered(before: Sampler, event: Event, action: Action, after: Sampler)
    requires
        answers(before, event, action, after),
        sensible(event),
        event matches Event::Remaining { remaining, .. } && all_finite(remaining@),
    ensures
        after == before,
        event matches Event::Remaining { tokens, remaining } && exists|k: int|
            0 <= k < remaining@.len() && action == Action::Take(#[trigger] tokens@[k] as u32) && (forall|i: int|
                0 <= i < k ==> number(#[trigger] remaining@[i]) > 0) && (k < remaining@.len() - 1 ==> number(
                remaining@[k],
            ) <= 0),
{
    if let Event::Remaining { tokens, remaining } = event {
        lemma_draw_falls_on_first(remaining@);
        let k = pick_of(remaining@, 0);
        assert(action == Action::Take(tokens@[k] as u32));
    }
}

} // verus!
