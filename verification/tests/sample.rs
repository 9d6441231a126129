//! Drawing tokens.

use ferrite::sample::{argmax, Action, Event, Rng, Sampler};

fn sampler(temperature: f32, top_k: usize, top_p: f32, seed: u64) -> Sampler {
    Sampler::new(temperature.to_bits(), top_k, top_p.to_bits(), seed)
}

fn bits(values: &[f32]) -> Vec<u32> {
    values.iter().map(|v| v.to_bits()).collect()
}

fn softmax(x: &mut [f32]) {
    let max = x.iter().copied().fold(f32::NEG_INFINITY, f32::max);
    let mut total = 0.0;
    for value in x.iter_mut() {
        *value = (*value - max).exp();
        total += *value;
    }
    for value in x.iter_mut() {
        *value /= total;
    }
}

/// The sums between the decisions.
fn sample(sampler: &mut Sampler, logits: &mut [f32]) -> u32 {
    let mut action = sampler.sample(Event::Logits(&bits(logits)));
    loop {
        action = match action {
            Action::Take(token) => return token,
            Action::Weigh => {
                for logit in logits.iter_mut() {
                    *logit /= f32::from_bits(sampler.temperature);
                }
                softmax(logits);
                sampler.sample(Event::Probabilities(&bits(logits)))
            }
            Action::Sum(tokens) => {
                let mut totals = Vec::new();
                let mut total = 0.0f32;
                for token in &tokens {
                    total += logits[*token];
                    totals.push(total);
                }
                sampler.sample(Event::Totals { tokens, totals: &bits(&totals) })
            }
            Action::Draw { tokens, draw } => {
                let mass: f32 = tokens.iter().map(|token| logits[*token]).sum();
                let mut target = f32::from_bits(draw) * mass;
                let mut remaining = Vec::new();
                for token in &tokens {
                    target -= logits[*token];
                    remaining.push(target);
                }
                sampler.sample(Event::Remaining { tokens, remaining: &bits(&remaining) })
            }
        };
    }
}

#[test]
fn greedy_takes_the_maximum() {
    let mut sampler = Sampler::greedy();
    assert_eq!(sample(&mut sampler, &mut [0.1, 0.9, 0.3]), 1);
    assert_eq!(sample(&mut sampler, &mut [5.0, -1.0, 2.0]), 0);
    // Ties resolve to the first, deterministically.
    assert_eq!(sample(&mut sampler, &mut [1.0, 1.0]), 0);
}

#[test]
fn top_k_of_one_is_greedy_at_any_temperature() {
    let mut sampler = sampler(5.0, 1, 1.0, 42);
    for _ in 0..20 {
        assert_eq!(sample(&mut sampler, &mut [0.0, 3.0, 1.0]), 1);
    }
}

#[test]
fn the_same_seed_gives_the_same_sequence() {
    let draw = |seed| {
        let mut sampler = sampler(1.0, 0, 1.0, seed);
        (0..10)
            .map(|_| sample(&mut sampler, &mut [1.0, 2.0, 3.0, 0.5]))
            .collect::<Vec<_>>()
    };
    assert_eq!(draw(7), draw(7));
    assert_ne!(draw(7), draw(8), "different seeds should diverge");
}

#[test]
fn sampling_follows_the_distribution() {
    // Logits chosen so token 1 is roughly e^2 times as likely as token 0.
    let mut sampler = sampler(1.0, 0, 1.0, 12345);
    let mut counts = [0usize; 2];
    for _ in 0..4000 {
        counts[sample(&mut sampler, &mut [0.0, 2.0]) as usize] += 1;
    }
    let observed = counts[1] as f32 / 4000.0;
    let expected = 2.0f32.exp() / (1.0 + 2.0f32.exp()); // ~0.881
    assert!(
        (observed - expected).abs() < 0.03,
        "observed {observed}, expected around {expected}"
    );
}

#[test]
fn top_p_drops_the_tail() {
    // Token 0 alone carries more than 90% of the mass.
    let mut sampler = sampler(1.0, 0, 0.9, 99);
    for _ in 0..50 {
        assert_eq!(sample(&mut sampler, &mut [10.0, 0.0, 0.0, 0.0]), 0);
    }
}

#[test]
fn rng_is_uniform_enough_and_never_leaves_the_unit_interval() {
    let mut rng = Rng::new(0); // seed 0 must still work
    let mut sum = 0.0;
    for _ in 0..10_000 {
        let value = f32::from_bits(rng.next_f32());
        assert!((0.0..1.0).contains(&value), "{value} out of range");
        sum += value;
    }
    let mean = sum / 10_000.0;
    assert!((mean - 0.5f32).abs() < 0.02, "mean {mean}");
}

#[test]
fn nothing_to_choose_from_gives_the_first_token() {
    assert_eq!(sample(&mut sampler(1.0, 0, 1.0, 1), &mut []), 0);
    assert_eq!(sample(&mut Sampler::greedy(), &mut []), 0);
}

#[test]
fn top_k_ranks_the_head() {
    let probs = bits(&[0.1, 0.4, 0.2, 0.4]);
    assert_eq!(sampler(1.0, 2, 1.0, 1).rank(&probs), vec![1, 3]);
    assert_eq!(sampler(1.0, 0, 1.0, 1).rank(&probs), vec![1, 3, 2, 0]);
    assert_eq!(sampler(1.0, 9, 1.0, 1).rank(&probs), vec![1, 3, 2, 0]);
}

#[test]
fn the_nucleus_ends_where_the_mass_is_reached() {
    let totals = bits(&[0.5, 0.75, 1.0]);
    assert_eq!(sampler(1.0, 0, 0.7, 1).nucleus(&totals), 2);
    assert_eq!(sampler(1.0, 0, 0.75, 1).nucleus(&totals), 2);
    assert_eq!(sampler(1.0, 0, 2.0, 1).nucleus(&totals), 3);
    assert_eq!(Sampler::pick(&bits(&[0.2, -0.1, -0.3])), 1);
    assert_eq!(Sampler::pick(&bits(&[0.2, 0.1])), 1, "drift lands on the last");
}

#[test]
fn the_generator_gives_known_numbers() {
    let step = |x: u64| {
        let a = x ^ (x >> 12);
        let b = a ^ (a << 25);
        b ^ (b >> 27)
    };
    let mut rng = Rng::new(42);
    let state = step(42);
    assert_eq!(rng.next_u64(), state.wrapping_mul(0x2545_F491_4F6C_DD1D));
    assert_eq!(rng, Rng(state));
    let drawn = f32::from_bits(rng.next_f32());
    let next = step(state).wrapping_mul(0x2545_F491_4F6C_DD1D);
    assert_eq!(drawn, (next >> 40) as f32 / (1u32 << 24) as f32);
    assert_eq!(Rng::new(0), Rng(0x9E37_79B9_7F4A_7C15));
    assert_eq!(Sampler::default().top_p, Sampler::greedy().top_p);
}

#[test]
fn infinite_and_missing_numbers_are_ordered_like_floats() {
    assert_eq!(argmax(&bits(&[f32::NEG_INFINITY, -1.0, f32::INFINITY, 2.0])), 2);
    // Nothing is greater than a number that is not one.
    assert_eq!(argmax(&bits(&[f32::NAN, 5.0])), 0);
    assert_eq!(argmax(&bits(&[-0.0, 0.0])), 0);
}
