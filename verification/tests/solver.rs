//! End-to-end solving: restarts of the verified annealing run, one after
//! another, on ciphers drawn from a synthetic Markov language.

use homophone::{
    anneal, auto_iterations, letters_from_text, HomophonicKey, LnFactorials, NgramModel, Rng,
    Scorer, Solution,
};
use std::time::Duration;

const SCALE: f64 = 1000.0;
const RANK_NOISE: f64 = 14.0;

fn quantised_log_ratio(num: u64, den: u64) -> i16 {
    ((num as f64 / den as f64).ln() * SCALE)
        .round()
        .clamp(i16::MIN as f64 + 1.0, 0.0) as i16
}

fn ln_factorials(max: usize) -> LnFactorials {
    let mut acc = 0f64;
    let values: Vec<i64> = (0..=max)
        .map(|x| {
            if x > 1 {
                acc += (x as f64).ln();
            }
            (SCALE * acc).round() as i64
        })
        .collect();
    LnFactorials::from_values(values).expect("ln x! fits the bound")
}

fn unit_of(draw: u64) -> f64 {
    (draw >> 11) as f64 * (1.0 / (1u64 << 53) as f64)
}

fn unit(rng: &mut Rng) -> f64 {
    unit_of(rng.next_u64())
}

/// Cumulative transition rows of an order-3 Markov language.
fn language(seed: u64) -> Vec<f64> {
    let mut rng = Rng::new(seed);
    let mut global: Vec<u8> = (0..26u8).collect();
    rng.shuffle(&mut global);
    let mut level: Vec<Vec<u8>> = vec![global];
    for j in 1..3 {
        let parents = 26usize.pow(j as u32 - 1);
        let next: Vec<Vec<u8>> = (0..26usize.pow(j as u32))
            .map(|ctx| {
                let mut keyed: Vec<(f64, u8)> = level[ctx % parents]
                    .iter()
                    .enumerate()
                    .map(|(rank, &l)| (rank as f64 + unit(&mut rng) * RANK_NOISE, l))
                    .collect();
                keyed.sort_by(|a, b| a.0.total_cmp(&b.0));
                keyed.into_iter().map(|(_, l)| l).collect()
            })
            .collect();
        level = next;
    }
    let zipf: Vec<f64> = (1..=26).map(|r| (r as f64).powf(-1.5)).collect();
    let norm: f64 = zipf.iter().sum();
    let mut cumulative = Vec::new();
    let mut probs = [0f64; 26];
    for ranking in &level {
        for (rank, &l) in ranking.iter().enumerate() {
            probs[l as usize] = zipf[rank] / norm;
        }
        let mut acc = 0.0;
        for p in probs {
            acc += p;
            cumulative.push(acc);
        }
    }
    cumulative
}

fn sample(cumulative: &[f64], len: usize, rng: &mut Rng) -> Vec<u8> {
    let k = 2;
    let burn_in = 256;
    let mut out: Vec<u8> = (0..k).map(|_| rng.below(26) as u8).collect();
    let mut ctx = out.iter().fold(0usize, |h, &l| h * 26 + l as usize);
    while out.len() < len + burn_in + k {
        let row = &cumulative[ctx * 26..(ctx + 1) * 26];
        let u = unit(rng) * row[25];
        let letter = row.iter().position(|&c| u < c).unwrap_or(25);
        out.push(letter as u8);
        ctx = (ctx - out[out.len() - 1 - k] as usize * 26) * 26 + letter;
    }
    out.split_off(burn_in + k)
}

struct Fixture {
    language: Vec<f64>,
    model: NgramModel,
}

/// The seed-2026 language and an order-3 model trained on a million of its
/// letters, from a stream no test plaintext uses.
fn fixture() -> Fixture {
    let language = language(2026);
    let corpus = sample(&language, 1_000_000, &mut Rng::new(u64::MAX));
    let model = NgramModel::train(&corpus, 3, quantised_log_ratio).expect("corpus is long enough");
    Fixture { language, model }
}

fn letter_frequencies(letters: &[u8]) -> [f64; 26] {
    let mut f = [0f64; 26];
    for &l in letters {
        f[l as usize] += 1.0;
    }
    let n = letters.len().max(1) as f64;
    f.map(|c| c / n)
}

/// Extra homophones in proportion to letter frequency, among letters with room.
fn weighted_pick(weights: [f64; 26], max_per_letter: usize) -> impl Fn(&[usize], u64) -> usize {
    move |per_letter: &[usize], draw: u64| {
        let w: Vec<f64> = (0..26)
            .map(|l| {
                if per_letter[l] < max_per_letter {
                    weights[l].max(0.0) + 1e-9
                } else {
                    0.0
                }
            })
            .collect();
        let total: f64 = w.iter().sum();
        let mut target = unit_of(draw) * total;
        for (i, &x) in w.iter().enumerate() {
            if target < x {
                return i;
            }
            target -= x;
        }
        w.iter().rposition(|&x| x > 0.0).unwrap_or(0)
    }
}

struct Case {
    plaintext: Vec<u8>,
    key: HomophonicKey,
    ciphertext: Vec<u16>,
}

/// Plaintext from the language, key with `symbols` symbols and 1–4
/// homophones per letter, extra homophones given to frequent letters.
fn case(f: &Fixture, seed: u64, len: usize, symbols: usize) -> Case {
    let mut rng = Rng::new(seed);
    let plaintext = sample(&f.language, len, &mut rng);
    let key = HomophonicKey::random(
        symbols,
        4,
        weighted_pick(letter_frequencies(&plaintext), 4),
        &mut rng,
    )
    .expect("valid symbol count");
    let ciphertext = key.encrypt(&plaintext, &mut rng);
    Case {
        plaintext,
        key,
        ciphertext,
    }
}

/// Restarts with their own streams, temperature 0.35 times the calibrated
/// mean loss cooling linearly to zero; `iterations` 0 picks the default.
fn solve(model: &NgramModel, cipher: &[u16], symbols: usize, restarts: u64, iterations: u64, seed: u64) -> Solution {
    let iterations = if iterations == 0 {
        auto_iterations(symbols)
    } else {
        iterations
    };
    let lf = ln_factorials(cipher.len() + symbols);
    let results: Vec<(Vec<u8>, i64)> = (0..restarts)
        .map(|r| {
            let mut rng = Rng::derive(seed, r);
            anneal(
                model,
                cipher,
                symbols,
                iterations,
                &lf,
                |loss_sum, losses, step, d, draw| {
                    let mean = if losses == 0 {
                        1.0
                    } else {
                        (loss_sum as f64 / losses as f64).max(1.0)
                    };
                    let t = mean * 0.35 * (1.0 - step as f64 / iterations as f64);
                    unit_of(draw) < (d as f64 / t).exp()
                },
                &mut rng,
            )
        })
        .collect();
    Solution::from_restarts(results, cipher, iterations, Duration::ZERO)
}

fn recovery_rate(truth: &[u8], guess: &[u8]) -> f64 {
    assert_eq!(truth.len(), guess.len());
    if truth.is_empty() {
        return 1.0;
    }
    homophone::matching_positions(truth, guess) as f64 / truth.len() as f64
}

#[test]
fn solver_prefers_the_true_key_over_random_keys() {
    // The objective itself must rank the truth above what search returns on
    // garbage: a solved cipher's score is at least the true key's score.
    let f = fixture();
    let c = case(&f, 21, 1500, 60);
    let lf = ln_factorials(c.ciphertext.len() + 60);
    let truth = Scorer::new(&f.model, &c.ciphertext, c.key.symbol_letter.clone(), &lf).score();
    let solution = solve(&f.model, &c.ciphertext, 60, 8, 0, 21);
    assert!(
        solution.score >= truth,
        "search stopped below the true key: {} < {truth}",
        solution.score
    );
    let few = solve(&f.model, &c.ciphertext, 60, 1, 1, 21);
    assert!(
        few.score < truth,
        "a one-move search should not reach the true key's score"
    );
    assert!(recovery_rate(&c.plaintext, &solution.plaintext) >= 0.95);
}

#[test]
fn symbols_that_occur_once_are_scored_exactly_and_do_not_hurt_recovery() {
    let f = fixture();
    let mut c = case(&f, 31, 1500, 50);
    // Append ten fresh symbols, each used exactly once, in place of the
    // original symbol at spread-out positions.
    for i in 0..10u16 {
        let p = 100 + i as usize * 130;
        c.ciphertext[p] = 50 + i;
    }
    let mut key = c.key.symbol_letter.clone();
    for i in 0..10usize {
        key.push(c.plaintext[100 + i * 130]);
    }
    let lf = ln_factorials(c.ciphertext.len() + 60);
    let mut sc = Scorer::new(&f.model, &c.ciphertext, key, &lf);
    for s in 50..60 {
        assert_eq!(sc.occurrences(s), 1);
        for l in 0..26 {
            sc.apply(s, l);
            assert_eq!(sc.score(), sc.full_rescore());
        }
    }

    let solution = solve(&f.model, &c.ciphertext, 60, 8, 0, 31);
    let r = recovery_rate(&c.plaintext, &solution.plaintext);
    assert!(r >= 0.95, "singletons broke recovery: {r}");
}

#[test]
fn solver_handles_a_sparse_model_without_panicking() {
    // Order-5 model from a tiny corpus: nearly every 5-gram is unseen.
    let corpus = letters_from_text(&"attackatdawnholdthebridge".repeat(4));
    let model = NgramModel::train(&corpus, 5, quantised_log_ratio).unwrap();
    let plain = letters_from_text("attackatdawnholdthebridgeattackatdawn");
    let key: Vec<u8> = (0..26).collect();
    let cipher: Vec<u16> = plain.iter().map(|&l| l as u16).collect();
    let lf = ln_factorials(cipher.len() + 26);
    let truth = Scorer::new(&model, &cipher, key, &lf).score();
    let solution = solve(&model, &cipher, 26, 4, 100_000, 1);
    assert!(solution.score >= truth);
    assert_eq!(solution.plaintext.len(), plain.len());
}
