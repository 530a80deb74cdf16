//! After any sequence of random moves, the incrementally maintained score
//! equals a from-scratch rescoring, exactly. The corpora come from a small
//! synthetic Markov language with Zipf-shaped transitions.

use homophone::{anneal, LnFactorials, NgramModel, Rng, Scorer, Solution};
use std::time::Duration;

const SCALE: f64 = 1000.0;
const RANK_NOISE: f64 = 14.0;

fn quantised_log_ratio(num: u64, den: u64) -> i16 {
    ((num as f64 / den as f64).ln() * SCALE)
        .round()
        .clamp(i16::MIN as f64 + 1.0, 0.0) as i16
}

fn ln_factorials(max: usize) -> LnFactorials {
    let mut acc = 0f64;
    let values: Vec<i64> = (0..=max)
        .map(|x| {
            if x > 1 {
                acc += (x as f64).ln();
            }
            (SCALE * acc).round() as i64
        })
        .collect();
    LnFactorials::from_values(values).expect("ln x! fits the bound")
}

fn unit(rng: &mut Rng) -> f64 {
    (rng.next_u64() >> 11) as f64 * (1.0 / (1u64 << 53) as f64)
}

/// Cumulative transition rows of a Markov language of the given order.
fn language(order: usize, exponent: f64, seed: u64) -> Vec<f64> {
    let mut rng = Rng::new(seed);
    let mut global: Vec<u8> = (0..26u8).collect();
    rng.shuffle(&mut global);
    let mut level: Vec<Vec<u8>> = vec![global];
    for j in 1..order {
        let parents = 26usize.pow(j as u32 - 1);
        let next: Vec<Vec<u8>> = (0..26usize.pow(j as u32))
            .map(|ctx| {
                let mut keyed: Vec<(f64, u8)> = level[ctx % parents]
                    .iter()
                    .enumerate()
                    .map(|(rank, &l)| (rank as f64 + unit(&mut rng) * RANK_NOISE, l))
                    .collect();
                keyed.sort_by(|a, b| a.0.total_cmp(&b.0));
                keyed.into_iter().map(|(_, l)| l).collect()
            })
            .collect();
        level = next;
    }
    let zipf: Vec<f64> = (1..=26).map(|r| (r as f64).powf(-exponent)).collect();
    let norm: f64 = zipf.iter().sum();
    let mut cumulative = Vec::new();
    let mut probs = [0f64; 26];
    for ranking in &level {
        for (rank, &l) in ranking.iter().enumerate() {
            probs[l as usize] = zipf[rank] / norm;
        }
        let mut acc = 0.0;
        for p in probs {
            acc += p;
            cumulative.push(acc);
        }
    }
    cumulative
}

fn sample(cumulative: &[f64], order: usize, len: usize, rng: &mut Rng) -> Vec<u8> {
    let k = order - 1;
    let burn_in = 256;
    let mut out: Vec<u8> = (0..k).map(|_| rng.below(26) as u8).collect();
    let high = 26usize.pow(k as u32 - 1);
    let mut ctx = out.iter().fold(0usize, |h, &l| h * 26 + l as usize);
    while out.len() < len + burn_in + k {
        let row = &cumulative[ctx * 26..(ctx + 1) * 26];
        let u = unit(rng) * row[25];
        let letter = row.iter().position(|&c| u < c).unwrap_or(25);
        out.push(letter as u8);
        ctx = (ctx - out[out.len() - 1 - k] as usize * high) * 26 + letter;
    }
    out.split_off(burn_in + k)
}

/// The order-3 model trained on a million letters of the seed-2026 language.
fn fixture_model() -> NgramModel {
    let lang = language(3, 1.5, 2026);
    let corpus = sample(&lang, 3, 1_000_000, &mut Rng::new(u64::MAX));
    NgramModel::train(&corpus, 3, quantised_log_ratio).expect("corpus is long enough")
}

fn check_random_moves(model: &NgramModel, cipher: &[u16], num_symbols: usize, moves: usize, seed: u64) {
    let lf = ln_factorials(cipher.len() + num_symbols);
    let mut rng = Rng::new(seed);
    let key = (0..num_symbols).map(|_| rng.below(26) as u8).collect();
    let mut sc = Scorer::new(model, cipher, key, &lf);
    assert_eq!(sc.score(), sc.full_rescore());
    for i in 0..moves {
        let symbol = rng.below(num_symbols);
        // Letter may equal the current one: a no-op move must also be exact.
        let letter = rng.below(26) as u8;
        let before = sc.score();
        let before_text = sc.plaintext().to_vec();
        let delta = sc.propose(symbol, letter);
        if rng.below(3) == 0 {
            sc.rollback();
            assert_eq!(sc.score(), before, "rollback changed score at move {i}");
            assert_eq!(sc.plaintext(), &before_text[..], "rollback changed text at move {i}");
        } else {
            sc.commit();
            assert_eq!(sc.score(), before + delta);
            assert_eq!(sc.key()[symbol], letter);
        }
        assert_eq!(
            sc.score(),
            sc.full_rescore(),
            "incremental score drifted at move {i} (order {}, len {}, symbols {num_symbols})",
            model.order(),
            cipher.len()
        );
    }
    let expected_text: Vec<u8> = cipher.iter().map(|&s| sc.key()[s as usize]).collect();
    assert_eq!(sc.plaintext(), &expected_text[..]);
}

#[test]
fn ten_thousand_moves_stay_exact_for_every_order() {
    let lang = language(3, 1.5, 77);
    let corpus = sample(&lang, 3, 200_000, &mut Rng::new(1));
    for order in 2..=5 {
        let model = NgramModel::train(&corpus, order, quantised_log_ratio).unwrap();
        let mut rng = Rng::new(order as u64);
        // Realistic homophonic shape: 1500 letters over 60 symbols.
        let cipher: Vec<u16> = (0..1500).map(|_| rng.below(60) as u16).collect();
        check_random_moves(&model, &cipher, 60, 10_000, 100 + order as u64);
    }
}

#[test]
fn dense_repeats_where_windows_overlap_many_times() {
    // Five symbols over 400 positions: a symbol often occurs several times
    // inside one window, which is where double counting would show up.
    let lang = language(3, 1.5, 5);
    let corpus = sample(&lang, 3, 100_000, &mut Rng::new(2));
    let model = NgramModel::train(&corpus, 5, quantised_log_ratio).unwrap();
    let mut rng = Rng::new(3);
    let mut cipher: Vec<u16> = (0..400).map(|_| rng.below(5) as u16).collect();
    // A long run of a single symbol.
    cipher[100..130].fill(2);
    check_random_moves(&model, &cipher, 5, 10_000, 4);
}

#[test]
fn symbols_absent_from_the_ciphertext_do_not_disturb_the_score() {
    let model = fixture_model();
    let mut rng = Rng::new(8);
    // Only even symbols occur; odd ones exist in the key but never in the text.
    let cipher: Vec<u16> = (0..700).map(|_| (rng.below(40) * 2) as u16).collect();
    check_random_moves(&model, &cipher, 80, 10_000, 9);
}

#[test]
fn ciphertext_shorter_than_the_model_order() {
    let model = fixture_model();
    let model_order = model.order();
    for len in 0..model_order {
        let cipher: Vec<u16> = (0..len as u16).collect();
        let lf = ln_factorials(cipher.len() + 4);
        let mut sc = Scorer::new(&model, &cipher, vec![0; 4], &lf);
        // No n-gram windows: only the homophone term can contribute.
        assert_eq!(model.score_text(sc.plaintext()), 0);
        for l in 0..26 {
            if len > 0 {
                sc.apply(0, l);
            }
            assert_eq!(sc.score(), sc.full_rescore());
        }
        // Two restarts, each on its own stream.
        let results: Vec<(Vec<u8>, i64)> = (0..2u64)
            .map(|r| {
                let mut rng = Rng::derive(1, r);
                anneal(&model, &cipher, 4, 200_000, &lf, |_, _, _, _, _| false, &mut rng)
            })
            .collect();
        let solution = Solution::from_restarts(results, &cipher, 200_000, Duration::ZERO);
        assert_eq!(solution.plaintext.len(), len);
        assert_eq!(solution.key.len(), 4);
    }
}
