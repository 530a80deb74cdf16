use homophone::anneal::{calibrate, random_other_letter, run_plan, CALIBRATION_MOVES};
use homophone::{
    anneal, auto_iterations, hill_climb, letters_from_text, LnFactorials, NgramModel, Rng, Scorer,
    Solution,
};
use std::time::Duration;

const SCALE: f64 = 1000.0;

fn quantised_log_ratio(num: u64, den: u64) -> i16 {
    ((num as f64 / den as f64).ln() * SCALE)
        .round()
        .clamp(i16::MIN as f64 + 1.0, 0.0) as i16
}

fn ln_factorials(max: usize) -> LnFactorials {
    let mut acc = 0f64;
    let values: Vec<i64> = (0..=max)
        .map(|x| {
            if x > 1 {
                acc += (x as f64).ln();
            }
            (SCALE * acc).round() as i64
        })
        .collect();
    LnFactorials::from_values(values).expect("ln x! fits the bound")
}

/// Linear cooling from `factor` times the mean calibrated loss.
fn schedule(factor: f64, iterations: u64) -> impl Fn(u64, u64, u64, i64, u64) -> bool {
    move |loss_sum, losses, step, d, draw| {
        let mean = if losses == 0 { 1.0 } else { (loss_sum as f64 / losses as f64).max(1.0) };
        let t = mean * factor * (1.0 - step as f64 / iterations as f64);
        let u = (draw >> 11) as f64 * (1.0 / (1u64 << 53) as f64);
        u < (d as f64 / t).exp()
    }
}

const TEXT: &str = "it was the best of times it was the worst of times it was the age of \
    wisdom it was the age of foolishness it was the epoch of belief it was the epoch of \
    incredulity it was the season of light it was the season of darkness it was the spring \
    of hope it was the winter of despair we had everything before us we had nothing before us";

fn corpus_model(order: usize) -> (Vec<u8>, NgramModel) {
    let corpus = letters_from_text(&TEXT.repeat(3));
    let model = NgramModel::train(&corpus, order, quantised_log_ratio).unwrap();
    (corpus, model)
}

#[test]
fn auto_iterations_scales_with_symbols_and_is_clamped() {
    assert_eq!(auto_iterations(0), 200_000);
    assert_eq!(auto_iterations(1), 200_000);
    assert_eq!(auto_iterations(10), 208_000);
    assert_eq!(auto_iterations(60), 1_248_000);
    assert_eq!(auto_iterations(2000), 20_000_000);
}

#[test]
fn other_letters_never_repeat_the_current_one() {
    let mut rng = Rng::new(12);
    for current in 0..26u8 {
        for _ in 0..200 {
            let l = random_other_letter(current, &mut rng);
            assert!(l < 26 && l != current);
        }
    }
}

#[test]
fn hill_climb_reaches_a_local_optimum_without_losing_score() {
    let (corpus, model) = corpus_model(3);
    let plain = &corpus[..200];
    let cipher: Vec<u16> = plain.iter().map(|&l| l as u16).collect();
    let lf = ln_factorials(cipher.len() + 26);
    let mut rng = Rng::new(3);
    let key: Vec<u8> = (0..26).map(|_| rng.below(26) as u8).collect();
    let mut sc = Scorer::new(&model, &cipher, key, &lf);
    let start = sc.score();
    let active: Vec<usize> = (0..26).filter(|&s| sc.occurrences(s) > 0).collect();
    hill_climb(&mut sc, &active);
    assert!(sc.score() >= start);
    assert_eq!(sc.score(), sc.full_rescore());
    for &s in &active {
        let current = sc.key()[s];
        for l in 0..26u8 {
            let d = sc.propose(s, l);
            sc.rollback();
            assert!(d <= 0, "symbol {s} to letter {l} would gain {d}");
        }
        assert_eq!(sc.key()[s], current);
    }
}

#[test]
fn calibration_leaves_the_key_and_score_alone() {
    let (corpus, model) = corpus_model(3);
    let cipher: Vec<u16> = corpus[..150].iter().map(|&l| l as u16).collect();
    let lf = ln_factorials(cipher.len() + 26);
    let key: Vec<u8> = (0..26).map(|l| (l * 7 % 26) as u8).collect();
    let mut sc = Scorer::new(&model, &cipher, key.clone(), &lf);
    let score = sc.score();
    let active: Vec<usize> = (0..26).filter(|&s| sc.occurrences(s) > 0).collect();
    let (loss, losses) = calibrate(&mut sc, &active, &mut Rng::new(4));
    assert_eq!(sc.key(), &key[..]);
    assert_eq!(sc.score(), score);
    assert!(losses as usize <= CALIBRATION_MOVES);
    assert!(losses > 0 && loss >= losses);
}

#[test]
fn annealing_is_reproducible_and_ends_at_a_local_optimum() {
    let (corpus, model) = corpus_model(2);
    // Plain substitution: symbol s stands for letter (s * 11 + 5) mod 26.
    let plain = &corpus[40..640];
    let cipher: Vec<u16> = plain.iter().map(|&l| ((l as u16 + 26 - 5) * 19 % 26) as u16).collect();
    let lf = ln_factorials(cipher.len() + 26);
    let run = |stream: u64| {
        let mut rng = Rng::derive(7, stream);
        anneal(&model, &cipher, 26, 100_000, &lf, schedule(0.35, 100_000), &mut rng)
    };
    let (key, score) = run(0);
    assert_eq!(run(0), (key.clone(), score));
    assert_eq!(key.len(), 26);
    let mut sc = Scorer::new(&model, &cipher, key.clone(), &lf);
    assert_eq!(sc.score(), score);
    for s in 0..26usize {
        if sc.occurrences(s) == 0 {
            continue;
        }
        for l in 0..26u8 {
            let d = sc.propose(s, l);
            sc.rollback();
            assert!(d <= 0);
        }
    }
    // Never below the random key the run started from.
    let mut rng = Rng::derive(7, 0);
    let start: Vec<u8> = (0..26).map(|_| rng.below(26) as u8).collect();
    assert!(score >= Scorer::new(&model, &cipher, start, &lf).score());
    // The search ends at or above the true key's score.
    let truth: Vec<u8> = (0..26u16).map(|s| ((s * 11 + 5) % 26) as u8).collect();
    let true_score = Scorer::new(&model, &cipher, truth, &lf).score();
    assert!(score >= true_score, "{score} < {true_score}");
}

#[test]
fn best_restart_is_the_highest_score_and_the_earliest_on_ties() {
    let cipher = [0u16, 1, 1, 0];
    let results = vec![
        (vec![3u8, 4], -50i64),
        (vec![1u8, 2], -20),
        (vec![5u8, 6], -90),
        (vec![7u8, 8], -20),
    ];
    let s = Solution::from_restarts(results, &cipher, 99, Duration::from_millis(5));
    assert_eq!(s.best_restart, 1);
    assert_eq!(s.score, -20);
    assert_eq!(s.key, vec![1, 2]);
    assert_eq!(s.plaintext, vec![1, 2, 2, 1]);
    assert_eq!(s.restart_scores, vec![-50, -20, -90, -20]);
    assert_eq!(s.iterations_per_restart, 99);
    assert_eq!(s.elapsed, Duration::from_millis(5));
}

#[test]
fn restart_results_do_not_depend_on_the_order_they_run_in() {
    let (corpus, model) = corpus_model(2);
    let cipher: Vec<u16> = corpus[..200].iter().map(|&l| (l as u16 * 3) % 26).collect();
    let lf = ln_factorials(cipher.len() + 26);
    let run = |r: u64| {
        let mut rng = Rng::derive(11, r);
        anneal(&model, &cipher, 26, 5_000, &lf, schedule(0.35, 5_000), &mut rng)
    };
    let forward: Vec<(Vec<u8>, i64)> = (0..4).map(run).collect();
    let mut backward: Vec<Option<(Vec<u8>, i64)>> = vec![None; 4];
    for r in (0..4).rev() {
        backward[r as usize] = Some(run(r));
    }
    let backward: Vec<(Vec<u8>, i64)> = backward.into_iter().map(|x| x.unwrap()).collect();
    assert_eq!(forward, backward);
    let a = Solution::from_restarts(forward, &cipher, 5_000, Duration::ZERO);
    let b = Solution::from_restarts(backward, &cipher, 5_000, Duration::ZERO);
    assert_eq!((a.key, a.score, a.best_restart), (b.key, b.score, b.best_restart));
}

#[test]
fn run_plan_keeps_one_restart_and_fills_in_the_default_budget() {
    assert_eq!(run_plan(0, 0, 60), (1, 1_248_000));
    assert_eq!(run_plan(8, 500, 60), (8, 500));
    assert_eq!(run_plan(3, 0, 0), (3, 200_000));
    assert_eq!(run_plan(1, 0, usize::MAX), (1, 20_000_000));
}
