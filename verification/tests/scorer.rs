use homophone::{letters_from_text, LnFactorials, NgramModel, Scorer};

const SCALE: f64 = 1000.0;

fn quantised_log_ratio(num: u64, den: u64) -> i16 {
    ((num as f64 / den as f64).ln() * SCALE)
        .round()
        .clamp(i16::MIN as f64 + 1.0, 0.0) as i16
}

/// `table[x] = round(SCALE * ln x!)` for `x` in `0..=max`.
fn ln_factorials(max: usize) -> LnFactorials {
    let mut acc = 0f64;
    let values: Vec<i64> = (0..=max)
        .map(|x| {
            if x > 1 {
                acc += (x as f64).ln();
            }
            (SCALE * acc).round() as i64
        })
        .collect();
    LnFactorials::from_values(values).expect("ln x! fits the bound")
}

#[test]
fn delta_matches_rescoring_on_overlapping_occurrences() {
    let corpus = letters_from_text(&"thequickbrownfoxjumpsoverthelazydog".repeat(20));
    let model = NgramModel::train(&corpus, 4, quantised_log_ratio).unwrap();
    // Symbol 0 appears at adjacent positions, so its windows overlap.
    let cipher = [0u16, 0, 1, 0, 2, 2, 0, 1, 0, 0, 0, 3];
    let lf = ln_factorials(cipher.len() + 4);
    let mut sc = Scorer::new(&model, &cipher, vec![19, 7, 4, 16], &lf);
    for (s, l) in [(0usize, 4u8), (2, 0), (0, 14), (3, 3), (1, 1), (1, 1)] {
        let before = sc.score();
        let d = sc.apply(s, l);
        assert_eq!(sc.score(), sc.full_rescore());
        assert_eq!(before + d, sc.score());
    }
}

#[test]
fn homophone_term_is_the_dirichlet_marginal_likelihood() {
    let corpus = letters_from_text(&"abcd".repeat(50));
    let model = NgramModel::train(&corpus, 2, quantised_log_ratio).unwrap();
    // Symbols 0 and 1 both decrypt to A; 0 occurs 3 times, 1 once.
    // ln Γ(2) − ln Γ(4 + 2) + ln 3! + ln 1!  =  ln(6 / 120).
    let cipher = [0u16, 0, 1, 0];
    let lf = ln_factorials(cipher.len() + 2);
    let sc = Scorer::new(&model, &cipher, vec![0, 0], &lf);
    let expected_homophone = (6.0f64 / 120.0).ln();
    let ngrams = model.score_text(&[0, 0, 0, 0]) as f64;
    let got = (sc.score() as f64 - ngrams) / SCALE;
    assert!(
        (got - expected_homophone).abs() < 0.01,
        "{got} vs {expected_homophone}"
    );
}

#[test]
fn merging_symbols_onto_one_letter_is_penalised() {
    // A model where A->A is certain: the n-gram term alone prefers "AAAA".
    let corpus = letters_from_text(&"a".repeat(100));
    let model = NgramModel::train(&corpus, 2, quantised_log_ratio).unwrap();
    let cipher: Vec<u16> = (0..40).map(|i| (i % 4) as u16).collect();
    let lf = ln_factorials(cipher.len() + 4);
    let merged = Scorer::new(&model, &cipher, vec![0, 0, 0, 0], &lf);
    let n_gram_only = model.score_text(merged.plaintext());
    assert_eq!(n_gram_only, 0);
    assert!(merged.score() < -(40.0 * 4f64.ln() * SCALE * 0.99) as i64);
}

#[test]
fn rollback_restores_text_and_score() {
    let corpus = letters_from_text(&"abcdefghijklmnopqrstuvwxyz".repeat(10));
    let model = NgramModel::train(&corpus, 3, quantised_log_ratio).unwrap();
    let cipher = [0u16, 1, 2, 1, 0, 2, 2, 1];
    let lf = ln_factorials(cipher.len() + 3);
    let mut sc = Scorer::new(&model, &cipher, vec![0, 1, 2], &lf);
    let text = sc.plaintext().to_vec();
    let score = sc.score();
    let d = sc.propose(1, 9);
    assert_ne!(d, 0);
    sc.rollback();
    assert_eq!(sc.plaintext(), &text[..]);
    assert_eq!(sc.score(), score);
    assert_eq!(sc.key(), &[0, 1, 2]);
    // A later committed move must see the restored letter counts.
    sc.apply(0, 1);
    assert_eq!(sc.score(), sc.full_rescore());
}

#[test]
fn set_key_and_occurrences() {
    let corpus = letters_from_text(&"thequickbrownfoxjumpsoverthelazydog".repeat(5));
    let model = NgramModel::train(&corpus, 3, quantised_log_ratio).unwrap();
    let cipher = [0u16, 1, 1, 2, 0, 1];
    let lf = ln_factorials(cipher.len() + 4);
    let mut sc = Scorer::new(&model, &cipher, vec![0, 0, 0, 0], &lf);
    assert_eq!(sc.occurrences(0), 2);
    assert_eq!(sc.occurrences(1), 3);
    assert_eq!(sc.occurrences(3), 0);
    assert_eq!(sc.num_symbols(), 4);
    sc.set_key(&[19, 7, 4, 0]);
    assert_eq!(sc.plaintext(), &[19, 7, 7, 4, 19, 7]);
    assert_eq!(sc.score(), sc.full_rescore());
    let fresh = Scorer::new(&model, &cipher, vec![19, 7, 4, 0], &lf);
    assert_eq!(sc.score(), fresh.score());
}

#[test]
fn short_ciphertexts_score_only_the_homophone_term() {
    let corpus = letters_from_text(&"abcabcabc".repeat(3));
    let model = NgramModel::train(&corpus, 3, quantised_log_ratio).unwrap();
    for len in 0..3usize {
        let cipher: Vec<u16> = (0..len as u16).collect();
        let lf = ln_factorials(cipher.len() + 4);
        let mut sc = Scorer::new(&model, &cipher, vec![0; 4], &lf);
        assert_eq!(model.score_text(sc.plaintext()), 0);
        for l in 0..26 {
            if len > 0 {
                sc.apply(0, l);
            }
            assert_eq!(sc.score(), sc.full_rescore());
        }
    }
}

#[test]
fn ln_factorial_tables_are_checked() {
    assert!(LnFactorials::from_values(vec![0, 0, 693]).is_some());
    assert!(LnFactorials::from_values(vec![0, 1]).is_some());
    assert!(LnFactorials::from_values(vec![0, -1]).is_none());
    assert!(LnFactorials::from_values(vec![1]).is_none());
    assert!(LnFactorials::from_values(vec![0, 40000]).is_none());
    let lf = LnFactorials::from_values(vec![0, 0, 693]).unwrap();
    assert_eq!(lf.len(), 3);
    assert_eq!(lf.get(2), 693);
}
