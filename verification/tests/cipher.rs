use homophone::{decrypt_with, matching_positions, Ciphertext, HomophonicKey, Rng};

#[test]
fn parsing_renumbers_by_first_appearance() {
    let c = Ciphertext::parse_tokens("17 03 17\n99  03").unwrap();
    assert_eq!(c.symbols, vec![0, 1, 0, 2, 1]);
    assert_eq!(c.names, vec!["17", "03", "99"]);
    let c = Ciphertext::parse_chars("K+ pK").unwrap();
    assert_eq!(c.symbols, vec![0, 1, 2, 0]);
    assert_eq!(c.num_symbols(), 3);
}

#[test]
fn parsing_handles_unicode_whitespace_and_empty_text() {
    let c = Ciphertext::parse_tokens("a\u{3000}b\u{a0}a\t").unwrap();
    assert_eq!(c.symbols, vec![0, 1, 0]);
    assert_eq!(c.names, vec!["a", "b"]);
    let e = Ciphertext::parse_tokens("  \n ").unwrap();
    assert!(e.symbols.is_empty() && e.names.is_empty());
    let c = Ciphertext::parse_chars("ééx").unwrap();
    assert_eq!(c.symbols, vec![0, 0, 1]);
    assert_eq!(c.names, vec!["é", "x"]);
}

#[test]
fn too_many_distinct_symbols_is_an_error() {
    let text: String = (0..65537).map(|i| format!("{i} ")).collect();
    assert!(Ciphertext::parse_tokens(&text).is_err());
    let ok: String = (0..65536).map(|i| format!("{i} ")).collect();
    assert_eq!(Ciphertext::parse_tokens(&ok).unwrap().num_symbols(), 65536);
}

#[test]
fn allocated_keys_are_consistent_and_round_trip() {
    let mut rng = Rng::new(2);
    let mut per_letter = [1usize; 26];
    per_letter[4] = 4;
    per_letter[19] = 3;
    let key = HomophonicKey::from_allocation(&per_letter, &mut rng);
    assert_eq!(key.num_symbols(), 31);
    assert_eq!(key.homophones[4].len(), 4);
    assert_eq!(key.homophones[19].len(), 3);
    let mut all: Vec<u16> = key.homophones.concat();
    all.sort_unstable();
    assert_eq!(all, (0..31u16).collect::<Vec<_>>());
    let plain: Vec<u8> = (0..500).map(|_| rng.below(26) as u8).collect();
    let cipher = key.encrypt(&plain, &mut rng);
    assert_eq!(key.decrypt(&cipher), plain);
}

#[test]
fn encryption_uses_every_homophone() {
    let mut rng = Rng::new(9);
    let mut per_letter = [1usize; 26];
    per_letter[0] = 3;
    let key = HomophonicKey::from_allocation(&per_letter, &mut rng);
    let cipher = key.encrypt(&[0u8; 300], &mut rng);
    for &s in &key.homophones[0] {
        assert!(cipher.contains(&s));
    }
    assert!(cipher.iter().all(|s| key.homophones[0].contains(s)));
}

#[test]
fn decrypt_and_match_counting() {
    assert_eq!(decrypt_with(&[3, 1, 4], &[2, 0, 0, 1]), vec![4, 3, 3, 1]);
    assert_eq!(matching_positions(&[1, 2, 3, 4], &[1, 0, 3, 0]), 2);
    assert_eq!(matching_positions(&[], &[]), 0);
}

/// Fraction of positions where `guess` matches `truth`; all of an empty text.
fn recovery_rate(truth: &[u8], guess: &[u8]) -> f64 {
    if truth.is_empty() {
        return 1.0;
    }
    matching_positions(truth, guess) as f64 / truth.len() as f64
}

#[test]
fn recovery_counts_matching_positions() {
    assert_eq!(recovery_rate(&[1, 2, 3, 4], &[1, 0, 3, 0]), 0.5);
    assert_eq!(recovery_rate(&[], &[]), 1.0);
}

/// Chooses among letters with room left in proportion to `weights`, as the
/// command-line key generator does.
fn weighted_pick(weights: [f64; 26], max_per_letter: usize) -> impl Fn(&[usize], u64) -> usize {
    move |per_letter: &[usize], draw: u64| {
        let w: Vec<f64> = (0..26)
            .map(|l| {
                if per_letter[l] < max_per_letter {
                    weights[l].max(0.0) + 1e-9
                } else {
                    0.0
                }
            })
            .collect();
        let total: f64 = w.iter().sum();
        let mut target = (draw >> 11) as f64 * (1.0 / (1u64 << 53) as f64) * total;
        for (i, &x) in w.iter().enumerate() {
            if target < x {
                return i;
            }
            target -= x;
        }
        w.iter().rposition(|&x| x > 0.0).unwrap_or(0)
    }
}

#[test]
fn random_key_respects_bounds_and_round_trips() {
    let mut rng = Rng::new(2);
    let weights = [1.0 / 26.0; 26];
    for num_symbols in [26, 40, 63, 80, 104] {
        let key = HomophonicKey::random(num_symbols, 4, weighted_pick(weights, 4), &mut rng).unwrap();
        assert_eq!(key.num_symbols(), num_symbols);
        assert!(key.homophones.iter().all(|h| (1..=4).contains(&h.len())));
        let mut all: Vec<u16> = key.homophones.concat();
        all.sort_unstable();
        assert_eq!(all, (0..num_symbols as u16).collect::<Vec<_>>());
        let plain: Vec<u8> = (0..500).map(|_| rng.below(26) as u8).collect();
        let cipher = key.encrypt(&plain, &mut rng);
        assert_eq!(key.decrypt(&cipher), plain);
    }
}

#[test]
fn extra_homophones_follow_letter_weights() {
    let mut weights = [0.0; 26];
    weights[4] = 1.0;
    weights[19] = 1.0;
    let key = HomophonicKey::random(32, 4, weighted_pick(weights, 4), &mut Rng::new(1)).unwrap();
    assert_eq!(key.homophones[4].len(), 4);
    assert_eq!(key.homophones[19].len(), 4);
}

#[test]
fn impossible_keys_are_rejected() {
    let w = [1.0; 26];
    let mut rng = Rng::new(0);
    assert!(HomophonicKey::random(25, 4, weighted_pick(w, 4), &mut rng).is_err());
    assert!(HomophonicKey::random(105, 4, weighted_pick(w, 4), &mut rng).is_err());
    assert!(HomophonicKey::random(30, 0, weighted_pick(w, 0), &mut rng).is_err());
}

#[test]
fn a_chooser_without_room_falls_back_to_the_first_letter_with_room() {
    // Always names letter 0, which fills up after three extra symbols.
    let key = HomophonicKey::random(29, 4, |_: &[usize], _: u64| 0, &mut Rng::new(5)).unwrap();
    assert_eq!(key.homophones[0].len(), 4);
    assert_eq!(key.homophones[1].len(), 1);
    let key = HomophonicKey::random(30, 4, |_: &[usize], _: u64| 0, &mut Rng::new(5)).unwrap();
    assert_eq!(key.homophones[0].len(), 4);
    assert_eq!(key.homophones[1].len(), 2);
    // Not a letter at all: every extra symbol goes to the first letter with room.
    let key = HomophonicKey::random(31, 4, |_: &[usize], _: u64| 99, &mut Rng::new(5)).unwrap();
    assert_eq!(key.homophones[0].len(), 4);
    assert_eq!(key.homophones[1].len(), 3);
    let err = HomophonicKey::random(200, 4, |_: &[usize], _: u64| 0, &mut Rng::new(5)).unwrap_err();
    assert_eq!(err, "cannot build a key with 200 symbols and at most 4 homophones per letter (need 26..=104)");
}
