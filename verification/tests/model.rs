use homophone::model::{ModelError, NgramModel, MAX_ORDER, MIN_ORDER};
use homophone::{letters_from_text, letters_to_string, Rng};

const SCALE: f64 = 1000.0;

/// round(1000 ln(num / den)), clamped to -32767..=0.
fn quantised_log_ratio(num: u64, den: u64) -> i16 {
    ((num as f64 / den as f64).ln() * SCALE)
        .round()
        .clamp(i16::MIN as f64 + 1.0, 0.0) as i16
}

/// Picks the letter after `ctx` with probability proportional to
/// exp(table value), ignoring floor entries; uniform when none is seen.
fn pick(m: &NgramModel, ctx: usize, draw: u64) -> usize {
    let row = &m.table()[ctx * 26..ctx * 26 + 26];
    let weights: Vec<f64> = row
        .iter()
        .map(|&v| if v > m.floor() { (v as f64 / SCALE).exp() } else { 0.0 })
        .collect();
    let total: f64 = weights.iter().sum();
    if total <= 0.0 {
        return ((draw as u128 * 26u128) >> 64) as usize;
    }
    let mut target = (draw >> 11) as f64 * (1.0 / (1u64 << 53) as f64) * total;
    for (i, &w) in weights.iter().enumerate() {
        if target < w {
            return i;
        }
        target -= w;
    }
    weights.iter().rposition(|&w| w > 0.0).unwrap_or(0)
}

#[test]
fn conditional_probabilities_match_counts() {
    // Context "AB" is followed by C twice and D once.
    let text = letters_from_text("ABCABCABD");
    let m = NgramModel::train(&text, 3, quantised_log_ratio).unwrap();
    let abc = m.ngram_score(&letters_from_text("ABC")) as f64 / SCALE;
    let abd = m.ngram_score(&letters_from_text("ABD")) as f64 / SCALE;
    assert!((abc - (2.0f64 / 3.0).ln()).abs() < 1e-3);
    assert!((abd - (1.0f64 / 3.0).ln()).abs() < 1e-3);
    // "BCA" is the only continuation of "BC".
    assert_eq!(m.ngram_score(&letters_from_text("BCA")), 0);
}

#[test]
fn rolling_score_equals_sum_of_windows() {
    let mut rng = Rng::new(5);
    let corpus: Vec<u8> = (0..5000).map(|_| rng.below(26) as u8).collect();
    for order in MIN_ORDER..=MAX_ORDER {
        let m = NgramModel::train(&corpus, order, quantised_log_ratio).unwrap();
        let text = &corpus[100..400];
        let naive: i64 = text.windows(order).map(|w| m.ngram_score(w) as i64).sum();
        assert_eq!(m.score_text(text), naive, "order {order}");
    }
}

#[test]
fn round_trips_through_bytes_and_rejects_corruption() {
    let text = letters_from_text("the quick brown fox jumps over the lazy dog");
    let m = NgramModel::train(&text, 4, quantised_log_ratio).unwrap();
    let mut buf = Vec::new();
    m.write_to(&mut buf).unwrap();
    let back = NgramModel::read_from(&buf[..]).unwrap();
    assert_eq!(back.table(), m.table());
    assert_eq!(back.floor(), m.floor());

    let truncated = &buf[..buf.len() - 2];
    assert!(matches!(
        NgramModel::read_from(truncated),
        Err(ModelError::Format(_))
    ));
    let mut bad_magic = buf.clone();
    bad_magic[0] = b'X';
    assert!(matches!(
        NgramModel::read_from(&bad_magic[..]),
        Err(ModelError::Format(_))
    ));
    let mut bad_order = buf.clone();
    bad_order[5] = 9;
    assert_eq!(
        NgramModel::read_from(&bad_order[..]).unwrap_err(),
        ModelError::BadOrder(9)
    );
}

#[test]
fn rejects_bad_orders_and_short_corpora() {
    let text = letters_from_text("abcdef");
    assert_eq!(
        NgramModel::train(&text, 1, quantised_log_ratio).unwrap_err(),
        ModelError::BadOrder(1)
    );
    assert_eq!(
        NgramModel::train(&text, 6, quantised_log_ratio).unwrap_err(),
        ModelError::BadOrder(6)
    );
    assert_eq!(
        NgramModel::train(&text[..2], 3, quantised_log_ratio).unwrap_err(),
        ModelError::CorpusTooShort {
            letters: 2,
            order: 3
        }
    );
}

#[test]
fn sampling_follows_a_deterministic_model() {
    // Every context in this corpus has exactly one continuation.
    let text = letters_from_text(&"ABCDE".repeat(200));
    let m = NgramModel::train(&text, 3, quantised_log_ratio).unwrap();
    // A random start context is usually unseen and wanders uniformly until
    // it lands in the cycle, after which it can never leave.
    let s = m.sample(3000, &mut Rng::new(11), pick);
    assert_eq!(s.len(), 3000);
    assert!(s[1000..].windows(2).all(|w| (w[0] + 1) % 5 == w[1]));
}

#[test]
fn unseen_ngrams_get_a_finite_floor_below_every_seen_ngram() {
    let corpus = letters_from_text("THEQUICKBROWNFOXJUMPSOVERTHELAZYDOG");
    let model = NgramModel::train(&corpus, 3, quantised_log_ratio).unwrap();
    let floor = model.floor();
    assert!(floor < 0, "floor must be a penalty");
    assert!(floor > i16::MIN, "floor must be finite, not saturated");

    let seen: Vec<i16> = corpus.windows(3).map(|w| model.ngram_score(w)).collect();
    assert!(seen.iter().all(|&v| v > floor));
    // "THE" occurs twice after "TH", so it is certain in this corpus.
    assert_eq!(model.ngram_score(&letters_from_text("THE")), 0);

    // Text made only of unseen trigrams scores exactly windows * floor.
    let garbage = letters_from_text("QQQQQQQQQQ");
    assert_eq!(model.score_text(&garbage), 8 * floor as i64);

    // A single unseen window costs a bounded amount instead of -infinity, so
    // an otherwise good decryption still outranks garbage.
    let mostly_good = letters_from_text("THEQUICKBROWNFOXJUMPSQ");
    let good_len = mostly_good.len();
    let all_garbage = vec![16u8; good_len];
    assert!(model.score_text(&mostly_good) > model.score_text(&all_garbage));
}

#[test]
fn letters_are_extracted_and_rendered() {
    assert_eq!(letters_from_text("Hi, zZ!"), vec![7, 8, 25, 25]);
    assert_eq!(letters_from_text("éa"), vec![0]);
    assert_eq!(letters_to_string(&[0, 1, 25]), "ABZ");
    assert_eq!(letters_to_string(&[]), "");
}

#[test]
fn floor_is_half_a_count_in_the_busiest_context() {
    // Context "A" is followed by A four times and B once: busiest total 5,
    // floor ln(0.5 / 5).
    let text = letters_from_text("AAAAAB");
    let m = NgramModel::train(&text, 2, quantised_log_ratio).unwrap();
    assert_eq!(m.floor(), quantised_log_ratio(1, 10));
    assert_eq!(m.ngram_score(&[0, 0]), quantised_log_ratio(4, 5));
    assert_eq!(m.ngram_score(&[0, 1]), quantised_log_ratio(1, 5));
    assert_eq!(m.ngram_score(&[1, 0]), m.floor());
    assert_eq!(m.order(), 2);
    assert_eq!(m.table().len(), 676);
}

#[test]
fn short_text_scores_zero_and_bad_version_is_a_format_error() {
    let m = NgramModel::train(&letters_from_text("ABCDEFG"), 3, quantised_log_ratio).unwrap();
    assert_eq!(m.score_text(&[0, 1]), 0);
    let mut buf = Vec::new();
    m.write_to(&mut buf).unwrap();
    assert_eq!(&buf[..4], b"HPHM");
    assert_eq!(buf.len(), 8 + 2 * 17576);
    buf[4] = 2;
    assert!(matches!(NgramModel::read_from(&buf[..]), Err(ModelError::Format(_))));
    assert!(matches!(NgramModel::read_from(&[]), Err(ModelError::Format(_))));
}

#[test]
fn error_messages_describe_the_problem() {
    assert_eq!(
        ModelError::BadOrder(7).message(),
        "model order must be between 2 and 5, got 7"
    );
    assert_eq!(
        ModelError::CorpusTooShort { letters: 2, order: 3 }.message(),
        "corpus has 2 letters, not enough for a single 3-gram"
    );
    assert_eq!(
        ModelError::Format("x".to_string()).message(),
        "invalid model file: x"
    );
}

#[test]
fn format_errors_name_the_version_and_the_sizes() {
    let m = NgramModel::train(&letters_from_text("ABCDEFG"), 2, quantised_log_ratio).unwrap();
    let mut buf = Vec::new();
    m.write_to(&mut buf).unwrap();
    let mut bad_version = buf.clone();
    bad_version[4] = 17;
    assert_eq!(
        NgramModel::read_from(&bad_version[..]).unwrap_err(),
        ModelError::Format("unsupported version 17".to_string())
    );
    assert_eq!(
        NgramModel::read_from(&buf[..buf.len() - 3]).unwrap_err(),
        ModelError::Format("expected 1352 table bytes for order 2, found 1349".to_string())
    );
    assert_eq!(
        NgramModel::read_from(b"HPH").unwrap_err(),
        ModelError::Format("missing HPHM header".to_string())
    );
    assert_eq!(
        ModelError::CorpusTooShort { letters: 1234567890, order: 10 }.message(),
        "corpus has 1234567890 letters, not enough for a single 10-gram"
    );
    assert_eq!(ModelError::BadOrder(0).message(), "model order must be between 2 and 5, got 0");
}

#[test]
fn letters_survive_rendering_and_reading_back() {
    let letters: Vec<u8> = (0..26u8).chain([25, 0, 13, 13]).collect();
    assert_eq!(letters_from_text(&letters_to_string(&letters)), letters);
    assert_eq!(letters_from_text(&letters_to_string(&[])), Vec::<u8>::new());
}
