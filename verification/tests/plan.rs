use homophone::plan::{measured_lengths, trial_seed, trial_stream};

#[test]
fn measured_lengths_are_sorted_and_distinct() {
    assert_eq!(measured_lengths(&[300, 100, 300, 20, 100], 2, 5).unwrap(), vec![20, 100, 300]);
    assert_eq!(measured_lengths(&[7], 1, 1).unwrap(), vec![7]);
}

#[test]
fn an_empty_plan_is_an_error() {
    let msg = "unicity needs at least one length, one symbol count and one trial";
    assert_eq!(measured_lengths(&[], 2, 5).unwrap_err(), msg);
    assert_eq!(measured_lengths(&[100], 0, 5).unwrap_err(), msg);
    assert_eq!(measured_lengths(&[100], 2, 0).unwrap_err(), msg);
}

#[test]
fn trial_streams_and_seeds() {
    assert_eq!(trial_stream(60, 3), (60u64 << 32) | 3);
    let stream = trial_stream(26, 1);
    assert_eq!(trial_seed(17, stream, 150), 17 ^ stream.rotate_left(8) ^ 150);
    assert_eq!(trial_seed(0, 1u64 << 60, 0), 1u64 << 4);
}
