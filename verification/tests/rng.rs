use homophone::Rng;

#[test]
fn same_seed_same_stream_and_different_seeds_diverge() {
    let a: Vec<u64> = (0..8)
        .map({
            let mut r = Rng::new(7);
            move |_| r.next_u64()
        })
        .collect();
    let b: Vec<u64> = (0..8)
        .map({
            let mut r = Rng::new(7);
            move |_| r.next_u64()
        })
        .collect();
    let c: Vec<u64> = (0..8)
        .map({
            let mut r = Rng::new(8);
            move |_| r.next_u64()
        })
        .collect();
    assert_eq!(a, b);
    assert_ne!(a, c);
}

#[test]
fn below_is_in_range_and_covers_all_values() {
    let mut r = Rng::new(1);
    let mut seen = [0usize; 7];
    for _ in 0..7000 {
        seen[r.below(7)] += 1;
    }
    assert!(seen.iter().all(|&c| c > 800 && c < 1200), "{seen:?}");
}

#[test]
fn splitmix_seeding_matches_reference_values() {
    // SplitMix64 from seed 0 starts 0xE220A8397B1DCDAF, 0x6E789E6AA1B965F4.
    // xoshiro256** then outputs rotl(s1 * 5, 7) * 9.
    let mut r = Rng::new(0);
    let s1: u64 = 0x6E78_9E6A_A1B9_65F4;
    let expected = s1.wrapping_mul(5).rotate_left(7).wrapping_mul(9);
    assert_eq!(r.next_u64(), expected);
}

#[test]
fn derived_streams_differ_and_repeat() {
    let mut a = Rng::derive(5, 1);
    let mut b = Rng::derive(5, 1);
    let mut c = Rng::derive(5, 2);
    let xa = a.next_u64();
    assert_eq!(xa, b.next_u64());
    assert_ne!(xa, c.next_u64());
    // stream 0 derives the plain seed.
    assert_eq!(Rng::derive(9, 0).next_u64(), Rng::new(9).next_u64());
}

#[test]
fn below_one_is_always_zero() {
    let mut r = Rng::new(3);
    for _ in 0..100 {
        assert_eq!(r.below(1), 0);
    }
}

#[test]
fn shuffle_is_a_permutation() {
    let mut r = Rng::new(4);
    let mut items: Vec<u16> = (0..50).collect();
    r.shuffle(&mut items);
    let mut sorted = items.clone();
    sorted.sort_unstable();
    assert_eq!(sorted, (0..50).collect::<Vec<u16>>());
    assert_ne!(items, (0..50).collect::<Vec<u16>>());
    let mut empty: Vec<u8> = Vec::new();
    r.shuffle(&mut empty);
    assert!(empty.is_empty());
}
