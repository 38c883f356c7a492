use arb::sim::rng::SplitMix64;

#[test]
fn deterministic_for_seed() {
    let mut a = SplitMix64::new(42);
    let mut b = SplitMix64::new(42);
    for _ in 0..1000 {
        assert_eq!(a.next_u64(), b.next_u64());
    }
}

#[test]
fn different_seeds_diverge() {
    let mut a = SplitMix64::new(1);
    let mut b = SplitMix64::new(2);
    assert_ne!(a.next_u64(), b.next_u64());
}

#[test]
fn below_in_range_and_roughly_uniform() {
    let mut r = SplitMix64::new(7);
    let n = 5u64;
    let mut counts = [0u64; 5];
    let trials = 100_000u64;
    for _ in 0..trials {
        let v = r.below(n);
        assert!(v < n);
        counts[v as usize] += 1;
    }
    // Each bucket within ~10% of trials/n.
    let expected = trials / n;
    for c in counts {
        let diff = c.abs_diff(expected);
        assert!(diff < expected / 10, "bucket {c} too far from {expected:?}");
    }
}
