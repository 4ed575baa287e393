use est_inf::accumulator::Accumulator;
use est_inf::estimate::influence_estimate;
use est_inf::seeds::SeedSet;

#[test]
fn estimate_is_hits_times_nodes_over_samples() {
    let e = influence_estimate(3, 10, 7).unwrap();
    assert_eq!(e.numerator, 21);
    assert_eq!(e.denominator, 10);
    assert_eq!(e.numerator as f64 / e.denominator as f64, 2.1);
}

#[test]
fn estimate_without_samples_is_none() {
    assert!(influence_estimate(0, 0, 7).is_none());
}

#[test]
fn estimate_of_large_counts_does_not_overflow() {
    let e = influence_estimate(u64::MAX, 1, u64::MAX).unwrap();
    assert_eq!(e.numerator, (u64::MAX as u128) * (u64::MAX as u128));
}

#[test]
fn estimate_grows_with_hits() {
    let mut last = 0u128;
    for h in 0..=20u64 {
        let e = influence_estimate(h, 20, 9).unwrap();
        assert!(e.numerator >= last);
        last = e.numerator;
    }
}

#[test]
fn all_nodes_seeded_estimates_node_count() {
    let n: usize = 6;
    let seeds = SeedSet::from_ids(&(0..n).collect());
    let mut acc = Accumulator::new(4);
    let batch: Vec<Vec<usize>> = (0..10).map(|i| vec![i % n]).collect();
    assert!(acc.consume_batch(&batch, &seeds));
    assert_eq!(acc.total_samples(), 4);
    let e = acc.estimate(n as u64).unwrap();
    assert_eq!(e.numerator, 24);
    assert_eq!(e.denominator, 4);
    assert_eq!(e.numerator as f64 / e.denominator as f64, n as f64);
}
