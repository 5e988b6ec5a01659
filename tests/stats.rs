use puzzle_sim::stats::{exact_moments_fit, SimulationError, SimulationStats};

fn summary(values: &[u64]) -> SimulationStats {
    assert!(exact_moments_fit(values));
    SimulationStats::from_values(values).unwrap()
}

#[test]
fn summary_of_one_to_five() {
    let s = summary(&[1, 2, 3, 4, 5]);
    assert_eq!(s.count, 5);
    assert_eq!(s.min_moves, 1);
    assert_eq!(s.max_moves, 5);
    assert_eq!(s.min_moves_count, 1);
    assert_eq!(s.sum, 15);
    assert_eq!(s.sum_squares, 55);
    assert_eq!(s.sum_cubes, 225);
    assert_eq!(s.sum_fourths, 979);
    assert_eq!(s.median_low, 3);
    assert_eq!(s.median_high, 3);
    let n = s.count as f64;
    let mean = s.sum as f64 / n;
    let variance = s.sum_squares as f64 / n - mean * mean;
    assert_eq!(mean, 3.0);
    assert_eq!(variance, 2.0);
    assert_eq!(variance.sqrt(), 2.0f64.sqrt());
    assert_eq!((s.median_low + s.median_high) as f64 / 2.0, 3.0);
    assert_eq!(s.min_moves_count as f64 / n, 0.2);
}

#[test]
fn empty_sample_is_refused() {
    assert!(matches!(
        SimulationStats::from_values(&[]),
        Err(SimulationError::EmptyMoveArray)
    ));
}

#[test]
fn constant_sample_is_refused() {
    assert!(matches!(
        SimulationStats::from_values(&[4, 4, 4, 4]),
        Err(SimulationError::StatisticalError(_))
    ));
}

#[test]
fn single_outcome_is_refused() {
    assert!(matches!(
        SimulationStats::from_values(&[9]),
        Err(SimulationError::StatisticalError(_))
    ));
}

#[test]
fn reversed_sample_gives_same_summary() {
    let forward = summary(&[7, 2, 9]);
    let backward = summary(&[9, 2, 7]);
    assert_eq!(forward, backward);
    assert_eq!(forward.median_low, 7);
    assert_eq!(forward.median_high, 7);
}

#[test]
fn median_of_unsorted_even_sample() {
    let s = summary(&[4, 1, 3, 2]);
    assert_eq!(s.median_low, 2);
    assert_eq!(s.median_high, 3);
    assert_eq!(s.min_moves, 1);
    assert_eq!(s.max_moves, 4);
}

#[test]
fn repeated_minimum_is_counted() {
    let s = summary(&[3, 8, 3, 5, 3]);
    assert_eq!(s.min_moves, 3);
    assert_eq!(s.min_moves_count, 3);
    assert_eq!(s.median_low, 3);
    assert_eq!(s.sum, 22);
}

#[test]
fn moment_bound_check() {
    assert!(exact_moments_fit(&[]));
    assert!(exact_moments_fit(&[1, 2, 3]));
    assert!(exact_moments_fit(&[u32::MAX as u64, 1]));
    assert!(!exact_moments_fit(&[u64::MAX]));
    assert!(!exact_moments_fit(&[1, 1u64 << 32, 1u64 << 32]));
}

#[test]
fn large_outcomes_are_summed_exactly() {
    let big = 1u64 << 31;
    let s = summary(&[big, 0]);
    assert_eq!(s.sum, big as u128);
    assert_eq!(s.sum_fourths, (big as u128).pow(4));
}
