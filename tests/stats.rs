use simcheck::stats::Similarities;

fn mean(sum: u128, n: usize) -> f64 {
    sum as f64 / n as f64
}

fn std_dev(sum: u128, sum_sq: u128, n: usize) -> f64 {
    let n = n as f64;
    let var = (n * sum_sq as f64 - (sum as f64) * (sum as f64)) / (n * n);
    var.sqrt()
}

#[test]
fn test_avg() {
    let mut similarities = Similarities::new();
    similarities.add(10);
    similarities.add(20);
    similarities.add(30);
    assert_eq!(similarities.sum() as f32 / similarities.len() as f32, 20.0);
    assert_eq!(similarities.num_zeroes(), 0);
    similarities.add(0);
    assert_eq!(
        similarities.sum_non_zeroes() as f32 / similarities.len_non_zeroes() as f32,
        20.0
    );
    assert_eq!(similarities.sum() as f32 / similarities.len() as f32, 15.0);
    assert_eq!(similarities.num_zeroes(), 1);
}

#[test]
fn mean_and_population_deviation() {
    let mut s = Similarities::new();
    for x in [10u8, 20, 30] {
        s.add(x);
    }
    assert_eq!(s.len(), 3);
    assert_eq!(s.sum(), 60);
    assert_eq!(s.sum_of_squares(), 1400);
    assert_eq!(mean(s.sum(), s.len()), 20.0);
    let sd = std_dev(s.sum(), s.sum_of_squares(), s.len());
    assert!((sd - 8.16496580927726).abs() < 1e-9);
}

#[test]
fn zero_score_changes_overall_not_non_zero() {
    let mut s = Similarities::new();
    for x in [10u8, 20, 30, 0] {
        s.add(x);
    }
    assert_eq!(s.len(), 4);
    assert_eq!(s.len_non_zeroes(), 3);
    assert_eq!(s.num_zeroes(), 1);
    assert_eq!(mean(s.sum(), s.len()), 15.0);
    assert_eq!(mean(s.sum_non_zeroes(), s.len_non_zeroes()), 20.0);
    assert_eq!(s.sum_of_squares_non_zeroes(), 1400);
    let sd = std_dev(s.sum_non_zeroes(), s.sum_of_squares_non_zeroes(), s.len_non_zeroes());
    assert!((sd - 8.16496580927726).abs() < 1e-9);
}

#[test]
fn empty_stream() {
    let s = Similarities::new();
    assert!(s.empty());
    assert_eq!(s.len(), 0);
    assert_eq!(s.len_non_zeroes(), 0);
    assert_eq!(s.num_zeroes(), 0);
    assert_eq!(s.sum(), 0);
    assert_eq!(s.sum_of_squares(), 0);
}

#[test]
fn largest_scores_sum_exactly() {
    let mut s = Similarities::new();
    for _ in 0..1000 {
        s.add(100);
    }
    s.add(255);
    assert!(!s.empty());
    assert_eq!(s.sum(), 100_255);
    assert_eq!(s.sum_of_squares(), 10_000_000 + 65_025);
    assert_eq!(s.num_zeroes(), 0);
}
