use knn::vote::{distinct_labels, label_total, weighted_vote};
use knn::weights::Weighting;

fn weight_of(weighting: &Weighting, d: f64) -> f64 {
    match weighting {
        Weighting::Uniform => 1.0,
        Weighting::InverseDistance => 1.0 / d,
        Weighting::SmoothedInverse => 1.0 / (1.0 + d),
        Weighting::Gaussian => (-d).exp(),
    }
}

/// Votes among `(distance, label)` pairs, computing the weights and the
/// per-label totals in `f64`.
fn vote(top_k: &[(f64, usize)], weighting: &Weighting) -> usize {
    let pairs: Vec<(u64, usize)> = top_k.iter().map(|&(d, l)| (d.to_bits(), l)).collect();
    if *weighting == Weighting::Uniform {
        return weighted_vote(&pairs, weighting, &[], &[]);
    }
    let weights: Vec<u64> = top_k.iter().map(|&(d, _)| weight_of(weighting, d).to_bits()).collect();
    let labels = distinct_labels(&pairs);
    let plus = |a: u64, b: u64| (f64::from_bits(a) + f64::from_bits(b)).to_bits();
    let totals: Vec<u64> = labels.iter().map(|&l| label_total(&pairs, &weights, l, &plus)).collect();
    weighted_vote(&pairs, weighting, &weights, &totals)
}

#[test]
fn uniform_simple() {
    let top_k = [(0.1, 0), (0.5, 0), (0.9, 1)];
    assert_eq!(vote(&top_k, &Weighting::Uniform), 0);
}

#[test]
fn uniform_unanimous() {
    let top_k = [(1.0, 1), (2.0, 1), (3.0, 1)];
    assert_eq!(vote(&top_k, &Weighting::Uniform), 1);
}

#[test]
fn uniform_single() {
    let top_k = [(1.0, 5)];
    assert_eq!(vote(&top_k, &Weighting::Uniform), 5);
}

#[test]
fn uniform_larger_k_multiple_classes() {
    let top_k = [(1.0, 0), (2.0, 0), (3.0, 0), (4.0, 1), (5.0, 2)];
    assert_eq!(vote(&top_k, &Weighting::Uniform), 0);
}

#[test]
fn uniform_single_label() {
    let top_k = [(1.0, 5), (2.0, 5), (3.0, 5)];
    assert_eq!(vote(&top_k, &Weighting::Uniform), 5);
}

#[test]
fn inverse_distance_closer_wins() {
    let top_k = [(0.1, 1), (2.0, 0)];
    assert_eq!(vote(&top_k, &Weighting::InverseDistance), 1);
}

#[test]
fn inverse_distance_zero_short_circuits() {
    let top_k = [(0.0, 2), (0.1, 0), (0.1, 1)];
    assert_eq!(vote(&top_k, &Weighting::InverseDistance), 2);
}

#[test]
fn smoothed_inverse_no_infinity() {
    let top_k = [(0.0, 1), (1.0, 0), (1.0, 0)];
    assert_eq!(vote(&top_k, &Weighting::SmoothedInverse), 0);
}

#[test]
fn tie_breaks_by_smallest_label() {
    let top_k = [(1.0, 2), (1.0, 0), (1.0, 1)];
    assert_eq!(vote(&top_k, &Weighting::Uniform), 0);
}

#[test]
fn uniform_majority_beats_closer_minority() {
    let top_k = [(0.1, 7), (0.2, 3), (0.3, 3)];
    assert_eq!(vote(&top_k, &Weighting::Uniform), 3);
}

#[test]
fn gaussian_weights_prefer_the_closer_label() {
    let top_k = [(0.0, 4), (3.0, 1), (3.0, 1)];
    // exp(0) = 1 against 2 * exp(-3) ~ 0.0996
    assert_eq!(vote(&top_k, &Weighting::Gaussian), 4);
}

#[test]
fn first_infinite_weight_wins_over_later_ones() {
    let top_k = [(0.5, 1), (0.0, 9), (0.0, 2)];
    assert_eq!(vote(&top_k, &Weighting::InverseDistance), 9);
}

#[test]
fn zero_totals_fall_back_to_the_smallest_label() {
    // exp(-1000) is 0.0 in f64: every total is +0.0 and the smallest label wins.
    let top_k = [(1000.0, 6), (1000.0, 4), (1000.0, 8)];
    assert_eq!(vote(&top_k, &Weighting::Gaussian), 4);
}

#[test]
fn distinct_labels_keep_first_occurrence_order() {
    let pairs = [(0u64, 3usize), (0, 1), (0, 3), (0, 2), (0, 1)];
    assert_eq!(distinct_labels(&pairs), vec![3, 1, 2]);
}

#[test]
fn label_total_adds_the_label_weights_in_order() {
    let pairs = [(0u64, 3usize), (0, 1), (0, 3)];
    let weights: Vec<u64> = [0.25f64, 10.0, 0.5].iter().map(|w| w.to_bits()).collect();
    let plus = |a: u64, b: u64| (f64::from_bits(a) + f64::from_bits(b)).to_bits();
    assert_eq!(f64::from_bits(label_total(&pairs, &weights, 3, &plus)), 0.75);
    assert_eq!(f64::from_bits(label_total(&pairs, &weights, 1, &plus)), 10.0);
    assert_eq!(label_total(&pairs, &weights, 7, &plus), 0.0f64.to_bits());
}

#[test]
fn nan_total_never_wins() {
    let pairs = [(1.0f64.to_bits(), 0usize), (2.0f64.to_bits(), 1usize)];
    let weights = [0.25f64.to_bits(), f64::NAN.to_bits()];
    let totals = [0.25f64.to_bits(), f64::NAN.to_bits()];
    assert_eq!(weighted_vote(&pairs, &Weighting::Gaussian, &weights, &totals), 0);
}

#[test]
fn negative_zero_total_ties_with_the_baseline() {
    // Totals -0.0 and +0.0 are equal as numbers, so the smaller label wins.
    let pairs = [(1.0f64.to_bits(), 5usize), (2.0f64.to_bits(), 3usize)];
    let weights = [(-0.0f64).to_bits(), 0.0f64.to_bits()];
    let totals = [(-0.0f64).to_bits(), 0.0f64.to_bits()];
    assert_eq!(weighted_vote(&pairs, &Weighting::Gaussian, &weights, &totals), 3);
}

#[test]
fn uniform_vote_ignores_neighbor_order() {
    let a = [(0.1, 4), (0.2, 2), (0.3, 4), (0.4, 2), (0.5, 9)];
    let mut b = a;
    b.reverse();
    let mut c = a;
    c.swap(0, 4);
    let r = vote(&a, &Weighting::Uniform);
    assert_eq!(r, 2);
    assert_eq!(vote(&b, &Weighting::Uniform), r);
    assert_eq!(vote(&c, &Weighting::Uniform), r);
}

#[test]
fn every_vote_is_a_neighbor_label() {
    let top_k = [(0.3, 11), (0.7, 12), (1.5, 11), (2.0, 13)];
    for w in [Weighting::Uniform, Weighting::InverseDistance, Weighting::SmoothedInverse, Weighting::Gaussian] {
        let r = vote(&top_k, &w);
        assert!(top_k.iter().any(|&(_, l)| l == r));
    }
}
