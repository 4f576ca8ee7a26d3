use knn::neighbors::offer;
use knn::sort::{select_smallest, sort_indices_by_key};
use knn::total_order::order_key;

fn key(x: f64) -> u64 {
    order_key(x.to_bits())
}

#[test]
fn sort_indices_by_key_orders_by_key() {
    let keys = vec![key(3.0), key(-1.0), key(2.5), key(-7.0), key(0.0)];
    let idx = vec![0usize, 1, 2, 3, 4];
    assert_eq!(sort_indices_by_key(&idx, &keys), vec![3, 1, 4, 2, 0]);
}

#[test]
fn sort_indices_by_key_sorts_a_subset_with_repeats() {
    let keys = vec![key(1.0), key(1.0), key(0.5)];
    let idx = vec![2usize, 0, 2];
    assert_eq!(sort_indices_by_key(&idx, &keys), vec![2, 2, 0]);
}

#[test]
fn offer_fills_then_replaces_the_farthest() {
    let mut best: Vec<(u64, usize)> = Vec::new();
    offer(&mut best, 2, (5.0f64.to_bits(), 0));
    offer(&mut best, 2, (1.0f64.to_bits(), 1));
    assert_eq!(best, vec![(1.0f64.to_bits(), 1), (5.0f64.to_bits(), 0)]);
    offer(&mut best, 2, (3.0f64.to_bits(), 2));
    assert_eq!(best, vec![(1.0f64.to_bits(), 1), (3.0f64.to_bits(), 2)]);
    offer(&mut best, 2, (3.0f64.to_bits(), 3));
    assert_eq!(best, vec![(1.0f64.to_bits(), 1), (3.0f64.to_bits(), 2)]);
}

#[test]
fn offer_puts_a_candidate_after_equal_distances() {
    let mut best: Vec<(u64, usize)> = Vec::new();
    offer(&mut best, 3, (2.0f64.to_bits(), 0));
    offer(&mut best, 3, (2.0f64.to_bits(), 1));
    offer(&mut best, 3, (1.0f64.to_bits(), 2));
    assert_eq!(best, vec![(1.0f64.to_bits(), 2), (2.0f64.to_bits(), 0), (2.0f64.to_bits(), 1)]);
}

#[test]
fn select_smallest_puts_the_k_smallest_first() {
    let keys: Vec<u64> = [9.0, 3.0, 7.0, 1.0, 8.0, 3.0, 0.5, 6.0].iter().map(|&x| key(x)).collect();
    for k in 1..=keys.len() {
        let mut v: Vec<usize> = (0..keys.len()).collect();
        select_smallest(&mut v, k, &keys);
        let mut sorted = v.clone();
        sorted.sort();
        assert_eq!(sorted, (0..keys.len()).collect::<Vec<_>>());
        let max_first = v[..k].iter().map(|&i| keys[i]).max().unwrap();
        assert!(v[k..].iter().all(|&i| keys[i] >= max_first), "k {k}");
    }
}
