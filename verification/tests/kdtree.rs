use knn::brute::brute_force_search;
use knn::kdtree::build_kdtree;

fn bits(values: &[f64]) -> Vec<u64> {
    values.iter().map(|x| x.to_bits()).collect()
}

fn euclidean(a: &[f64], b: &[f64]) -> f64 {
    a.iter().zip(b).map(|(x, y)| (x - y) * (x - y)).sum::<f64>().sqrt()
}

fn manhattan(a: &[f64], b: &[f64]) -> f64 {
    a.iter().zip(b).map(|(x, y)| (x - y).abs()).sum()
}

/// Builds the tree over `data` and searches it for the `k` nearest
/// neighbors of `query` under `metric`.
fn kd_search(
    data: &[f64],
    dim: usize,
    query: &[f64],
    k: usize,
    metric: fn(&[f64], &[f64]) -> f64,
) -> Vec<(f64, usize)> {
    let tree = build_kdtree(&bits(data), dim);
    let distance = |i: usize| metric(&data[i * dim..(i + 1) * dim], query).to_bits();
    let split = |i: usize, axis: usize| {
        let q = query[axis];
        let c = data[i * dim + axis];
        ((q - c).abs().to_bits(), q <= c)
    };
    tree.k_nearest(k, &distance, &split)
        .into_iter()
        .map(|(d, i)| (f64::from_bits(d), i))
        .collect()
}

fn brute_search(data: &[f64], dim: usize, query: &[f64], k: usize, metric: fn(&[f64], &[f64]) -> f64) -> Vec<(f64, usize)> {
    let n = data.len() / dim;
    let dists: Vec<u64> = (0..n).map(|i| metric(&data[i * dim..(i + 1) * dim], query).to_bits()).collect();
    brute_force_search(&dists, k)
        .into_iter()
        .map(|(d, i)| (f64::from_bits(d), i))
        .collect()
}

#[test]
fn test_simple_1nn() {
    // Three 2D points: (0,0), (1,0), (0,10)
    let data = vec![0.0, 0.0, 1.0, 0.0, 0.0, 10.0];
    let query = vec![0.1, 0.0];
    let neighbors = kd_search(&data, 2, &query, 1, euclidean);

    assert_eq!(neighbors.len(), 1);
    assert_eq!(neighbors[0].1, 0);
    assert!((neighbors[0].0 - 0.1).abs() < 1e-10);
}

#[test]
fn test_k3() {
    // Four 1D points: 0, 1, 10, 11
    let data = vec![0.0, 1.0, 10.0, 11.0];
    let query = vec![0.4];
    let neighbors = kd_search(&data, 1, &query, 3, euclidean);

    assert_eq!(neighbors.len(), 3);
    assert_eq!(neighbors[0].1, 0);
    assert!((neighbors[0].0 - 0.4).abs() < 1e-10);
    assert_eq!(neighbors[1].1, 1);
    assert!((neighbors[1].0 - 0.6).abs() < 1e-10);
    assert_eq!(neighbors[2].1, 2);
    assert!((neighbors[2].0 - 9.6).abs() < 1e-10);
}

#[test]
fn test_manhattan() {
    // With Manhattan, (0.5, 0) is closer to (0,0) (dist 0.5) than to (1,1) (dist 1.5)
    let data = vec![0.0, 0.0, 1.0, 1.0];
    let query = vec![0.5, 0.0];
    let neighbors = kd_search(&data, 2, &query, 1, manhattan);

    assert_eq!(neighbors.len(), 1);
    assert_eq!(neighbors[0].1, 0);
    assert!((neighbors[0].0 - 0.5).abs() < 1e-10);
}

#[test]
fn test_single_point() {
    let data = vec![5.0, 3.0];
    let query = vec![5.0, 3.0];
    let neighbors = kd_search(&data, 2, &query, 1, euclidean);

    assert_eq!(neighbors.len(), 1);
    assert_eq!(neighbors[0].1, 0);
    assert_eq!(neighbors[0].0, 0.0);
}

#[test]
fn test_results_sorted_by_distance() {
    let data = vec![0.0, 10.0, 5.0, 1.0, 2.0, 3.0, 8.0, 9.0];
    let query = vec![1.0, 2.0];
    let neighbors = kd_search(&data, 2, &query, 3, euclidean);

    for i in 1..neighbors.len() {
        assert!(neighbors[i - 1].0 <= neighbors[i].0);
    }
}

#[test]
fn test_all_points_returned_when_k_exceeds_points() {
    // 2 points, ask for 3 neighbors — should return all 2
    let data = vec![0.0, 1.0];
    let query = vec![0.0];
    let neighbors = kd_search(&data, 1, &query, 3, euclidean);

    assert_eq!(neighbors.len(), 2);
}

#[test]
fn kd_tree_on_empty_data_finds_nothing() {
    let data: Vec<f64> = Vec::new();
    let query = vec![1.0, 2.0];
    assert!(kd_search(&data, 2, &query, 3, euclidean).is_empty());
}

/// A deterministic scatter of points, with a few exact duplicates.
fn scatter(n: usize, dim: usize) -> Vec<f64> {
    let mut state: u64 = 0x2545_f491_4f6c_dd1d;
    let mut out = Vec::with_capacity(n * dim);
    for i in 0..n * dim {
        state ^= state << 13;
        state ^= state >> 7;
        state ^= state << 17;
        if i % 11 == 5 && i >= dim {
            let prev = out[i - dim];
            out.push(prev);
        } else {
            out.push((state % 2000) as f64 / 100.0 - 10.0);
        }
    }
    out
}

#[test]
fn kd_tree_and_brute_force_find_the_same_distances() {
    for &dim in &[1usize, 2, 3, 5] {
        let data = scatter(200, dim);
        for q in 0..20 {
            let query: Vec<f64> = (0..dim).map(|a| ((q * 7 + a * 3) % 23) as f64 - 11.5).collect();
            for &k in &[1usize, 3, 10, 200] {
                for metric in [euclidean as fn(&[f64], &[f64]) -> f64, manhattan] {
                    let kd = kd_search(&data, dim, &query, k, metric);
                    let brute = brute_search(&data, dim, &query, k, metric);
                    let kd_d: Vec<f64> = kd.iter().map(|e| e.0).collect();
                    let brute_d: Vec<f64> = brute.iter().map(|e| e.0).collect();
                    assert_eq!(kd_d, brute_d, "dim {dim} query {q} k {k}");
                }
            }
        }
    }
}

#[test]
fn brute_force_returns_sorted_k_nearest() {
    let dists: Vec<u64> = bits(&[5.0, 1.0, 3.0, 0.5, 4.0]);
    let r = brute_force_search(&dists, 3);
    assert_eq!(r, vec![(0.5f64.to_bits(), 3), (1.0f64.to_bits(), 1), (3.0f64.to_bits(), 2)]);
}

#[test]
fn brute_force_with_k_equal_to_n_sorts_everything() {
    let dists: Vec<u64> = bits(&[2.0, 0.0, 1.0]);
    let r = brute_force_search(&dists, 3);
    let idx: Vec<usize> = r.iter().map(|e| e.1).collect();
    assert_eq!(idx, vec![1, 2, 0]);
}

#[test]
fn kd_tree_with_equal_coordinates_finds_every_duplicate() {
    // Three points share the coordinate 2.0; the tree keeps the ones equal to
    // a node's coordinate on its left.
    let data = vec![2.0, 2.0, 2.0, 1.0, 3.0];
    let query = vec![2.0];
    let neighbors = kd_search(&data, 1, &query, 3, euclidean);
    let mut idx: Vec<usize> = neighbors.iter().map(|e| e.1).collect();
    idx.sort();
    assert_eq!(idx, vec![0, 1, 2]);
    assert!(neighbors.iter().all(|e| e.0 == 0.0));
}

#[test]
fn kd_tree_never_replaces_a_nan_distance() {
    // The root (1.0, NaN) is at a NaN distance from the query; `0.5 < NaN` is
    // false, so the nearer point (0.0, 0.0) does not take its place.
    let data = vec![1.0, f64::NAN, 0.0, 0.0];
    let query = vec![0.5, 0.0];
    let neighbors = kd_search(&data, 2, &query, 1, euclidean);
    assert_eq!(neighbors.len(), 1);
    assert_eq!(neighbors[0].1, 0);
    assert!(neighbors[0].0.is_nan());
}
