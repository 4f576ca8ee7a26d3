use knn::algorithm::Algorithm;
use knn::distance::Metric;
use knn::weights::Weighting;
use knn::KnnClassifier;

fn rows_to_flat(rows: &[Vec<f64>]) -> (Vec<f64>, usize) {
    let dim = rows[0].len();
    let flat: Vec<f64> = rows.iter().flat_map(|row| row.iter().copied()).collect();
    (flat, dim)
}

fn bits(values: &[f64]) -> Vec<u64> {
    values.iter().map(|x| x.to_bits()).collect()
}

fn metric_distance(metric: Metric, a: &[f64], b: &[f64]) -> f64 {
    match metric {
        Metric::Euclidean => a.iter().zip(b).map(|(x, y)| (x - y) * (x - y)).sum::<f64>().sqrt(),
        Metric::Manhattan => a.iter().zip(b).map(|(x, y)| (x - y).abs()).sum(),
        Metric::Cosine => {
            let dot: f64 = a.iter().zip(b).map(|(x, y)| x * y).sum();
            let na = a.iter().map(|x| x * x).sum::<f64>().sqrt();
            let nb = b.iter().map(|x| x * x).sum::<f64>().sqrt();
            1.0 - dot / (na * nb)
        }
    }
}

fn weight_of(weighting: Weighting, d: f64) -> f64 {
    match weighting {
        Weighting::Uniform => 1.0,
        Weighting::InverseDistance => 1.0 / d,
        Weighting::SmoothedInverse => 1.0 / (1.0 + d),
        Weighting::Gaussian => (-d).exp(),
    }
}

fn fit(model: &mut KnnClassifier, data: Vec<f64>, dim: usize, labels: Vec<usize>) {
    model.fit(bits(&data), dim, labels);
}

/// Predicts a label per query row, computing distances and weights in `f64`.
fn predict(model: &KnnClassifier, queries: &[f64], n_queries: usize, dim: usize) -> Vec<usize> {
    assert_eq!(queries.len(), n_queries * dim);
    assert_eq!(dim, model.training.dim());
    let train: Vec<f64> = model.training.data().iter().map(|&b| f64::from_bits(b)).collect();
    let (metric, weighting) = (model.metric, model.weighting);
    queries
        .chunks(dim)
        .map(|query| {
            let distance = |i: usize| metric_distance(metric, &train[i * dim..(i + 1) * dim], query).to_bits();
            let split = |i: usize, axis: usize| {
                let (q, c) = (query[axis], train[i * dim + axis]);
                ((q - c).abs().to_bits(), q <= c)
            };
            let weight = |d: u64| weight_of(weighting, f64::from_bits(d)).to_bits();
            let plus = |a: u64, b: u64| (f64::from_bits(a) + f64::from_bits(b)).to_bits();
            model.classify(&distance, &split, &weight, &plus)
        })
        .collect()
}

#[test]
fn test_knn_basic() {
    let mut model = KnnClassifier::new(1);
    let (data, dim) = rows_to_flat(&[vec![0.0, 0.0], vec![1.0, 0.0], vec![0.0, 10.0]]);
    fit(&mut model, data, dim, vec![0, 0, 1]);

    let (queries, query_dim) = rows_to_flat(&[vec![0.1, 0.0]]);
    let predictions = predict(&model, &queries, 1, query_dim);
    assert_eq!(predictions, vec![0]);

    let (queries, query_dim) = rows_to_flat(&[vec![0.0, 9.0]]);
    let predictions = predict(&model, &queries, 1, query_dim);
    assert_eq!(predictions, vec![1]);
}

#[test]
fn test_knn_multiple_queries() {
    let mut model = KnnClassifier::new(2);
    let (data, dim) = rows_to_flat(&[vec![0.0], vec![1.0], vec![10.0], vec![11.0]]);
    fit(&mut model, data, dim, vec![0, 0, 1, 1]);

    let (queries, query_dim) = rows_to_flat(&[vec![0.4], vec![10.4]]);
    let predictions = predict(&model, &queries, 2, query_dim);
    assert_eq!(predictions, vec![0, 1]);
}

#[test]
fn test_knn_k4_ignores_far_points() {
    let mut model = KnnClassifier::new(4);
    let (data, dim) = rows_to_flat(&[
        vec![0.0, 0.0],
        vec![0.1, 0.0],
        vec![0.0, 0.1],
        vec![100.0, 100.0], // class 0 but far away
        vec![0.0, 10.0],    // class 1, also far
    ]);
    fit(&mut model, data, dim, vec![0, 0, 0, 0, 1]);

    let (queries, query_dim) = rows_to_flat(&[vec![0.05, 0.05]]);
    let predictions = predict(&model, &queries, 1, query_dim);
    assert_eq!(predictions, vec![0]);
}

#[test]
fn test_knn_manhattan() {
    // With Manhattan distance, (0.5, 0) is closer to (0, 0) (dist 0.5)
    // than to (1, 1) (dist |0.5-1| + |0-1| = 1.5).
    let mut model = KnnClassifier::new(1);
    model.with_metric(Metric::Manhattan);
    let (data, dim) = rows_to_flat(&[vec![0.0, 0.0], vec![1.0, 1.0]]);
    fit(&mut model, data, dim, vec![0, 1]);

    let (queries, query_dim) = rows_to_flat(&[vec![0.5, 0.0]]);
    let predictions = predict(&model, &queries, 1, query_dim);
    assert_eq!(predictions, vec![0]);
}

#[test]
fn test_knn_cosine() {
    // Cosine distance cares about direction, not magnitude.
    // (1, 0) and (100, 0) point the same way → distance ≈ 0 → class 0.
    let mut model = KnnClassifier::new(1);
    model.with_metric(Metric::Cosine);
    let (data, dim) = rows_to_flat(&[vec![1.0, 0.0], vec![0.0, 1.0]]);
    fit(&mut model, data, dim, vec![0, 1]);

    let (queries, query_dim) = rows_to_flat(&[vec![100.0, 0.0]]);
    let predictions = predict(&model, &queries, 1, query_dim);
    assert_eq!(predictions, vec![0]);
}

#[test]
fn test_knn_default_metric_is_euclidean() {
    let model = KnnClassifier::new(1);
    assert_eq!(model.metric, Metric::Euclidean);
}

#[test]
fn test_knn_with_metric_manhattan() {
    let mut model = KnnClassifier::new(3);
    model.with_metric(Metric::Manhattan);
    assert_eq!(model.metric, Metric::Manhattan);
}

#[test]
fn new_default_metric_is_euclidean() {
    let model = KnnClassifier::new(3);
    assert_eq!(model.metric, Metric::Euclidean);
}

#[test]
fn new_sets_k() {
    let model = KnnClassifier::new(1);
    assert_eq!(model.k, 1);
    assert_eq!(model.training.data().len(), 0);
    assert_eq!(model.training.labels().len(), 0);
}

#[test]
fn fit_stores_data() {
    let mut model = KnnClassifier::new(2);
    let (data, dim) = rows_to_flat(&[vec![0.0, 0.0], vec![1.0, 1.0]]);
    fit(&mut model, data, dim, vec![0, 1]);
    assert_eq!(model.training.data(), bits(&[0.0, 0.0, 1.0, 1.0]).as_slice());
    assert_eq!(model.training.labels(), &[0, 1]);
}

#[test]
fn fit_k_equals_data_len() {
    let mut model = KnnClassifier::new(2);
    fit(&mut model, vec![0.0, 1.0], 1, vec![0, 1]);
}

#[test]
fn builders_chain_and_keep_the_rest() {
    let mut model = KnnClassifier::new(3);
    model
        .with_metric(Metric::Manhattan)
        .with_weighting(Weighting::Gaussian)
        .with_algorithm(Algorithm::KdTree);
    assert_eq!(model.metric, Metric::Manhattan);
    assert_eq!(model.weighting, Weighting::Gaussian);
    assert_eq!(model.algorithm, Algorithm::KdTree);
    assert_eq!(model.k, 3);
}

#[test]
fn kdtree_and_brute_force_classifiers_agree() {
    // Irregular coordinates, so that no two training points are at the same
    // distance from a query and both searches must pick the same neighbors.
    let mut state: u64 = 0x9e37_79b9_7f4a_7c15;
    let mut next = || {
        state ^= state << 13;
        state ^= state >> 7;
        state ^= state << 17;
        (state % 1_000_003) as f64 / 1_000_003.0 * 20.0 - 10.0
    };
    let data: Vec<f64> = (0..300).map(|_| next()).collect();
    let labels: Vec<usize> = (0..100).map(|i| i % 4).collect();
    let queries: Vec<f64> = (0..60).map(|_| next()).collect();
    for metric in [Metric::Euclidean, Metric::Manhattan] {
        for weighting in [Weighting::Uniform, Weighting::InverseDistance, Weighting::Gaussian] {
            let mut brute = KnnClassifier::new(5);
            brute.with_metric(metric).with_weighting(weighting);
            fit(&mut brute, data.clone(), 3, labels.clone());
            let mut kd = KnnClassifier::new(5);
            kd.with_metric(metric).with_weighting(weighting).with_algorithm(Algorithm::KdTree);
            fit(&mut kd, data.clone(), 3, labels.clone());
            assert_eq!(predict(&brute, &queries, 20, 3), predict(&kd, &queries, 20, 3));
        }
    }
}

#[test]
fn nearest_lists_k_points_by_distance() {
    let mut model = KnnClassifier::new(2);
    fit(&mut model, vec![0.0, 5.0, 1.0, 9.0], 1, vec![0, 1, 0, 1]);
    let query = 4.5f64;
    let train = [0.0f64, 5.0, 1.0, 9.0];
    let distance = |i: usize| (train[i] - query).abs().to_bits();
    let split = |i: usize, _axis: usize| ((train[i] - query).abs().to_bits(), query <= train[i]);
    let nb = model.nearest(&distance, &split);
    assert_eq!(nb, vec![(0.5f64.to_bits(), 1), (3.5f64.to_bits(), 2)]);
    assert_eq!(model.neighbor_labels(&nb), vec![(0.5f64.to_bits(), 1), (3.5f64.to_bits(), 0)]);
}
