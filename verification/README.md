# knn

A k-nearest neighbors classifier whose searching and voting are verified with
Verus.

The library (`src/`) never holds a floating-point number. Coordinates,
distances and weights travel as their binary64 bit patterns (`f64::to_bits`)
and are compared through keys that order them as `f64::total_cmp` does.
Distances, plane distances, weights and sums are computed by the caller and
handed in, as bit patterns or through closures.

- `total_order`: ordering keys of bit patterns, and the infinity test.
- `counting`: counts of entries satisfying a predicate, and their
  invariance under rearrangement.
- `sort`: merge sort of point indices by key, and selection of the `k`
  smallest by partitioning.
- `neighbors`: what a list of the `k` nearest neighbors is, the bounded
  insertion both searches share, and the law that exact searches agree.
- `brute`: brute-force search over known distances.
- `kdtree`: median-split KD-tree construction and exact search with pruning.
- `vote`: majority and weighted votes among the neighbors' labels.
- `distance`, `weights`, `algorithm`: the metric, weighting and search enums.
- `lib.rs`: `KnnClassifier` and its `TrainingSet`.

`app/` holds the floating-point side: the Euclidean, Manhattan and cosine
distances (SIMD through `wide`), the vote weights, fitting and parallel
prediction on `f64` data (through `rayon`), and the Python bindings (PyO3 and
NumPy).
