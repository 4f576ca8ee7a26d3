//! A k-nearest neighbors classifier.
//!
//! Training data is stored as a flat row-major buffer of binary64 bit
//! patterns. Distances and weights, which are floating-point values, are
//! computed by the caller and handed in as bit patterns; the library finds the
//! nearest neighbors (by linear scan or KD-tree) and takes the vote.
use vstd::prelude::*;

pub mod total_order;
pub mod counting;
pub mod sort;
pub mod neighbors;
pub mod brute;
pub mod kdtree;
pub mod distance;
pub mod weights;
pub mod algorithm;
pub mod vote;

use crate::algorithm::Algorithm;
use crate::brute::brute_force_search;
use crate::distance::Metric;
use crate::kdtree::{build_kdtree, split_sound, KdTree};
use crate::neighbors::{
    ascending, deterministic, distance_values, distinct_points, is_k_nearest, lemma_deterministic_value,
};
use crate::weights::Weighting;
use crate::total_order::{POSITIVE_ZERO, all_ordinary};
use crate::vote::{
    distinct_labels, distinct_labels_of, is_majority, label_total, summed_by, weighted_outcome, weighted_vote,
};

verus! {

/// The training set of a classifier: a flat row-major buffer of coordinate
/// bit patterns, `dim` coordinates per point, a label per point, and the
/// KD-tree over the points when one was built.
pub struct TrainingSet {
    data: Vec<u64>,
    dim: usize,
    labels: Vec<usize>,
    tree: Option<KdTree>,
}

impl TrainingSet {
    /// The buffer holds one row of `dim` coordinates per label, and the tree,
    /// if any, holds each of those points.
    #[verifier::type_invariant]
    spec fn wf(self) -> bool {
        &&& self.labels@.len() * self.dim == self.data@.len()
        &&& self.labels@.len() <= usize::MAX
        &&& self.kdtree_arranges_data()
    }

    /// The training coordinates, as bit patterns, in row-major order.
    pub closed spec fn coordinates(&self) -> Seq<u64> {
        self.data@
    }

    /// The number of coordinates per point; `0` for the empty set.
    pub closed spec fn dimension(&self) -> nat {
        self.dim as nat
    }

    /// The label of each training point.
    pub closed spec fn point_labels(&self) -> Seq<usize> {
        self.labels@
    }

    /// The number of training points.
    pub closed spec fn n_points(&self) -> nat {
        self.labels@.len()
    }

    /// Whether a KD-tree was built over the points.
    pub closed spec fn has_kdtree(&self) -> bool {
        self.tree is Some
    }

    /// The KD-tree, if any, is the median-split tree over the coordinates, of
    /// the training set's dimension, holding each point exactly once.
    pub closed spec fn kdtree_arranges_data(&self) -> bool {
        match self.tree {
            Some(t) => {
                &&& t.arranges(self.data@)
                &&& t.holds_each_point_once()
                &&& t.dimension() == self.dim
                &&& t.size() == self.labels@.len()
            },
            None => true,
        }
    }

    /// The empty training set.
    pub fn empty() -> (r: Self)
        ensures
            r.coordinates().len() == 0,
            r.dimension() == 0,
            r.n_points() == 0,
            r.point_labels() == Seq::<usize>::empty(),
            !r.has_kdtree(),
    {
        TrainingSet { data: Vec::new(), dim: 0, labels: Vec::new(), tree: None }
    }

    /// The training coordinates, as bit patterns, in row-major order.
    pub fn data(&self) -> (r: &[u64])
        ensures
            r@ == self.coordinates(),
    {
        self.data.as_slice()
    }

    /// The number of coordinates per point.
    pub fn dim(&self) -> (r: usize)
        ensures
            r == self.dimension(),
    {
        self.dim
    }

    /// The label of each training point.
    pub fn labels(&self) -> (r: &[usize])
        ensures
            r@ == self.point_labels(),
    {
        self.labels.as_slice()
    }
}

/// k-nearest neighbors classifier.
///
/// The classifier owns its training data. After [`fit`](Self::fit), points are
/// stored in a flat row-major buffer: `[p0f0, p0f1, p1f0, p1f1, ...]`, each
/// coordinate as its binary64 bit pattern.
///
/// A prediction finds the `k` nearest training points of a query and returns
/// the majority label among them. Ties are resolved by choosing the smallest
/// label.
pub struct KnnClassifier {
    /// Number of neighbors used for each prediction.
    pub k: usize,
    /// Distance metric used to compare query points with training points.
    pub metric: Metric,
    /// Weighting function applied to distances.
    pub weighting: Weighting,
    /// Search algorithm used to find the nearest neighbors.
    pub algorithm: Algorithm,
    /// The training set of the last fit.
    pub training: TrainingSet,
}

impl KnnClassifier {
    /// Create a classifier that uses Euclidean distance, uniform weighting and
    /// brute-force search.
    pub fn new(k: usize) -> (r: Self)
        requires
            k > 0,
        ensures
            r.k == k,
            r.metric == Metric::Euclidean,
            r.weighting == Weighting::Uniform,
            r.algorithm == Algorithm::BruteForce,
            r.training.coordinates().len() == 0,
            r.training.dimension() == 0,
            r.training.n_points() == 0,
            r.training.point_labels() == Seq::<usize>::empty(),
            !r.training.has_kdtree(),
    {
        KnnClassifier {
            k,
            metric: Metric::Euclidean,
            weighting: Weighting::Uniform,
            algorithm: Algorithm::BruteForce,
            training: TrainingSet::empty(),
        }
    }

    /// Sets the distance metric.
    pub fn with_metric(&mut self, metric: Metric) -> (r: &mut Self)
        ensures
            *r == (KnnClassifier { metric, ..*old(self) }),
            *final(self) == *final(r),
    {
        self.metric = metric;
        self
    }

    /// Sets the distance-to-weight conversion used in the vote.
    pub fn with_weighting(&mut self, weighting: Weighting) -> (r: &mut Self)
        ensures
            *r == (KnnClassifier { weighting, ..*old(self) }),
            *final(self) == *final(r),
    {
        self.weighting = weighting;
        self
    }

    /// Sets the search algorithm; it takes effect at the next fit.
    pub fn with_algorithm(&mut self, algorithm: Algorithm) -> (r: &mut Self)
        ensures
            *r == (KnnClassifier { algorithm, ..*old(self) }),
            *final(self) == *final(r),
    {
        self.algorithm = algorithm;
        self
    }

    /// The classifier answers from the KD-tree built at the last fit.
    pub open spec fn searches_kdtree(&self) -> bool {
        self.algorithm == Algorithm::KdTree && self.training.has_kdtree()
    }

    /// Fit the classifier on training data in flat row-major layout.
    ///
    /// `data` must contain `n_points * dim` coordinate bit patterns, laid out
    /// as contiguous rows; `labels` one class label per training point. With
    /// [`Algorithm::KdTree`] the KD-tree over the points is built here.
    pub fn fit(&mut self, data: Vec<u64>, dim: usize, labels: Vec<usize>)
        requires
            dim > 0,
            data.len() % dim == 0,
            labels.len() == data.len() / dim,
            old(self).k <= labels.len(),
            !(old(self).algorithm == Algorithm::KdTree && old(self).metric == Metric::Cosine),
        ensures
            final(self).k == old(self).k,
            final(self).metric == old(self).metric,
            final(self).weighting == old(self).weighting,
            final(self).algorithm == old(self).algorithm,
            final(self).training.coordinates() == data@,
            final(self).training.dimension() == dim,
            final(self).training.point_labels() == labels@,
            final(self).training.n_points() == labels.len(),
            final(self).training.has_kdtree() == (old(self).algorithm == Algorithm::KdTree),
            final(self).training.kdtree_arranges_data(),
    {
        proof {
            let n = data.len() / dim;
            assert(n * dim == data.len()) by (nonlinear_arith)
                requires
                    n == data.len() / dim,
                    data.len() % dim == 0,
                    dim > 0,
            ;
            assert(n <= data.len()) by (nonlinear_arith)
                requires
                    n * dim == data.len(),
                    dim > 0,
            ;
        }
        let tree = match self.algorithm {
            Algorithm::KdTree => Some(build_kdtree(data.as_slice(), dim)),
            Algorithm::BruteForce => None,
        };
        self.training = TrainingSet { data, dim, labels, tree };
    }

    /// Finds the `k` nearest training points of a query.
    ///
    /// `distance(i)` gives the bit pattern of the distance from the query to
    /// training point `i`; `split(i, axis)`, used by the KD-tree search, the
    /// bit pattern of the distance from the query to the plane through point
    /// `i` across `axis`, and whether the query lies at or below that plane.
    /// Returns `(distance, point_index)` pairs sorted by distance.
    pub fn nearest<D: Fn(usize) -> u64, S: Fn(usize, usize) -> (u64, bool)>(
        &self,
        distance: &D,
        split: &S,
    ) -> (r: Vec<(u64, usize)>)
        requires
            0 < self.k <= self.training.n_points(),
            forall|i: usize| i < self.training.n_points() ==> distance.requires((i,)),
            forall|i: usize, a: usize|
                i < self.training.n_points() && a < self.training.dimension() ==> split.requires((i, a)),
        ensures
            r.len() == self.k,
            ascending(r@),
            distinct_points(r@),
            forall|t: int|
                0 <= t < r.len() ==> (#[trigger] r@[t]).1 < self.training.n_points() && distance.ensures(
                    (r@[t].1,),
                    r@[t].0,
                ),
            deterministic(*distance, self.training.n_points()) && (self.searches_kdtree() ==> all_ordinary(
                distance_values(*distance, self.training.n_points()),
            ) && split_sound(
                *split,
                distance_values(*distance, self.training.n_points()),
                self.training.coordinates(),
                self.training.dimension() as int,
            )) ==> is_k_nearest(distance_values(*distance, self.training.n_points()), self.k as int, r@),
    {
        proof {
            use_type_invariant(&self.training);
        }
        let n = self.training.labels.len();
        if let Algorithm::KdTree = self.algorithm {
            if let Some(tree) = &self.training.tree {
                proof {
                    let dists = distance_values(*distance, n as nat);
                    if split_sound(*split, dists, self.training.data@, self.training.dim as int) {
                        kdtree::lemma_split_sound_prunes(tree, *split, dists, self.training.data@);
                    }
                }
                return tree.k_nearest(self.k, distance, split);
            }
        }
        let mut dists: Vec<u64> = Vec::new();
        for i in 0..n
            invariant
                n == self.training.n_points(),
                forall|j: usize| j < n ==> distance.requires((j,)),
                dists.len() == i,
                forall|t: int| 0 <= t < i ==> distance.ensures((t as usize,), #[trigger] dists@[t]),
        {
            dists.push(distance(i));
        }
        let r = brute_force_search(dists.as_slice(), self.k);
        proof {
            if deterministic(*distance, n as nat) {
                let vals = distance_values(*distance, n as nat);
                assert forall|t: int| 0 <= t < n implies #[trigger] dists@[t] == vals[t] by {
                    lemma_deterministic_value(*distance, n as nat, t as usize, dists@[t]);
                }
                assert(dists@ == vals);
            }
            assert forall|t: int| 0 <= t < r.len() implies (#[trigger] r@[t]).1 < n && distance.ensures(
                (r@[t].1,),
                r@[t].0,
            ) by {
                assert(distance.ensures((r@[t].1,), dists@[r@[t].1 as int]));
            }
        }
        r
    }

    /// Pairs each neighbor's distance with its label.
    pub fn neighbor_labels(&self, neighbors: &[(u64, usize)]) -> (r: Vec<(u64, usize)>)
        requires
            forall|t: int| 0 <= t < neighbors.len() ==> (#[trigger] neighbors@[t]).1 < self.training.n_points(),
        ensures
            r.len() == neighbors.len(),
            forall|t: int|
                0 <= t < r.len() ==> #[trigger] r@[t] == (
                    neighbors@[t].0,
                    self.training.point_labels()[neighbors@[t].1 as int],
                ),
    {
        let mut r: Vec<(u64, usize)> = Vec::new();
        for t in 0..neighbors.len()
            invariant
                forall|u: int| 0 <= u < neighbors.len() ==> (#[trigger] neighbors@[u]).1 < self.training.n_points(),
                r.len() == t,
                forall|u: int|
                    0 <= u < t ==> #[trigger] r@[u] == (
                        neighbors@[u].0,
                        self.training.point_labels()[neighbors@[u].1 as int],
                    ),
        {
            let (d, i) = neighbors[t];
            r.push((d, self.training.labels[i]));
        }
        r
    }

    /// `nb` is an answer the neighbor search may give for a query whose
    /// distances and split planes `distance` and `split` give: `k` distinct
    /// training points in ascending order of distance, each with a distance
    /// `distance` gave; and, when `distance` is deterministic and, if the
    /// KD-tree is searched, every distance is ordinary (neither NaN nor
    /// `-0.0`) and the split answers are sound, exactly the `k` nearest points.
    pub open spec fn search_answer<D: Fn(usize) -> u64, S: Fn(usize, usize) -> (u64, bool)>(
        &self,
        nb: Seq<(u64, usize)>,
        distance: D,
        split: S,
    ) -> bool {
        let n = self.training.n_points();
        &&& nb.len() == self.k
        &&& ascending(nb)
        &&& distinct_points(nb)
        &&& forall|t: int| 0 <= t < nb.len() ==> (#[trigger] nb[t]).1 < n && distance.ensures((nb[t].1,), nb[t].0)
        &&& deterministic(distance, n) && (self.searches_kdtree() ==> all_ordinary(distance_values(distance, n))
            && split_sound(
            split,
            distance_values(distance, n),
            self.training.coordinates(),
            self.training.dimension() as int,
        )) ==> is_k_nearest(distance_values(distance, n), self.k as int, nb)
    }

    /// The `(distance, label)` pairs of the neighbors `nb`.
    pub open spec fn labeled(&self, nb: Seq<(u64, usize)>) -> Seq<(u64, usize)> {
        nb.map_values(|e: (u64, usize)| (e.0, self.training.point_labels()[e.1 as int]))
    }

    /// `r` is the outcome of the vote among the neighbors `top_k`, given as
    /// `(distance, label)` pairs: under uniform weighting the majority label,
    /// ties to the smallest; otherwise the weighted outcome, with each weight
    /// an answer of `weight` for the neighbor's distance and each label's
    /// total the sum by `plus` of its neighbors' weights.
    pub open spec fn vote_outcome<W: Fn(u64) -> u64, P: Fn(u64, u64) -> u64>(
        &self,
        top_k: Seq<(u64, usize)>,
        weight: W,
        plus: P,
        r: usize,
    ) -> bool {
        if self.weighting == Weighting::Uniform {
            is_majority(top_k, r)
        } else {
            exists|ws: Seq<u64>, ts: Seq<u64>|
                {
                    &&& ws.len() == top_k.len()
                    &&& forall|i: int| 0 <= i < ws.len() ==> weight.ensures((top_k[i].0,), #[trigger] ws[i])
                    &&& ts.len() == distinct_labels_of(top_k).len()
                    &&& forall|j: int|
                        0 <= j < ts.len() ==> summed_by(
                            plus,
                            top_k,
                            ws,
                            distinct_labels_of(top_k)[j],
                            top_k.len() as int,
                            #[trigger] ts[j],
                        )
                    &&& weighted_outcome(top_k, ws, ts, r)
                }
        }
    }

    /// Predicts the label of one query.
    ///
    /// Finds the `k` nearest training points (see [`nearest`](Self::nearest))
    /// and takes the vote among their labels. `weight(d)` gives the bit pattern
    /// of the weight of a neighbor at distance `d`, and `plus(a, b)` that of
    /// the sum of two weights; neither is called under uniform weighting.
    pub fn classify<D, S, W, P>(&self, distance: &D, split: &S, weight: &W, plus: &P) -> (r: usize)
        where
            D: Fn(usize) -> u64,
            S: Fn(usize, usize) -> (u64, bool),
            W: Fn(u64) -> u64,
            P: Fn(u64, u64) -> u64,
        requires
            0 < self.k <= self.training.n_points(),
            forall|i: usize| i < self.training.n_points() ==> distance.requires((i,)),
            forall|i: usize, a: usize|
                i < self.training.n_points() && a < self.training.dimension() ==> split.requires((i, a)),
            forall|d: u64| weight.requires((d,)),
            forall|a: u64, b: u64| plus.requires((a, b)),
        ensures
            exists|nb: Seq<(u64, usize)>|
                #[trigger] self.search_answer(nb, *distance, *split) && self.vote_outcome(
                    self.labeled(nb),
                    *weight,
                    *plus,
                    r,
                ),
    {
        let nb = self.nearest(distance, split);
        let top_k = self.neighbor_labels(nb.as_slice());
        proof {
            assert(top_k@ == self.labeled(nb@));
            assert(self.search_answer(nb@, *distance, *split));
        }
        let r = match self.weighting {
            Weighting::Uniform => {
                let none: Vec<u64> = Vec::new();
                weighted_vote(top_k.as_slice(), &self.weighting, none.as_slice(), none.as_slice())
            },
            _ => {
                let k = top_k.len();
                let mut ws: Vec<u64> = Vec::new();
                for i in 0..k
                    invariant
                        k == top_k.len(),
                        forall|d: u64| weight.requires((d,)),
                        ws.len() == i,
                        forall|u: int| 0 <= u < i ==> weight.ensures((top_k@[u].0,), #[trigger] ws@[u]),
                {
                    ws.push(weight(top_k[i].0));
                }
                let labels = distinct_labels(top_k.as_slice());
                let mut ts: Vec<u64> = Vec::new();
                for j in 0..labels.len()
                    invariant
                        labels@ == distinct_labels_of(top_k@),
                        ws.len() == top_k.len(),
                        forall|a: u64, b: u64| plus.requires((a, b)),
                        ts.len() == j,
                        forall|u: int|
                            0 <= u < j ==> summed_by(*plus, top_k@, ws@, labels@[u], top_k.len() as int, #[trigger] ts@[u]),
                {
                    ts.push(label_total(top_k.as_slice(), ws.as_slice(), labels[j], plus));
                }
                let r = weighted_vote(top_k.as_slice(), &self.weighting, ws.as_slice(), ts.as_slice());
                proof {
                    assert(weighted_outcome(top_k@, ws@, ts@, r));
                }
                r
            },
        };
        r
    }
}

} // verus!
