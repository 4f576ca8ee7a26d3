//! A KD-tree over the training points, and exact k-nearest-neighbor search in
//! it.
//!
//! The tree stores point indices; coordinates stay in the caller's flat
//! row-major buffer of binary64 bit patterns.
use vstd::prelude::*;
use crate::sort::{sort_indices_by_key, sorted_by_key, indices_below};
use crate::total_order::{key_of, order_key, total_le, lemma_key_order, float_lt, float_less, ordinary, all_ordinary, lemma_float_lt_ordinary};
use crate::counting::{count_where, lemma_count_concat, lemma_count_bounds, lemma_count_permutation};
use crate::neighbors::{
    ascending, distinct_points, holds_point, is_k_nearest, min_int, offer, inserted_in_order,
    lemma_inserted, distance_values, deterministic, lemma_deterministic_value,
    lemma_distinct_points_count,
};

verus! {

broadcast use {vstd::seq_lib::group_to_multiset_ensures, vstd::multiset::group_multiset_axioms};

/// A single node in the KD-tree.
///
/// Stores the index (into the flat data buffer) of the training point at this
/// node, plus which axis the two subtrees are split on.
struct KdNode {
    /// Index of this node's point in the flat data buffer.
    point_index: usize,
    /// The axis (0..dim-1) this node splits on.
    split_dim: usize,
    /// Left subtree: points whose coordinate on `split_dim` is ≤ this node's.
    left: Option<Box<KdNode>>,
    /// Right subtree: points whose coordinate on `split_dim` is > this node's.
    right: Option<Box<KdNode>>,
}

/// A KD-tree for fast nearest-neighbor search.
///
/// Built from a flat row-major data buffer; nodes store indices into that buffer.
pub struct KdTree {
    /// Root node of the KD-tree.
    root: Option<Box<KdNode>>,
    /// Dimension of the points.
    dim: usize,
}

/// The key of coordinate `a` of point `i` in a flat row-major buffer of
/// binary64 bit patterns with `dim` coordinates per point.
pub open spec fn coord_key(data: Seq<u64>, dim: int, i: int, a: int) -> u64 {
    key_of(data[i * dim + a])
}

/// The point indices of a subtree, in order: left subtree, node, right subtree.
spec fn node_points(node: Option<Box<KdNode>>) -> Seq<usize>
    decreases node,
{
    match node {
        None => Seq::empty(),
        Some(b) => node_points(b.left) + seq![b.point_index] + node_points(b.right),
    }
}

/// A node at depth `depth` splits on axis `depth % dim`.
spec fn node_splits(node: Option<Box<KdNode>>, dim: nat, depth: nat) -> bool
    decreases node,
{
    match node {
        None => true,
        Some(b) => b.split_dim == depth % dim && node_splits(b.left, dim, depth + 1) && node_splits(
            b.right,
            dim,
            depth + 1,
        ),
    }
}

/// On its split axis, every point of a node's left subtree is at most the
/// node's point and every point of its right subtree greater than it.
spec fn node_kd_ordered(node: Option<Box<KdNode>>, data: Seq<u64>, dim: int) -> bool
    decreases node,
{
    match node {
        None => true,
        Some(b) => {
            &&& forall|t: int|
                0 <= t < node_points(b.left).len() ==> coord_key(
                    data,
                    dim,
                    #[trigger] node_points(b.left)[t] as int,
                    b.split_dim as int,
                ) <= coord_key(data, dim, b.point_index as int, b.split_dim as int)
            &&& forall|t: int|
                0 <= t < node_points(b.right).len() ==> coord_key(
                    data,
                    dim,
                    b.point_index as int,
                    b.split_dim as int,
                ) < coord_key(data, dim, #[trigger] node_points(b.right)[t] as int, b.split_dim as int)
            &&& node_kd_ordered(b.left, data, dim)
            &&& node_kd_ordered(b.right, data, dim)
        },
    }
}

/// The points whose key on `axis` is below `bound`.
pub open spec fn below(data: Seq<u64>, dim: int, axis: int, bound: u64) -> spec_fn(usize) -> bool {
    |j: usize| coord_key(data, dim, j as int, axis) < bound
}

/// Every node's point holds the median key on its split axis: of the node's
/// `m` points, at most `m / 2` lie below it, all in the left subtree, and the
/// left subtree holds at least `m / 2` points.
spec fn node_median_split(node: Option<Box<KdNode>>, data: Seq<u64>, dim: int) -> bool
    decreases node,
{
    match node {
        None => true,
        Some(b) => {
            &&& node_points(b.left).len() >= node_points(node).len() / 2
            &&& count_where(
                node_points(b.left),
                below(data, dim, b.split_dim as int, coord_key(data, dim, b.point_index as int, b.split_dim as int)),
            ) <= node_points(node).len() / 2
            &&& node_median_split(b.left, data, dim)
            &&& node_median_split(b.right, data, dim)
        },
    }
}

impl KdTree {
    /// Each of the points `0..size` is in the tree exactly once, and node
    /// depths determine the split axes.
    #[verifier::type_invariant]
    spec fn wf(self) -> bool {
        let pts = node_points(self.root);
        &&& self.dim > 0
        &&& pts.len() <= usize::MAX
        &&& node_splits(self.root, self.dim as nat, 0)
        &&& pts.no_duplicates()
        &&& forall|t: int| 0 <= t < pts.len() ==> #[trigger] pts[t] < pts.len()
        &&& forall|j: usize| j < pts.len() ==> pts.contains(j)
    }

    /// The tree holds each of the points `0..size` exactly once.
    pub closed spec fn holds_each_point_once(&self) -> bool {
        let pts = node_points(self.root);
        &&& pts.no_duplicates()
        &&& forall|j: usize| j < pts.len() <==> pts.contains(j)
    }

    /// The number of points in the tree.
    pub closed spec fn size(&self) -> nat {
        node_points(self.root).len()
    }

    /// The number of coordinates per point.
    pub closed spec fn dimension(&self) -> nat {
        self.dim as nat
    }

    /// The tree is the one that median splits build over `data`: a node at
    /// depth `d` splits on axis `d % dim`; its point has the median key on
    /// that axis among the node's `m` points (at most `m / 2` of them lie
    /// below it); the left subtree holds the other points at most that key,
    /// at least `m / 2` of them, and the right subtree the points above it.
    pub closed spec fn arranges(&self, data: Seq<u64>) -> bool {
        &&& self.dim > 0
        &&& node_splits(self.root, self.dim as nat, 0)
        &&& node_kd_ordered(self.root, data, self.dim as int)
        &&& node_median_split(self.root, data, self.dim as int)
    }
}

proof fn lemma_flat_index(i: int, a: int, n: int, dim: int)
    requires
        0 <= i < n,
        0 <= a < dim,
    ensures
        0 <= i * dim + a < n * dim,
        i * dim + a + 1 <= n * dim,
{
    assert(0 <= i * dim + a < n * dim) by (nonlinear_arith)
        requires
            0 <= i < n,
            0 <= a < dim,
    ;
}

/// Recursively builds the subtree over the points `idx`.
#[verifier::rlimit(60)]
fn build_node(
    axes: &Vec<Vec<u64>>,
    idx: Vec<usize>,
    dim: usize,
    depth: usize,
    Ghost(data): Ghost<Seq<u64>>,
    Ghost(n): Ghost<nat>,
) -> (node: Option<Box<KdNode>>)
    requires
        dim > 0,
        axes.len() == dim,
        forall|a: int| 0 <= a < dim ==> (#[trigger] axes@[a]).len() == n,
        forall|a: int, i: int| 0 <= a < dim && 0 <= i < n ==> #[trigger] axes@[a]@[i] == coord_key(data, dim as int, i, a),
        indices_below(idx@, n as int),
        depth + idx.len() <= usize::MAX,
    ensures
        node_points(node).to_multiset() == idx@.to_multiset(),
        node_splits(node, dim as nat, depth as nat),
        node_kd_ordered(node, data, dim as int),
        node_median_split(node, data, dim as int),
    decreases idx.len(),
{
    if idx.len() == 0 {
        assert(idx@ == Seq::<usize>::empty());
        return None;
    }
    let axis = depth % dim;
    let sorted = sort_indices_by_key(&idx, &axes[axis]);
    let median = sorted.len() / 2;
    let median_key = axes[axis][sorted[median]];
    let mut split = median;
    while split + 1 < sorted.len() && axes[axis][sorted[split + 1]] == median_key
        invariant
            median <= split < sorted.len(),
            median == sorted.len() / 2,
            axis < dim,
            axes.len() == dim,
            forall|a: int| 0 <= a < dim ==> (#[trigger] axes@[a]).len() == n,
            indices_below(sorted@, n as int),
            median_key == axes@[axis as int]@[sorted@[median as int] as int],
            forall|t: int| median <= t <= split ==> axes@[axis as int]@[#[trigger] sorted@[t] as int] == median_key,
        decreases sorted.len() - split,
    {
        split = split + 1;
    }
    let point_index = sorted[split];
    let mut left_idx: Vec<usize> = Vec::new();
    for t in 0..split
        invariant
            split < sorted.len(),
            left_idx@ == sorted@.subrange(0, t as int),
    {
        left_idx.push(sorted[t]);
    }
    let mut right_idx: Vec<usize> = Vec::new();
    for t in split + 1..sorted.len()
        invariant
            split < sorted.len(),
            right_idx@ == sorted@.subrange(split + 1, t as int),
    {
        right_idx.push(sorted[t]);
    }
    proof {
        assert(indices_below(left_idx@, n as int));
        assert(indices_below(right_idx@, n as int));
    }
    let left = build_node(axes, left_idx, dim, depth + 1, Ghost(data), Ghost(n));
    let right = build_node(axes, right_idx, dim, depth + 1, Ghost(data), Ghost(n));
    let node = Some(Box::new(KdNode { point_index, split_dim: axis, left, right }));
    proof {
        let s = sorted@;
        let len = s.len() as int;
        let m = split as int;
        let key = axes@[axis as int]@;
        assert(key[s[m] as int] == median_key);
        assert forall|t: int| m < t < len implies median_key < key[#[trigger] s[t] as int] by {
            assert(key[s[m] as int] <= key[s[m + 1] as int]);
            assert(key[s[m + 1] as int] <= key[s[t] as int]);
        }
        assert(s == s.subrange(0, m) + seq![point_index] + s.subrange(m + 1, len));
        vstd::seq_lib::lemma_multiset_commutative(s.subrange(0, m), seq![point_index]);
        vstd::seq_lib::lemma_multiset_commutative(
            s.subrange(0, m) + seq![point_index],
            s.subrange(m + 1, len),
        );
        let lp = node_points(left);
        let rp = node_points(right);
        vstd::seq_lib::lemma_multiset_commutative(lp, seq![point_index]);
        vstd::seq_lib::lemma_multiset_commutative(lp + seq![point_index], rp);
        assert(node_points(node) == lp + seq![point_index] + rp);
        assert forall|t: int| 0 <= t < lp.len() implies coord_key(
            data,
            dim as int,
            #[trigger] lp[t] as int,
            axis as int,
        ) <= coord_key(data, dim as int, point_index as int, axis as int) by {
            let x = lp[t];
            assert(lp.to_multiset().count(x) > 0);
            assert(left_idx@.contains(x));
            let u = choose|u: int| 0 <= u < left_idx@.len() && left_idx@[u] == x;
            assert(s[u] == x);
            assert(key[s[u] as int] <= key[s[m] as int]);
        }
        assert forall|t: int| 0 <= t < rp.len() implies coord_key(
            data,
            dim as int,
            point_index as int,
            axis as int,
        ) < coord_key(data, dim as int, #[trigger] rp[t] as int, axis as int) by {
            let x = rp[t];
            assert(rp.to_multiset().count(x) > 0);
            assert(right_idx@.contains(x));
            let u = choose|u: int| 0 <= u < right_idx@.len() && right_idx@[u] == x;
            assert(s[m + 1 + u] == x);
            assert(median_key < key[s[m + 1 + u] as int]);
        }
        assert(lp.to_multiset().len() == left_idx@.to_multiset().len());
        assert(node_points(node).to_multiset().len() == idx@.to_multiset().len());
        assert(node_points(node).len() == len);
        let mm = median as int;
        let pred = below(data, dim as int, axis as int, coord_key(data, dim as int, point_index as int, axis as int));
        lemma_count_permutation(lp, left_idx@, pred);
        assert(left_idx@ == s.subrange(0, mm) + s.subrange(mm, m));
        lemma_count_concat(s.subrange(0, mm), s.subrange(mm, m), pred);
        lemma_count_bounds(s.subrange(0, mm), pred);
        assert forall|i: int| 0 <= i < s.subrange(mm, m).len() implies !pred(#[trigger] s.subrange(mm, m)[i]) by {
            assert(s.subrange(mm, m)[i] == s[mm + i]);
            assert(key[s[mm + i] as int] == median_key);
        }
        lemma_count_bounds(s.subrange(mm, m), pred);
    }
    node
}

/// Build a KD-tree from training data.
///
/// `data` is the flat row-major buffer of coordinate bit patterns, `dim` the
/// feature dimension.
pub fn build_kdtree(data: &[u64], dim: usize) -> (tree: KdTree)
    requires
        dim > 0,
        data.len() % dim == 0,
    ensures
        tree.size() == data.len() / dim,
        tree.dimension() == dim,
        tree.holds_each_point_once(),
        tree.arranges(data@),
{
    let n = data.len() / dim;
    proof {
        assert(n * dim == data.len()) by (nonlinear_arith)
            requires
                n == data.len() / dim,
                data.len() % dim == 0,
                dim > 0,
        ;
    }
    let mut axes: Vec<Vec<u64>> = Vec::new();
    for a in 0..dim
        invariant
            n * dim == data.len(),
            axes.len() == a,
            forall|b: int| 0 <= b < a ==> (#[trigger] axes@[b]).len() == n,
            forall|b: int, i: int| 0 <= b < a && 0 <= i < n ==> #[trigger] axes@[b]@[i] == coord_key(data@, dim as int, i, b),
    {
        let mut column: Vec<u64> = Vec::new();
        for i in 0..n
            invariant
                n * dim == data.len(),
                a < dim,
                column.len() == i,
                forall|t: int| 0 <= t < i ==> #[trigger] column@[t] == coord_key(data@, dim as int, t, a as int),
        {
            proof {
                lemma_flat_index(i as int, a as int, n as int, dim as int);
            }
            column.push(order_key(data[i * dim + a]));
        }
        axes.push(column);
    }
    let mut idx: Vec<usize> = Vec::new();
    for i in 0..n
        invariant
            idx.len() == i,
            forall|t: int| 0 <= t < i ==> #[trigger] idx@[t] == t,
    {
        idx.push(i);
    }
    let ghost range = idx@;
    let root = build_node(&axes, idx, dim, 0, Ghost(data@), Ghost(n as nat));
    proof {
        let pts = node_points(root);
        assert(range.no_duplicates());
        range.lemma_multiset_has_no_duplicates();
        pts.lemma_multiset_has_no_duplicates_conv();
        assert(pts.to_multiset().len() == range.to_multiset().len());
        assert(pts.len() == n);
        assert forall|t: int| 0 <= t < pts.len() implies #[trigger] pts[t] < pts.len() by {
            assert(pts.to_multiset().count(pts[t]) > 0);
            assert(range.contains(pts[t]));
        }
        assert forall|j: usize| j < pts.len() implies pts.contains(j) by {
            assert(range[j as int] == j);
            assert(range.to_multiset().count(j) > 0);
        }
    }
    KdTree { root, dim }
}

/// The far subtree of a node: the one on the other side of the split plane
/// from the query.
spec fn far_side(b: Box<KdNode>, query_left: bool) -> Option<Box<KdNode>> {
    if query_left {
        b.right
    } else {
        b.left
    }
}

/// At every node, every answer `(plane, query_left)` that `split` gives for
/// the node's point and axis has an ordinary `plane`, and every point in the
/// subtree across the plane is at least `plane` away from the query.
spec fn node_prunes_soundly<S: Fn(usize, usize) -> (u64, bool)>(
    node: Option<Box<KdNode>>,
    split: S,
    dists: Seq<u64>,
) -> bool
    decreases node,
{
    match node {
        None => true,
        Some(b) => {
            &&& forall|plane: u64, query_left: bool|
                #[trigger] split.ensures((b.point_index, b.split_dim), (plane, query_left)) ==> ordinary(plane) && forall|t: int|
                    0 <= t < node_points(far_side(b, query_left)).len() ==> key_of(plane) <= key_of(
                        dists[#[trigger] node_points(far_side(b, query_left))[t] as int],
                    )
            &&& node_prunes_soundly(b.left, split, dists)
            &&& node_prunes_soundly(b.right, split, dists)
        },
    }
}

/// The state of a search that has covered the points `covered`: `best` holds
/// at most `k` of them, ascending, each once, with the distances `distance`
/// gave; while it is short it holds every covered point; and, when `exact`,
/// every covered point it does not hold is at least as far as its farthest.
spec fn search_state<D: Fn(usize) -> u64>(
    best: Seq<(u64, usize)>,
    covered: Set<usize>,
    k: nat,
    n: nat,
    distance: D,
    exact: bool,
) -> bool {
    &&& best.len() <= k
    &&& ascending(best)
    &&& distinct_points(best)
    &&& forall|t: int|
        0 <= t < best.len() ==> covered.contains((#[trigger] best[t]).1) && best[t].1 < n
            && distance.ensures((best[t].1,), best[t].0)
    &&& best.len() < k ==> forall|j: usize| #[trigger] covered.contains(j) ==> holds_point(best, j as int)
    &&& exact ==> forall|j: usize|
        #[trigger] covered.contains(j) && !holds_point(best, j as int) ==> best.len() == k && key_of(best.last().0)
            <= key_of(distance_values(distance, n)[j as int])
}

/// A node's points are its left subtree's, its own, and its right subtree's,
/// which share none when the node's points are distinct.
proof fn lemma_node_parts(b: Box<KdNode>)
    requires
        node_points(Some(b)).no_duplicates(),
    ensures
        node_points(b.left).no_duplicates(),
        node_points(b.right).no_duplicates(),
        !node_points(b.left).contains(b.point_index),
        !node_points(b.right).contains(b.point_index),
        forall|x: usize| !(node_points(b.left).contains(x) && node_points(b.right).contains(x)),
        forall|x: usize|
            #[trigger] node_points(Some(b)).contains(x) <==> node_points(b.left).contains(x) || x == b.point_index
                || node_points(b.right).contains(x),
{
    let lp = node_points(b.left);
    let rp = node_points(b.right);
    let pts = node_points(Some(b));
    let p = b.point_index;
    assert(pts == lp + seq![p] + rp);
    let m = lp.len() as int;
    assert forall|i: int| 0 <= i < lp.len() implies #[trigger] pts[i] == lp[i] by {}
    assert forall|j: int| 0 <= j < rp.len() implies #[trigger] pts[m + 1 + j] == rp[j] by {}
    assert(pts[m] == p);
    assert forall|a: int, c: int| 0 <= a < lp.len() && 0 <= c < lp.len() && a != c implies lp[a] != lp[c] by {
        assert(pts[a] == lp[a] && pts[c] == lp[c]);
    }
    assert forall|a: int, c: int| 0 <= a < rp.len() && 0 <= c < rp.len() && a != c implies rp[a] != rp[c] by {
        assert(pts[m + 1 + a] == rp[a] && pts[m + 1 + c] == rp[c]);
    }
    if lp.contains(p) {
        let a = choose|a: int| 0 <= a < lp.len() && lp[a] == p;
        assert(pts[a] == p);
    }
    if rp.contains(p) {
        let a = choose|a: int| 0 <= a < rp.len() && rp[a] == p;
        assert(pts[m + 1 + a] == p);
    }
    assert forall|x: usize| !(lp.contains(x) && rp.contains(x)) by {
        if lp.contains(x) && rp.contains(x) {
            let a = choose|a: int| 0 <= a < lp.len() && lp[a] == x;
            let c = choose|c: int| 0 <= c < rp.len() && rp[c] == x;
            assert(pts[a] == x && pts[m + 1 + c] == x);
        }
    }
    assert forall|x: usize| #[trigger] pts.contains(x) <==> lp.contains(x) || x == p || rp.contains(x) by {
        if pts.contains(x) {
            let i = choose|i: int| 0 <= i < pts.len() && pts[i] == x;
            if i < m {
                assert(lp[i] == x);
            } else if i > m {
                assert(rp[i - m - 1] == x);
            }
        }
        if lp.contains(x) {
            let a = choose|a: int| 0 <= a < lp.len() && lp[a] == x;
            assert(pts[a] == x);
        }
        if rp.contains(x) {
            let a = choose|a: int| 0 <= a < rp.len() && rp[a] == x;
            assert(pts[m + 1 + a] == x);
        }
        if x == p {
            assert(pts[m] == x);
        }
    }
}

/// Offering a newly visited point keeps the search state, with the point now
/// covered.
proof fn lemma_offer_keeps_state<D: Fn(usize) -> u64>(
    before: Seq<(u64, usize)>,
    after: Seq<(u64, usize)>,
    covered: Set<usize>,
    k: nat,
    n: nat,
    distance: D,
    exact: bool,
    d: u64,
    p: usize,
)
    requires
        0 < k,
        p < n,
        !covered.contains(p),
        distance.ensures((p,), d),
        search_state(before, covered, k, n, distance, exact),
        exact ==> deterministic(distance, n) && all_ordinary(distance_values(distance, n)),
        ascending(after),
        after.len() <= k,
        ({
            let kept = if before.len() < k {
                before
            } else if float_lt(d, before.last().0) {
                before.drop_last()
            } else {
                before
            };
            if before.len() < k || float_lt(d, before.last().0) {
                inserted_in_order(kept, (d, p), after)
            } else {
                after == before
            }
        }),
    ensures
        search_state(after, covered.insert(p), k, n, distance, exact),
        after.len() == min_int(k as int, before.len() + 1int),
        forall|t: int| 0 <= t < after.len() ==> before.contains(#[trigger] after[t]) || after[t] == (d, p),
{
    let cov = covered.insert(p);
    assert(!holds_point(before, p as int)) by {
        if holds_point(before, p as int) {
            let t = choose|t: int| 0 <= t < before.len() && #[trigger] before[t].1 == p as int;
            assert(covered.contains(before[t].1));
        }
    }
    if before.len() < k || float_lt(d, before.last().0) {
        let kept = if before.len() < k {
            before
        } else {
            before.drop_last()
        };
        assert(distinct_points(kept));
        assert(ascending(kept));
        assert forall|t: int| 0 <= t < kept.len() implies covered.contains((#[trigger] kept[t]).1)
            && kept[t].1 < n && distance.ensures((kept[t].1,), kept[t].0) by {
            assert(kept[t] == before[t]);
        }
        assert(!holds_point(kept, p as int)) by {
            if holds_point(kept, p as int) {
                let t = choose|t: int| 0 <= t < kept.len() && #[trigger] kept[t].1 == p as int;
                assert(before[t].1 == p);
            }
        }
        lemma_inserted(kept, (d, p), after);
        assert forall|t: int| 0 <= t < after.len() implies cov.contains((#[trigger] after[t]).1) && after[t].1
            < n && distance.ensures((after[t].1,), after[t].0) by {
            assert(after.contains(after[t]));
            if after[t] != (d, p) {
                assert(kept.contains(after[t]));
                let u = choose|u: int| 0 <= u < kept.len() && kept[u] == after[t];
                assert(covered.contains(kept[u].1));
            }
        }
        assert forall|t: int| 0 <= t < after.len() implies before.contains(#[trigger] after[t]) || after[t] == (d, p) by {
            assert(after.contains(after[t]));
            if after[t] != (d, p) {
                assert(kept.contains(after[t]));
                let u = choose|u: int| 0 <= u < kept.len() && kept[u] == after[t];
                assert(before[u] == kept[u]);
            }
        }
        if before.len() < k {
            assert forall|j: usize| #[trigger] cov.contains(j) implies holds_point(after, j as int) by {
                if j != p {
                    assert(covered.contains(j));
                }
            }
        } else {
            let e = before.last();
            assert forall|j: int| #[trigger] holds_point(before, j) implies holds_point(kept, j) || j == e.1 by {
                let t = choose|t: int| 0 <= t < before.len() && #[trigger] before[t].1 == j;
                if t < before.len() - 1 {
                    assert(kept[t].1 == j);
                }
            }
            if k > 1 {
                assert(key_of(kept.last().0) <= key_of(e.0)) by {
                    assert(kept.last() == before[before.len() - 2]);
                }
            }
            if exact {
                let dists = distance_values(distance, n);
                lemma_deterministic_value(distance, n, p, d);
                assert(before[before.len() - 1] == e);
                lemma_deterministic_value(distance, n, e.1, e.0);
                assert(ordinary(dists[p as int]) && ordinary(dists[e.1 as int]));
                lemma_float_lt_ordinary(d, e.0);
                assert(key_of(after.last().0) <= key_of(e.0));
                assert forall|j: usize| #[trigger] cov.contains(j) && !holds_point(after, j as int) implies after.len()
                    == k && key_of(after.last().0) <= key_of(distance_values(distance, n)[j as int]) by {
                    assert(j != p);
                    assert(covered.contains(j));
                    if j == e.1 {
                        assert(before[before.len() - 1] == e);
                        lemma_deterministic_value(distance, n, e.1, e.0);
                    } else {
                        assert(!holds_point(before, j as int));
                    }
                }
            }
        }
    } else {
        if exact {
            let dists = distance_values(distance, n);
            let e = before.last();
            lemma_deterministic_value(distance, n, p, d);
            assert(before[before.len() - 1] == e);
            lemma_deterministic_value(distance, n, e.1, e.0);
            assert(ordinary(dists[p as int]) && ordinary(dists[e.1 as int]));
            lemma_float_lt_ordinary(d, e.0);
            assert forall|j: usize| #[trigger] cov.contains(j) && !holds_point(after, j as int) implies after.len()
                == k && key_of(after.last().0) <= key_of(distance_values(distance, n)[j as int]) by {
                if j == p {
                    lemma_deterministic_value(distance, n, p, d);
                } else {
                    assert(covered.contains(j));
                }
            }
        }
        assert forall|t: int| 0 <= t < after.len() implies cov.contains((#[trigger] after[t]).1) && after[t].1
            < n && distance.ensures((after[t].1,), after[t].0) by {
            assert(after[t] == before[t]);
        }
        assert forall|t: int| 0 <= t < after.len() implies before.contains(#[trigger] after[t]) || after[t] == (d, p) by {
            assert(after[t] == before[t]);
        }
    }
}

impl KdTree {
    /// Every split-plane answer of `split` keeps every point across the plane
    /// at least the plane's distance from the query, given the distances
    /// `dists`: the geometric fact that lets the search skip a subtree. It
    /// holds of a tree built over the data whenever [`split_sound`] does (see
    /// [`lemma_split_sound_prunes`]).
    pub closed spec fn prunes_soundly<S: Fn(usize, usize) -> (u64, bool)>(&self, split: S, dists: Seq<u64>) -> bool {
        node_prunes_soundly(self.root, split, dists)
    }

    /// Find the `k` nearest neighbors of the query.
    ///
    /// `distance(i)` gives the bit pattern of the distance from the query to
    /// point `i`; `split(i, axis)` gives the bit pattern of the distance from
    /// the query to the plane through point `i` across `axis`, and whether the
    /// query lies at or below that plane on `axis`. Returns
    /// `(distance, point_index)` pairs, sorted by distance.
    ///
    /// A visited point replaces the farthest of `k` kept ones, and a subtree
    /// across a plane is searched, only when its distance is smaller by IEEE
    /// `<`: with a NaN on either side neither happens. The answer is the exact
    /// `k` nearest when `distance` is deterministic, its distances are
    /// ordinary (neither NaN nor `-0.0`, where IEEE `<` and `f64::total_cmp`
    /// agree), and pruning is sound.
    pub fn k_nearest<D: Fn(usize) -> u64, S: Fn(usize, usize) -> (u64, bool)>(
        &self,
        k: usize,
        distance: &D,
        split: &S,
    ) -> (r: Vec<(u64, usize)>)
        requires
            k > 0 || self.size() == 0,
            forall|i: usize| i < self.size() ==> distance.requires((i,)),
            forall|i: usize, a: usize| i < self.size() && a < self.dimension() ==> split.requires((i, a)),
        ensures
            r.len() == min_int(k as int, self.size() as int),
            k >= self.size() ==> forall|j: int| 0 <= j < self.size() ==> holds_point(r@, j),
            ascending(r@),
            distinct_points(r@),
            forall|t: int|
                0 <= t < r.len() ==> (#[trigger] r@[t]).1 < self.size() && distance.ensures((r@[t].1,), r@[t].0),
            deterministic(*distance, self.size()) && all_ordinary(distance_values(*distance, self.size()))
                && self.prunes_soundly(*split, distance_values(*distance, self.size())) ==> is_k_nearest(
                distance_values(*distance, self.size()),
                k as int,
                r@,
            ),
    {
        proof {
            use_type_invariant(self);
        }
        let mut best: Vec<(u64, usize)> = Vec::new();
        if k == 0 {
            return best;
        }
        let ghost n = self.size();
        let ghost exact = deterministic(*distance, n) && all_ordinary(distance_values(*distance, n))
            && self.prunes_soundly(*split, distance_values(*distance, n));
        self.search_recursive(&self.root, k, distance, split, &mut best, Ghost(Set::empty()), Ghost(0), Ghost(exact), Ghost(n));
        proof {
            let pts = node_points(self.root);
            let cov = Set::<usize>::empty().union(pts.to_set());
            let dists = distance_values(*distance, n);
            assert forall|j: int| 0 <= j < n implies #[trigger] cov.contains(j as usize) by {
                assert(pts.contains(j as usize));
            }
            lemma_distinct_points_count(best@, n);
            if best.len() < k {
                assert forall|j: int| 0 <= j < n implies holds_point(best@, j) by {
                    assert(cov.contains(j as usize));
                }
            }
            if exact {
                assert forall|t: int| 0 <= t < best.len() implies (#[trigger] best@[t]).1 < dists.len() && best@[t].0
                    == dists[best@[t].1 as int] by {
                    lemma_deterministic_value(*distance, n, best@[t].1, best@[t].0);
                }
                assert forall|j: int| 0 <= j < dists.len() && !holds_point(best@, j) implies key_of(best@.last().0)
                    <= key_of(#[trigger] dists[j]) by {
                    assert(cov.contains(j as usize));
                }
            }
        }
        best
    }

    fn search_recursive<D: Fn(usize) -> u64, S: Fn(usize, usize) -> (u64, bool)>(
        &self,
        node: &Option<Box<KdNode>>,
        k: usize,
        distance: &D,
        split: &S,
        best: &mut Vec<(u64, usize)>,
        Ghost(covered): Ghost<Set<usize>>,
        Ghost(depth): Ghost<nat>,
        Ghost(exact): Ghost<bool>,
        Ghost(n): Ghost<nat>,
    )
        requires
            0 < k,
            self.dim > 0,
            n <= usize::MAX,
            node_splits(*node, self.dim as nat, depth),
            node_points(*node).no_duplicates(),
            forall|x: usize| #[trigger] node_points(*node).contains(x) ==> x < n && !covered.contains(x),
            forall|i: usize| i < n ==> distance.requires((i,)),
            forall|i: usize, a: usize| i < n && a < self.dim ==> split.requires((i, a)),
            search_state(old(best)@, covered, k as nat, n, *distance, exact),
            exact ==> deterministic(*distance, n) && all_ordinary(distance_values(*distance, n)) && node_prunes_soundly(
                *node,
                *split,
                distance_values(*distance, n),
            ),
        ensures
            search_state(final(best)@, covered.union(node_points(*node).to_set()), k as nat, n, *distance, exact),
            final(best).len() == min_int(k as int, old(best).len() + node_points(*node).len() as int),
            forall|t: int|
                0 <= t < final(best).len() ==> old(best)@.contains(#[trigger] final(best)@[t]) || node_points(
                    *node,
                ).contains(final(best)@[t].1),
        decreases *node,
    {
        match node {
            None => {
                proof {
                    assert(covered.union(node_points(*node).to_set()) =~= covered);
                }
            },
            Some(b) => {
                let p = b.point_index;
                let ghost lp = node_points(b.left);
                let ghost rp = node_points(b.right);
                let ghost pts = node_points(*node);
                proof {
                    lemma_node_parts(*b);
                    assert(pts.contains(p));
                }
                let d = distance(p);
                let ghost before = best@;
                offer(best, k, (d, p));
                proof {
                    lemma_offer_keeps_state(before, best@, covered, k as nat, n, *distance, exact, d, p);
                }
                let ghost cov1 = covered.insert(p);
                let ghost b1 = best@;
                let (plane, query_left) = split(p, b.split_dim);
                let near = if query_left { &b.left } else { &b.right };
                let far = if query_left { &b.right } else { &b.left };
                proof {
                    assert(*far == far_side(*b, query_left));
                    assert forall|x: usize| #[trigger] node_points(*near).contains(x) implies x < n && !cov1.contains(x) by {
                        assert(pts.contains(x));
                    }
                }
                self.search_recursive(near, k, distance, split, best, Ghost(cov1), Ghost(depth + 1), Ghost(exact), Ghost(n));
                let ghost cov2 = cov1.union(node_points(*near).to_set());
                let ghost b2 = best@;
                proof {
                    assert forall|x: usize| #[trigger] node_points(*far).contains(x) implies x < n && !cov2.contains(x) by {
                        assert(pts.contains(x));
                    }
                }
                let search_far = if best.len() < k {
                    true
                } else {
                    float_less(plane, best[best.len() - 1].0)
                };
                if search_far {
                    self.search_recursive(far, k, distance, split, best, Ghost(cov2), Ghost(depth + 1), Ghost(exact), Ghost(n));
                } else {
                    proof {
                        let cov3 = cov2.union(node_points(*far).to_set());
                        let fp = node_points(*far);
                        assert forall|t: int| 0 <= t < best@.len() implies cov3.contains((#[trigger] best@[t]).1) by {
                            assert(cov2.contains(best@[t].1));
                        }
                        if exact {
                            let dists = distance_values(*distance, n);
                            let last = best@[best@.len() - 1];
                            lemma_deterministic_value(*distance, n, last.1, last.0);
                            assert(ordinary(dists[last.1 as int]));
                            assert(ordinary(plane));
                            lemma_float_lt_ordinary(plane, last.0);
                            assert forall|j: usize| #[trigger] cov3.contains(j) && !holds_point(best@, j as int) implies best@.len()
                                == k && key_of(best@.last().0) <= key_of(distance_values(*distance, n)[j as int]) by {
                                if !cov2.contains(j) {
                                    assert(fp.contains(j));
                                    let t = choose|t: int| 0 <= t < fp.len() && fp[t] == j;
                                    assert(fp[t] == j);
                                }
                            }
                        }
                    }
                }
                proof {
                    let cov3 = cov2.union(node_points(*far).to_set());
                    assert(cov3 =~= covered.union(pts.to_set()));
                    let np = node_points(*near);
                    let fp = node_points(*far);
                    assert(np.len() + fp.len() == lp.len() + rp.len());
                    assert(pts.len() == lp.len() + 1 + rp.len());
                    assert forall|x: usize| np.contains(x) || fp.contains(x) implies #[trigger] pts.contains(x) by {
                        if query_left {
                            assert(np == lp && fp == rp);
                        } else {
                            assert(np == rp && fp == lp);
                        }
                    }
                    let b3 = best@;
                    assert forall|t: int| 0 <= t < b3.len() implies old(best)@.contains(#[trigger] b3[t]) || pts.contains(
                        b3[t].1,
                    ) by {
                        let e = b3[t];
                        if !fp.contains(e.1) {
                            assert(b2.contains(e));
                            let u2 = choose|u: int| 0 <= u < b2.len() && b2[u] == e;
                            if !np.contains(e.1) {
                                assert(b1.contains(b2[u2]));
                                let u1 = choose|u: int| 0 <= u < b1.len() && b1[u] == e;
                                assert(before.contains(b1[u1]) || b1[u1] == (d, p));
                            }
                        }
                    }
                }
            },
        }
    }
}

/// `split` answers soundly for pruning, given the distances `dists`: for
/// every point `i`, axis `a < dim` and answer `(plane, query_left)` of
/// `split(i, a)`, `plane` is ordinary (neither NaN nor `-0.0`), and every
/// point `j` on the other side of the plane from the query is at least
/// `plane` away. With `query_left`, the other side holds the
/// points whose key on `a` is above that of `i`; otherwise those whose key is
/// at most that of `i`. For the Euclidean and Manhattan metrics this is the
/// fact that one coordinate's difference bounds the distance.
pub open spec fn split_sound<S: Fn(usize, usize) -> (u64, bool)>(
    split: S,
    dists: Seq<u64>,
    data: Seq<u64>,
    dim: int,
) -> bool {
    &&& forall|i: usize, a: usize, plane: u64, query_left: bool|
        i < dists.len() && a < dim && #[trigger] split.ensures((i, a), (plane, query_left)) ==> ordinary(plane)
    &&& forall|i: usize, a: usize, plane: u64, query_left: bool, j: usize|
        i < dists.len() && a < dim && j < dists.len() && #[trigger] split.ensures((i, a), (plane, query_left)) && (
        if query_left {
            coord_key(data, dim, i as int, a as int) < coord_key(data, dim, j as int, a as int)
        } else {
            coord_key(data, dim, j as int, a as int) <= coord_key(data, dim, i as int, a as int)
        }) ==> key_of(plane) <= key_of(#[trigger] dists[j as int])
}

proof fn lemma_node_split_sound<S: Fn(usize, usize) -> (u64, bool)>(
    node: Option<Box<KdNode>>,
    split: S,
    dists: Seq<u64>,
    data: Seq<u64>,
    dim: nat,
    depth: nat,
)
    requires
        dim > 0,
        node_splits(node, dim, depth),
        node_kd_ordered(node, data, dim as int),
        forall|t: int| 0 <= t < node_points(node).len() ==> #[trigger] node_points(node)[t] < dists.len(),
        split_sound(split, dists, data, dim as int),
    ensures
        node_prunes_soundly(node, split, dists),
    decreases node,
{
    if let Some(b) = node {
        let lp = node_points(b.left);
        let rp = node_points(b.right);
        let pts = node_points(node);
        let m = lp.len() as int;
        assert(pts == lp + seq![b.point_index] + rp);
        assert(pts[m] == b.point_index);
        assert forall|t: int| 0 <= t < lp.len() implies #[trigger] lp[t] < dists.len() by {
            assert(pts[t] == lp[t]);
        }
        assert forall|t: int| 0 <= t < rp.len() implies #[trigger] rp[t] < dists.len() by {
            assert(pts[m + 1 + t] == rp[t]);
        }
        lemma_node_split_sound(b.left, split, dists, data, dim, depth + 1);
        lemma_node_split_sound(b.right, split, dists, data, dim, depth + 1);
        assert forall|plane: u64, query_left: bool|
            #[trigger] split.ensures((b.point_index, b.split_dim), (plane, query_left)) implies forall|t: int|
            0 <= t < node_points(far_side(b, query_left)).len() ==> key_of(plane) <= key_of(
                dists[#[trigger] node_points(far_side(b, query_left))[t] as int],
            ) by {
            assert forall|t: int| 0 <= t < node_points(far_side(b, query_left)).len() implies key_of(plane) <= key_of(
                dists[#[trigger] node_points(far_side(b, query_left))[t] as int],
            ) by {
                let j = node_points(far_side(b, query_left))[t];
                if query_left {
                    assert(rp[t] == j);
                } else {
                    assert(lp[t] == j);
                }
                assert(b.split_dim < dim);
            }
        }
    }
}

/// Sound plane answers make pruning sound in any tree that median splits
/// build over the data: the KD-tree search then finds exactly the `k`
/// nearest points.
pub proof fn lemma_split_sound_prunes<S: Fn(usize, usize) -> (u64, bool)>(
    tree: &KdTree,
    split: S,
    dists: Seq<u64>,
    data: Seq<u64>,
)
    requires
        tree.arranges(data),
        tree.holds_each_point_once(),
        dists.len() == tree.size(),
        split_sound(split, dists, data, tree.dimension() as int),
    ensures
        tree.prunes_soundly(split, dists),
{
    let pts = node_points(tree.root);
    assert forall|t: int| 0 <= t < pts.len() implies #[trigger] pts[t] < dists.len() by {
        assert(pts.contains(pts[t]));
    }
    lemma_node_split_sound(tree.root, split, dists, data, tree.dim as nat, 0);
}

/// The tree orders each axis by the coordinates themselves, as
/// `f64::total_cmp` orders them: one coordinate key is at most another exactly
/// when the first coordinate comes at or before the second in the IEEE
/// `totalOrder`, and two keys are equal only for equal coordinates, whatever
/// their magnitude. So in a tree that `arranges` the data, a left subtree holds
/// points whose split coordinate is at or before the node's, and a right
/// subtree points whose split coordinate is after it.
pub proof fn law_coordinate_keys_follow_total_order(data: Seq<u64>, dim: int, i: int, j: int, a: int)
    requires
        0 <= i * dim + a < data.len(),
        0 <= j * dim + a < data.len(),
    ensures
        coord_key(data, dim, i, a) <= coord_key(data, dim, j, a) <==> total_le(data[i * dim + a], data[j * dim + a]),
        coord_key(data, dim, i, a) == coord_key(data, dim, j, a) <==> data[i * dim + a] == data[j * dim + a],
{
    lemma_key_order(data[i * dim + a], data[j * dim + a]);
}

} // verus!
