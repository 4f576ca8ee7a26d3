//! Brute-force nearest-neighbor search: every point's distance is known, and
//! the `k` nearest are picked out.
use vstd::prelude::*;
use crate::neighbors::{is_k_nearest, holds_point};
use crate::sort::{select_smallest, sort_indices_by_key, sorted_by_key, indices_below};
use crate::total_order::{key_of, order_key};

verus! {

broadcast use {vstd::seq_lib::group_to_multiset_ensures, vstd::multiset::group_multiset_axioms};

/// Brute-force k-nearest neighbors search.
///
/// `distances[i]` is the bit pattern of the distance from the query to
/// training point `i`. Returns the `k` closest points as
/// `(distance, point_index)` pairs, sorted by distance. The `k` closest are
/// selected first, in linear time on average, and only they are sorted.
pub fn brute_force_search(distances: &[u64], k: usize) -> (r: Vec<(u64, usize)>)
    requires
        0 < k <= distances.len(),
    ensures
        is_k_nearest(distances@, k as int, r@),
{
    let n = distances.len();
    let mut keys: Vec<u64> = Vec::new();
    let mut idx: Vec<usize> = Vec::new();
    for i in 0..n
        invariant
            n == distances.len(),
            keys.len() == i,
            idx.len() == i,
            forall|t: int| 0 <= t < i ==> #[trigger] keys@[t] == key_of(distances@[t]),
            forall|t: int| 0 <= t < i ==> #[trigger] idx@[t] == t,
    {
        keys.push(order_key(distances[i]));
        idx.push(i);
    }
    proof {
        assert(idx@.no_duplicates());
        idx@.lemma_multiset_has_no_duplicates();
    }
    let ghost range = idx@;
    select_smallest(&mut idx, k, &keys);
    proof {
        idx@.lemma_multiset_has_no_duplicates_conv();
        assert(idx@.to_multiset().len() == range.to_multiset().len());
    }
    let mut first: Vec<usize> = Vec::new();
    for t in 0..k
        invariant
            0 < k <= idx.len(),
            first@ == idx@.subrange(0, t as int),
    {
        first.push(idx[t]);
    }
    proof {
        assert(indices_below(first@, keys.len() as int));
    }
    let sorted = sort_indices_by_key(&first, &keys);
    proof {
        assert(first@.no_duplicates());
        first@.lemma_multiset_has_no_duplicates();
        sorted@.lemma_multiset_has_no_duplicates_conv();
    }
    let mut r: Vec<(u64, usize)> = Vec::new();
    for t in 0..k
        invariant
            n == distances.len(),
            0 < k <= n,
            sorted.len() == k,
            keys.len() == n,
            forall|u: int| 0 <= u < n ==> #[trigger] keys@[u] == key_of(distances@[u]),
            sorted_by_key(sorted@, keys@),
            indices_below(sorted@, n as int),
            sorted@.no_duplicates(),
            r.len() == t,
            forall|u: int| 0 <= u < t ==> #[trigger] r@[u] == (distances@[sorted@[u] as int], sorted@[u]),
    {
        let p = sorted[t];
        r.push((distances[p], p));
    }
    proof {
        let rs = r@;
        assert forall|s: int, t: int| 0 <= s <= t < rs.len() implies key_of(#[trigger] rs[s].0) <= key_of(
            #[trigger] rs[t].0,
        ) by {
            assert(keys@[sorted@[s] as int] <= keys@[sorted@[t] as int]);
        }
        assert forall|s: int, t: int| 0 <= s < rs.len() && 0 <= t < rs.len() && s != t implies #[trigger] rs[s].1
            != #[trigger] rs[t].1 by {}
        let last = sorted@[k - 1];
        assert(sorted@.to_multiset().count(last) > 0);
        assert(first@.contains(last));
        let w = choose|w: int| 0 <= w < first@.len() && first@[w] == last;
        assert(idx@[w] == last);
        assert forall|j: int| 0 <= j < n && !holds_point(rs, j) implies key_of(rs.last().0) <= key_of(
            #[trigger] distances@[j],
        ) by {
            assert(range[j] == j);
            assert(range.to_multiset().count(j as usize) > 0);
            assert(idx@.contains(j as usize));
            let q = choose|q: int| 0 <= q < idx@.len() && idx@[q] == j as usize;
            if q < k {
                assert(first@[q] == j);
                assert(first@.to_multiset().count(j as usize) > 0);
                assert(sorted@.contains(j as usize));
                let u = choose|u: int| 0 <= u < sorted@.len() && sorted@[u] == j as usize;
                assert(rs[u].1 == j);
            }
            assert(keys@[idx@[w] as int] <= keys@[idx@[q] as int]);
        }
    }
    r
}

} // verus!
