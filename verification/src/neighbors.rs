//! What it means for a list of `(distance, point_index)` pairs to be the `k`
//! nearest neighbors, and the bounded sorted insertion both searches share.
use vstd::prelude::*;
use crate::total_order::{key_of, order_key, lemma_key_order, float_lt, float_less};

verus! {

/// The smaller of two integers.
pub open spec fn min_int(a: int, b: int) -> int {
    if a <= b { a } else { b }
}

/// The entries of `r` are in ascending order of distance.
pub open spec fn ascending(r: Seq<(u64, usize)>) -> bool {
    forall|s: int, t: int| 0 <= s <= t < r.len() ==> key_of(#[trigger] r[s].0) <= key_of(#[trigger] r[t].0)
}

/// No point occurs twice in `r`.
pub open spec fn distinct_points(r: Seq<(u64, usize)>) -> bool {
    forall|s: int, t: int| 0 <= s < r.len() && 0 <= t < r.len() && s != t ==> #[trigger] r[s].1 != #[trigger] r[t].1
}

/// Point `j` occurs in `r`.
pub open spec fn holds_point(r: Seq<(u64, usize)>, j: int) -> bool {
    exists|t: int| 0 <= t < r.len() && #[trigger] r[t].1 == j
}

/// `r` lists `min(k, n)` distinct points out of the `n` points whose distances
/// are `dists`, each with its distance, in ascending order of distance, and
/// every point left out is at least as far as the farthest one listed.
pub open spec fn is_k_nearest(dists: Seq<u64>, k: int, r: Seq<(u64, usize)>) -> bool {
    &&& r.len() == min_int(k, dists.len() as int)
    &&& forall|t: int| 0 <= t < r.len() ==> (#[trigger] r[t]).1 < dists.len() && r[t].0 == dists[r[t].1 as int]
    &&& distinct_points(r)
    &&& ascending(r)
    &&& forall|j: int| 0 <= j < dists.len() && !holds_point(r, j) ==> key_of(r.last().0) <= key_of(#[trigger] dists[j])
}

/// `r` is `s` with `c` inserted after every entry of `s` at most as far as
/// `c` and before every entry farther than `c`.
pub open spec fn inserted_at(s: Seq<(u64, usize)>, c: (u64, usize), r: Seq<(u64, usize)>, pos: int) -> bool {
    &&& 0 <= pos <= s.len()
    &&& r == s.insert(pos, c)
    &&& forall|t: int| 0 <= t < pos ==> key_of(#[trigger] s[t].0) <= key_of(c.0)
    &&& forall|t: int| pos <= t < s.len() ==> key_of(c.0) < key_of(#[trigger] s[t].0)
}

/// `r` is `s` with `c` inserted in order of distance, after the entries at
/// the same distance.
pub open spec fn inserted_in_order(s: Seq<(u64, usize)>, c: (u64, usize), r: Seq<(u64, usize)>) -> bool {
    exists|pos: int| inserted_at(s, c, r, pos)
}

/// Offers `candidate` to `best`, a list of at most `k` entries in ascending
/// order of distance: while the list is short the candidate joins it; once it
/// holds `k` entries, the candidate takes the place of the farthest one when it
/// is nearer by IEEE `<` (never when either distance is a NaN). A candidate
/// joins after every entry at most as far by `f64::total_cmp`.
pub fn offer(best: &mut Vec<(u64, usize)>, k: usize, candidate: (u64, usize))
    requires
        0 < k,
        old(best).len() <= k,
        ascending(old(best)@),
    ensures
        final(best).len() <= k,
        ascending(final(best)@),
        ({
            let kept = if old(best).len() < k {
                old(best)@
            } else if float_lt(candidate.0, old(best)@.last().0) {
                old(best)@.drop_last()
            } else {
                old(best)@
            };
            if old(best).len() < k || float_lt(candidate.0, old(best)@.last().0) {
                inserted_in_order(kept, candidate, final(best)@)
            } else {
                final(best)@ == old(best)@
            }
        }),
{
    if best.len() >= k {
        let last = best.len() - 1;
        if float_less(candidate.0, best[last].0) {
            best.pop();
            assert(best@ == old(best)@.drop_last());
        } else {
            return;
        }
    }
    let ghost kept = best@;
    let ckey = order_key(candidate.0);
    let mut pos: usize = 0;
    while pos < best.len() && order_key(best[pos].0) <= ckey
        invariant
            best@ == kept,
            ascending(kept),
            ckey == key_of(candidate.0),
            pos <= kept.len(),
            forall|t: int| 0 <= t < pos ==> key_of(#[trigger] kept[t].0) <= ckey,
        decreases kept.len() - pos,
    {
        pos = pos + 1;
    }
    proof {
        if pos < kept.len() {
            assert forall|t: int| pos <= t < kept.len() implies ckey < key_of(#[trigger] kept[t].0) by {
                assert(key_of(kept[pos as int].0) <= key_of(kept[t].0));
            }
        }
    }
    best.insert(pos, candidate);
    proof {
        let f = best@;
        assert forall|s: int, t: int| 0 <= s <= t < f.len() implies key_of(#[trigger] f[s].0) <= key_of(
            #[trigger] f[t].0,
        ) by {
            if s < pos && t < pos {
                assert(f[s] == kept[s] && f[t] == kept[t]);
            } else if s < pos && t == pos {
            } else if s < pos {
                assert(f[s] == kept[s] && f[t] == kept[t - 1]);
            } else if s == pos && t > pos {
                assert(f[t] == kept[t - 1]);
            } else if s > pos {
                assert(f[s] == kept[s - 1] && f[t] == kept[t - 1]);
            }
        }
        assert(inserted_at(kept, candidate, f, pos as int));
        if old(best).len() < k {
            assert(kept == old(best)@);
        } else {
            assert(float_lt(candidate.0, old(best)@.last().0));
            assert(kept == old(best)@.drop_last());
        }
    }
}

/// What an ordered insertion keeps: the entries before and after the
/// candidate, the candidate itself, and the distinctness of points.
pub proof fn lemma_inserted(s: Seq<(u64, usize)>, c: (u64, usize), r: Seq<(u64, usize)>)
    requires
        inserted_in_order(s, c, r),
    ensures
        r.len() == s.len() + 1,
        forall|x: (u64, usize)| r.contains(x) <==> s.contains(x) || x == c,
        forall|j: int| holds_point(r, j) <==> holds_point(s, j) || j == c.1,
        distinct_points(s) && !holds_point(s, c.1 as int) ==> distinct_points(r),
        r.last() == c || r.last() == s.last(),
        key_of(c.0) <= key_of(r.last().0),
        s.len() > 0 && ascending(s) ==> key_of(s.last().0) <= key_of(r.last().0),
{
    let pos = choose|pos: int| inserted_at(s, c, r, pos);
    assert(inserted_at(s, c, r, pos));
    assert forall|t: int| 0 <= t < r.len() implies #[trigger] r[t] == (if t < pos {
        s[t]
    } else if t == pos {
        c
    } else {
        s[t - 1]
    }) by {}
    assert forall|x: (u64, usize)| r.contains(x) <==> s.contains(x) || x == c by {
        if r.contains(x) {
            let t = choose|t: int| 0 <= t < r.len() && r[t] == x;
            if t < pos {
                assert(s[t] == x);
            } else if t > pos {
                assert(s[t - 1] == x);
            }
        }
        if s.contains(x) {
            let u = choose|u: int| 0 <= u < s.len() && s[u] == x;
            if u < pos {
                assert(r[u] == x);
            } else {
                assert(r[u + 1] == x);
            }
        }
        if x == c {
            assert(r[pos] == x);
        }
    }
    assert forall|j: int| holds_point(r, j) <==> holds_point(s, j) || j == c.1 by {
        if holds_point(r, j) {
            let t = choose|t: int| 0 <= t < r.len() && #[trigger] r[t].1 == j;
            if t < pos {
                assert(s[t].1 == j);
            } else if t > pos {
                assert(s[t - 1].1 == j);
            }
        }
        if holds_point(s, j) {
            let u = choose|u: int| 0 <= u < s.len() && #[trigger] s[u].1 == j;
            if u < pos {
                assert(r[u].1 == j);
            } else {
                assert(r[u + 1].1 == j);
            }
        }
        if j == c.1 {
            assert(r[pos].1 == j);
        }
    }
    if distinct_points(s) && !holds_point(s, c.1 as int) {
        assert forall|a: int, b: int| 0 <= a < r.len() && 0 <= b < r.len() && a != b implies #[trigger] r[a].1
            != #[trigger] r[b].1 by {
            if a == pos {
                if b < pos {
                    assert(s[b].1 == r[b].1);
                } else {
                    assert(s[b - 1].1 == r[b].1);
                }
            } else if b == pos {
                if a < pos {
                    assert(s[a].1 == r[a].1);
                } else {
                    assert(s[a - 1].1 == r[a].1);
                }
            }
        }
    }
    if pos < s.len() {
        assert(r.last() == s.last());
        assert(key_of(c.0) < key_of(s[s.len() - 1].0));
    } else {
        assert(r.last() == c);
        if s.len() > 0 {
            assert(key_of(s[s.len() - 1].0) <= key_of(c.0));
        }
    }
}

/// The distance of each of the points `0..n` as `distance` gives it.
pub open spec fn distance_values<D: Fn(usize) -> u64>(distance: D, n: nat) -> Seq<u64> {
    Seq::new(n, |j: int| choose|d: u64| #[trigger] distance.ensures((j as usize,), d))
}

/// `distance` gives one answer for each of the points `0..n`.
pub open spec fn deterministic<D: Fn(usize) -> u64>(distance: D, n: nat) -> bool {
    forall|j: usize, d1: u64, d2: u64|
        j < n && #[trigger] distance.ensures((j,), d1) && #[trigger] distance.ensures((j,), d2) ==> d1 == d2
}

/// An answer of a deterministic `distance` is the value `distance_values` names.
pub proof fn lemma_deterministic_value<D: Fn(usize) -> u64>(distance: D, n: nat, j: usize, d: u64)
    requires
        deterministic(distance, n),
        j < n,
        distance.ensures((j,), d),
    ensures
        distance_values(distance, n)[j as int] == d,
{
    let c = choose|c: u64| #[trigger] distance.ensures((j,), c);
    assert(distance.ensures((j,), c));
}

/// A list of distinct points out of `0..n` holds at most `n` entries, and
/// exactly `n` when it holds every one of them.
pub proof fn lemma_distinct_points_count(r: Seq<(u64, usize)>, n: nat)
    requires
        distinct_points(r),
        forall|t: int| 0 <= t < r.len() ==> (#[trigger] r[t]).1 < n,
        n <= usize::MAX,
    ensures
        r.len() <= n,
        (forall|j: int| 0 <= j < n ==> holds_point(r, j)) ==> r.len() == n,
        r.len() == n ==> forall|j: int| 0 <= j < n ==> holds_point(r, j),
{
    broadcast use vstd::set::group_set_axioms;
    let ids = r.map_values(|e: (u64, usize)| e.1);
    let range = Seq::new(n, |i: int| i as usize);
    assert(ids.no_duplicates()) by {
        assert forall|a: int, b: int| 0 <= a < ids.len() && 0 <= b < ids.len() && a != b implies ids[a]
            != ids[b] by {
            assert(r[a].1 != r[b].1);
        }
    }
    assert(range.no_duplicates()) by {
        assert forall|a: int, b: int| 0 <= a < range.len() && 0 <= b < range.len() && a != b implies range[a]
            != range[b] by {
            assert(range[a] == a && range[b] == b);
        }
    }
    ids.unique_seq_to_set();
    range.unique_seq_to_set();
    vstd::seq_lib::seq_to_set_is_finite(range);
    assert(ids.to_set().subset_of(range.to_set())) by {
        assert forall|x: usize| ids.to_set().contains(x) implies range.to_set().contains(x) by {
            let t = choose|t: int| 0 <= t < ids.len() && ids[t] == x;
            assert(r[t].1 == x);
            assert(range[x as int] == x);
        }
    }
    vstd::set_lib::lemma_len_subset(ids.to_set(), range.to_set());
    if forall|j: int| 0 <= j < n ==> holds_point(r, j) {
        assert(range.to_set().subset_of(ids.to_set())) by {
            assert forall|x: usize| range.to_set().contains(x) implies ids.to_set().contains(x) by {
                let u = choose|u: int| 0 <= u < range.len() && range[u] == x;
                assert(holds_point(r, x as int));
                let t = choose|t: int| 0 <= t < r.len() && #[trigger] r[t].1 == x as int;
                assert(ids[t] == x);
            }
        }
        vstd::set_lib::lemma_len_subset(range.to_set(), ids.to_set());
    }
    if r.len() == n {
        assert forall|j: int| 0 <= j < n implies holds_point(r, j) by {
            let x = j as usize;
            assert(range[j] == x);
            assert(range.to_set().contains(x));
            if !ids.to_set().contains(x) {
                vstd::set_lib::lemma_len_subset(ids.to_set(), range.to_set().remove(x));
            } else {
                let t = choose|t: int| 0 <= t < ids.len() && ids[t] == x;
                assert(r[t].1 == x);
            }
        }
    }
}

/// In two lists of the `k` nearest neighbors, the `t`-th distance of the
/// second is no greater than the `t`-th distance of the first.
proof fn lemma_kth_no_greater(dists: Seq<u64>, k: int, r1: Seq<(u64, usize)>, r2: Seq<(u64, usize)>, t: int)
    requires
        is_k_nearest(dists, k, r1),
        is_k_nearest(dists, k, r2),
        0 <= t < r1.len(),
    ensures
        key_of(r2[t].0) <= key_of(r1[t].0),
{
    broadcast use vstd::set::group_set_axioms;
    if key_of(r1[t].0) < key_of(r2[t].0) {
        let s1 = r1.take(t + 1).map_values(|e: (u64, usize)| e.1);
        let s2 = r2.take(t).map_values(|e: (u64, usize)| e.1);
        assert(s1.no_duplicates()) by {
            assert forall|a: int, b: int| 0 <= a < s1.len() && 0 <= b < s1.len() && a != b implies s1[a]
                != s1[b] by {
                assert(r1[a].1 != r1[b].1);
            }
        }
        s1.unique_seq_to_set();
        s2.lemma_cardinality_of_set();
        vstd::seq_lib::seq_to_set_is_finite(s2);
        assert(s1.to_set().subset_of(s2.to_set())) by {
            assert forall|x: usize| s1.to_set().contains(x) implies s2.to_set().contains(x) by {
                let i = choose|i: int| 0 <= i < s1.len() && s1[i] == x;
                assert(r1[i].1 == x);
                assert(key_of(r1[i].0) <= key_of(r1[t].0));
                assert(r1[i].0 == dists[x as int]);
                if !holds_point(r2, x as int) {
                    assert(key_of(r2.last().0) <= key_of(dists[x as int]));
                    assert(key_of(r2[t].0) <= key_of(r2[r2.len() - 1].0));
                }
                let u = choose|u: int| 0 <= u < r2.len() && #[trigger] r2[u].1 == x as int;
                assert(r2[u].0 == dists[x as int]);
                if u >= t {
                    assert(key_of(r2[t].0) <= key_of(r2[u].0));
                }
                assert(s2[u] == x);
            }
        }
        vstd::set_lib::lemma_len_subset(s1.to_set(), s2.to_set());
    }
}

/// Any two lists of the `k` nearest neighbors of one query list the same
/// distances in the same order, and, when no two points are at the same
/// distance, the same points: the answer of an exact search is determined up
/// to which of several equally distant points it names. So the KD-tree
/// search, where its pruning is sound, returns what the brute-force search
/// returns.
pub proof fn law_k_nearest_distances_agree(dists: Seq<u64>, k: int, r1: Seq<(u64, usize)>, r2: Seq<(u64, usize)>)
    requires
        is_k_nearest(dists, k, r1),
        is_k_nearest(dists, k, r2),
    ensures
        r1.len() == r2.len(),
        forall|t: int| 0 <= t < r1.len() ==> (#[trigger] r1[t]).0 == r2[t].0,
        (forall|i: int, j: int| 0 <= i < j < dists.len() ==> dists[i] != dists[j]) ==> r1 == r2,
{
    assert forall|t: int| 0 <= t < r1.len() implies (#[trigger] r1[t]).0 == r2[t].0 by {
        lemma_kth_no_greater(dists, k, r1, r2, t);
        lemma_kth_no_greater(dists, k, r2, r1, t);
        lemma_key_order(r1[t].0, r2[t].0);
    }
    if forall|i: int, j: int| 0 <= i < j < dists.len() ==> dists[i] != dists[j] {
        assert forall|t: int| 0 <= t < r1.len() implies #[trigger] r1[t] == r2[t] by {
            let (a, b) = (r1[t].1 as int, r2[t].1 as int);
            assert(dists[a] == r1[t].0 && dists[b] == r2[t].0);
            if a < b {
                assert(dists[a] != dists[b]);
            } else if b < a {
                assert(dists[b] != dists[a]);
            }
        }
        assert(r1 =~= r2);
    }
}

} // verus!
