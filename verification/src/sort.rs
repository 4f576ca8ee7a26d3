//! Sorting point indices by a key per point.
use vstd::prelude::*;

verus! {

broadcast use {vstd::seq_lib::group_to_multiset_ensures, vstd::multiset::group_multiset_axioms};

/// Every index in `s` names an entry of a key table of length `n`.
pub open spec fn indices_below(s: Seq<usize>, n: int) -> bool {
    forall|i: int| 0 <= i < s.len() ==> #[trigger] s[i] < n
}

/// `s` is in ascending order of `key`.
pub open spec fn sorted_by_key(s: Seq<usize>, key: Seq<u64>) -> bool {
    forall|i: int, j: int| 0 <= i <= j < s.len() ==> key[#[trigger] s[i] as int] <= key[#[trigger] s[j] as int]
}

/// Merges two runs that are each in ascending order of `key`.
fn merge_runs(a: &Vec<usize>, b: &Vec<usize>, key: &Vec<u64>) -> (r: Vec<usize>)
    requires
        indices_below(a@, key.len() as int),
        indices_below(b@, key.len() as int),
        sorted_by_key(a@, key@),
        sorted_by_key(b@, key@),
    ensures
        r@.to_multiset() == a@.to_multiset().add(b@.to_multiset()),
        sorted_by_key(r@, key@),
        indices_below(r@, key.len() as int),
        r.len() == a.len() + b.len(),
{
    let mut r: Vec<usize> = Vec::new();
    let mut i: usize = 0;
    let mut j: usize = 0;
    while i < a.len() || j < b.len()
        invariant
            i <= a.len(),
            j <= b.len(),
            r.len() == i + j,
            indices_below(a@, key.len() as int),
            indices_below(b@, key.len() as int),
            sorted_by_key(a@, key@),
            sorted_by_key(b@, key@),
            indices_below(r@, key.len() as int),
            sorted_by_key(r@, key@),
            r@.to_multiset() == a@.take(i as int).to_multiset().add(b@.take(j as int).to_multiset()),
            r.len() > 0 && i < a.len() ==> key@[r@.last() as int] <= key@[a@[i as int] as int],
            r.len() > 0 && j < b.len() ==> key@[r@.last() as int] <= key@[b@[j as int] as int],
        decreases a.len() + b.len() - i - j,
    {
        let take_a = if j >= b.len() {
            true
        } else if i >= a.len() {
            false
        } else {
            key[a[i]] <= key[b[j]]
        };
        let ghost old_r = r@;
        if take_a {
            let x = a[i];
            r.push(x);
            proof {
                assert(a@.take(i + 1) == a@.take(i as int).push(x));
                assert forall|p: int, q: int| 0 <= p <= q < r@.len() implies key@[r@[p] as int]
                    <= key@[r@[q] as int] by {
                    if q == r@.len() - 1 && p < q {
                        assert(key@[old_r[p] as int] <= key@[old_r.last() as int]);
                    }
                }
                if i + 1 < a.len() {
                    assert(key@[a@[i as int] as int] <= key@[a@[i + 1] as int]);
                }
            }
            i = i + 1;
        } else {
            let x = b[j];
            r.push(x);
            proof {
                assert(b@.take(j + 1) == b@.take(j as int).push(x));
                assert forall|p: int, q: int| 0 <= p <= q < r@.len() implies key@[r@[p] as int]
                    <= key@[r@[q] as int] by {
                    if q == r@.len() - 1 && p < q {
                        assert(key@[old_r[p] as int] <= key@[old_r.last() as int]);
                    }
                }
                if j + 1 < b.len() {
                    assert(key@[b@[j as int] as int] <= key@[b@[j + 1] as int]);
                }
            }
            j = j + 1;
        }
    }
    proof {
        assert(a@.take(a.len() as int) == a@);
        assert(b@.take(b.len() as int) == b@);
    }
    r
}

/// Sorts `idx[lo..hi]` by `key`.
fn sort_range(idx: &Vec<usize>, lo: usize, hi: usize, key: &Vec<u64>) -> (r: Vec<usize>)
    requires
        lo <= hi <= idx.len(),
        indices_below(idx@, key.len() as int),
    ensures
        r@.to_multiset() == idx@.subrange(lo as int, hi as int).to_multiset(),
        sorted_by_key(r@, key@),
        indices_below(r@, key.len() as int),
        r.len() == hi - lo,
    decreases hi - lo,
{
    if hi - lo <= 1 {
        let mut r: Vec<usize> = Vec::new();
        if hi > lo {
            r.push(idx[lo]);
            assert(idx@.subrange(lo as int, hi as int) == r@);
        } else {
            assert(idx@.subrange(lo as int, hi as int) == r@);
        }
        r
    } else {
        let mid = lo + (hi - lo) / 2;
        let a = sort_range(idx, lo, mid, key);
        let b = sort_range(idx, mid, hi, key);
        proof {
            let s = idx@.subrange(lo as int, hi as int);
            assert(s == idx@.subrange(lo as int, mid as int) + idx@.subrange(mid as int, hi as int));
            vstd::seq_lib::lemma_multiset_commutative(
                idx@.subrange(lo as int, mid as int),
                idx@.subrange(mid as int, hi as int),
            );
        }
        merge_runs(&a, &b, key)
    }
}

/// Returns the indices of `idx` in ascending order of `key`.
pub fn sort_indices_by_key(idx: &Vec<usize>, key: &Vec<u64>) -> (r: Vec<usize>)
    requires
        indices_below(idx@, key.len() as int),
    ensures
        r@.to_multiset() == idx@.to_multiset(),
        sorted_by_key(r@, key@),
        indices_below(r@, key.len() as int),
        r.len() == idx.len(),
{
    let r = sort_range(idx, 0, idx.len(), key);
    assert(idx@.subrange(0, idx.len() as int) == idx@);
    r
}

/// Exchanges `v[i]` and `v[j]`, both in `v[lo..hi]`.
fn swap_in_range(v: &mut Vec<usize>, i: usize, j: usize, Ghost(lo): Ghost<int>, Ghost(hi): Ghost<int>)
    requires
        0 <= lo <= i < hi,
        lo <= j < hi,
        hi <= old(v).len(),
    ensures
        final(v)@ == old(v)@.update(i as int, old(v)@[j as int]).update(j as int, old(v)@[i as int]),
        final(v)@.subrange(lo, hi).to_multiset() == old(v)@.subrange(lo, hi).to_multiset(),
{
    let a = v[i];
    let b = v[j];
    v.set(i, b);
    v.set(j, a);
    proof {
        let s = old(v)@;
        let sub = s.subrange(lo, hi);
        let mid = sub.update(i - lo, b);
        assert(v@.subrange(lo, hi) == mid.update(j - lo, a));
        assert(mid.to_multiset() == sub.to_multiset().insert(b).remove(a));
        assert(mid[j - lo] == if i == j { b } else { b });
        assert(v@.subrange(lo, hi).to_multiset() == mid.to_multiset().insert(a).remove(mid[j - lo]));
        assert(v@.subrange(lo, hi).to_multiset() =~= sub.to_multiset());
    }
}

/// Rearranges `v[lo..hi]` around a pivot and returns the pivot's position `p`:
/// entries before it have smaller keys, entries after it keys at least its.
fn partition(v: &mut Vec<usize>, lo: usize, hi: usize, key: &Vec<u64>) -> (p: usize)
    requires
        lo < hi <= old(v).len(),
        indices_below(old(v)@, key.len() as int),
    ensures
        lo <= p < hi,
        final(v).len() == old(v).len(),
        indices_below(final(v)@, key.len() as int),
        final(v)@.subrange(lo as int, hi as int).to_multiset() == old(v)@.subrange(lo as int, hi as int).to_multiset(),
        forall|t: int| 0 <= t < old(v).len() && !(lo <= t < hi) ==> #[trigger] final(v)@[t] == old(v)@[t],
        forall|t: int| lo <= t < p ==> key@[#[trigger] final(v)@[t] as int] < key@[final(v)@[p as int] as int],
        forall|t: int| p < t < hi ==> key@[final(v)@[p as int] as int] <= key@[#[trigger] final(v)@[t] as int],
{
    let ghost orig = v@;
    let last = hi - 1;
    let mid = lo + (hi - lo) / 2;
    swap_in_range(v, mid, last, Ghost(lo as int), Ghost(hi as int));
    let pk = key[v[last]];
    let mut store = lo;
    for i in lo..last
        invariant
            lo <= store <= i <= last,
            last == hi - 1,
            hi <= orig.len(),
            v.len() == orig.len(),
            indices_below(orig, key.len() as int),
            v@.subrange(lo as int, hi as int).to_multiset() == orig.subrange(lo as int, hi as int).to_multiset(),
            forall|t: int| 0 <= t < orig.len() && !(lo <= t < hi) ==> #[trigger] v@[t] == orig[t],
            indices_below(v@, key.len() as int),
            key@[v@[last as int] as int] == pk,
            forall|t: int| lo <= t < store ==> key@[#[trigger] v@[t] as int] < pk,
            forall|t: int| store <= t < i ==> key@[#[trigger] v@[t] as int] >= pk,
    {
        if key[v[i]] < pk {
            swap_in_range(v, i, store, Ghost(lo as int), Ghost(hi as int));
            store = store + 1;
        }
    }
    swap_in_range(v, store, last, Ghost(lo as int), Ghost(hi as int));
    store
}

/// What one partition step keeps: the entries, and the key order between
/// the range and what lies outside it; and what it adds: the key order
/// across the pivot.
proof fn lemma_partition_step(s: Seq<usize>, s2: Seq<usize>, key: Seq<u64>, lo: int, hi: int, p: int)
    requires
        0 <= lo <= p < hi <= s.len(),
        s2.len() == s.len(),
        indices_below(s, key.len() as int),
        indices_below(s2, key.len() as int),
        s2.subrange(lo, hi).to_multiset() == s.subrange(lo, hi).to_multiset(),
        forall|t: int| 0 <= t < s.len() && !(lo <= t < hi) ==> #[trigger] s2[t] == s[t],
        forall|t: int| lo <= t < p ==> key[#[trigger] s2[t] as int] < key[s2[p] as int],
        forall|t: int| p < t < hi ==> key[s2[p] as int] <= key[#[trigger] s2[t] as int],
        forall|a: int, b: int| 0 <= a < lo <= b < s.len() ==> key[#[trigger] s[a] as int] <= key[#[trigger] s[b] as int],
        forall|a: int, b: int| 0 <= a < hi <= b < s.len() ==> key[#[trigger] s[a] as int] <= key[#[trigger] s[b] as int],
    ensures
        s2.to_multiset() == s.to_multiset(),
        forall|a: int, b: int| 0 <= a < lo <= b < s2.len() ==> key[#[trigger] s2[a] as int] <= key[#[trigger] s2[b] as int],
        forall|a: int, b: int| 0 <= a < hi <= b < s2.len() ==> key[#[trigger] s2[a] as int] <= key[#[trigger] s2[b] as int],
        forall|a: int, b: int| 0 <= a <= p < b < s2.len() ==> key[#[trigger] s2[a] as int] <= key[#[trigger] s2[b] as int],
        forall|a: int, b: int| 0 <= a < p <= b < s2.len() ==> key[#[trigger] s2[a] as int] <= key[#[trigger] s2[b] as int],
{
    let len = s.len() as int;
    let sub = s.subrange(lo, hi);
    let sub2 = s2.subrange(lo, hi);
    assert forall|t: int| lo <= t < hi implies sub.contains(#[trigger] s2[t]) by {
        assert(sub2[t - lo] == s2[t]);
        assert(sub2.to_multiset().count(s2[t]) > 0);
    }
    assert(s == s.subrange(0, lo) + sub + s.subrange(hi, len));
    assert(s2 == s2.subrange(0, lo) + sub2 + s2.subrange(hi, len));
    assert(s2.subrange(0, lo) == s.subrange(0, lo));
    assert(s2.subrange(hi, len) == s.subrange(hi, len));
    vstd::seq_lib::lemma_multiset_commutative(s.subrange(0, lo), sub);
    vstd::seq_lib::lemma_multiset_commutative(s.subrange(0, lo) + sub, s.subrange(hi, len));
    vstd::seq_lib::lemma_multiset_commutative(s2.subrange(0, lo), sub2);
    vstd::seq_lib::lemma_multiset_commutative(s2.subrange(0, lo) + sub2, s2.subrange(hi, len));
    assert forall|a: int, b: int| 0 <= a < lo <= b < len implies key[#[trigger] s2[a] as int] <= key[#[trigger] s2[b] as int] by {
        if b < hi {
            assert(sub.contains(s2[b]));
            let w = choose|w: int| 0 <= w < sub.len() && sub[w] == s2[b];
            assert(s[lo + w] == s2[b]);
            assert(key[s[a] as int] <= key[s[lo + w] as int]);
        } else {
            assert(key[s[a] as int] <= key[s[b] as int]);
        }
    }
    assert forall|a: int, b: int| 0 <= a < hi <= b < len implies key[#[trigger] s2[a] as int] <= key[#[trigger] s2[b] as int] by {
        if a >= lo {
            assert(sub.contains(s2[a]));
            let w = choose|w: int| 0 <= w < sub.len() && sub[w] == s2[a];
            assert(s[lo + w] == s2[a]);
            assert(key[s[lo + w] as int] <= key[s[b] as int]);
        } else {
            assert(key[s[a] as int] <= key[s[b] as int]);
        }
    }
    let pk = key[s2[p] as int];
    assert forall|a: int, b: int| 0 <= a <= p < b < len implies key[#[trigger] s2[a] as int] <= key[#[trigger] s2[b] as int] by {
        if a < lo {
        } else if b >= hi {
        } else {
            assert(key[s2[a] as int] <= pk);
            assert(pk <= key[s2[b] as int]);
        }
    }
    assert forall|a: int, b: int| 0 <= a < p <= b < len implies key[#[trigger] s2[a] as int] <= key[#[trigger] s2[b] as int] by {
        if a < lo {
        } else if b >= hi {
        } else {
            assert(key[s2[a] as int] <= pk);
            assert(pk <= key[s2[b] as int]);
        }
    }
}

/// Rearranges `v` so that its first `k` entries have keys no greater than
/// any later entry's.
pub fn select_smallest(v: &mut Vec<usize>, k: usize, key: &Vec<u64>)
    requires
        0 < k <= old(v).len(),
        indices_below(old(v)@, key.len() as int),
    ensures
        final(v)@.to_multiset() == old(v)@.to_multiset(),
        indices_below(final(v)@, key.len() as int),
        forall|a: int, b: int| 0 <= a < k <= b < final(v).len() ==> key@[#[trigger] final(v)@[a] as int] <= key@[#[trigger] final(v)@[b] as int],
{
    let target = k - 1;
    let mut lo: usize = 0;
    let mut hi: usize = v.len();
    let ghost orig = v@;
    loop
        invariant
            lo <= target < hi <= v.len(),
            target == k - 1,
            v.len() == orig.len(),
            v@.to_multiset() == orig.to_multiset(),
            indices_below(v@, key.len() as int),
            forall|a: int, b: int| 0 <= a < lo <= b < v.len() ==> key@[#[trigger] v@[a] as int] <= key@[#[trigger] v@[b] as int],
            forall|a: int, b: int| 0 <= a < hi <= b < v.len() ==> key@[#[trigger] v@[a] as int] <= key@[#[trigger] v@[b] as int],
        ensures
            v@.to_multiset() == orig.to_multiset(),
            indices_below(v@, key.len() as int),
            v.len() == orig.len(),
            forall|a: int, b: int| 0 <= a < k <= b < v.len() ==> key@[#[trigger] v@[a] as int] <= key@[#[trigger] v@[b] as int],
        decreases hi - lo,
    {
        let ghost before = v@;
        let p = partition(v, lo, hi, key);
        proof {
            lemma_partition_step(before, v@, key@, lo as int, hi as int, p as int);
        }
        if p == target {
            break;
        } else if p < target {
            lo = p + 1;
        } else {
            hi = p;
        }
    }
}

} // verus!
