//! Counting the entries of a sequence that satisfy a predicate.
use vstd::prelude::*;

verus! {

broadcast use {vstd::seq_lib::group_to_multiset_ensures, vstd::multiset::group_multiset_axioms};

/// The number of entries of `s` that satisfy `p`.
pub open spec fn count_where<T>(s: Seq<T>, p: spec_fn(T) -> bool) -> nat
    decreases s.len(),
{
    if s.len() == 0 {
        0
    } else {
        count_where(s.drop_last(), p) + if p(s.last()) {
            1nat
        } else {
            0nat
        }
    }
}

/// Counts add up over a concatenation.
pub proof fn lemma_count_concat<T>(a: Seq<T>, b: Seq<T>, p: spec_fn(T) -> bool)
    ensures
        count_where(a + b, p) == count_where(a, p) + count_where(b, p),
    decreases b.len(),
{
    if b.len() == 0 {
        assert(a + b == a);
    } else {
        assert((a + b).drop_last() == a + b.drop_last());
        assert((a + b).last() == b.last());
        lemma_count_concat(a, b.drop_last(), p);
    }
}

/// A count is at most the length, and is zero when no entry satisfies `p`.
pub proof fn lemma_count_bounds<T>(s: Seq<T>, p: spec_fn(T) -> bool)
    ensures
        count_where(s, p) <= s.len(),
        (forall|i: int| 0 <= i < s.len() ==> !p(#[trigger] s[i])) ==> count_where(s, p) == 0,
    decreases s.len(),
{
    if s.len() > 0 {
        lemma_count_bounds(s.drop_last(), p);
        if forall|i: int| 0 <= i < s.len() ==> !p(#[trigger] s[i]) {
            assert forall|i: int| 0 <= i < s.drop_last().len() implies !p(#[trigger] s.drop_last()[i]) by {
                assert(s.drop_last()[i] == s[i]);
            }
            assert(!p(s[s.len() - 1]));
        }
    }
}

/// Sequences with the same entries, counted with multiplicity, have the same
/// counts.
pub proof fn lemma_count_permutation<T>(s: Seq<T>, t: Seq<T>, p: spec_fn(T) -> bool)
    requires
        s.to_multiset() == t.to_multiset(),
    ensures
        count_where(s, p) == count_where(t, p),
    decreases s.len(),
{
    assert(s.to_multiset().len() == t.to_multiset().len());
    if s.len() > 0 {
        let x = s.last();
        let rest = s.drop_last();
        assert(s == rest.push(x));
        assert(t.to_multiset().count(x) > 0);
        assert(t.contains(x));
        let i = choose|i: int| 0 <= i < t.len() && t[i] == x;
        let t2 = t.remove(i);
        assert(t2.to_multiset() == t.to_multiset().remove(x));
        assert(rest.to_multiset() =~= t2.to_multiset());
        lemma_count_permutation(rest, t2, p);
        let pre = t.subrange(0, i);
        let post = t.subrange(i + 1, t.len() as int);
        assert(t == pre + seq![x] + post);
        assert(t2 == pre + post);
        lemma_count_concat(pre + seq![x], post, p);
        lemma_count_concat(pre, seq![x], p);
        lemma_count_concat(pre, post, p);
        assert(seq![x].drop_last() == Seq::<T>::empty());
        assert(count_where(Seq::<T>::empty(), p) == 0);
        assert(count_where(seq![x], p) == count_where(Seq::<T>::empty(), p) + if p(x) { 1nat } else { 0nat });
        assert(count_where(s, p) == count_where(rest, p) + if p(x) { 1nat } else { 0nat });
    } else {
        assert(t.to_multiset().len() == t.len());
        assert(s.to_multiset().len() == s.len());
        assert(t.len() == 0);
        assert(count_where(t, p) == 0);
    }
}

} // verus!
