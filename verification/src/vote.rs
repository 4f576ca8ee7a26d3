//! The vote among the nearest neighbors' labels.
use vstd::prelude::*;
use crate::total_order::{key_of, float_lt, is_infinite, encodes_infinity, encodes_nan, is_nan, numeric_key, numeric_key_of, POSITIVE_ZERO};
use crate::counting::{count_where, lemma_count_permutation};
use crate::weights::Weighting;

verus! {

/// How many of the neighbors carry label `l`.
pub open spec fn label_count(top_k: Seq<(u64, usize)>, l: usize) -> nat
    decreases top_k.len(),
{
    if top_k.len() == 0 {
        0
    } else {
        label_count(top_k.drop_last(), l) + if top_k.last().1 == l {
            1nat
        } else {
            0nat
        }
    }
}

/// `r` is carried by the most neighbors, and is the smallest such label.
pub open spec fn is_majority(top_k: Seq<(u64, usize)>, r: usize) -> bool {
    &&& label_count(top_k, r) > 0
    &&& forall|l: usize| label_count(top_k, l) <= label_count(top_k, r)
    &&& forall|l: usize| label_count(top_k, l) == label_count(top_k, r) ==> r <= l
}

/// The neighbors' labels, each once, in the order of their first occurrence.
pub open spec fn distinct_labels_of(top_k: Seq<(u64, usize)>) -> Seq<usize>
    decreases top_k.len(),
{
    if top_k.len() == 0 {
        Seq::empty()
    } else {
        let d = distinct_labels_of(top_k.drop_last());
        if d.contains(top_k.last().1) {
            d
        } else {
            d.push(top_k.last().1)
        }
    }
}

/// Candidate `a` wins over candidate `b`: a larger total, or the same total
/// and a smaller label.
pub open spec fn beats(a: (usize, u64, bool), b: (usize, u64, bool)) -> bool {
    a.1 > b.1 || (a.1 == b.1 && a.0 < b.0)
}

/// The vote's candidates as `(label, total key, eligible)`: the first
/// neighbor's label at a total of `+0.0`, then each distinct label at its
/// total. Totals are compared as numbers (`-0.0` equals `+0.0`), and a label
/// whose total is NaN is not eligible: no comparison with NaN holds.
pub open spec fn vote_candidates(top_k: Seq<(u64, usize)>, totals: Seq<u64>) -> Seq<(usize, u64, bool)> {
    seq![(top_k[0].1, numeric_key_of(POSITIVE_ZERO), true)] + Seq::new(
        totals.len(),
        |j: int| (distinct_labels_of(top_k)[j], numeric_key_of(totals[j]), !encodes_nan(totals[j])),
    )
}

/// `r` is the label of an eligible candidate that no eligible candidate beats.
pub open spec fn is_best_candidate(cands: Seq<(usize, u64, bool)>, r: usize) -> bool {
    exists|c: int|
        0 <= c < cands.len() && (#[trigger] cands[c]).0 == r && cands[c].2 && forall|c2: int|
            0 <= c2 < cands.len() && cands[c2].2 ==> !beats(#[trigger] cands[c2], cands[c])
}

/// Some neighbor carries label `r`.
pub open spec fn carried(top_k: Seq<(u64, usize)>, r: usize) -> bool {
    exists|t: int| 0 <= t < top_k.len() && (#[trigger] top_k[t]).1 == r
}

/// The outcome of a weighted vote: the label of the first neighbor whose
/// weight is infinite, if any; otherwise the label of the best candidate.
pub open spec fn weighted_outcome(top_k: Seq<(u64, usize)>, weights: Seq<u64>, totals: Seq<u64>, r: usize) -> bool {
    &&& (exists|i: int| 0 <= i < weights.len() && encodes_infinity(#[trigger] weights[i])) ==> exists|i: int|
        0 <= i < weights.len() && encodes_infinity(#[trigger] weights[i]) && (forall|j: int|
            0 <= j < i ==> !encodes_infinity(#[trigger] weights[j])) && r == top_k[i].1
    &&& (forall|i: int| 0 <= i < weights.len() ==> !encodes_infinity(#[trigger] weights[i]))
        ==> is_best_candidate(vote_candidates(top_k, totals), r)
}

/// `t` is a result of adding, in order and starting from `+0.0`, the weights
/// of those of the first `upto` neighbors that carry label `l`, each addition
/// an answer of `plus`.
pub open spec fn summed_by<A: Fn(u64, u64) -> u64>(
    plus: A,
    top_k: Seq<(u64, usize)>,
    weights: Seq<u64>,
    l: usize,
    upto: int,
    t: u64,
) -> bool
    decreases upto,
{
    if upto <= 0 {
        t == POSITIVE_ZERO
    } else if top_k[upto - 1].1 == l {
        exists|p: u64| summed_by(plus, top_k, weights, l, upto - 1, p) && #[trigger] plus.ensures((p, weights[upto - 1]), t)
    } else {
        summed_by(plus, top_k, weights, l, upto - 1, t)
    }
}

/// Adds up, in order and starting from `+0.0`, the weights of the neighbors
/// that carry label `l`.
pub fn label_total<A: Fn(u64, u64) -> u64>(top_k: &[(u64, usize)], weights: &[u64], l: usize, plus: &A) -> (t: u64)
    requires
        weights.len() == top_k.len(),
        forall|a: u64, b: u64| plus.requires((a, b)),
    ensures
        summed_by(*plus, top_k@, weights@, l, top_k.len() as int, t),
{
    let mut t: u64 = POSITIVE_ZERO;
    for i in 0..top_k.len()
        invariant
            weights.len() == top_k.len(),
            forall|a: u64, b: u64| plus.requires((a, b)),
            summed_by(*plus, top_k@, weights@, l, i as int, t),
    {
        if top_k[i].1 == l {
            let p = t;
            t = plus(p, weights[i]);
            assert(summed_by(*plus, top_k@, weights@, l, i as int, p) && plus.ensures((p, weights@[i as int]), t));
        }
    }
    t
}

proof fn lemma_summed_by_prefix<A: Fn(u64, u64) -> u64>(
    plus: A,
    top_k: Seq<(u64, usize)>,
    weights: Seq<u64>,
    e: (u64, usize),
    x: u64,
    l: usize,
    upto: int,
)
    requires
        weights.len() == top_k.len(),
        0 <= upto <= top_k.len(),
    ensures
        forall|t: u64|
            summed_by(plus, top_k.push(e), weights.push(x), l, upto, t) == summed_by(
                plus,
                top_k,
                weights,
                l,
                upto,
                t,
            ),
    decreases upto,
{
    if upto > 0 {
        lemma_summed_by_prefix(plus, top_k, weights, e, x, l, upto - 1);
        assert(top_k.push(e)[upto - 1] == top_k[upto - 1]);
        assert(weights.push(x)[upto - 1] == weights[upto - 1]);
        assert forall|t: u64|
            summed_by(plus, top_k.push(e), weights.push(x), l, upto, t) == summed_by(
                plus,
                top_k,
                weights,
                l,
                upto,
                t,
            ) by {
            if top_k[upto - 1].1 == l {
                if summed_by(plus, top_k, weights, l, upto, t) {
                    let p = choose|p: u64|
                        summed_by(plus, top_k, weights, l, upto - 1, p) && #[trigger] plus.ensures(
                            (p, weights[upto - 1]),
                            t,
                        );
                    assert(summed_by(plus, top_k.push(e), weights.push(x), l, upto - 1, p));
                }
                if summed_by(plus, top_k.push(e), weights.push(x), l, upto, t) {
                    let p = choose|p: u64|
                        summed_by(plus, top_k.push(e), weights.push(x), l, upto - 1, p)
                            && #[trigger] plus.ensures((p, weights.push(x)[upto - 1]), t);
                    assert(summed_by(plus, top_k, weights, l, upto - 1, p));
                }
            } else {
                assert(summed_by(plus, top_k, weights, l, upto, t) == summed_by(plus, top_k, weights, l, upto - 1, t));
                assert(summed_by(plus, top_k.push(e), weights.push(x), l, upto, t) == summed_by(plus, top_k.push(e), weights.push(x), l, upto - 1, t));
            }
        }
    }
}

/// The total of a label over no neighbors is `+0.0`, and nothing else.
pub proof fn law_total_of_no_neighbors_is_positive_zero<A: Fn(u64, u64) -> u64>(
    plus: A,
    top_k: Seq<(u64, usize)>,
    weights: Seq<u64>,
    l: usize,
    t: u64,
)
    ensures
        summed_by(plus, top_k, weights, l, 0, t) <==> t == POSITIVE_ZERO,
{
}

/// Appending a neighbor that carries another label leaves a label's totals
/// as they were over the shorter list, whatever its length.
pub proof fn law_total_ignores_other_labels<A: Fn(u64, u64) -> u64>(
    plus: A,
    top_k: Seq<(u64, usize)>,
    weights: Seq<u64>,
    e: (u64, usize),
    x: u64,
    l: usize,
    t: u64,
)
    requires
        weights.len() == top_k.len(),
        e.1 != l,
    ensures
        summed_by(plus, top_k.push(e), weights.push(x), l, top_k.len() + 1int, t) <==> summed_by(
            plus,
            top_k,
            weights,
            l,
            top_k.len() as int,
            t,
        ),
{
    lemma_summed_by_prefix(plus, top_k, weights, e, x, l, top_k.len() as int);
}

/// Appending a neighbor that carries label `l`, at any position of the list,
/// adds its weight: a total of `l` over the longer list is exactly an answer
/// of `plus` to a total over the shorter list and the new neighbor's weight.
pub proof fn law_total_adds_each_neighbor_of_the_label<A: Fn(u64, u64) -> u64>(
    plus: A,
    top_k: Seq<(u64, usize)>,
    weights: Seq<u64>,
    e: (u64, usize),
    x: u64,
    l: usize,
    t: u64,
)
    requires
        weights.len() == top_k.len(),
        e.1 == l,
    ensures
        summed_by(plus, top_k.push(e), weights.push(x), l, top_k.len() + 1int, t) <==> exists|p: u64|
            summed_by(plus, top_k, weights, l, top_k.len() as int, p) && #[trigger] plus.ensures(
                (p, x),
                t,
            ),
{
    lemma_summed_by_prefix(plus, top_k, weights, e, x, l, top_k.len() as int);
    let n = top_k.len() as int;
    assert(top_k.push(e)[n] == e);
    assert(weights.push(x)[n] == x);
}

proof fn lemma_label_count_positive(top_k: Seq<(u64, usize)>, l: usize)
    ensures
        label_count(top_k, l) > 0 <==> distinct_labels_of(top_k).contains(l),
        distinct_labels_of(top_k).no_duplicates(),
        label_count(top_k, l) <= top_k.len(),
        forall|i: int| 0 <= i < distinct_labels_of(top_k).len() ==> (exists|t: int| 0 <= t < top_k.len() && top_k[t].1 == #[trigger] distinct_labels_of(top_k)[i]),
    decreases top_k.len(),
{
    if top_k.len() > 0 {
        let s = top_k.drop_last();
        lemma_label_count_positive(s, l);
        let d = distinct_labels_of(s);
        let x = top_k.last().1;
        assert(d.push(x).contains(l) <==> d.contains(l) || x == l) by {
            if d.push(x).contains(l) {
                let u = choose|u: int| 0 <= u < d.push(x).len() && d.push(x)[u] == l;
                if u < d.len() {
                    assert(d[u] == l);
                }
            }
            if d.contains(l) {
                let u = choose|u: int| 0 <= u < d.len() && d[u] == l;
                assert(d.push(x)[u] == l);
            }
            if x == l {
                assert(d.push(x)[d.len() as int] == l);
            }
        }
        assert forall|i: int| 0 <= i < distinct_labels_of(top_k).len() implies (exists|t: int| 0 <= t < top_k.len() && top_k[t].1 == #[trigger] distinct_labels_of(top_k)[i]) by {
            if i < d.len() {
                assert(distinct_labels_of(top_k)[i] == d[i]);
                let t = choose|t: int| 0 <= t < s.len() && s[t].1 == d[i];
                assert(top_k[t] == s[t]);
            } else {
                assert(top_k[top_k.len() - 1].1 == distinct_labels_of(top_k)[i]);
            }
        }
    }
}

/// Counts the neighbors that carry label `l`.
fn count_label(top_k: &[(u64, usize)], l: usize) -> (c: usize)
    ensures
        c == label_count(top_k@, l),
{
    let mut c: usize = 0;
    for i in 0..top_k.len()
        invariant
            c == label_count(top_k@.take(i as int), l),
            c <= i,
    {
        proof {
            assert(top_k@.take(i + 1).drop_last() == top_k@.take(i as int));
        }
        if top_k[i].1 == l {
            c = c + 1;
        }
    }
    proof {
        assert(top_k@.take(top_k.len() as int) == top_k@);
    }
    c
}

/// The neighbors' labels, each once, in the order of their first occurrence.
pub fn distinct_labels(top_k: &[(u64, usize)]) -> (d: Vec<usize>)
    ensures
        d@ == distinct_labels_of(top_k@),
{
    let mut d: Vec<usize> = Vec::new();
    for i in 0..top_k.len()
        invariant
            d@ == distinct_labels_of(top_k@.take(i as int)),
    {
        proof {
            assert(top_k@.take(i + 1).drop_last() == top_k@.take(i as int));
        }
        let l = top_k[i].1;
        let mut seen = false;
        for j in 0..d.len()
            invariant
                seen <==> exists|u: int| 0 <= u < j && d@[u] == l,
        {
            if d[j] == l {
                seen = true;
            }
        }
        if !seen {
            d.push(l);
        }
    }
    proof {
        assert(top_k@.take(top_k.len() as int) == top_k@);
    }
    d
}

/// Picks the label of the eligible candidate that no other beats; the first
/// candidate is eligible.
fn best_candidate(cands: &Vec<(usize, u64, bool)>) -> (r: usize)
    requires
        cands.len() > 0,
        cands@[0].2,
    ensures
        is_best_candidate(cands@, r),
{
    let mut best: usize = 0;
    for i in 1..cands.len()
        invariant
            0 <= best < cands.len(),
            cands@[best as int].2,
            forall|j: int| 0 <= j < i && cands@[j].2 ==> !beats(#[trigger] cands@[j], cands@[best as int]),
    {
        let c = cands[i];
        let b = cands[best];
        if c.2 && (c.1 > b.1 || (c.1 == b.1 && c.0 < b.0)) {
            best = i;
        }
    }
    assert(cands@[best as int].0 == cands@[best as int].0);
    cands[best].0
}

/// The label with the largest vote among the nearest neighbors `top_k`, given
/// as `(distance, label)` pairs.
///
/// Under [`Weighting::Uniform`] every neighbor counts once: the label carried
/// by the most neighbors wins, ties going to the smallest label. Under the
/// other weightings, `weights[i]` is the bit pattern of neighbor `i`'s weight
/// and `totals[j]` that of the sum of the weights of the neighbors carrying
/// the `j`-th of [`distinct_labels`]: the first neighbor whose weight is
/// infinite wins outright; otherwise the label with the largest total wins,
/// ties going to the smallest label, and the first neighbor's label wins when
/// no total exceeds `+0.0`.
pub fn weighted_vote(top_k: &[(u64, usize)], weighting: &Weighting, weights: &[u64], totals: &[u64]) -> (r: usize)
    requires
        top_k.len() > 0,
        *weighting != Weighting::Uniform ==> weights.len() == top_k.len() && totals.len()
            == distinct_labels_of(top_k@).len(),
    ensures
        *weighting == Weighting::Uniform ==> is_majority(top_k@, r),
        *weighting != Weighting::Uniform ==> weighted_outcome(top_k@, weights@, totals@, r),
        carried(top_k@, r),
{
    let d = distinct_labels(top_k);
    proof {
        lemma_label_count_positive(top_k@, top_k@[0].1);
        assert(top_k@.take(1).drop_last() == Seq::<(u64, usize)>::empty());
    }
    let uniform = match weighting {
        Weighting::Uniform => true,
        _ => false,
    };
    if uniform {
        let mut best_label = d[0];
        let mut best_count = count_label(top_k, d[0]);
        for i in 1..d.len()
            invariant
                d@ == distinct_labels_of(top_k@),
                d.len() > 0,
                d@.contains(best_label),
                best_count == label_count(top_k@, best_label),
                forall|j: int| 0 <= j < i ==> label_count(top_k@, #[trigger] d@[j]) <= best_count && (label_count(top_k@, d@[j]) == best_count ==> best_label <= d@[j]),
        {
            let c = count_label(top_k, d[i]);
            if c > best_count || (c == best_count && d[i] < best_label) {
                best_label = d[i];
                best_count = c;
            }
        }
        proof {
            lemma_label_count_positive(top_k@, best_label);
            assert forall|l: usize| label_count(top_k@, l) <= label_count(top_k@, best_label) && (label_count(top_k@, l) == label_count(top_k@, best_label) ==> best_label <= l) by {
                lemma_label_count_positive(top_k@, l);
                if label_count(top_k@, l) > 0 {
                    let j = choose|j: int| 0 <= j < d.len() && d@[j] == l;
                    assert(label_count(top_k@, d@[j]) <= best_count);
                }
            }
        }
        return best_label;
    }
    for i in 0..top_k.len()
        invariant
            *weighting != Weighting::Uniform,
            weights.len() == top_k.len(),
            forall|j: int| 0 <= j < i ==> !encodes_infinity(#[trigger] weights@[j]),
    {
        if is_infinite(weights[i]) {
            return top_k[i].1;
        }
    }
    let mut cands: Vec<(usize, u64, bool)> = Vec::new();
    cands.push((top_k[0].1, numeric_key(POSITIVE_ZERO), true));
    for j in 0..totals.len()
        invariant
            d@ == distinct_labels_of(top_k@),
            totals.len() == d.len(),
            cands@ == vote_candidates(top_k@, totals@).take(j + 1),
    {
        cands.push((d[j], numeric_key(totals[j]), !is_nan(totals[j])));
        proof {
            let v = vote_candidates(top_k@, totals@);
            assert(v.take(j + 2) == v.take(j + 1).push(v[j + 1]));
        }
    }
    proof {
        let v = vote_candidates(top_k@, totals@);
        assert(v.take(totals.len() + 1) == v);
    }
    let r = best_candidate(&cands);
    proof {
        let v = vote_candidates(top_k@, totals@);
        let c = choose|c: int|
            0 <= c < v.len() && (#[trigger] v[c]).0 == r && v[c].2 && forall|c2: int|
                0 <= c2 < v.len() && v[c2].2 ==> !beats(#[trigger] v[c2], v[c]);
        if c == 0 {
            assert(top_k@[0].1 == r);
        } else {
            assert(d@[c - 1] == r);
            let t = choose|t: int| 0 <= t < top_k@.len() && top_k@[t].1 == #[trigger] distinct_labels_of(top_k@)[c - 1];
            assert(top_k@[t].1 == r);
        }
    }
    r
}

/// The neighbors that carry label `l`.
pub open spec fn has_label(l: usize) -> spec_fn((u64, usize)) -> bool {
    |e: (u64, usize)| e.1 == l
}

/// `label_count` counts the neighbors whose label is `l`.
proof fn lemma_label_count_is_count(s: Seq<(u64, usize)>, l: usize)
    ensures
        label_count(s, l) == count_where(s, has_label(l)),
    decreases s.len(),
{
    if s.len() > 0 {
        lemma_label_count_is_count(s.drop_last(), l);
    }
}

/// The majority label depends only on how many neighbors carry each label:
/// two lists with the same counts have the same majority label.
pub proof fn law_majority_depends_only_on_counts(a: Seq<(u64, usize)>, b: Seq<(u64, usize)>, ra: usize, rb: usize)
    requires
        forall|l: usize| label_count(a, l) == label_count(b, l),
        is_majority(a, ra),
        is_majority(b, rb),
    ensures
        ra == rb,
{
    assert(label_count(a, rb) <= label_count(a, ra));
    assert(label_count(b, ra) <= label_count(b, rb));
    assert(label_count(a, ra) == label_count(a, rb));
}

/// The uniform vote does not depend on the order of the neighbors: any
/// rearrangement of the list has the same majority label.
pub proof fn law_majority_ignores_order(a: Seq<(u64, usize)>, b: Seq<(u64, usize)>, ra: usize, rb: usize)
    requires
        a.to_multiset() == b.to_multiset(),
        is_majority(a, ra),
        is_majority(b, rb),
    ensures
        ra == rb,
{
    assert forall|l: usize| label_count(a, l) == label_count(b, l) by {
        lemma_label_count_is_count(a, l);
        lemma_label_count_is_count(b, l);
        lemma_count_permutation(a, b, has_label(l));
    }
    law_majority_depends_only_on_counts(a, b, ra, rb);
}

/// When no weight is infinite, the winner of a weighted vote is the label
/// with the largest total: there is a total `w` of the winner (its label's
/// total, or `+0.0` for the first neighbor's label) that is not NaN and not
/// below `+0.0`; no distinct label's total that is not NaN exceeds `w` (by
/// IEEE `<`); and every distinct label whose total equals `w`, like the first
/// neighbor's label when `w` equals `+0.0`, is at least the winner.
pub proof fn law_weighted_winner_has_the_largest_total(
    top_k: Seq<(u64, usize)>,
    weights: Seq<u64>,
    totals: Seq<u64>,
    r: usize,
)
    requires
        top_k.len() > 0,
        totals.len() == distinct_labels_of(top_k).len(),
        forall|i: int| 0 <= i < weights.len() ==> !encodes_infinity(#[trigger] weights[i]),
        weighted_outcome(top_k, weights, totals, r),
    ensures
        exists|w: u64|
            {
                &&& (w == POSITIVE_ZERO && r == top_k[0].1) || exists|j: int|
                    0 <= j < totals.len() && w == #[trigger] totals[j] && distinct_labels_of(top_k)[j] == r
                &&& !encodes_nan(w)
                &&& !float_lt(w, POSITIVE_ZERO)
                &&& !float_lt(POSITIVE_ZERO, w) ==> r <= top_k[0].1
                &&& forall|j: int|
                    0 <= j < totals.len() && !encodes_nan(#[trigger] totals[j]) ==> !float_lt(w, totals[j]) && (
                    !float_lt(totals[j], w) ==> r <= distinct_labels_of(top_k)[j])
            },
{
    let cands = vote_candidates(top_k, totals);
    let d = distinct_labels_of(top_k);
    assert(!encodes_nan(0u64)) by (bit_vector);
    let c = choose|c: int|
        0 <= c < cands.len() && (#[trigger] cands[c]).0 == r && cands[c].2 && forall|c2: int|
            0 <= c2 < cands.len() && cands[c2].2 ==> !beats(#[trigger] cands[c2], cands[c]);
    let w = if c == 0 { POSITIVE_ZERO } else { totals[c - 1] };
    assert(cands[c].1 == numeric_key_of(w));
    assert(!encodes_nan(w));
    assert(!beats(cands[0], cands[c]));
    assert forall|j: int|
        0 <= j < totals.len() && !encodes_nan(#[trigger] totals[j]) implies !float_lt(w, totals[j]) && (
        !float_lt(totals[j], w) ==> r <= d[j]) by {
        assert(cands[j + 1] == (d[j], numeric_key_of(totals[j]), !encodes_nan(totals[j])));
        assert(!beats(cands[j + 1], cands[c]));
    }
    if c > 0 {
        assert(d[c - 1] == r);
    }
}

} // verus!
