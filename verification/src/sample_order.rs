//! The classification curve does not depend on the order of the samples.
use vstd::prelude::*;
use crate::clf_curve::{
    count_at_least, covers, is_clf_curve, taken_from_last, labelled_at_least, last_with_value,
    lemma_clf_curve_unique, ClfCurve,
};
use crate::count::{count_where, index_range, lemma_count_multiset, lemma_count_pointwise};
use crate::samples::Samples;
use crate::score::score_value;

verus! {

broadcast use vstd::seq_lib::group_to_multiset_ensures;

/// The (label, score pattern) pairs of `s`, in input order.
pub open spec fn sample_pairs(s: Samples) -> Seq<(u8, u64)> {
    Seq::new(s.size(), |i: int| (s.y_true@[i], s.y_score@[i]))
}

/// Scores of equal value have equal patterns: `s` never holds both `0.0` and `-0.0`.
pub open spec fn equal_scores_equal_patterns(s: Samples) -> bool {
    forall|i: int, j: int|
        0 <= i < s.size() && 0 <= j < s.size() && #[trigger] s.score(i) == #[trigger] s.score(j)
            ==> s.y_score@[i] == s.y_score@[j]
}

/// Holds of a pair when it has label `label` and scores at least `v`.
pub open spec fn pair_at_least(label: u8, v: int) -> spec_fn((u8, u64)) -> bool {
    |p: (u8, u64)| p.0 == label && score_value(p.1) >= v
}

/// A count at a threshold is a count over the sample pairs.
proof fn lemma_count_at_least_pairs(s: Samples, label: u8, v: int)
    ensures
        count_at_least(s, label, v) == count_where(sample_pairs(s), pair_at_least(label, v)),
{
    assert(s.y_true.len() == s.size());
    let r = index_range(s.size());
    let p = sample_pairs(s);
    assert forall|i: int| 0 <= i < r.len() implies labelled_at_least(s, label, v)(#[trigger] r[i])
        == pair_at_least(label, v)(p[i]) by {
        assert(r[i] as int == i);
    }
    lemma_count_pointwise(r, labelled_at_least(s, label, v), p, pair_at_least(label, v));
}

/// A sample of `s2` whose pair is also a pair of `s1`.
proof fn lemma_pair_in(s1: Samples, s2: Samples, i: int) -> (k: int)
    requires
        sample_pairs(s1).to_multiset() == sample_pairs(s2).to_multiset(),
        0 <= i < s2.size(),
    ensures
        0 <= k < s1.size(),
        s1.y_true@[k] == s2.y_true@[i],
        s1.y_score@[k] == s2.y_score@[i],
{
    let p1 = sample_pairs(s1);
    let p2 = sample_pairs(s2);
    assert(p2[i] == (s2.y_true@[i], s2.y_score@[i]));
    assert(p2.contains(p2[i]));
    assert(p2.to_multiset().count(p2[i]) > 0);
    assert(p1.contains(p2[i]));
    let k = choose|k: int| 0 <= k < p1.len() && p1[k] == p2[i];
    k
}

/// A score value that some sample has is had by a last sample.
proof fn lemma_last_exists(s: Samples, v: int, i: int)
    requires
        0 <= i < s.size(),
        s.score(i) == v,
    ensures
        exists|k: int| last_with_value(s, k, v),
    decreases s.size() - i,
{
    if forall|i2: int| i < i2 < s.size() ==> #[trigger] s.score(i2) != v {
        assert(last_with_value(s, i, v));
    } else {
        let i2 = choose|i2: int| i < i2 < s.size() && #[trigger] s.score(i2) == v;
        lemma_last_exists(s, v, i2);
    }
}

/// Law: the classification curve depends only on the multiset of
/// (label, score) pairs, not on their order, provided equal scores have
/// equal patterns (the last of a run of `0.0` and `-0.0` would decide which
/// zero is the threshold).
#[verifier::spinoff_prover]
pub proof fn lemma_clf_curve_permutation(s1: Samples, s2: Samples, c1: ClfCurve, c2: ClfCurve)
    requires
        s1.wf(),
        s2.wf(),
        sample_pairs(s1).to_multiset() == sample_pairs(s2).to_multiset(),
        equal_scores_equal_patterns(s1),
        is_clf_curve(s1, c1),
        is_clf_curve(s2, c2),
    ensures
        c1.tps@ == c2.tps@,
        c1.fps@ == c2.fps@,
        c1.thresholds@ == c2.thresholds@,
{
    let m = c1.thresholds@.len();
    assert forall|label: u8, v: int| true implies count_at_least(s1, label, v) == count_at_least(
        s2,
        label,
        v,
    ) by {
        lemma_count_at_least_pairs(s1, label, v);
        lemma_count_at_least_pairs(s2, label, v);
        lemma_count_multiset(
            sample_pairs(s1),
            sample_pairs(s2),
            pair_at_least(label, v),
        );
    }
    assert forall|j: int| 0 <= j < m implies taken_from_last(s2, #[trigger] c1.thresholds@[j]) by {
        let v = score_value(c1.thresholds@[j]);
        assert(taken_from_last(s1, c1.thresholds@[j]));
        let i1 = choose|i: int|
            last_with_value(s1, i, score_value(#[trigger] c1.thresholds@[j])) && s1.y_score@[i]
                == c1.thresholds@[j];
        let i2 = lemma_pair_in(s2, s1, i1);
        assert(s2.score(i2) == v);
        lemma_last_exists(s2, v, i2);
        let i3 = choose|k: int| last_with_value(s2, k, v);
        let k = lemma_pair_in(s1, s2, i3);
        assert(s1.score(k) == s1.score(i1));
        assert(s2.y_score@[i3] == c1.thresholds@[j]);
        assert(last_with_value(s2, i3, score_value(c1.thresholds@[j])));
    }
    assert forall|i: int| 0 <= i < s2.size() implies covers(c1.thresholds@, #[trigger] s2.score(i)) by {
        let k = lemma_pair_in(s1, s2, i);
        assert(covers(c1.thresholds@, s1.score(k)));
    }
    assert forall|j: int| 0 <= j < m implies #[trigger] c1.tps@[j] == count_at_least(
        s2,
        1,
        score_value(c1.thresholds@[j]),
    ) && c1.fps@[j] == count_at_least(s2, 0, score_value(c1.thresholds@[j])) by {
        let v = score_value(c1.thresholds@[j]);
        assert(count_at_least(s1, 1, v) == count_at_least(s2, 1, v));
        assert(count_at_least(s1, 0, v) == count_at_least(s2, 0, v));
    }
    assert(is_clf_curve(s2, c1));
    lemma_clf_curve_unique(s2, c1, c2);
}


} // verus!
