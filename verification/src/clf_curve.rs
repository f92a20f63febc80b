//! The binary classification curve every ranking metric starts from.
//!
//! Samples are ordered by descending score with a stable sort; tied scores
//! collapse to one threshold, taken from the last sample of each run. At each
//! distinct threshold the curve reports how many positive samples (`tps`) and
//! how many negative samples (`fps`) score at least the threshold. These are
//! exact integer counts.
use vstd::prelude::*;
use crate::count::{
    count_where, index_range, lemma_count_add, lemma_count_bound, lemma_count_complement,
    lemma_count_ext, lemma_count_mono, lemma_count_multiset, lemma_count_none,
    lemma_count_take_succ,
};
use crate::samples::Samples;
use crate::score::{score_key, score_value};
use crate::sort::{argsort_desc, indexes_into, ranks_before, sorted_desc};

verus! {

broadcast use vstd::seq_lib::group_to_multiset_ensures;

/// The classification curve: one point per distinct score, highest first.
#[derive(Debug)]
pub struct ClfCurve {
    /// Positive samples scoring at least each threshold.
    pub tps: Vec<usize>,
    /// Negative samples scoring at least each threshold.
    pub fps: Vec<usize>,
    /// The thresholds (score bit patterns), strictly decreasing.
    pub thresholds: Vec<u64>,
}

/// Holds of sample `i` when it has label `label` and scores at least `v`.
pub open spec fn labelled_at_least(s: Samples, label: u8, v: int) -> spec_fn(usize) -> bool {
    |i: usize| s.y_true@[i as int] == label && score_value(s.y_score@[i as int]) >= v
}

/// Holds of sample `i` when it has label `label`.
pub open spec fn labelled(s: Samples, label: u8) -> spec_fn(usize) -> bool {
    |i: usize| s.y_true@[i as int] == label
}

/// Number of samples with label `label`.
pub open spec fn class_count(s: Samples, label: u8) -> nat {
    count_where(index_range(s.size()), labelled(s, label))
}

/// Number of samples with label `label` that score at least `v`.
pub open spec fn count_at_least(s: Samples, label: u8, v: int) -> nat {
    count_where(index_range(s.size()), labelled_at_least(s, label, v))
}

/// Sample `i` is the last sample (in input order) whose score has value `v`.
pub open spec fn last_with_value(s: Samples, i: int, v: int) -> bool {
    &&& 0 <= i < s.size()
    &&& s.score(i) == v
    &&& forall|i2: int| i < i2 < s.size() ==> #[trigger] s.score(i2) != v
}

/// Threshold `t` is the score pattern of the last sample with its value.
pub open spec fn taken_from_last(s: Samples, t: u64) -> bool {
    exists|i: int| last_with_value(s, i, score_value(t)) && s.y_score@[i] == t
}

/// Some threshold has score value `v`.
pub open spec fn covers(thresholds: Seq<u64>, v: int) -> bool {
    exists|j: int| 0 <= j < thresholds.len() && #[trigger] score_value(thresholds[j]) == v
}

/// `c` is the classification curve of `s`.
pub open spec fn is_clf_curve(s: Samples, c: ClfCurve) -> bool {
    let m = c.thresholds@.len();
    &&& c.tps@.len() == m
    &&& c.fps@.len() == m
    // thresholds are distinct and decreasing
    &&& forall|j1: int, j2: int|
        0 <= j1 < j2 < m ==> score_value(#[trigger] c.thresholds@[j1]) > score_value(
            #[trigger] c.thresholds@[j2],
        )
    // each threshold is the score of the last sample of its run of equal scores
    &&& forall|j: int| 0 <= j < m ==> taken_from_last(s, #[trigger] c.thresholds@[j])
    // every score is a threshold
    &&& forall|i: int| 0 <= i < s.size() ==> covers(c.thresholds@, #[trigger] s.score(i))
    // counts at each threshold
    &&& forall|j: int|
        0 <= j < m ==> #[trigger] c.tps@[j] == count_at_least(
            s,
            1,
            score_value(c.thresholds@[j]),
        )
    &&& forall|j: int|
        0 <= j < m ==> #[trigger] c.fps@[j] == count_at_least(
            s,
            0,
            score_value(c.thresholds@[j]),
        )
}

/// `k` ends a run of equal keys in the order `o`.
pub open spec fn run_end(keys: Seq<i64>, o: Seq<usize>, k: int) -> bool {
    0 <= k < o.len() && (k == o.len() - 1 || keys[o[k + 1] as int] != keys[o[k] as int])
}

/// In a descending order, the samples up to a run's end all score at least
/// that run's key, and those after it all score less.
proof fn lemma_run_end_split(keys: Seq<i64>, o: Seq<usize>, k: int)
    requires
        sorted_desc(keys, o),
        indexes_into(keys, o),
        run_end(keys, o, k),
    ensures
        forall|p: int| 0 <= p <= k ==> keys[#[trigger] o[p] as int] >= keys[o[k] as int],
        forall|p: int| k < p < o.len() ==> keys[#[trigger] o[p] as int] < keys[o[k] as int],
{
    assert forall|p: int| 0 <= p <= k implies keys[#[trigger] o[p] as int] >= keys[o[k] as int] by {
        if p < k {
            assert(ranks_before(keys, o[p], o[k]));
        }
    }
    assert forall|p: int| k < p < o.len() implies keys[#[trigger] o[p] as int] < keys[o[k] as int] by {
        assert(ranks_before(keys, o[k], o[k + 1]));
        if p > k + 1 {
            assert(ranks_before(keys, o[k + 1], o[p]));
        }
    }
}

/// The keys of `s`: `keys[i]` is the ordering value of sample `i`.
pub open spec fn keys_of(s: Samples, keys: Seq<i64>) -> bool {
    &&& keys.len() == s.size()
    &&& forall|i: int| 0 <= i < keys.len() ==> #[trigger] keys[i] == s.score(i)
}

/// At a run's end, the labels counted along the order equal the counts over
/// all samples scoring at least the run's key.
proof fn lemma_run_end_counts(s: Samples, keys: Seq<i64>, o: Seq<usize>, k: int)
    requires
        s.wf(),
        keys_of(s, keys),
        o.to_multiset() == index_range(s.size()).to_multiset(),
        o.len() == s.size(),
        sorted_desc(keys, o),
        indexes_into(keys, o),
        run_end(keys, o, k),
    ensures
        count_where(o.take(k + 1), labelled(s, 1)) == count_at_least(s, 1, keys[o[k] as int] as int),
        count_where(o.take(k + 1), labelled(s, 0)) == count_at_least(s, 0, keys[o[k] as int] as int),
        count_where(o.take(k + 1), labelled(s, 1)) + count_where(o.take(k + 1), labelled(s, 0)) == k + 1,
{
    let v = keys[o[k] as int] as int;
    lemma_run_end_split(keys, o, k);
    let pre = o.take(k + 1);
    let post = o.skip(k + 1);
    assert(o =~= pre + post);
    assert forall|label: u8| label <= 1 implies count_where(pre, labelled(s, label)) == count_at_least(
        s,
        label,
        v,
    ) by {
        let f = labelled_at_least(s, label, v);
        lemma_count_multiset(index_range(s.size()), o, f);
        lemma_count_add(pre, post, f);
        assert forall|p: int| 0 <= p < pre.len() implies f(#[trigger] pre[p]) == labelled(
            s,
            label,
        )(pre[p]) by {
            assert(pre[p] == o[p]);
            assert(keys[o[p] as int] >= v);
        }
        lemma_count_ext(pre, f, labelled(s, label));
        assert forall|p: int| 0 <= p < post.len() implies !f(#[trigger] post[p]) by {
            assert(post[p] == o[p + k + 1]);
            assert(keys[o[p + k + 1] as int] < v);
        }
        lemma_count_none(post, f);
    }
    assert(count_where(pre, labelled(s, 1)) == count_at_least(s, 1, v));
    assert(count_where(pre, labelled(s, 0)) == count_at_least(s, 0, v));
    assert forall|p: int| 0 <= p < pre.len() implies labelled(s, 0)(#[trigger] pre[p]) == !labelled(
        s,
        1,
    )(pre[p]) by {
        assert(pre[p] == o[p]);
        assert(s.y_true@[o[p] as int] <= 1);
    }
    lemma_count_complement(pre, labelled(s, 1), labelled(s, 0));
}

/// At a run's end, the sample there is the last one with its score.
proof fn lemma_run_end_last(s: Samples, keys: Seq<i64>, o: Seq<usize>, k: int)
    requires
        s.wf(),
        keys_of(s, keys),
        o.to_multiset() == index_range(s.size()).to_multiset(),
        o.len() == s.size(),
        sorted_desc(keys, o),
        indexes_into(keys, o),
        run_end(keys, o, k),
        s.size() <= usize::MAX,
    ensures
        last_with_value(s, o[k] as int, keys[o[k] as int] as int),
{
    lemma_run_end_split(keys, o, k);
    let i = o[k] as int;
    let v = keys[i] as int;
    assert forall|i2: int| i < i2 < s.size() implies #[trigger] s.score(i2) != v by {
        lemma_position_of(s.size(), o, i2);
        let p = choose|p: int| 0 <= p < o.len() && o[p] == i2;
        if p < k {
            assert(ranks_before(keys, o[p], o[k]));
        }
    }
}

/// Every sample index appears in a permutation of the indices.
proof fn lemma_position_of(n: nat, o: Seq<usize>, i: int)
    requires
        o.to_multiset() == index_range(n).to_multiset(),
        0 <= i < n,
        n <= usize::MAX,
    ensures
        exists|p: int| 0 <= p < o.len() && o[p] == i,
{
    assert(index_range(n)[i] == i as usize);
    assert(index_range(n).contains(i as usize));
    assert(o.to_multiset().count(i as usize) > 0);
    assert(o.contains(i as usize));
}


/// The classification curve of `s` (unique: see `lemma_clf_curve_unique`).
pub open spec fn the_clf_curve(s: Samples) -> ClfCurve {
    choose|c: ClfCurve| is_clf_curve(s, c)
}

/// A strictly decreasing sequence.
pub open spec fn strictly_decreasing(a: Seq<int>) -> bool {
    forall|j1: int, j2: int| 0 <= j1 < j2 < a.len() ==> #[trigger] a[j1] > #[trigger] a[j2]
}

/// Two strictly decreasing sequences with the same elements are equal.
proof fn lemma_decreasing_same_elements(a: Seq<int>, b: Seq<int>)
    requires
        strictly_decreasing(a),
        strictly_decreasing(b),
        forall|x: int| a.contains(x) <==> b.contains(x),
    ensures
        a == b,
    decreases a.len() + b.len(),
{
    if a.len() == 0 {
        if b.len() > 0 {
            assert(b.contains(b[0]));
        }
        assert(a =~= b);
    } else if b.len() == 0 {
        assert(a.contains(a[0]));
    } else {
        assert(a.contains(a[0]));
        assert(b.contains(b[0]));
        let q = choose|q: int| 0 <= q < b.len() && b[q] == a[0];
        let p = choose|p: int| 0 <= p < a.len() && a[p] == b[0];
        if q > 0 {
            assert(b[0] > b[q]);
        }
        if p > 0 {
            assert(a[0] > a[p]);
        }
        assert(a[0] == b[0]);
        let a1 = a.drop_first();
        let b1 = b.drop_first();
        assert forall|x: int| a1.contains(x) implies b1.contains(x) by {
            let i = choose|i: int| 0 <= i < a1.len() && a1[i] == x;
            assert(a[i + 1] == x);
            assert(a[0] > a[i + 1]);
            assert(b.contains(x));
            let k = choose|k: int| 0 <= k < b.len() && b[k] == x;
            assert(k != 0);
            assert(b1[k - 1] == x);
        }
        assert forall|x: int| b1.contains(x) implies a1.contains(x) by {
            let i = choose|i: int| 0 <= i < b1.len() && b1[i] == x;
            assert(b[i + 1] == x);
            assert(b[0] > b[i + 1]);
            assert(a.contains(x));
            let k = choose|k: int| 0 <= k < a.len() && a[k] == x;
            assert(k != 0);
            assert(a1[k - 1] == x);
        }
        lemma_decreasing_same_elements(a1, b1);
        assert(a =~= seq![a[0]] + a1);
        assert(b =~= seq![b[0]] + b1);
    }
}

/// The score values of the thresholds of a classification curve.
pub open spec fn threshold_values(c: ClfCurve) -> Seq<int> {
    c.thresholds@.map_values(|t: u64| score_value(t))
}

/// A value is a threshold value exactly when some sample has that score.
proof fn lemma_threshold_values(s: Samples, c: ClfCurve, x: int)
    requires
        is_clf_curve(s, c),
    ensures
        threshold_values(c).contains(x) <==> exists|i: int| 0 <= i < s.size() && s.score(i) == x,
{
    let tv = threshold_values(c);
    if tv.contains(x) {
        let j = choose|j: int| 0 <= j < tv.len() && tv[j] == x;
        let i = choose|i: int|
            last_with_value(s, i, score_value(#[trigger] c.thresholds@[j])) && s.y_score@[i]
                == c.thresholds@[j];
        assert(s.score(i) == x);
    }
    if exists|i: int| 0 <= i < s.size() && s.score(i) == x {
        let i = choose|i: int| 0 <= i < s.size() && s.score(i) == x;
        assert(covers(c.thresholds@, s.score(i)));
        let j = choose|j: int|
            0 <= j < c.thresholds@.len() && #[trigger] score_value(c.thresholds@[j]) == s.score(i);
        assert(tv[j] == x);
    }
}

/// A sample has exactly one classification curve.
pub proof fn lemma_clf_curve_unique(s: Samples, c1: ClfCurve, c2: ClfCurve)
    requires
        is_clf_curve(s, c1),
        is_clf_curve(s, c2),
    ensures
        c1.tps@ == c2.tps@,
        c1.fps@ == c2.fps@,
        c1.thresholds@ == c2.thresholds@,
{
    let a = threshold_values(c1);
    let b = threshold_values(c2);
    assert forall|x: int| a.contains(x) <==> b.contains(x) by {
        lemma_threshold_values(s, c1, x);
        lemma_threshold_values(s, c2, x);
    }
    assert(strictly_decreasing(a)) by {
        assert forall|j1: int, j2: int| 0 <= j1 < j2 < a.len() implies #[trigger] a[j1] > #[trigger] a[j2] by {
            assert(score_value(c1.thresholds@[j1]) > score_value(c1.thresholds@[j2]));
        }
    }
    assert(strictly_decreasing(b)) by {
        assert forall|j1: int, j2: int| 0 <= j1 < j2 < b.len() implies #[trigger] b[j1] > #[trigger] b[j2] by {
            assert(score_value(c2.thresholds@[j1]) > score_value(c2.thresholds@[j2]));
        }
    }
    lemma_decreasing_same_elements(a, b);
    assert(a.len() == c1.thresholds@.len());
    assert(b.len() == c2.thresholds@.len());
    assert(c1.thresholds@.len() == c2.thresholds@.len());
    assert forall|j: int| 0 <= j < c1.thresholds@.len() implies c1.thresholds@[j] == c2.thresholds@[j] by {
        assert(a[j] == b[j]);
        let v = score_value(c1.thresholds@[j]);
        let i1 = choose|i: int|
            last_with_value(s, i, score_value(#[trigger] c1.thresholds@[j])) && s.y_score@[i]
                == c1.thresholds@[j];
        let i2 = choose|i: int|
            last_with_value(s, i, score_value(#[trigger] c2.thresholds@[j])) && s.y_score@[i]
                == c2.thresholds@[j];
        if i1 < i2 {
            assert(s.score(i2) != v);
        }
        if i2 < i1 {
            assert(s.score(i1) != v);
        }
    }
    assert(c1.thresholds@ =~= c2.thresholds@);
    assert(c1.tps@ =~= c2.tps@);
    assert(c1.fps@ =~= c2.fps@);
}

/// The curve built by `binary_clf_curve` is the classification curve.
pub proof fn lemma_is_the_clf_curve(s: Samples, c: ClfCurve)
    requires
        is_clf_curve(s, c),
    ensures
        is_clf_curve(s, the_clf_curve(s)),
        the_clf_curve(s).tps@ == c.tps@,
        the_clf_curve(s).fps@ == c.fps@,
        the_clf_curve(s).thresholds@ == c.thresholds@,
{
    lemma_clf_curve_unique(s, c, the_clf_curve(s));
}

/// Build the classification curve of `s`: stable descending sort, tie
/// collapse at the last sample of each run, cumulative label counts.
pub fn binary_clf_curve(s: &Samples) -> (c: ClfCurve)
    requires
        s.wf(),
    ensures
        is_clf_curve(*s, c),
        c.tps@ == the_clf_curve(*s).tps@,
        c.fps@ == the_clf_curve(*s).fps@,
        c.thresholds@ == the_clf_curve(*s).thresholds@,
{
    let n = s.y_true.len();
    assert(s.size() <= usize::MAX);
    let mut keys: Vec<i64> = Vec::new();
    let mut i: usize = 0;
    while i < n
        invariant
            i <= n,
            n == s.size(),
            s.wf(),
            keys@.len() == i,
            forall|i2: int| 0 <= i2 < i ==> #[trigger] keys@[i2] == s.score(i2),
        decreases n - i,
    {
        keys.push(score_key(s.y_score[i]));
        i = i + 1;
    }
    assert(keys_of(*s, keys@));
    let order = argsort_desc(&keys);
    let ghost o = order@;

    let mut tps: Vec<usize> = Vec::new();
    let mut fps: Vec<usize> = Vec::new();
    let mut thresholds: Vec<u64> = Vec::new();
    let mut running: usize = 0;
    let mut k: usize = 0;
    while k < n
        invariant
            k <= n,
            n == s.size(),
            n <= usize::MAX,
            s.wf(),
            keys_of(*s, keys@),
            o == order@,
            o.to_multiset() == index_range(s.size()).to_multiset(),
            o.len() == n,
            sorted_desc(keys@, o),
            indexes_into(keys@, o),
            running == count_where(o.take(k as int), labelled(*s, 1)),
            tps@.len() == thresholds@.len(),
            fps@.len() == thresholds@.len(),
            forall|j1: int, j2: int|
                0 <= j1 < j2 < thresholds@.len() ==> score_value(#[trigger] thresholds@[j1])
                    > score_value(#[trigger] thresholds@[j2]),
            forall|j: int, p: int|
                0 <= j < thresholds@.len() && k <= p < n ==> score_value(#[trigger] thresholds@[j])
                    > keys@[#[trigger] o[p] as int],
            forall|j: int|
                0 <= j < thresholds@.len() ==> taken_from_last(*s, #[trigger] thresholds@[j]),
            forall|p: int|
                0 <= p < k ==> covers(thresholds@, keys@[#[trigger] o[p] as int] as int) || (k < n
                    && keys@[o[p] as int] == keys@[o[k as int] as int]),
            forall|j: int|
                0 <= j < thresholds@.len() ==> #[trigger] tps@[j] == count_at_least(
                    *s,
                    1,
                    score_value(thresholds@[j]),
                ),
            forall|j: int|
                0 <= j < thresholds@.len() ==> #[trigger] fps@[j] == count_at_least(
                    *s,
                    0,
                    score_value(thresholds@[j]),
                ),
        decreases n - k,
    {
        let idx = order[k];
        proof {
            lemma_count_take_succ(o, labelled(*s, 1), k as int);
            lemma_count_bound(o.take(k + 1), labelled(*s, 1));
            assert(s.y_true@[idx as int] <= 1);
        }
        running = running + s.y_true[idx] as usize;
        let boundary = k + 1 == n || keys[idx] != keys[order[k + 1]];
        if boundary {
            let t = s.y_score[idx];
            proof {
                assert(run_end(keys@, o, k as int));
                lemma_run_end_split(keys@, o, k as int);
                lemma_run_end_counts(*s, keys@, o, k as int);
                lemma_run_end_last(*s, keys@, o, k as int);
                assert(score_value(t) == keys@[idx as int]);
            }
            let ghost old_thr = thresholds@;
            tps.push(running);
            fps.push(k + 1 - running);
            thresholds.push(t);
            proof {
                let m = thresholds@.len() - 1;
                assert(score_value(thresholds@[m as int]) == keys@[o[k as int] as int]);
                assert forall|p: int| 0 <= p <= k implies covers(
                    thresholds@,
                    keys@[#[trigger] o[p] as int] as int,
                ) by {
                    if p < k && !covers(old_thr, keys@[o[p] as int] as int) {
                        assert(keys@[o[p] as int] == keys@[o[k as int] as int]);
                    } else if p < k {
                        let j = choose|j: int|
                            0 <= j < old_thr.len() && #[trigger] score_value(old_thr[j])
                                == keys@[o[p] as int] as int;
                        assert(thresholds@[j] == old_thr[j]);
                    }
                    assert(score_value(thresholds@[m as int]) == keys@[o[k as int] as int]);
                }
            }
        } else {
            proof {
                assert forall|p: int| 0 <= p <= k implies covers(
                    thresholds@,
                    keys@[#[trigger] o[p] as int] as int,
                ) || (k + 1 < n && keys@[o[p] as int] == keys@[o[k + 1] as int]) by {
                    if p < k && !covers(thresholds@, keys@[o[p] as int] as int) {
                        assert(covers(thresholds@, keys@[o[p] as int] as int) || (k < n
                            && keys@[o[p] as int] == keys@[o[k as int] as int]));
                        assert(keys@[o[p] as int] == keys@[o[k as int] as int]);
                    }
                }
            }
        }
        k = k + 1;
    }
    proof {
        assert forall|i2: int| 0 <= i2 < s.size() implies covers(
            thresholds@,
            #[trigger] s.score(i2),
        ) by {
            lemma_position_of(s.size(), o, i2);
            let p = choose|p: int| 0 <= p < o.len() && o[p] == i2;
            assert(covers(thresholds@, keys@[o[p] as int] as int));
        }
    }
    let c = ClfCurve { tps, fps, thresholds };
    proof {
        lemma_is_the_clf_curve(*s, c);
    }
    c
}

} // verus!

verus! {

/// Law: along the classification curve the counts never decrease, since a
/// lower threshold admits every sample a higher one does.
#[verifier::spinoff_prover]
pub proof fn lemma_clf_counts_nondecreasing(s: Samples, c: ClfCurve)
    requires
        s.wf(),
        is_clf_curve(s, c),
    ensures
        forall|j1: int, j2: int|
            0 <= j1 <= j2 < c.tps@.len() ==> #[trigger] c.tps@[j1] <= #[trigger] c.tps@[j2]
                && c.fps@[j1] <= c.fps@[j2],
{
    assert forall|j1: int, j2: int| 0 <= j1 <= j2 < c.tps@.len() implies #[trigger] c.tps@[j1]
        <= #[trigger] c.tps@[j2] && c.fps@[j1] <= c.fps@[j2] by {
        lemma_counts_ordered(s, c, j1, j2);
    }
}

/// The counts at two thresholds, the lower one later.
proof fn lemma_counts_ordered(s: Samples, c: ClfCurve, j1: int, j2: int)
    requires
        s.wf(),
        is_clf_curve(s, c),
        0 <= j1 <= j2 < c.tps@.len(),
    ensures
        c.tps@[j1] <= c.tps@[j2],
        c.fps@[j1] <= c.fps@[j2],
{
    let v1 = score_value(c.thresholds@[j1]);
    let v2 = score_value(c.thresholds@[j2]);
    if j1 < j2 {
        assert(v1 > v2);
    }
    let r = index_range(s.size());
    assert forall|label: u8| true implies count_at_least(s, label, v1) <= count_at_least(s, label, v2) by {
        assert forall|i: int| 0 <= i < r.len() && labelled_at_least(s, label, v1)(#[trigger] r[i])
            implies labelled_at_least(s, label, v2)(r[i]) by {}
        lemma_count_mono(r, labelled_at_least(s, label, v1), labelled_at_least(s, label, v2));
    }
    assert(c.tps@[j1] == count_at_least(s, 1, v1));
    assert(c.tps@[j2] == count_at_least(s, 1, v2));
    assert(c.fps@[j1] == count_at_least(s, 0, v1));
    assert(c.fps@[j2] == count_at_least(s, 0, v2));
}

/// Number of samples that score at least `v`.
pub open spec fn count_scoring_at_least(s: Samples, v: int) -> nat {
    count_where(index_range(s.size()), |i: usize| score_value(s.y_score@[i as int]) >= v)
}

/// Law: the last point of the classification curve counts every sample: its
/// true positives are all the positives and its false positives all the
/// negatives. At every point, true and false positives together number the
/// samples that score at least the threshold, and at least one.
pub proof fn lemma_clf_curve_totals(s: Samples, c: ClfCurve)
    requires
        s.wf(),
        is_clf_curve(s, c),
    ensures
        ({
            let m = c.tps@.len();
            &&& (m == 0 <==> s.size() == 0)
            &&& m > 0 ==> c.tps@[m - 1] == class_count(s, 1) && c.fps@[m - 1] == class_count(s, 0)
            &&& forall|j: int| 0 <= j < m ==> 1 <= #[trigger] c.tps@[j] + c.fps@[j] <= s.size()
            &&& forall|j: int|
                0 <= j < m ==> #[trigger] c.tps@[j] + c.fps@[j] == count_scoring_at_least(
                    s,
                    score_value(c.thresholds@[j]),
                )
        }),
{
    assert(s.y_true.len() == s.size());
    let m = c.tps@.len();
    let r = index_range(s.size());
    if s.size() > 0 {
        assert(covers(c.thresholds@, s.score(0)));
    }
    if m > 0 {
        let j = choose|i: int| last_with_value(s, i, score_value(#[trigger] c.thresholds@[0])) && s.y_score@[i] == c.thresholds@[0];
        assert(0 <= j < s.size());
        let vmin = score_value(c.thresholds@[m - 1]);
        assert forall|label: u8| true implies count_at_least(s, label, vmin) == class_count(s, label) by {
            assert forall|i: int| 0 <= i < r.len() implies labelled_at_least(s, label, vmin)(#[trigger] r[i])
                == labelled(s, label)(r[i]) by {
                assert(covers(c.thresholds@, s.score(i)));
                let jj = choose|jj: int| 0 <= jj < c.thresholds@.len() && #[trigger] score_value(c.thresholds@[jj]) == s.score(i);
                if jj < m - 1 {
                    assert(score_value(c.thresholds@[jj]) > score_value(c.thresholds@[m - 1]));
                }
                assert(r[i] == i as usize);
            }
            lemma_count_ext(r, labelled_at_least(s, label, vmin), labelled(s, label));
        }
    }
    assert forall|j: int| 0 <= j < m implies 1 <= #[trigger] c.tps@[j] + c.fps@[j] <= s.size()
        && c.tps@[j] + c.fps@[j] == count_scoring_at_least(s, score_value(c.thresholds@[j])) by {
        let v = score_value(c.thresholds@[j]);
        let f1 = labelled_at_least(s, 1, v);
        let f0 = labelled_at_least(s, 0, v);
        let g = |i: usize| score_value(s.y_score@[i as int]) >= v;
        assert(count_scoring_at_least(s, v) == count_where(r, g));
        assert forall|i: int| 0 <= i < r.len() implies f0(#[trigger] r[i]) == (g(r[i]) && !f1(r[i])) by {
            assert(r[i] == i as usize);
            assert(s.y_true@[i] <= 1);
        }
        lemma_count_split(r, g, f1, f0);
        let i = choose|i: int| last_with_value(s, i, score_value(#[trigger] c.thresholds@[j])) && s.y_score@[i] == c.thresholds@[j];
        assert(r[i] == i as usize);
        crate::count::lemma_count_positive(r, g, i);
        crate::count::lemma_count_bound(r, g);
        assert(r.len() == s.size());
    }
}

/// Splitting a predicate by a second one that implies it.
proof fn lemma_count_split(r: Seq<usize>, g: spec_fn(usize) -> bool, f1: spec_fn(usize) -> bool, f0: spec_fn(usize) -> bool)
    requires
        forall|i: int| 0 <= i < r.len() ==> f0(#[trigger] r[i]) == (g(r[i]) && !f1(r[i])),
        forall|i: int| 0 <= i < r.len() ==> f1(#[trigger] r[i]) ==> g(r[i]),
    ensures
        count_where(r, f1) + count_where(r, f0) == count_where(r, g),
    decreases r.len(),
{
    if r.len() > 0 {
        let t = r.drop_last();
        assert forall|i: int| 0 <= i < t.len() implies f0(#[trigger] t[i]) == (g(t[i]) && !f1(t[i])) by {
            assert(t[i] == r[i]);
        }
        assert forall|i: int| 0 <= i < t.len() && f1(#[trigger] t[i]) implies g(t[i]) by {
            assert(t[i] == r[i]);
        }
        lemma_count_split(t, g, f1, f0);
    }
}

} // verus!
