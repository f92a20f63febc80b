//! The precision-recall curve.
//!
//! Each point of the classification curve gives a precision `tps / (tps +
//! fps)` and a recall `tps / total positives`; the points are reversed so that
//! recall decreases, and the endpoint `(precision = 1, recall = 0)`, which has
//! no threshold, is appended.
use vstd::prelude::*;
use crate::clf_curve::{
    binary_clf_curve, class_count, count_at_least, covers, is_clf_curve, labelled_at_least,
    lemma_clf_counts_nondecreasing, lemma_clf_curve_totals, lemma_is_the_clf_curve,
    the_clf_curve, ClfCurve,
};
use crate::count::{index_range, lemma_count_disjoint};
use crate::ratio::Ratio;
use crate::roc::{lemma_select, lemma_select_all, lemma_selection_keeps_last, select};
use crate::samples::Samples;
use crate::score::score_value;

verus! {

/// Precision-recall curve points. `precision[i]` and `recall[i]` belong to
/// `thresholds[i]` for every threshold; the last point, `(1, 0)`, has none.
#[derive(Debug)]
pub struct PrCurve {
    pub precision: Vec<Ratio>,
    pub recall: Vec<Ratio>,
    pub thresholds: Vec<u64>,
}

/// Point `i` of the curve survives: always when nothing is dropped; otherwise
/// the endpoints and every point where `tps` changes on either side.
pub open spec fn pr_keep(tps: Seq<usize>, drop: bool) -> spec_fn(int) -> bool {
    |i: int| !drop || i == 0 || i == tps.len() - 1 || tps[i] != tps[i - 1] || tps[i + 1] != tps[i]
}

/// The surviving point indices.
pub open spec fn pr_selection(c: ClfCurve, drop: bool) -> Seq<int> {
    select(c.tps@.len(), pr_keep(c.tps@, drop))
}

/// Precision of a point: `tp / (tp + fp)`, or 0 when nothing is predicted positive.
pub open spec fn precision_of(tp: usize, fp: usize) -> Ratio {
    if tp + fp != 0 {
        Ratio { num: tp, den: (tp + fp) as usize }
    } else {
        Ratio { num: 0, den: 1 }
    }
}

/// Recall of a point: `tp / total`, or 1 when there are no positives.
pub open spec fn recall_of(tp: usize, total: usize) -> Ratio {
    if total == 0 {
        Ratio { num: 1, den: 1 }
    } else {
        Ratio { num: tp, den: total }
    }
}

/// Precision, highest threshold last, then the endpoint 1.
pub open spec fn pr_precision(c: ClfCurve, drop: bool) -> Seq<Ratio> {
    pr_selection(c, drop).map_values(|i: int| precision_of(c.tps@[i], c.fps@[i])).reverse().push(
        Ratio { num: 1, den: 1 },
    )
}

/// Recall, highest threshold last, then the endpoint 0.
pub open spec fn pr_recall(c: ClfCurve, drop: bool) -> Seq<Ratio> {
    let sel = pr_selection(c, drop);
    sel.map_values(|i: int| recall_of(c.tps@[i], c.tps@[sel.last()])).reverse().push(
        Ratio { num: 0, den: 1 },
    )
}

/// Thresholds, highest last.
pub open spec fn pr_thresholds(c: ClfCurve, drop: bool) -> Seq<u64> {
    pr_selection(c, drop).map_values(|i: int| c.thresholds@[i]).reverse()
}

/// `r` is the precision-recall curve of `s`.
pub open spec fn is_pr_curve(s: Samples, drop: bool, r: PrCurve) -> bool {
    let c = the_clf_curve(s);
    &&& r.precision@ == pr_precision(c, drop)
    &&& r.recall@ == pr_recall(c, drop)
    &&& r.thresholds@ == pr_thresholds(c, drop)
}

/// At each threshold, positives and negatives together number at most the samples.
proof fn lemma_point_sizes(s: Samples, c: ClfCurve)
    requires
        s.wf(),
        is_clf_curve(s, c),
    ensures
        forall|j: int| 0 <= j < c.tps@.len() ==> #[trigger] c.tps@[j] + c.fps@[j] <= s.size(),
{
    assert forall|j: int| 0 <= j < c.tps@.len() implies #[trigger] c.tps@[j] + c.fps@[j] <= s.size() by {
        let v = crate::score::score_value(c.thresholds@[j]);
        lemma_count_disjoint(
            index_range(s.size()),
            labelled_at_least(s, 1, v),
            labelled_at_least(s, 0, v),
        );
        assert(c.tps@[j] == count_at_least(s, 1, v));
        assert(c.fps@[j] == count_at_least(s, 0, v));
    }
}

/// The surviving points of `c`, in curve order.
fn pr_points(c: &ClfCurve, drop: bool) -> (r: (Vec<usize>, Vec<usize>, Vec<u64>))
    requires
        c.tps@.len() == c.fps@.len(),
        c.thresholds@.len() == c.fps@.len(),
    ensures
        r.0@ == pr_selection(*c, drop).map_values(|i: int| c.fps@[i]),
        r.1@ == pr_selection(*c, drop).map_values(|i: int| c.tps@[i]),
        r.2@ == pr_selection(*c, drop).map_values(|i: int| c.thresholds@[i]),
{
    let m = c.tps.len();
    let ghost keep = pr_keep(c.tps@, drop);
    let mut fps: Vec<usize> = Vec::new();
    let mut tps: Vec<usize> = Vec::new();
    let mut thr: Vec<u64> = Vec::new();
    let mut i: usize = 0;
    while i < m
        invariant
            i <= m,
            m == c.tps@.len(),
            c.fps@.len() == m,
            c.thresholds@.len() == m,
            keep == pr_keep(c.tps@, drop),
            fps@ == select(i as nat, keep).map_values(|i: int| c.fps@[i]),
            tps@ == select(i as nat, keep).map_values(|i: int| c.tps@[i]),
            thr@ == select(i as nat, keep).map_values(|i: int| c.thresholds@[i]),
        decreases m - i,
    {
        let kept = !drop || i == 0 || i + 1 == m || c.tps[i] != c.tps[i - 1] || c.tps[i + 1]
            != c.tps[i];
        assert(kept == keep(i as int));
        let ghost prev = select(i as nat, keep);
        if kept {
            fps.push(c.fps[i]);
            tps.push(c.tps[i]);
            thr.push(c.thresholds[i]);
            assert(select((i + 1) as nat, keep) == prev.push(i as int));
            assert(fps@ =~= prev.push(i as int).map_values(|i: int| c.fps@[i]));
            assert(tps@ =~= prev.push(i as int).map_values(|i: int| c.tps@[i]));
            assert(thr@ =~= prev.push(i as int).map_values(|i: int| c.thresholds@[i]));
        } else {
            assert(select((i + 1) as nat, keep) == prev);
        }
        i = i + 1;
    }
    (fps, tps, thr)
}

/// The precision-recall curve of `s`, with the points of unchanged recall
/// dropped when `drop_inter` holds.
pub fn pr_curve(s: &Samples, drop_inter: bool) -> (r: PrCurve)
    requires
        s.wf(),
        s.size() > 0,
    ensures
        is_pr_curve(*s, drop_inter, r),
{
    assert(s.size() == s.y_true.len());
    let c = binary_clf_curve(s);
    proof {
        lemma_point_sizes(*s, c);
        lemma_select(c.tps@.len(), pr_keep(c.tps@, drop_inter));
        assert(s.y_score@.len() > 0);
        assert(crate::clf_curve::covers(c.thresholds@, s.score(0)));
        lemma_selection_keeps_last(c.tps@.len(), pr_keep(c.tps@, drop_inter));
    }
    let ghost sel = pr_selection(c, drop_inter);
    let (fps, tps, thr) = pr_points(&c, drop_inter);
    let n = tps.len();
    let total = tps[n - 1];
    let mut precision: Vec<Ratio> = Vec::new();
    let mut recall: Vec<Ratio> = Vec::new();
    let mut thresholds: Vec<u64> = Vec::new();
    let mut k: usize = 0;
    while k < n
        invariant
            k <= n,
            n == sel.len(),
            n > 0,
            sel == pr_selection(c, drop_inter),
            forall|q: int| 0 <= q < n ==> 0 <= #[trigger] sel[q] < c.tps@.len(),
            forall|j: int| 0 <= j < c.tps@.len() ==> #[trigger] c.tps@[j] + c.fps@[j] <= s.size(),
            s.size() <= usize::MAX,
            fps@ == sel.map_values(|i: int| c.fps@[i]),
            tps@ == sel.map_values(|i: int| c.tps@[i]),
            thr@ == sel.map_values(|i: int| c.thresholds@[i]),
            total == c.tps@[sel.last()],
            precision@ =~= sel.map_values(|i: int| precision_of(c.tps@[i], c.fps@[i])).reverse().take(
                k as int,
            ),
            recall@ =~= sel.map_values(|i: int| recall_of(c.tps@[i], c.tps@[sel.last()])).reverse().take(
                k as int,
            ),
            thresholds@ =~= sel.map_values(|i: int| c.thresholds@[i]).reverse().take(k as int),
        decreases n - k,
    {
        let i = n - 1 - k;
        let tp = tps[i];
        let fp = fps[i];
        assert(tp + fp <= s.size()) by {
            assert(tp == c.tps@[sel[i as int]]);
            assert(fp == c.fps@[sel[i as int]]);
        }
        let p = if tp + fp != 0 {
            Ratio { num: tp, den: tp + fp }
        } else {
            Ratio { num: 0, den: 1 }
        };
        let r = if total == 0 {
            Ratio { num: 1, den: 1 }
        } else {
            Ratio { num: tp, den: total }
        };
        precision.push(p);
        recall.push(r);
        thresholds.push(thr[i]);
        k = k + 1;
    }
    precision.push(Ratio { num: 1, den: 1 });
    recall.push(Ratio { num: 0, den: 1 });
    let r = PrCurve { precision, recall, thresholds };
    proof {
        let t = the_clf_curve(*s);
        assert(pr_selection(c, drop_inter) == pr_selection(t, drop_inter));
        assert(r.precision@ =~= pr_precision(c, drop_inter));
        assert(r.recall@ =~= pr_recall(c, drop_inter));
        assert(r.thresholds@ =~= pr_thresholds(c, drop_inter));
        assert(pr_precision(c, drop_inter) =~= pr_precision(t, drop_inter));
        assert(pr_recall(c, drop_inter) =~= pr_recall(t, drop_inter));
        assert(pr_thresholds(c, drop_inter) =~= pr_thresholds(t, drop_inter));
    }
    r
}

} // verus!

verus! {

/// `a <= b` as rates.
pub open spec fn ratio_le(a: Ratio, b: Ratio) -> bool {
    a.num * b.den <= b.num * a.den
}

proof fn lemma_mul_le(a: int, b: int, t: int)
    by (nonlinear_arith)
    requires
        0 <= a <= b,
        0 <= t,
    ensures
        a * t <= b * t,
{
}

/// Law: the precision-recall curve has one more point than thresholds, ends
/// at `(precision = 1, recall = 0)`, and its recall never increases.
pub proof fn lemma_pr_curve_shape(s: Samples, c: ClfCurve, drop: bool)
    requires
        s.wf(),
        s.size() > 0,
        is_clf_curve(s, c),
    ensures
        ({
            let p = pr_precision(c, drop);
            let r = pr_recall(c, drop);
            &&& p.len() == r.len()
            &&& r.len() == pr_thresholds(c, drop).len() + 1
            &&& r.len() >= 2
            &&& p.last() == (Ratio { num: 1, den: 1 })
            &&& r.last() == (Ratio { num: 0, den: 1 })
            &&& forall|k1: int, k2: int|
                0 <= k1 < k2 < r.len() ==> ratio_le(#[trigger] r[k2], #[trigger] r[k1])
        }),
{
    let m = c.tps@.len();
    let keep = pr_keep(c.tps@, drop);
    let sel = pr_selection(c, drop);
    lemma_clf_curve_totals(s, c);
    lemma_clf_counts_nondecreasing(s, c);
    lemma_select(m, keep);
    lemma_selection_keeps_last(m, keep);
    let n = sel.len();
    let total = c.tps@[sel.last()];
    let r = pr_recall(c, drop);
    assert forall|k1: int, k2: int| 0 <= k1 < k2 < r.len() implies ratio_le(#[trigger] r[k2], #[trigger] r[k1]) by {
        if k2 == n {
            if total != 0 {
                assert(r[k1].den == total);
            }
        } else {
            let i1 = sel[n - 1 - k1];
            let i2 = sel[n - 1 - k2];
            assert(i2 < i1);
            assert(c.tps@[i2] <= c.tps@[i1]);
            if total != 0 {
                lemma_mul_le(c.tps@[i2] as int, c.tps@[i1] as int, total as int);
            }
        }
    }
}

/// Law: with a single class the precision-recall curve is flat. With no
/// negatives every precision is 1; with no positives every precision is 0 and
/// every recall 1 (before the endpoint). Hence the average precision is 1 for
/// all-positive samples and 0 for all-negative ones.
pub proof fn lemma_pr_single_class(s: Samples, c: ClfCurve, drop: bool)
    requires
        s.wf(),
        s.size() > 0,
        is_clf_curve(s, c),
    ensures
        ({
            let p = pr_precision(c, drop);
            let r = pr_recall(c, drop);
            &&& class_count(s, 0) == 0 ==> forall|k: int|
                0 <= k < p.len() - 1 ==> #[trigger] p[k].num == p[k].den && p[k].den > 0
            &&& class_count(s, 1) == 0 ==> forall|k: int|
                0 <= k < p.len() - 1 ==> #[trigger] p[k].num == 0 && r[k] == (Ratio { num: 1, den: 1 })
        }),
{
    let m = c.tps@.len();
    let keep = pr_keep(c.tps@, drop);
    let sel = pr_selection(c, drop);
    lemma_clf_curve_totals(s, c);
    lemma_clf_counts_nondecreasing(s, c);
    lemma_select(m, keep);
    lemma_selection_keeps_last(m, keep);
    let n = sel.len();
    let p = pr_precision(c, drop);
    let r = pr_recall(c, drop);
    if class_count(s, 0) == 0 {
        assert forall|k: int| 0 <= k < p.len() - 1 implies #[trigger] p[k].num == p[k].den && p[k].den > 0 by {
            let i = sel[n - 1 - k];
            assert(c.tps@[i] <= c.tps@[m - 1]);
            assert(c.fps@[i] <= c.fps@[m - 1]);
            assert(1 <= c.tps@[i] + c.fps@[i]);
        }
    }
    if class_count(s, 1) == 0 {
        assert forall|k: int| 0 <= k < p.len() - 1 implies #[trigger] p[k].num == 0 && r[k] == (Ratio { num: 1, den: 1 }) by {
            let i = sel[n - 1 - k];
            assert(c.tps@[i] <= c.tps@[m - 1]);
        }
    }
}


/// Law: thinning the precision-recall curve keeps a subsequence of its
/// points: the first and last thresholds, and exactly the interior points
/// whose `tps` differs from a neighbour's. Each kept point has the same
/// threshold, precision and recall in both curves, and both end at `(1, 0)`.
pub proof fn lemma_pr_thinning(c: ClfCurve)
    requires
        c.tps@.len() == c.fps@.len(),
        c.thresholds@.len() == c.fps@.len(),
        c.tps@.len() >= 1,
    ensures
        ({
            let m = c.tps@.len();
            let sel = pr_selection(c, true);
            let n = sel.len();
            let ap = pr_precision(c, true);
            let bp = pr_precision(c, false);
            let ar = pr_recall(c, true);
            let br = pr_recall(c, false);
            let at = pr_thresholds(c, true);
            let bt = pr_thresholds(c, false);
            &&& bt.len() == m && at.len() == n
            &&& n >= 1 && sel[0] == 0 && sel[n - 1] == m - 1
            &&& forall|q1: int, q2: int| 0 <= q1 < q2 < n ==> #[trigger] sel[q1] < #[trigger] sel[q2]
            &&& forall|i: int|
                0 <= i < m ==> (#[trigger] pr_keep(c.tps@, true)(i) <==> exists|q: int|
                    0 <= q < n && sel[q] == i)
            &&& forall|q: int|
                0 <= q < n ==> 0 <= #[trigger] sel[q] < m && at[n - 1 - q] == bt[m - 1 - sel[q]]
                    && ap[n - 1 - q] == bp[m - 1 - sel[q]] && ar[n - 1 - q] == br[m - 1 - sel[q]]
            &&& ap.last() == bp.last() && ar.last() == br.last()
        }),
{
    let m = c.tps@.len();
    let keep = pr_keep(c.tps@, true);
    let sel = select(m, keep);
    let n = sel.len();
    lemma_select(m, keep);
    lemma_selection_keeps_last(m, keep);
    lemma_select_all(m, pr_keep(c.tps@, false));
    let all = pr_selection(c, false);
    assert(all =~= Seq::new(m, |i: int| i));
    assert(keep(0));
    let q0 = choose|q: int| 0 <= q < n && sel[q] == 0;
    if q0 > 0 {
        assert(sel[0] < sel[q0]);
    }
    assert(all.last() == m - 1);
}

/// Law: with `drop_inter`, the thresholds of the precision-recall curve are
/// those of the first and the last point of the classification curve and of
/// every interior point whose `tps` differs from that of the point before it
/// or of the point after it. An interior point is dropped exactly when its
/// `tps` equals both neighbours'.
pub proof fn lemma_pr_dropped_points(s: Samples, c: ClfCurve, r: PrCurve)
    requires
        s.wf(),
        s.size() > 0,
        is_clf_curve(s, c),
        is_pr_curve(s, true, r),
    ensures
        ({
            let m = c.tps@.len();
            &&& m >= 1
            &&& r.thresholds@.contains(c.thresholds@[0])
            &&& r.thresholds@.contains(c.thresholds@[m - 1])
            &&& forall|i: int|
                0 < i < m - 1 ==> (r.thresholds@.contains(#[trigger] c.thresholds@[i]) <==> (
                c.tps@[i] != c.tps@[i - 1] || c.tps@[i + 1] != c.tps@[i]))
        }),
{
    lemma_is_the_clf_curve(s, c);
    let t = the_clf_curve(s);
    let m = c.tps@.len();
    let keep = pr_keep(c.tps@, true);
    let sel = pr_selection(c, true);
    let n = sel.len();
    lemma_select(m, keep);
    assert(pr_selection(t, true) == sel);
    let thr = r.thresholds@;
    assert(thr =~= sel.map_values(|i: int| c.thresholds@[i]).reverse());
    assert(s.y_score@.len() > 0);
    assert(covers(c.thresholds@, s.score(0)));
    assert forall|i: int| 0 <= i < m implies (thr.contains(#[trigger] c.thresholds@[i]) <==> keep(i)) by {
        if keep(i) {
            let q = choose|q: int| 0 <= q < n && sel[q] == i;
            assert(thr[n - 1 - q] == c.thresholds@[i]);
        }
        if thr.contains(c.thresholds@[i]) {
            let k = choose|k: int| 0 <= k < thr.len() && thr[k] == c.thresholds@[i];
            let j = sel[n - 1 - k];
            assert(c.thresholds@[j] == c.thresholds@[i]);
            if j < i {
                assert(score_value(c.thresholds@[j]) > score_value(c.thresholds@[i]));
            }
            if i < j {
                assert(score_value(c.thresholds@[i]) > score_value(c.thresholds@[j]));
            }
            assert(keep(j));
        }
    }
    assert(keep(0));
    assert(keep(m - 1));
}

/// Law: the precision-recall curve lists its points by increasing threshold,
/// each at a threshold of the classification curve, with precision
/// `tps / (tps + fps)` and recall `tps / P` there (`P` the number of
/// positives; a recall of 1 when there are none), then ends at the point
/// `(precision 1, recall 0)`, which has no threshold. Without `drop_inter`
/// every threshold of the classification curve is a point.
pub proof fn lemma_pr_point_values(s: Samples, c: ClfCurve, drop: bool, r: PrCurve)
    requires
        s.wf(),
        s.size() > 0,
        is_clf_curve(s, c),
        is_pr_curve(s, drop, r),
    ensures
        ({
            let n = r.thresholds@.len();
            let pos = class_count(s, 1);
            &&& r.precision@.len() == n + 1 && r.recall@.len() == n + 1
            &&& r.precision@[n as int] == (Ratio { num: 1, den: 1 })
            &&& r.recall@[n as int] == (Ratio { num: 0, den: 1 })
            &&& !drop ==> n == c.thresholds@.len()
            &&& forall|k1: int, k2: int|
                0 <= k1 < k2 < n ==> score_value(#[trigger] r.thresholds@[k1]) < score_value(
                    #[trigger] r.thresholds@[k2],
                )
            &&& forall|k: int|
                #![trigger r.thresholds@[k]]
                0 <= k < n ==> exists|j: int|
                    #![trigger c.thresholds@[j]]
                    0 <= j < c.thresholds@.len() && r.thresholds@[k] == c.thresholds@[j]
                        && r.precision@[k] == (Ratio {
                        num: c.tps@[j],
                        den: (c.tps@[j] + c.fps@[j]) as usize,
                    }) && r.recall@[k] == (if pos == 0 {
                        Ratio { num: 1, den: 1 }
                    } else {
                        Ratio { num: c.tps@[j], den: pos as usize }
                    })
        }),
{
    lemma_is_the_clf_curve(s, c);
    lemma_clf_curve_totals(s, c);
    let t = the_clf_curve(s);
    let m = c.tps@.len();
    let keep = pr_keep(c.tps@, drop);
    let sel = pr_selection(c, drop);
    let n = sel.len();
    lemma_select(m, keep);
    assert(s.y_score@.len() > 0);
    assert(covers(c.thresholds@, s.score(0)));
    lemma_selection_keeps_last(m, keep);
    assert(pr_selection(t, drop) == sel);
    let thr = r.thresholds@;
    let pr = r.precision@;
    let rc = r.recall@;
    assert(thr =~= sel.map_values(|i: int| c.thresholds@[i]).reverse());
    assert(pr =~= sel.map_values(|i: int| precision_of(c.tps@[i], c.fps@[i])).reverse().push(
        Ratio { num: 1, den: 1 },
    ));
    assert(rc =~= sel.map_values(|i: int| recall_of(c.tps@[i], c.tps@[sel.last()])).reverse().push(
        Ratio { num: 0, den: 1 },
    ));
    assert(c.tps@[sel.last()] == class_count(s, 1));
    if !drop {
        lemma_select_all(m, keep);
    }
    assert forall|k1: int, k2: int| 0 <= k1 < k2 < n implies score_value(#[trigger] thr[k1])
        < score_value(#[trigger] thr[k2]) by {
        assert(sel[n - 1 - k2] < sel[n - 1 - k1]);
    }
    assert forall|k: int| #![trigger thr[k]] 0 <= k < n implies exists|j: int|
        #![trigger c.thresholds@[j]]
        0 <= j < c.thresholds@.len() && thr[k] == c.thresholds@[j] && pr[k] == (Ratio {
            num: c.tps@[j],
            den: (c.tps@[j] + c.fps@[j]) as usize,
        }) && rc[k] == (if class_count(s, 1) == 0 {
            Ratio { num: 1, den: 1 }
        } else {
            Ratio { num: c.tps@[j], den: class_count(s, 1) as usize }
        }) by {
        let j = sel[n - 1 - k];
        assert(1 <= c.tps@[j] + c.fps@[j]);
        assert(thr[k] == c.thresholds@[j]);
    }
}

} // verus!
