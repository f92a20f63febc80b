//! The ROC curve.
//!
//! The classification curve is optionally thinned by dropping collinear
//! interior points (`drop_intermediate`), the origin `(0, 0)` is prepended
//! with a `+inf` threshold, and the false and true positive counts become
//! rates over their totals.
use vstd::prelude::*;
use crate::clf_curve::{binary_clf_curve, class_count, is_clf_curve, labelled, the_clf_curve, ClfCurve};
use crate::count::{count_where, index_range};
use crate::ratio::{over_last, rates_over_last, Ratio};
use crate::samples::Samples;
use crate::score::{is_ordered, score_value, INFINITY_BITS};

verus! {

/// ROC curve points: `fpr[i]` and `tpr[i]` are the false and true positive
/// rates at `score >= thresholds[i]`. The first threshold is `+inf`, at the
/// origin.
#[derive(Debug)]
pub struct RocCurve {
    pub fpr: Vec<Ratio>,
    pub tpr: Vec<Ratio>,
    pub thresholds: Vec<u64>,
}

/// The indices `i < n` that `keep` accepts, in increasing order.
pub open spec fn select(n: nat, keep: spec_fn(int) -> bool) -> Seq<int>
    decreases n,
{
    if n == 0 {
        Seq::empty()
    } else {
        let t = select((n - 1) as nat, keep);
        if keep(n - 1) {
            t.push(n - 1)
        } else {
            t
        }
    }
}

/// Second difference of `x` around `i`: `x[i+1] - 2 x[i] + x[i-1]`.
pub open spec fn second_diff(x: Seq<usize>, i: int) -> int {
    x[i + 1] - 2 * x[i] + x[i - 1]
}

/// Point `i` of the curve `(fps, tps)` survives: always when nothing is
/// dropped; otherwise the two endpoints and every point where the fps or tps
/// slope changes.
pub open spec fn roc_keep(fps: Seq<usize>, tps: Seq<usize>, drop: bool) -> spec_fn(int) -> bool {
    |i: int|
        !drop || i == 0 || i == fps.len() - 1 || second_diff(fps, i) != 0 || second_diff(tps, i)
            != 0
}

/// The surviving point indices.
pub open spec fn roc_selection(fps: Seq<usize>, tps: Seq<usize>, drop: bool) -> Seq<int> {
    select(fps.len(), roc_keep(fps, tps, drop))
}

/// The surviving values of `x`, after a prepended `first`.
pub open spec fn with_first<A>(first: A, x: Seq<A>, sel: Seq<int>) -> Seq<A> {
    seq![first] + sel.map_values(|i: int| x[i])
}

/// ROC false positive counts, origin first.
pub open spec fn roc_fps(c: ClfCurve, drop: bool) -> Seq<usize> {
    with_first(0usize, c.fps@, roc_selection(c.fps@, c.tps@, drop))
}

/// ROC true positive counts, origin first.
pub open spec fn roc_tps(c: ClfCurve, drop: bool) -> Seq<usize> {
    with_first(0usize, c.tps@, roc_selection(c.fps@, c.tps@, drop))
}

/// ROC thresholds, `+inf` first.
pub open spec fn roc_thresholds(c: ClfCurve, drop: bool) -> Seq<u64> {
    with_first(INFINITY_BITS, c.thresholds@, roc_selection(c.fps@, c.tps@, drop))
}

/// `r` is the ROC curve of `s`.
pub open spec fn is_roc_curve(s: Samples, drop: bool, r: RocCurve) -> bool {
    let c = the_clf_curve(s);
    &&& r.fpr@ == over_last(roc_fps(c, drop))
    &&& r.tpr@ == over_last(roc_tps(c, drop))
    &&& r.thresholds@ == roc_thresholds(c, drop)
}

/// The surviving points of `c`, origin first.
fn roc_points(c: &ClfCurve, drop: bool) -> (r: (Vec<usize>, Vec<usize>, Vec<u64>))
    requires
        c.tps@.len() == c.fps@.len(),
        c.thresholds@.len() == c.fps@.len(),
    ensures
        r.0@ == roc_fps(*c, drop),
        r.1@ == roc_tps(*c, drop),
        r.2@ == roc_thresholds(*c, drop),
{
    let m = c.fps.len();
    let ghost keep = roc_keep(c.fps@, c.tps@, drop);
    let mut fps: Vec<usize> = Vec::new();
    let mut tps: Vec<usize> = Vec::new();
    let mut thr: Vec<u64> = Vec::new();
    fps.push(0);
    tps.push(0);
    thr.push(INFINITY_BITS);
    let mut i: usize = 0;
    while i < m
        invariant
            i <= m,
            m == c.fps@.len(),
            c.tps@.len() == m,
            c.thresholds@.len() == m,
            keep == roc_keep(c.fps@, c.tps@, drop),
            fps@ == with_first(0usize, c.fps@, select(i as nat, keep)),
            tps@ == with_first(0usize, c.tps@, select(i as nat, keep)),
            thr@ == with_first(INFINITY_BITS, c.thresholds@, select(i as nat, keep)),
        decreases m - i,
    {
        let kept = if !drop || i == 0 || i + 1 == m {
            true
        } else {
            let df = (c.fps[i + 1] as i128) - 2 * (c.fps[i] as i128) + (c.fps[i - 1] as i128);
            let dt = (c.tps[i + 1] as i128) - 2 * (c.tps[i] as i128) + (c.tps[i - 1] as i128);
            df != 0 || dt != 0
        };
        assert(kept == keep(i as int));
        let ghost prev = select(i as nat, keep);
        if kept {
            fps.push(c.fps[i]);
            tps.push(c.tps[i]);
            thr.push(c.thresholds[i]);
            assert(select((i + 1) as nat, keep) == prev.push(i as int));
            assert(fps@ =~= with_first(0usize, c.fps@, prev.push(i as int)));
            assert(tps@ =~= with_first(0usize, c.tps@, prev.push(i as int)));
            assert(thr@ =~= with_first(INFINITY_BITS, c.thresholds@, prev.push(i as int)));
        } else {
            assert(select((i + 1) as nat, keep) == prev);
        }
        i = i + 1;
    }
    (fps, tps, thr)
}

/// The ROC curve of `s`, with collinear interior points dropped when
/// `drop_inter` holds.
pub fn roc_curve(s: &Samples, drop_inter: bool) -> (r: RocCurve)
    requires
        s.wf(),
    ensures
        is_roc_curve(*s, drop_inter, r),
{
    let c = binary_clf_curve(s);
    let (fps, tps, thr) = roc_points(&c, drop_inter);
    let ghost t = the_clf_curve(*s);
    assert(roc_fps(c, drop_inter) == roc_fps(t, drop_inter));
    assert(roc_tps(c, drop_inter) == roc_tps(t, drop_inter));
    assert(roc_thresholds(c, drop_inter) == roc_thresholds(t, drop_inter));
    let fpr = rates_over_last(&fps);
    let tpr = rates_over_last(&tps);
    RocCurve { fpr, tpr, thresholds: thr }
}

/// Whether `s` holds both a positive and a negative sample, which the ROC AUC
/// needs to be defined.
pub fn has_both_classes(s: &Samples) -> (r: bool)
    requires
        s.wf(),
    ensures
        r == (0 < class_count(*s, 1) < s.size()),
{
    let n = s.y_true.len();
    let mut pos: usize = 0;
    let mut i: usize = 0;
    let ghost f = labelled(*s, 1);
    while i < n
        invariant
            i <= n,
            n == s.size(),
            pos == count_where(index_range(i as nat), f),
            pos <= i,
            f == labelled(*s, 1),
        decreases n - i,
    {
        assert(index_range((i + 1) as nat).drop_last() =~= index_range(i as nat));
        if s.y_true[i] == 1 {
            pos = pos + 1;
        }
        i = i + 1;
    }
    0 < pos && pos < n
}

} // verus!

verus! {

/// Twice the trapezoid area under the first `k` points `(x[i], y[i])`: the
/// sum of `(x[i] - x[i-1]) * (y[i] + y[i-1])` over `0 < i < k`.
pub open spec fn twice_area_upto(x: Seq<usize>, y: Seq<usize>, k: int) -> int
    decreases k,
{
    if k < 2 {
        0
    } else {
        twice_area_upto(x, y, k - 1) + (x[k - 1] - x[k - 2]) * (y[k - 1] + y[k - 2])
    }
}

/// Twice the trapezoid area under the points `(x[i], y[i])`. For the ROC
/// counts, dividing by twice the product of the class totals gives the area
/// under the ROC curve.
pub open spec fn twice_area(x: Seq<usize>, y: Seq<usize>) -> int {
    twice_area_upto(x, y, x.len() as int)
}

/// The trapezoid terms of the points `a..=b`, each paired with the one before.
pub open spec fn segments(f: Seq<usize>, t: Seq<usize>, a: int, b: int) -> int
    decreases b - a,
{
    if b <= a {
        0
    } else {
        segments(f, t, a, b - 1) + (f[b] - f[b - 1]) * (t[b] + t[b - 1])
    }
}

proof fn lemma_chord_step(x: int, y: int, u: int, df: int, dt: int)
    by (nonlinear_arith)
    requires
        x * dt == y * df,
    ensures
        x * (y + 2 * u) + df * (2 * u + 2 * y + dt) == (x + df) * (y + dt + 2 * u),
        (x + df) * dt == (y + dt) * df,
{
}

/// Over points whose fps and tps second differences all vanish, the
/// trapezoid terms add up to the single term of the chord.
proof fn lemma_chord(f: Seq<usize>, t: Seq<usize>, a: int, b: int)
    requires
        0 <= a <= b < f.len(),
        f.len() == t.len(),
        forall|i: int| a < i < b ==> #[trigger] second_diff(f, i) == 0 && second_diff(t, i) == 0,
    ensures
        segments(f, t, a, b) == (f[b] - f[a]) * (t[b] + t[a]),
        a < b ==> (f[b] - f[a]) * (t[a + 1] - t[a]) == (t[b] - t[a]) * (f[a + 1] - f[a]),
        a < b ==> f[b] - f[b - 1] == f[a + 1] - f[a] && t[b] - t[b - 1] == t[a + 1] - t[a],
    decreases b - a,
{
    if b == a {
        assert(segments(f, t, a, b) == 0);
    } else if b == a + 1 {
        assert(segments(f, t, a, a) == 0);
        let df = f[a + 1] - f[a];
        let dt = t[a + 1] - t[a];
        assert(df * dt == dt * df) by (nonlinear_arith);
    } else {
        lemma_chord(f, t, a, b - 1);
        assert(second_diff(f, b - 1) == 0 && second_diff(t, b - 1) == 0);
        let x = f[b - 1] - f[a];
        let y = t[b - 1] - t[a];
        let u = t[a] as int;
        let df = f[a + 1] - f[a];
        let dt = t[a + 1] - t[a];
        lemma_chord_step(x, y, u, df, dt);
        assert(f[b] - f[a] == x + df);
        assert(t[b] + t[a] == y + dt + 2 * u);
        assert(t[b] - t[a] == y + dt);
        assert(f[b] - f[b - 1] == df);
        assert(t[b] + t[b - 1] == 2 * u + 2 * y + dt);
    }
}

/// What `select` picks: increasing indices below `n`, each accepted by
/// `keep`, and every accepted index below `n`.
pub proof fn lemma_select(n: nat, keep: spec_fn(int) -> bool)
    ensures
        forall|q: int| 0 <= q < select(n, keep).len() ==> 0 <= #[trigger] select(n, keep)[q] < n
            && keep(select(n, keep)[q]),
        forall|q1: int, q2: int|
            0 <= q1 < q2 < select(n, keep).len() ==> #[trigger] select(n, keep)[q1]
                < #[trigger] select(n, keep)[q2],
        forall|i: int|
            0 <= i < n && #[trigger] keep(i) ==> exists|q: int|
                0 <= q < select(n, keep).len() && select(n, keep)[q] == i,
    decreases n,
{
    if n > 0 {
        let t = select((n - 1) as nat, keep);
        lemma_select((n - 1) as nat, keep);
        let s = select(n, keep);
        assert forall|q: int| 0 <= q < s.len() implies 0 <= #[trigger] s[q] < n && keep(s[q]) by {
            if q < t.len() {
                assert(s[q] == t[q]);
            }
        }
        assert forall|q1: int, q2: int| 0 <= q1 < q2 < s.len() implies #[trigger] s[q1] < #[trigger] s[q2] by {
            if q2 < t.len() {
                assert(s[q1] == t[q1] && s[q2] == t[q2]);
            } else {
                assert(s[q1] == t[q1]);
            }
        }
        assert forall|i: int| 0 <= i < n && #[trigger] keep(i) implies exists|q: int|
            0 <= q < s.len() && s[q] == i by {
            if i < n - 1 {
                let q = choose|q: int| 0 <= q < t.len() && t[q] == i;
                assert(s[q] == t[q]);
            } else {
                assert(s[s.len() - 1] == i);
            }
        }
    }
}

/// The last index is kept, so a non-empty curve keeps at least one point,
/// and the last one last.
pub proof fn lemma_selection_keeps_last(n: nat, keep: spec_fn(int) -> bool)
    requires
        n > 0,
        keep(n - 1),
    ensures
        select(n, keep).len() > 0,
        select(n, keep).last() == n - 1,
{
}

/// Law: the ROC counts start at the origin, never decrease, and end at the
/// class totals, so both rates run from 0 to 1 when both classes are present.
pub proof fn lemma_roc_counts(s: Samples, c: ClfCurve, drop: bool)
    requires
        s.wf(),
        is_clf_curve(s, c),
    ensures
        ({
            let x = roc_fps(c, drop);
            let y = roc_tps(c, drop);
            &&& x.len() == y.len()
            &&& x[0] == 0 && y[0] == 0
            &&& x.last() == class_count(s, 0) && y.last() == class_count(s, 1)
            &&& forall|k1: int, k2: int|
                0 <= k1 <= k2 < x.len() ==> #[trigger] x[k1] <= #[trigger] x[k2] && y[k1] <= y[k2]
        }),
{
    let m = c.tps@.len();
    let keep = roc_keep(c.fps@, c.tps@, drop);
    let sel = select(m, keep);
    crate::clf_curve::lemma_clf_curve_totals(s, c);
    crate::clf_curve::lemma_clf_counts_nondecreasing(s, c);
    lemma_select(m, keep);
    let x = roc_fps(c, drop);
    let y = roc_tps(c, drop);
    if m == 0 {
        assert(sel =~= Seq::<int>::empty());
        assert(s.size() == 0);
        assert(class_count(s, 0) == 0);
        assert(class_count(s, 1) == 0);
    } else {
        lemma_selection_keeps_last(m, keep);
    }
    assert forall|k1: int, k2: int| 0 <= k1 <= k2 < x.len() implies #[trigger] x[k1] <= #[trigger] x[k2] && y[k1] <= y[k2] by {
        if k1 > 0 {
            let i1 = sel[k1 - 1];
            let i2 = sel[k2 - 1];
            if k1 < k2 {
                assert(i1 < i2);
            }
            assert(x[k1] == c.fps@[i1] && x[k2] == c.fps@[i2]);
            assert(y[k1] == c.tps@[i1] && y[k2] == c.tps@[i2]);
            assert(c.tps@[i1] <= c.tps@[i2]);
        } else {
            if k2 > 0 {
                assert(x[k2] == c.fps@[sel[k2 - 1]]);
            }
        }
    }
}

/// Selecting every index keeps every index.
pub proof fn lemma_select_all(n: nat, keep: spec_fn(int) -> bool)
    requires
        forall|i: int| #[trigger] keep(i),
    ensures
        select(n, keep) == Seq::new(n, |i: int| i),
    decreases n,
{
    if n > 0 {
        lemma_select_all((n - 1) as nat, keep);
        assert(select(n, keep) =~= Seq::new(n, |i: int| i));
    }
}

/// The area of the full ROC counts: the origin's term, then the segments.
proof fn lemma_full_area(f: Seq<usize>, t: Seq<usize>, n: int)
    requires
        1 <= n <= f.len(),
        f.len() == t.len(),
    ensures
        twice_area_upto(seq![0usize] + f, seq![0usize] + t, n + 1) == f[0] * t[0] + segments(
            f,
            t,
            0,
            n - 1,
        ),
    decreases n,
{
    let x = seq![0usize] + f;
    let y = seq![0usize] + t;
    if n == 1 {
        assert(x[1] == f[0] && y[1] == t[0] && x[0] == 0 && y[0] == 0);
        assert(twice_area_upto(x, y, 1) == 0);
        assert(segments(f, t, 0, 0) == 0);
    } else {
        lemma_full_area(f, t, n - 1);
        assert(x[n] == f[n - 1] && x[n - 1] == f[n - 2]);
        assert(y[n] == t[n - 1] && y[n - 1] == t[n - 2]);
    }
}

/// The area of the thinned ROC counts over the first `n` points, with the
/// segments since the last kept point still to add, is the full area.
proof fn lemma_thinned_area(f: Seq<usize>, t: Seq<usize>, n: int)
    requires
        1 <= n <= f.len(),
        f.len() == t.len(),
    ensures
        ({
            let sel = select(n as nat, roc_keep(f, t, true));
            let l = sel.last();
            &&& sel.len() >= 1
            &&& 0 <= l < n
            &&& twice_area_upto(
                with_first(0usize, f, sel),
                with_first(0usize, t, sel),
                sel.len() + 1int,
            ) + segments(f, t, l, n - 1) == f[0] * t[0] + segments(f, t, 0, n - 1)
        }),
    decreases n,
{
    let keep = roc_keep(f, t, true);
    let sel = select(n as nat, keep);
    lemma_select(n as nat, keep);
    if n == 1 {
        assert(keep(0));
        assert(sel =~= seq![0int]);
        let x = with_first(0usize, f, sel);
        let y = with_first(0usize, t, sel);
        assert(x[1] == f[0] && y[1] == t[0] && x[0] == 0 && y[0] == 0);
        assert(twice_area_upto(x, y, 1) == 0);
        assert(segments(f, t, 0, 0) == 0);
    } else {
        let prev = select((n - 1) as nat, keep);
        lemma_thinned_area(f, t, n - 1);
        lemma_select((n - 1) as nat, keep);
        let l = prev.last();
        let xp = with_first(0usize, f, prev);
        let yp = with_first(0usize, t, prev);
        let k = n - 1;
        if keep(k) {
            assert(sel == prev.push(k));
            let x = with_first(0usize, f, sel);
            let y = with_first(0usize, t, sel);
            assert(x =~= xp.push(f[k]));
            assert(y =~= yp.push(t[k]));
            assert forall|i: int| 0 <= i <= xp.len() - 1 implies #[trigger] x[i] == xp[i] by {}
            assert(twice_area_upto(x, y, prev.len() + 1int) == twice_area_upto(xp, yp, prev.len() + 1int))
                by {
                lemma_area_prefix(x, y, xp, yp, prev.len() + 1int);
            }
            assert(x[prev.len() + 1int] == f[k] && x[prev.len() as int] == f[l]);
            assert(y[prev.len() + 1int] == t[k] && y[prev.len() as int] == t[l]);
            assert forall|i: int| l < i < k implies #[trigger] second_diff(f, i) == 0 && second_diff(t, i) == 0 by {
                if keep(i) {
                    let q = choose|q: int| 0 <= q < prev.len() && prev[q] == i;
                    if q < prev.len() - 1 {
                        assert(prev[q] < prev[prev.len() - 1]);
                    }
                }
            }
            lemma_chord(f, t, l, k);
            assert(sel.last() == k);
        } else {
            assert(sel == prev);
        }
    }
}

/// Points that agree up to `k` give the same area up to `k`.
proof fn lemma_area_prefix(x: Seq<usize>, y: Seq<usize>, x2: Seq<usize>, y2: Seq<usize>, k: int)
    requires
        0 <= k <= x.len(),
        k <= x2.len(),
        k <= y.len(),
        k <= y2.len(),
        forall|i: int| 0 <= i < k ==> x[i] == x2[i] && y[i] == y2[i],
    ensures
        twice_area_upto(x, y, k) == twice_area_upto(x2, y2, k),
    decreases k,
{
    if k >= 2 {
        lemma_area_prefix(x, y, x2, y2, k - 1);
    }
}

/// Law: dropping collinear interior points keeps the last point of the ROC
/// counts and the area under them, so the ROC curve keeps its shape and its
/// AUC.
pub proof fn lemma_drop_keeps_area(c: ClfCurve)
    requires
        c.fps@.len() == c.tps@.len(),
    ensures
        twice_area(roc_fps(c, true), roc_tps(c, true)) == twice_area(
            roc_fps(c, false),
            roc_tps(c, false),
        ),
        roc_fps(c, true).last() == roc_fps(c, false).last(),
        roc_tps(c, true).last() == roc_tps(c, false).last(),
{
    let f = c.fps@;
    let t = c.tps@;
    let m = f.len();
    let keep_all = roc_keep(f, t, false);
    lemma_select_all(m, keep_all);
    let all = select(m, keep_all);
    assert(with_first(0usize, f, all) =~= seq![0usize] + f);
    assert(with_first(0usize, t, all) =~= seq![0usize] + t);
    let sel = select(m, roc_keep(f, t, true));
    if m == 0 {
        assert(sel =~= Seq::<int>::empty());
        assert(roc_fps(c, true) =~= seq![0usize]);
        assert(roc_tps(c, true) =~= seq![0usize]);
    } else {
        lemma_thinned_area(f, t, m as int);
        lemma_full_area(f, t, m as int);
        lemma_select(m, roc_keep(f, t, true));
        assert(roc_keep(f, t, true)(m - 1));
        let q = choose|q: int| 0 <= q < sel.len() && sel[q] == m - 1;
        if q < sel.len() - 1 {
            assert(sel[q] < sel[sel.len() - 1]);
        }
        assert(sel.last() == m - 1);
    }
}


proof fn lemma_linear_step(k: int, d: int, x: int, y: int)
    by (nonlinear_arith)
    requires
        x == k * d,
        y == d,
    ensures
        x + y == (k + 1) * d,
{
}

proof fn lemma_one_times(d: int)
    by (nonlinear_arith)
    ensures
        1 * d == d,
{
}

/// Where the second differences vanish, a sequence grows by a constant step.
proof fn lemma_linear(f: Seq<usize>, a: int, b: int)
    requires
        0 <= a < b < f.len(),
        forall|i: int| a < i < b ==> #[trigger] second_diff(f, i) == 0,
    ensures
        f[b] - f[a] == (b - a) * (f[a + 1] - f[a]),
        f[b] - f[b - 1] == f[a + 1] - f[a],
    decreases b - a,
{
    if b == a + 1 {
        lemma_one_times(f[a + 1] - f[a]);
    } else {
        lemma_linear(f, a, b - 1);
        assert(second_diff(f, b - 1) == 0);
        lemma_linear_step(b - 1 - a, f[a + 1] - f[a], f[b - 1] - f[a], f[b] - f[b - 1]);
    }
}

proof fn lemma_fraction(ri: int, rr: int, d: int, x: int, y: int)
    by (nonlinear_arith)
    requires
        x == ri * d,
        y == rr * d,
    ensures
        rr * x == ri * y,
{
}

/// Law: thinning the ROC curve keeps a subsequence of its points (the origin,
/// the first point, the last point, and every point where the fps or tps
/// slope changes), and every dropped point lies on the segment between its
/// nearest kept neighbours, at the fraction of the way given by its index.
/// The kept points have the same rates in both curves.
pub proof fn lemma_roc_thinning(c: ClfCurve)
    requires
        c.tps@.len() == c.fps@.len(),
        c.thresholds@.len() == c.fps@.len(),
    ensures
        ({
            let f = c.fps@;
            let t = c.tps@;
            let m = f.len();
            let sel = roc_selection(f, t, true);
            let n = sel.len();
            let ax = roc_fps(c, true);
            let bx = roc_fps(c, false);
            let ay = roc_tps(c, true);
            let by = roc_tps(c, false);
            let ah = roc_thresholds(c, true);
            let bh = roc_thresholds(c, false);
            &&& ax[0] == bx[0] && ay[0] == by[0] && ah[0] == bh[0]
            &&& bx.len() == m + 1 && ax.len() == n + 1
            &&& forall|q1: int, q2: int| 0 <= q1 < q2 < n ==> #[trigger] sel[q1] < #[trigger] sel[q2]
            &&& m > 0 ==> n >= 1 && sel[0] == 0 && sel[n - 1] == m - 1
            &&& forall|q: int|
                0 <= q < n ==> 0 <= #[trigger] sel[q] < m && ax[q + 1] == bx[sel[q] + 1] && ay[q
                    + 1] == by[sel[q] + 1] && ah[q + 1] == bh[sel[q] + 1]
            &&& forall|q: int|
                0 <= q < n ==> over_last(ax)[q + 1] == over_last(bx)[#[trigger] sel[q] + 1]
                    && over_last(ay)[q + 1] == over_last(by)[sel[q] + 1]
            &&& forall|i: int|
                0 <= i < m ==> (#[trigger] roc_keep(f, t, true)(i) <==> exists|q: int|
                    0 <= q < n && sel[q] == i)
            &&& forall|q: int, i: int|
                #![trigger sel[q], f[i]]
                0 <= q < n - 1 && sel[q] < i < sel[q + 1] ==> (sel[q + 1] - sel[q]) * (
                f[i] - f[sel[q]]) == (i - sel[q]) * (f[sel[q + 1]] - f[sel[q]]) && (sel[q + 1]
                    - sel[q]) * (t[i] - t[sel[q]]) == (i - sel[q]) * (t[sel[q + 1]] - t[sel[q]])
        }),
{
    let f = c.fps@;
    let t = c.tps@;
    let m = f.len();
    let keep = roc_keep(f, t, true);
    let sel = select(m, keep);
    let n = sel.len();
    lemma_select(m, keep);
    lemma_select_all(m, roc_keep(f, t, false));
    if m > 0 {
        lemma_selection_keeps_last(m, keep);
        assert(keep(0));
        let q0 = choose|q: int| 0 <= q < n && sel[q] == 0;
        if q0 > 0 {
            assert(sel[0] < sel[q0]);
        }
    }
    assert forall|q: int, i: int| #![trigger sel[q], f[i]] 0 <= q < n - 1 && sel[q] < i < sel[q + 1] implies (sel[q + 1] - sel[q]) * (
        f[i] - f[sel[q]]) == (i - sel[q]) * (f[sel[q + 1]] - f[sel[q]]) && (sel[q + 1] - sel[q])
        * (t[i] - t[sel[q]]) == (i - sel[q]) * (t[sel[q + 1]] - t[sel[q]]) by {
        let l = sel[q];
        let r = sel[q + 1];
        assert forall|j: int| l < j < r implies #[trigger] second_diff(f, j) == 0 && second_diff(t, j) == 0 by {
            if keep(j) {
                let q2 = choose|q2: int| 0 <= q2 < n && sel[q2] == j;
                if q2 <= q {
                    if q2 < q {
                        assert(sel[q2] < sel[q]);
                    }
                } else {
                    if q2 > q + 1 {
                        assert(sel[q + 1] < sel[q2]);
                    }
                }
            }
        }
        assert forall|j: int| l < j < r implies #[trigger] second_diff(t, j) == 0 by {
            assert(second_diff(f, j) == 0 && second_diff(t, j) == 0);
        }
        lemma_linear(f, l, i);
        lemma_linear(f, l, r);
        lemma_linear(t, l, i);
        lemma_linear(t, l, r);
        lemma_fraction(i - l, r - l, f[l + 1] - f[l], f[i] - f[l], f[r] - f[l]);
        lemma_fraction(i - l, r - l, t[l + 1] - t[l], t[i] - t[l], t[r] - t[l]);
    }
    let ax = roc_fps(c, true);
    let bx = roc_fps(c, false);
    assert forall|q: int| 0 <= q < n implies 0 <= #[trigger] sel[q] < m && ax[q + 1] == bx[sel[q] + 1]
        && roc_tps(c, true)[q + 1] == roc_tps(c, false)[sel[q] + 1] && roc_thresholds(c, true)[q + 1]
        == roc_thresholds(c, false)[sel[q] + 1] by {}
    lemma_drop_keeps_area(c);
}

/// Law: with `drop_inter`, whatever the length of the classification curve,
/// the ROC curve keeps the thresholds of its first and last points and drops
/// an interior point exactly when the second differences of `fps` and of
/// `tps` around it are both zero, that is, when it lies on the line through
/// its two neighbours.
pub proof fn lemma_roc_dropped_points(s: Samples, c: ClfCurve, r: RocCurve)
    requires
        s.wf(),
        is_clf_curve(s, c),
        is_roc_curve(s, true, r),
    ensures
        ({
            let m = c.tps@.len();
            &&& r.thresholds@[0] == INFINITY_BITS
            &&& m > 0 ==> r.thresholds@.contains(c.thresholds@[0]) && r.thresholds@.contains(
                c.thresholds@[m - 1],
            )
            &&& forall|i: int|
                0 < i < m - 1 ==> (r.thresholds@.contains(#[trigger] c.thresholds@[i]) <==> (
                c.fps@[i + 1] - 2 * c.fps@[i] + c.fps@[i - 1] != 0 || c.tps@[i + 1] - 2
                    * c.tps@[i] + c.tps@[i - 1] != 0))
        }),
{
    crate::clf_curve::lemma_is_the_clf_curve(s, c);
    let t = the_clf_curve(s);
    let f = c.fps@;
    let m = f.len();
    let keep = roc_keep(f, c.tps@, true);
    let sel = roc_selection(f, c.tps@, true);
    let n = sel.len();
    lemma_select(m, keep);
    let thr = r.thresholds@;
    assert(thr =~= seq![INFINITY_BITS] + sel.map_values(|i: int| c.thresholds@[i]));
    if m > 0 {
        let j0 = choose|j: int|
            crate::clf_curve::last_with_value(s, j, score_value(c.thresholds@[0]))
                && s.y_score@[j] == c.thresholds@[0];
        assert(is_ordered(s.y_score@[j0]));
    }
    assert forall|i: int| 0 <= i < m implies (thr.contains(#[trigger] c.thresholds@[i]) <==> keep(i)) by {
        if keep(i) {
            let q = choose|q: int| 0 <= q < n && sel[q] == i;
            assert(thr[q + 1] == c.thresholds@[i]);
        }
        if thr.contains(c.thresholds@[i]) && i > 0 {
            let k = choose|k: int| 0 <= k < thr.len() && thr[k] == c.thresholds@[i];
            assert(score_value(c.thresholds@[0]) > score_value(c.thresholds@[i]));
            assert(score_value(INFINITY_BITS) == INFINITY_BITS);
            assert(k > 0);
            let j = sel[k - 1];
            assert(c.thresholds@[j] == c.thresholds@[i]);
            if j < i {
                assert(score_value(c.thresholds@[j]) > score_value(c.thresholds@[i]));
            }
            if i < j {
                assert(score_value(c.thresholds@[i]) > score_value(c.thresholds@[j]));
            }
            assert(keep(j));
        }
    }
    if m > 0 {
        assert(keep(0));
        assert(keep(m - 1));
    }
}

/// Law: the ROC curve starts at the origin with a `+inf` threshold, then
/// lists its points by decreasing threshold, each at a threshold of the
/// classification curve, with false positive rate `fps / N` and true
/// positive rate `tps / P` there (`N` and `P` the numbers of negatives and
/// positives). Without `drop_inter` every threshold of the classification
/// curve is a point.
pub proof fn lemma_roc_point_values(s: Samples, c: ClfCurve, drop: bool, r: RocCurve)
    requires
        s.wf(),
        is_clf_curve(s, c),
        is_roc_curve(s, drop, r),
    ensures
        ({
            let n = r.thresholds@.len();
            let neg = class_count(s, 0);
            let pos = class_count(s, 1);
            &&& n >= 1 && r.fpr@.len() == n && r.tpr@.len() == n
            &&& r.thresholds@[0] == INFINITY_BITS
            &&& r.fpr@[0] == (Ratio { num: 0, den: neg as usize })
            &&& r.tpr@[0] == (Ratio { num: 0, den: pos as usize })
            &&& !drop ==> n == c.thresholds@.len() + 1
            &&& forall|k1: int, k2: int|
                1 <= k1 < k2 < n ==> score_value(#[trigger] r.thresholds@[k1]) > score_value(
                    #[trigger] r.thresholds@[k2],
                )
            &&& forall|k: int|
                #![trigger r.thresholds@[k]]
                1 <= k < n ==> exists|j: int|
                    #![trigger c.thresholds@[j]]
                    0 <= j < c.thresholds@.len() && r.thresholds@[k] == c.thresholds@[j]
                        && r.fpr@[k] == (Ratio { num: c.fps@[j], den: neg as usize })
                        && r.tpr@[k] == (Ratio { num: c.tps@[j], den: pos as usize })
        }),
{
    crate::clf_curve::lemma_is_the_clf_curve(s, c);
    lemma_roc_counts(s, c, drop);
    let f = c.fps@;
    let m = f.len();
    let keep = roc_keep(f, c.tps@, drop);
    let sel = roc_selection(f, c.tps@, drop);
    let n = sel.len();
    lemma_select(m, keep);
    let x = roc_fps(c, drop);
    let y = roc_tps(c, drop);
    let thr = r.thresholds@;
    assert(thr =~= seq![INFINITY_BITS] + sel.map_values(|i: int| c.thresholds@[i]));
    assert(r.fpr@ == over_last(x));
    assert(r.tpr@ == over_last(y));
    assert(x.last() == class_count(s, 0) && y.last() == class_count(s, 1));
    if !drop {
        lemma_select_all(m, keep);
    }
    assert forall|k1: int, k2: int| 1 <= k1 < k2 < n + 1 implies score_value(#[trigger] thr[k1])
        > score_value(#[trigger] thr[k2]) by {
        assert(sel[k1 - 1] < sel[k2 - 1]);
    }
    assert forall|k: int| #![trigger thr[k]] 1 <= k < n + 1 implies exists|j: int|
        #![trigger c.thresholds@[j]]
        0 <= j < c.thresholds@.len() && thr[k] == c.thresholds@[j] && r.fpr@[k] == (Ratio {
            num: c.fps@[j],
            den: class_count(s, 0) as usize,
        }) && r.tpr@[k] == (Ratio { num: c.tps@[j], den: class_count(s, 1) as usize }) by {
        let j = sel[k - 1];
        assert(thr[k] == c.thresholds@[j]);
        assert(x[k] == c.fps@[j] && y[k] == c.tps@[j]);
    }
}

} // verus!
