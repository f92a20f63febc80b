//! The metrics the command line offers, and the curve each is computed from.
use vstd::prelude::*;
use crate::ap::{is_pr_curve, pr_curve, PrCurve};
use crate::clf_curve::class_count;
use crate::roc::{has_both_classes, is_roc_curve, roc_curve, RocCurve};
use crate::samples::Samples;

verus! {

/// Which metric or curve to compute.
#[derive(Clone, Copy, Debug, PartialEq, Eq, Structural)]
pub enum Metric {
    /// Area under the ROC curve.
    RocAuc,
    /// The step integral of the precision-recall curve.
    AveragePrecision,
    /// The ROC curve points.
    RocCurve,
    /// The precision-recall curve points.
    PrCurve,
}

/// The curve a metric is read from.
#[derive(Debug)]
pub enum MetricCurve {
    /// Only one class is present: the ROC AUC is undefined.
    SingleClass,
    /// A ROC curve.
    Roc(RocCurve),
    /// A precision-recall curve.
    Pr(PrCurve),
}

/// Whether a metric is read from the precision-recall curve.
pub open spec fn uses_pr_curve(metric: Metric) -> bool {
    metric == Metric::AveragePrecision || metric == Metric::PrCurve
}

/// The curve behind `metric`: the ROC metrics use the ROC curve with
/// collinear points dropped, the precision-recall metrics the full
/// precision-recall curve, and the ROC AUC needs both classes.
pub fn metric_curve(metric: Metric, s: &Samples) -> (r: MetricCurve)
    requires
        s.wf(),
        uses_pr_curve(metric) ==> s.size() > 0,
    ensures
        metric == Metric::RocAuc && 0 < class_count(*s, 1) < s.size() ==> (r matches MetricCurve::Roc(
            c,
        ) && is_roc_curve(*s, true, c)),
        metric == Metric::RocAuc && !(0 < class_count(*s, 1) < s.size()) ==> r is SingleClass,
        metric == Metric::RocCurve ==> (r matches MetricCurve::Roc(c) && is_roc_curve(*s, true, c)),
        uses_pr_curve(metric) ==> (r matches MetricCurve::Pr(c) && is_pr_curve(*s, false, c)),
{
    match metric {
        Metric::RocAuc => {
            if has_both_classes(s) {
                MetricCurve::Roc(roc_curve(s, true))
            } else {
                MetricCurve::SingleClass
            }
        },
        Metric::RocCurve => MetricCurve::Roc(roc_curve(s, true)),
        Metric::AveragePrecision => MetricCurve::Pr(pr_curve(s, false)),
        Metric::PrCurve => MetricCurve::Pr(pr_curve(s, false)),
    }
}

} // verus!
