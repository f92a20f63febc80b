use rsomics_roc_auc::{Metric, MetricCurve, Ratio, Samples, metric_curve};

fn samples(y_true: Vec<u8>, y_score: Vec<f64>) -> Samples {
    Samples {
        y_true,
        y_score: y_score.iter().map(|x| x.to_bits()).collect(),
    }
}

#[test]
fn roc_auc_needs_both_classes() {
    let one = samples(vec![1, 1, 1], vec![0.1, 0.5, 0.9]);
    assert!(matches!(metric_curve(Metric::RocAuc, &one), MetricCurve::SingleClass));
    let both = samples(vec![0, 0, 1, 1], vec![0.1, 0.2, 0.8, 0.9]);
    match metric_curve(Metric::RocAuc, &both) {
        MetricCurve::Roc(c) => assert_eq!(c.fpr.len(), 4),
        _ => panic!("expected a ROC curve"),
    }
}

#[test]
fn each_metric_reads_its_curve() {
    let s = samples(vec![1, 0, 0, 0, 1], vec![1.0, 0.9, 0.8, 0.7, 0.1]);
    match metric_curve(Metric::RocCurve, &s) {
        MetricCurve::Roc(c) => assert_eq!(c.thresholds.len(), 4),
        _ => panic!("expected a ROC curve"),
    }
    match metric_curve(Metric::PrCurve, &s) {
        MetricCurve::Pr(c) => {
            assert_eq!(c.thresholds.len(), 5);
            assert_eq!(c.precision[0], Ratio { num: 2, den: 5 });
        }
        _ => panic!("expected a PR curve"),
    }
    assert!(matches!(metric_curve(Metric::AveragePrecision, &s), MetricCurve::Pr(_)));
    assert_ne!(Metric::RocAuc, Metric::PrCurve);
}
