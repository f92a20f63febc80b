use rsomics_roc_auc::{Ratio, Samples, pr_curve};

fn samples(y_true: Vec<u8>, y_score: Vec<f64>) -> Samples {
    Samples {
        y_true,
        y_score: y_score.iter().map(|x| x.to_bits()).collect(),
    }
}

fn value(r: &Ratio) -> f64 {
    r.num as f64 / r.den as f64
}

#[test]
fn curve_ends_at_recall_zero_precision_one() {
    let s = samples(vec![0, 0, 1, 1], vec![0.1, 0.4, 0.35, 0.8]);
    let c = pr_curve(&s, false);
    assert_eq!(value(c.precision.last().unwrap()), 1.0);
    assert_eq!(value(c.recall.last().unwrap()), 0.0);
    assert_eq!(c.thresholds.len(), c.precision.len() - 1);
}

#[test]
fn pr_curve_of_docstring_example() {
    let s = samples(vec![0, 0, 1, 1], vec![0.1, 0.4, 0.35, 0.8]);
    let c = pr_curve(&s, false);
    let precision: Vec<f64> = c.precision.iter().map(value).collect();
    let recall: Vec<f64> = c.recall.iter().map(value).collect();
    let thr: Vec<f64> = c.thresholds.iter().map(|&b| f64::from_bits(b)).collect();
    assert_eq!(precision, vec![0.5, 2.0 / 3.0, 0.5, 1.0, 1.0]);
    assert_eq!(recall, vec![1.0, 1.0, 0.5, 0.5, 0.0]);
    assert_eq!(thr, vec![0.1, 0.35, 0.4, 0.8]);
}

#[test]
fn pr_drop_keeps_recall_changes() {
    // tps along the curve: 1, 1, 1, 2 -- the middle point changes nothing.
    let s = samples(vec![1, 0, 0, 1], vec![0.9, 0.8, 0.7, 0.6]);
    let full = pr_curve(&s, false);
    let thin = pr_curve(&s, true);
    assert_eq!(full.thresholds.len(), 4);
    let thr: Vec<f64> = thin.thresholds.iter().map(|&b| f64::from_bits(b)).collect();
    assert_eq!(thr, vec![0.6, 0.7, 0.9]);
    assert_eq!(
        thin.recall,
        vec![
            Ratio { num: 2, den: 2 },
            Ratio { num: 1, den: 2 },
            Ratio { num: 1, den: 2 },
            Ratio { num: 0, den: 1 }
        ]
    );
}

#[test]
fn all_negative_curve_is_flat() {
    let s = samples(vec![0, 0, 0], vec![0.1, 0.5, 0.9]);
    let c = pr_curve(&s, false);
    assert!(c.precision[..3].iter().all(|p| p.num == 0));
    assert!(c.recall[..3].iter().all(|r| *r == Ratio { num: 1, den: 1 }));
}

#[test]
fn all_positive_precision_is_one() {
    let s = samples(vec![1, 1, 1], vec![0.1, 0.5, 0.9]);
    let c = pr_curve(&s, false);
    assert!(c.precision.iter().all(|p| p.num == p.den && p.den > 0));
    let recall: Vec<f64> = c.recall.iter().map(value).collect();
    assert_eq!(recall, vec![1.0, 2.0 / 3.0, 1.0 / 3.0, 0.0]);
}

#[test]
fn recall_never_increases() {
    let s = samples(
        vec![1, 0, 1, 1, 0, 0, 1, 0],
        vec![0.3, 0.3, 0.9, 0.1, 0.45, 0.8, 0.8, 0.05],
    );
    let c = pr_curve(&s, false);
    for w in c.recall.windows(2) {
        assert!(value(&w[1]) <= value(&w[0]));
    }
}
