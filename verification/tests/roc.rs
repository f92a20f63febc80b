use rsomics_roc_auc::{Ratio, Samples, has_both_classes, roc_curve};

fn samples(y_true: Vec<u8>, y_score: Vec<f64>) -> Samples {
    Samples {
        y_true,
        y_score: y_score.iter().map(|x| x.to_bits()).collect(),
    }
}

fn value(r: &Ratio) -> f64 {
    r.num as f64 / r.den as f64
}

#[test]
fn curve_starts_at_origin_with_inf_threshold() {
    let s = samples(vec![0, 0, 1, 1], vec![0.1, 0.4, 0.35, 0.8]);
    let c = roc_curve(&s, true);
    assert_eq!(value(&c.fpr[0]), 0.0);
    assert_eq!(value(&c.tpr[0]), 0.0);
    assert!(f64::from_bits(c.thresholds[0]).is_infinite());
}

#[test]
fn roc_curve_of_docstring_example() {
    let s = samples(vec![0, 0, 1, 1], vec![0.1, 0.4, 0.35, 0.8]);
    let c = roc_curve(&s, true);
    let fpr: Vec<f64> = c.fpr.iter().map(value).collect();
    let tpr: Vec<f64> = c.tpr.iter().map(value).collect();
    let thr: Vec<f64> = c.thresholds.iter().map(|&b| f64::from_bits(b)).collect();
    assert_eq!(fpr, vec![0.0, 0.0, 0.5, 0.5, 1.0]);
    assert_eq!(tpr, vec![0.0, 0.5, 0.5, 1.0, 1.0]);
    assert_eq!(thr, vec![f64::INFINITY, 0.8, 0.4, 0.35, 0.1]);
    assert!(c.fpr.iter().all(|r| r.den == 2) && c.tpr.iter().all(|r| r.den == 2));
}

#[test]
fn drop_intermediate_removes_collinear_points() {
    // Scores 0.9..0.5 are all negatives: the fps rise in a straight line.
    let s = samples(vec![1, 0, 0, 0, 1], vec![1.0, 0.9, 0.8, 0.7, 0.1]);
    let full = roc_curve(&s, false);
    let thin = roc_curve(&s, true);
    assert_eq!(full.fpr.len(), 6);
    assert_eq!(thin.fpr.len(), 4);
    let thr: Vec<f64> = thin.thresholds.iter().map(|&b| f64::from_bits(b)).collect();
    assert_eq!(thr, vec![f64::INFINITY, 1.0, 0.7, 0.1]);
    assert_eq!(thin.fpr.iter().map(|r| r.num).collect::<Vec<_>>(), vec![0, 0, 3, 3]);
    assert_eq!(thin.tpr.iter().map(|r| r.num).collect::<Vec<_>>(), vec![0, 1, 1, 2]);
    // Twice the area under the counts is unchanged by the drop.
    let area = |c: &rsomics_roc_auc::RocCurve| -> i64 {
        (1..c.fpr.len())
            .map(|i| {
                (c.fpr[i].num as i64 - c.fpr[i - 1].num as i64)
                    * (c.tpr[i].num as i64 + c.tpr[i - 1].num as i64)
            })
            .sum()
    };
    assert_eq!(area(&full), area(&thin));
    assert_eq!(area(&thin), 6);
    assert_eq!(full.fpr.last(), thin.fpr.last());
}

#[test]
fn single_class_curve_has_zero_total() {
    let s = samples(vec![1, 1, 1], vec![0.1, 0.5, 0.9]);
    let c = roc_curve(&s, true);
    assert!(c.fpr.iter().all(|r| r.num == 0 && r.den == 0));
    assert_eq!(c.tpr.last(), Some(&Ratio { num: 3, den: 3 }));
    assert!(!has_both_classes(&s));
}

#[test]
fn both_classes_are_detected() {
    assert!(has_both_classes(&samples(vec![0, 1], vec![0.3, 0.2])));
    assert!(!has_both_classes(&samples(vec![0, 0], vec![0.3, 0.2])));
    assert!(!has_both_classes(&samples(vec![], vec![])));
}

#[test]
fn rates_reach_one_with_both_classes() {
    let s = samples(vec![0, 0, 1, 1], vec![0.1, 0.2, 0.8, 0.9]);
    let c = roc_curve(&s, true);
    let fpr: Vec<f64> = c.fpr.iter().map(value).collect();
    let tpr: Vec<f64> = c.tpr.iter().map(value).collect();
    assert_eq!(fpr, vec![0.0, 0.0, 0.0, 1.0]);
    assert_eq!(tpr, vec![0.0, 0.5, 1.0, 1.0]);
}

#[test]
fn dropped_points_lie_on_the_chord() {
    let s = samples(
        vec![1, 0, 0, 0, 1, 1, 1, 0, 1],
        vec![0.95, 0.9, 0.8, 0.7, 0.6, 0.5, 0.4, 0.3, 0.2],
    );
    let full = roc_curve(&s, false);
    let thin = roc_curve(&s, true);
    let pos = |t: u64| full.thresholds.iter().position(|&u| u == t).unwrap();
    let kept: Vec<usize> = thin.thresholds.iter().map(|&t| pos(t)).collect();
    assert_eq!(kept, vec![0, 1, 4, 7, 8, 9]);
    for (k, &i) in kept.iter().enumerate() {
        assert_eq!(thin.fpr[k], full.fpr[i]);
        assert_eq!(thin.tpr[k], full.tpr[i]);
    }
    for w in kept.windows(2) {
        let (l, r) = (w[0], w[1]);
        for i in l + 1..r {
            let f = |k: usize| full.fpr[k].num as i64;
            let t = |k: usize| full.tpr[k].num as i64;
            assert_eq!((r - l) as i64 * (f(i) - f(l)), (i - l) as i64 * (f(r) - f(l)));
            assert_eq!((r - l) as i64 * (t(i) - t(l)), (i - l) as i64 * (t(r) - t(l)));
        }
    }
}
