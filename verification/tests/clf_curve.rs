use rsomics_roc_auc::{Samples, binary_clf_curve};

fn samples(y_true: Vec<u8>, y_score: Vec<f64>) -> Samples {
    Samples {
        y_true,
        y_score: y_score.iter().map(|x| x.to_bits()).collect(),
    }
}

fn as_f64(v: &[usize]) -> Vec<f64> {
    v.iter().map(|&x| x as f64).collect()
}

fn scores(v: &[u64]) -> Vec<f64> {
    v.iter().map(|&b| f64::from_bits(b)).collect()
}

/// The docstring example from `confusion_matrix_at_thresholds`.
#[test]
fn matches_sklearn_docstring_example() {
    let s = samples(vec![0, 0, 1, 1], vec![0.1, 0.4, 0.35, 0.8]);
    let c = binary_clf_curve(&s);
    assert_eq!(as_f64(&c.fps), vec![0.0, 1.0, 1.0, 2.0]);
    assert_eq!(as_f64(&c.tps), vec![1.0, 1.0, 2.0, 2.0]);
    assert_eq!(scores(&c.thresholds), vec![0.8, 0.4, 0.35, 0.1]);
}

#[test]
fn ties_collapse_to_last_index() {
    let s = samples(vec![1, 0, 1, 0], vec![0.5, 0.5, 0.2, 0.2]);
    let c = binary_clf_curve(&s);
    assert_eq!(scores(&c.thresholds), vec![0.5, 0.2]);
    assert_eq!(as_f64(&c.tps), vec![1.0, 2.0]);
    assert_eq!(as_f64(&c.fps), vec![1.0, 2.0]);
}

#[test]
fn tie_threshold_comes_from_last_sample_of_run() {
    // -0.0 and 0.0 tie; the later sample's value is the threshold.
    let s = samples(vec![1, 0, 1], vec![0.0, -0.0, 3.0]);
    let c = binary_clf_curve(&s);
    assert_eq!(c.thresholds, vec![3.0f64.to_bits(), (-0.0f64).to_bits()]);
    assert_eq!(c.tps, vec![1, 2]);
    assert_eq!(c.fps, vec![0, 1]);
}

#[test]
fn negative_and_infinite_scores_order_by_value() {
    let s = samples(
        vec![0, 1, 0, 1, 1],
        vec![-2.5, f64::INFINITY, -0.5, 1e-300, f64::NEG_INFINITY],
    );
    let c = binary_clf_curve(&s);
    assert_eq!(
        scores(&c.thresholds),
        vec![f64::INFINITY, 1e-300, -0.5, -2.5, f64::NEG_INFINITY]
    );
    assert_eq!(c.tps, vec![1, 2, 2, 2, 3]);
    assert_eq!(c.fps, vec![0, 0, 1, 2, 2]);
}

#[test]
fn curve_ends_at_class_totals() {
    let s = samples(vec![1, 1, 0, 0, 0, 1, 0], vec![0.9, 0.1, 0.3, 0.3, 0.7, 0.5, 0.05]);
    let c = binary_clf_curve(&s);
    assert_eq!(*c.tps.last().unwrap(), 3);
    assert_eq!(*c.fps.last().unwrap(), 4);
    for j in 1..c.tps.len() {
        assert!(c.tps[j - 1] <= c.tps[j] && c.fps[j - 1] <= c.fps[j]);
        assert!(f64::from_bits(c.thresholds[j - 1]) > f64::from_bits(c.thresholds[j]));
    }
}

#[test]
fn empty_samples_give_empty_curve() {
    let s = samples(vec![], vec![]);
    let c = binary_clf_curve(&s);
    assert!(c.tps.is_empty() && c.fps.is_empty() && c.thresholds.is_empty());
    assert!(s.is_empty());
    assert_eq!(s.len(), 0);
}

#[test]
fn large_input_is_sorted_stably() {
    let n = 10_000usize;
    let y_true: Vec<u8> = (0..n).map(|i| (i % 3 == 0) as u8).collect();
    let y_score: Vec<f64> = (0..n).map(|i| ((i * 7919) % 101) as f64 / 100.0).collect();
    let s = samples(y_true.clone(), y_score.clone());
    let c = binary_clf_curve(&s);
    assert_eq!(c.thresholds.len(), 101);
    for (j, &t) in c.thresholds.iter().enumerate() {
        let v = f64::from_bits(t);
        let tp = (0..n).filter(|&i| y_true[i] == 1 && y_score[i] >= v).count();
        let fp = (0..n).filter(|&i| y_true[i] == 0 && y_score[i] >= v).count();
        assert_eq!(c.tps[j], tp);
        assert_eq!(c.fps[j], fp);
    }
}

#[test]
fn curve_ignores_sample_order() {
    let y_true = vec![1u8, 0, 1, 1, 0, 0, 1, 0];
    let y_score = vec![0.3, 0.3, 0.9, 0.1, 0.45, 0.8, 0.8, 0.05];
    let a = binary_clf_curve(&samples(y_true.clone(), y_score.clone()));
    let order = [5usize, 2, 7, 0, 3, 6, 1, 4];
    let b = binary_clf_curve(&samples(
        order.iter().map(|&i| y_true[i]).collect(),
        order.iter().map(|&i| y_score[i]).collect(),
    ));
    assert_eq!(a.tps, b.tps);
    assert_eq!(a.fps, b.fps);
    assert_eq!(a.thresholds, b.thresholds);
}
