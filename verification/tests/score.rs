use rsomics_roc_auc::{INFINITY_BITS, is_finite_score, score_key};

#[test]
fn score_key_orders_as_the_values() {
    let values = [
        f64::NEG_INFINITY,
        -1e300,
        -2.5,
        -1e-300,
        0.0,
        5e-324,
        0.35,
        1.0,
        f64::INFINITY,
    ];
    for w in values.windows(2) {
        assert!(score_key(w[0].to_bits()) < score_key(w[1].to_bits()));
    }
    assert_eq!(score_key((-0.0f64).to_bits()), score_key(0.0f64.to_bits()));
    assert_eq!(score_key(0.0f64.to_bits()), 0);
    assert_eq!(score_key(1.0f64.to_bits()), 0x3FF0_0000_0000_0000);
    assert_eq!(score_key((-1.0f64).to_bits()), -0x3FF0_0000_0000_0000);
}

#[test]
fn finite_scores_are_recognised() {
    assert!(is_finite_score(0.5f64.to_bits()));
    assert!(is_finite_score((-0.0f64).to_bits()));
    assert!(!is_finite_score(f64::INFINITY.to_bits()));
    assert!(!is_finite_score(f64::NEG_INFINITY.to_bits()));
    assert!(!is_finite_score(f64::NAN.to_bits()));
    assert_eq!(INFINITY_BITS, f64::INFINITY.to_bits());
}
