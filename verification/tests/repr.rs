use rsomics_roc_auc::{is_scientific_form, python_repr_layout, python_repr_of};

/// Python's `repr` of a double: NaN and infinities spelled out, every other
/// value laid out from its shortest round-trip scientific form.
fn fmt(x: f64) -> String {
    if x.is_nan() {
        return "nan".into();
    }
    if x.is_infinite() {
        return if x > 0.0 { "inf".into() } else { "-inf".into() };
    }
    let sci: Vec<char> = format!("{x:e}").chars().collect();
    assert!(is_scientific_form(&sci));
    python_repr_of(&sci).into_iter().collect()
}

fn chars(s: &str) -> Vec<char> {
    s.chars().collect()
}

#[test]
fn fmt_matches_python_repr() {
    for (x, want) in [
        (0.0_f64, "0.0"),
        (-0.0, "-0.0"),
        (1.0, "1.0"),
        (2.0, "2.0"),
        (0.5, "0.5"),
        (1.1, "1.1"),
        (12.34, "12.34"),
        (1234.5, "1234.5"),
        (100.0, "100.0"),
        (0.6666666666666666, "0.6666666666666666"),
        (0.001, "0.001"),
        (0.0001, "0.0001"),
        (0.00001, "1e-05"),
        (1e-8, "1e-08"),
        (2.999999999997449e-05, "2.999999999997449e-05"),
        (2.0000000000020002e-05, "2.0000000000020002e-05"),
        (1e15, "1000000000000000.0"),
        (1e16, "1e+16"),
        (1e300, "1e+300"),
        (1e-300, "1e-300"),
        (-1.5e20, "-1.5e+20"),
        (-0.2, "-0.2"),
    ] {
        assert_eq!(fmt(x), want, "fmt({x})");
    }
}

#[test]
fn fmt_round_trips_value() {
    for x in [
        0.0_f64,
        1.0,
        0.6666666666666666,
        2.999999999997449e-05,
        1e300,
        1e-300,
        -1.5e20,
        std::f64::consts::PI,
    ] {
        assert_eq!(fmt(x).parse::<f64>().unwrap().to_bits(), x.to_bits());
    }
}

#[test]
fn layout_picks_notation_by_exponent() {
    let d = chars("125");
    let s = |v: Vec<char>| v.into_iter().collect::<String>();
    assert_eq!(s(python_repr_layout(false, &d, -5)), "1.25e-05");
    assert_eq!(s(python_repr_layout(false, &d, -4)), "0.000125");
    assert_eq!(s(python_repr_layout(true, &d, 0)), "-1.25");
    assert_eq!(s(python_repr_layout(false, &d, 2)), "125.0");
    assert_eq!(s(python_repr_layout(false, &d, 5)), "125000.0");
    assert_eq!(s(python_repr_layout(false, &d, 15)), "1250000000000000.0");
    assert_eq!(s(python_repr_layout(false, &d, 16)), "1.25e+16");
    assert_eq!(s(python_repr_layout(false, &chars("7"), 123)), "7e+123");
    assert_eq!(s(python_repr_layout(false, &chars("7"), -123)), "7e-123");
}

#[test]
fn scientific_forms_are_recognised() {
    assert!(is_scientific_form(&chars("1e0")));
    assert!(is_scientific_form(&chars("-2.5e-7")));
    assert!(!is_scientific_form(&chars("2.5")));
    assert!(!is_scientific_form(&chars("e5")));
    assert!(!is_scientific_form(&chars("1e")));
    assert!(!is_scientific_form(&chars("1ex")));
    assert!(!is_scientific_form(&chars("1e1234567890")));
    assert_eq!(python_repr_of(&chars("-2.5e-7")), chars("-2.5e-07"));
}
