use rsomics_roc_auc::{ParseError, Samples, assemble_samples, scan_rows};

/// Scan the text, read each score field as a double, and assemble the samples.
fn parse_samples(text: &str) -> Result<Samples, ParseError> {
    let scan = scan_rows(text);
    let scores: Vec<Option<u64>> = scan
        .rows
        .iter()
        .map(|row| {
            let field: String = row.score.iter().collect();
            fast_float2::parse::<f64, _>(field.as_bytes()).ok().map(f64::to_bits)
        })
        .collect();
    assemble_samples(scan, scores)
}

fn scores(s: &Samples) -> Vec<f64> {
    s.y_score.iter().map(|&b| f64::from_bits(b)).collect()
}

fn chars(s: &str) -> Vec<char> {
    s.chars().collect()
}

#[test]
fn parses_two_columns() {
    let s = parse_samples("0\t0.1\n1\t0.8\n0\t0.4\n1\t0.35\n").unwrap();
    assert_eq!(s.y_true, vec![0, 1, 0, 1]);
    assert_eq!(scores(&s), vec![0.1, 0.8, 0.4, 0.35]);
}

#[test]
fn skips_blank_lines() {
    let s = parse_samples("0 0.1\n\n1 0.9\n").unwrap();
    assert_eq!(s.len(), 2);
}

#[test]
fn rejects_non_binary_label() {
    assert!(parse_samples("2 0.5\n").is_err());
}

#[test]
fn rejects_three_columns() {
    assert!(parse_samples("0 0.5 0.5\n").is_err());
}

#[test]
fn rejects_nonfinite_score() {
    assert!(parse_samples("1 inf\n").is_err());
}

#[test]
fn rejects_empty() {
    assert!(parse_samples("\n\n").is_err());
}

#[test]
fn labels_accept_decimal_spelling() {
    let s = parse_samples("0.0 1\n1.0 -2e3\n  \t\n1 7\r\n").unwrap();
    assert_eq!(s.y_true, vec![0, 1, 1]);
    assert_eq!(scores(&s), vec![1.0, -2000.0, 7.0]);
}

#[test]
fn unicode_whitespace_separates_fields() {
    let s = parse_samples("1\u{3000}0.25\n0\u{a0}\u{2009}0.5").unwrap();
    assert_eq!(s.y_true, vec![1, 0]);
    assert_eq!(scores(&s), vec![0.25, 0.5]);
}

#[test]
fn errors_name_their_line_and_field() {
    match parse_samples("0 0.1\n\n1\n") {
        Err(ParseError::MissingColumns { line }) => assert_eq!(line, 3),
        _ => panic!("expected a missing column"),
    }
    match parse_samples("0 0.1\n1 0.2 x\n") {
        Err(ParseError::ExtraColumns { line }) => assert_eq!(line, 2),
        _ => panic!("expected an extra column"),
    }
    match parse_samples("yes 0.1\n") {
        Err(ParseError::BadLabel { line, field }) => {
            assert_eq!(line, 1);
            assert_eq!(field, chars("yes"));
        }
        _ => panic!("expected a bad label"),
    }
    match parse_samples("0 0.1\n1 abc\n") {
        Err(ParseError::NotANumber { line, field }) => {
            assert_eq!(line, 2);
            assert_eq!(field, chars("abc"));
        }
        _ => panic!("expected a non-number"),
    }
    match parse_samples("1 NaN\n") {
        Err(ParseError::NotFinite { line, field }) => {
            assert_eq!(line, 1);
            assert_eq!(field, chars("NaN"));
        }
        _ => panic!("expected a non-finite score"),
    }
    assert!(matches!(parse_samples(""), Err(ParseError::Empty)));
}

#[test]
fn first_error_in_line_order_wins() {
    // The bad score on line 1 comes before the bad label on line 2.
    match parse_samples("0 zz\n7 0.5\n") {
        Err(ParseError::NotANumber { line, .. }) => assert_eq!(line, 1),
        _ => panic!("expected the score error of line 1"),
    }
    // The bad label on line 1 comes before the bad score on line 2.
    match parse_samples("7 0.5\n0 zz\n") {
        Err(ParseError::BadLabel { line, .. }) => assert_eq!(line, 1),
        _ => panic!("expected the label error of line 1"),
    }
}

#[test]
fn scan_reports_rows_and_stop() {
    let scan = scan_rows("1 0.5\n\n0 x\n1\n0 0.2\n");
    assert_eq!(scan.rows.len(), 2);
    assert_eq!(scan.rows[0].line, 1);
    assert_eq!(scan.rows[0].label, 1);
    assert_eq!(scan.rows[0].score, chars("0.5"));
    assert_eq!(scan.rows[1].line, 3);
    assert_eq!(scan.rows[1].score, chars("x"));
    assert!(matches!(scan.stop, Some(ParseError::MissingColumns { line: 4 })));
}
