use vmcli::expo::{parse_line, is_valid_prometheus_line, validate_prometheus_format, LineKind};
use vmcli::error::VmCliError;

fn sample_of(kind: LineKind) -> vmcli::expo::MetricSample {
    match kind {
        LineKind::Sample(s) => s,
        other => panic!("expected a sample, got {:?}", other),
    }
}

#[test]
fn comment_lines_are_skipped() {
    assert_eq!(parse_line("# comment"), LineKind::Skip);
    assert_eq!(parse_line("   # indented comment"), LineKind::Skip);
}

#[test]
fn blank_lines_are_skipped() {
    assert_eq!(parse_line(""), LineKind::Skip);
    assert_eq!(parse_line("   \t  "), LineKind::Skip);
}

#[test]
fn full_line_parses_to_sample() {
    let s = sample_of(parse_line("metric{a=\"1\",b=\"2\"} 3.5 1700000000"));
    assert_eq!(s.name, "metric");
    assert_eq!(
        s.labels,
        vec![("a".to_string(), "1".to_string()), ("b".to_string(), "2".to_string())]
    );
    assert_eq!(s.value, "3.5");
    assert_eq!(s.timestamp, Some("1700000000".to_string()));
}

#[test]
fn line_without_timestamp_parses() {
    let s = sample_of(parse_line("up 3.5"));
    assert_eq!(s.name, "up");
    assert!(s.labels.is_empty());
    assert_eq!(s.value, "3.5");
    assert_eq!(s.timestamp, None);
}

#[test]
fn unbalanced_brace_is_invalid() {
    assert_eq!(parse_line("metric{a=\"1\" 3.5 1700000000"), LineKind::Invalid);
}

#[test]
fn non_numeric_value_is_invalid() {
    assert_eq!(parse_line("metric abc"), LineKind::Invalid);
    assert_eq!(parse_line("metric"), LineKind::Invalid);
}

#[test]
fn name_label_overrides_name() {
    let s = sample_of(parse_line("metric{__name__=\"other\",a=\"1\"} 2 3"));
    assert_eq!(s.name, "other");
    assert_eq!(s.labels, vec![("a".to_string(), "1".to_string())]);
}

#[test]
fn duplicate_label_keeps_position_takes_last_value() {
    let s = sample_of(parse_line("m{a=\"1\",b=\"2\",a=\"3\"} 1 2"));
    assert_eq!(
        s.labels,
        vec![("a".to_string(), "3".to_string()), ("b".to_string(), "2".to_string())]
    );
}

#[test]
fn label_values_lose_one_quote_layer_only() {
    let s = sample_of(parse_line("m{a=\"\"x\"\"} 1 2"));
    assert_eq!(s.labels, vec![("a".to_string(), "\"x\"".to_string())]);
}

#[test]
fn valid_line_check_accepts_shapes() {
    assert!(is_valid_prometheus_line("up 1"));
    assert!(is_valid_prometheus_line("metric{a=\"1\"} 3.5 1700000000"));
    assert!(is_valid_prometheus_line("metric 3.5 1700000000"));
    assert!(!is_valid_prometheus_line("metric"));
    assert!(!is_valid_prometheus_line("metric{a=\"1\" 3.5"));
    assert!(!is_valid_prometheus_line("metric abc"));
}

#[test]
fn strict_mode_rejects_first_bad_line() {
    let content = "up 1\nmetric{a=\"1\" 3.5 1700000000\nok 2";
    let r = validate_prometheus_format(content, false);
    match r {
        Err(VmCliError::InvalidQuery(m)) => {
            assert_eq!(m, "malformed line 2: metric{a=\"1\" 3.5 1700000000");
        }
        other => panic!("expected a strict-mode error, got {:?}", other),
    }
}

#[test]
fn lenient_mode_counts_and_continues() {
    let content = "up 1\nmetric{a=\"1\" 3.5 1700000000\n# note\n\nbad line\nok 2";
    let rep = validate_prometheus_format(content, true).unwrap();
    assert_eq!(rep.line_count, 6);
    assert_eq!(rep.error_count, 2);
    assert_eq!(
        rep.warnings,
        vec![
            (2, "metric{a=\"1\" 3.5 1700000000".to_string()),
            (5, "bad line".to_string()),
        ]
    );
}

#[test]
fn comments_and_blanks_never_count_as_errors() {
    let content = "# a comment\n\n   \n# another";
    let strict = validate_prometheus_format(content, false).unwrap();
    assert_eq!(strict.error_count, 0);
    let lenient = validate_prometheus_format(content, true).unwrap();
    assert_eq!(lenient.error_count, 0);
    assert_eq!(lenient.line_count, 4);
}
