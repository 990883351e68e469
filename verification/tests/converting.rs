use vmcli::convert::{
    to_structured, to_exposition, exposition_to_csv, csv_records_to_exposition,
    convert_csv_to_prometheus, StructuredRecord,
};
use vmcli::error::VmCliError;

fn record(name: &str, labels: &[(&str, &str)], value: &str, timestamp: &str) -> StructuredRecord {
    StructuredRecord {
        name: name.to_string(),
        labels: labels.iter().map(|(k, v)| (k.to_string(), v.to_string())).collect(),
        value: value.to_string(),
        timestamp: timestamp.to_string(),
    }
}

#[test]
fn structured_records_from_exposition() {
    let text = "# comment\nup{job=\"api\"} 1 1700000000\nbroken{\nplain 2.5 1700000001\n";
    let records = to_structured(text);
    assert_eq!(records.len(), 2);
    assert_eq!(records[0], record("up", &[("job", "api")], "1", "1700000000"));
    assert_eq!(records[1], record("plain", &[], "2.5", "1700000001"));
}

#[test]
fn samples_without_timestamp_are_not_records() {
    let records = to_structured("up 1\nok 2 3\n");
    assert_eq!(records.len(), 1);
    assert_eq!(records[0].name, "ok");
}

#[test]
fn exposition_line_rebuilt_from_record() {
    let recs = vec![record("up", &[("job", "api"), ("env", "dev")], "1.5", "1700000000")];
    assert_eq!(to_exposition(&recs), "up{job=\"api\",env=\"dev\"} 1.5 1700000000\n");
}

#[test]
fn timestamp_is_truncated_on_the_way_out() {
    let recs = vec![
        record("a", &[], "3.5", "1700000000.75"),
        record("b", &[], "1", "1.5e3"),
        record("c", &[], "2", "-2.5"),
        record("d", &[], "3", "nan"),
    ];
    assert_eq!(to_exposition(&recs), "a 3.5 1700000000\nb 1 1500\nc 2 -2\nd 3 0\n");
}

#[test]
fn infinite_timestamp_saturates() {
    let recs = vec![record("a", &[], "1", "inf"), record("b", &[], "1", "-inf")];
    let text = to_exposition(&recs);
    assert_eq!(text, format!("a 1 {}\nb 1 {}\n", i64::MAX, i64::MIN));
}

#[test]
fn value_keeps_its_original_precision() {
    // the value token passes through as written; only the timestamp is truncated
    let records = to_structured("m 0.30000000000000004 1700000000.9\n");
    let text = to_exposition(&records);
    assert_eq!(text, "m 0.30000000000000004 1700000000\n");
}

#[test]
fn round_trip_preserves_name_labels_and_value() {
    let line = "web_requests{region=\"eu\",code=\"200\"} 42.25 1700000000";
    let records = to_structured(line);
    let rebuilt = to_exposition(&records);
    let again = to_structured(&rebuilt);
    assert_eq!(records, again);
}

#[test]
fn csv_from_exposition_has_fixed_header() {
    let text = "up{job=\"api\"} 1 1700000000\n# note\nplain 2.5 1700000001";
    assert_eq!(
        exposition_to_csv(text),
        "timestamp,value,metric_name\n1700000000,1,up\n1700000001,2.5,plain"
    );
}

#[test]
fn csv_from_empty_exposition_is_header_only() {
    assert_eq!(exposition_to_csv("# nothing here\n"), "timestamp,value,metric_name");
}

#[test]
fn csv_records_become_exposition_lines() {
    let records = vec![
        vec!["1700000000.9".to_string(), "3.5".to_string(), "up".to_string()],
        vec!["not-a-number".to_string(), "1".to_string(), "x".to_string()],
        vec!["2".to_string()],
    ];
    assert_eq!(csv_records_to_exposition(&records), "up 3.5 1700000000\n");
}

#[test]
fn csv_text_converts_through_the_decoder() {
    let text = "timestamp,value,metric_name\n1700000000,3.5,up\n1700000001,2,down\n";
    let out = convert_csv_to_prometheus(text).unwrap();
    assert_eq!(out, "up 3.5 1700000000\ndown 2 1700000001\n");
}

#[test]
fn csv_decoding_error_is_reported() {
    // a quoted field left open makes the decoder fail
    let text = "timestamp,value,metric_name\n\"1700000000,3.5,up\n1,2,3\n";
    match convert_csv_to_prometheus(text) {
        Err(VmCliError::CsvError(m)) => assert!(!m.is_empty()),
        other => panic!("expected a csv error, got {:?}", other),
    }
}
