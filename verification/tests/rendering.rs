use vmcli::queryfmt::{QueryResponse, QueryData, QueryResult, format_csv, format_table, format_labels};
use vmcli::display::{
    classify_health_status, format_health_status, format_uptime, format_bytes, HealthClass,
};
use vmcli::config::{ClusterConfig, Config, OutputFormat, resolve_endpoint, default_chunk_size};
use vmcli::timerange::{resolve_at, parse_time_range, TimeWindow};
use vmcli::promql::validate_promql_query;
use vmcli::error::VmCliError;

fn result_with(labels: &[(&str, &str)], value: Option<(&str, &str)>) -> QueryResult {
    QueryResult {
        metric: labels.iter().map(|(k, v)| (k.to_string(), v.to_string())).collect(),
        value: value.map(|(t, v)| (t.to_string(), v.to_string())),
        values: None,
    }
}

fn response(results: Vec<QueryResult>) -> QueryResponse {
    QueryResponse {
        status: "success".to_string(),
        data: QueryData { result_type: Some("vector".to_string()), result: results },
    }
}

#[test]
fn labels_join_in_insertion_order() {
    let labels = vec![("b".to_string(), "2".to_string()), ("a".to_string(), "1".to_string())];
    assert_eq!(format_labels(&labels), "b=2, a=1");
    assert_eq!(format_labels(&Vec::new()), "");
}

#[test]
fn csv_of_empty_results_is_header_only() {
    assert_eq!(format_csv(&response(vec![])), "timestamp,value\n");
}

#[test]
fn csv_header_follows_first_result() {
    let resp = response(vec![
        result_with(&[("job", "api"), ("env", "dev")], Some(("1700000000", "1"))),
        result_with(&[("env", "prod")], Some(("1700000001", "2"))),
    ]);
    assert_eq!(
        format_csv(&resp),
        "timestamp,value,job,env\n1700000000,1,api,dev\n1700000001,2,,prod\n"
    );
}

#[test]
fn csv_skips_series_results() {
    let mut series = result_with(&[("job", "api")], None);
    series.values = Some(vec![("1".to_string(), "2".to_string())]);
    let resp = response(vec![series, result_with(&[("job", "db")], Some(("3", "4")))]);
    assert_eq!(format_csv(&resp), "timestamp,value,job\n3,4,db\n");
}

#[test]
fn empty_table_renders_placeholder() {
    assert_eq!(format_table(&response(vec![])), "no data to display");
    let mut series = result_with(&[], None);
    series.values = Some(vec![("1".to_string(), "2".to_string())]);
    assert_eq!(format_table(&response(vec![series])), "no data to display");
}

#[test]
fn table_keeps_instant_rows_in_order() {
    let mut series = result_with(&[("job", "api")], None);
    series.values = Some(vec![("9".to_string(), "9".to_string())]);
    let resp = response(vec![
        result_with(&[("job", "one")], Some(("11", "101"))),
        series,
        result_with(&[("job", "two")], Some(("22", "202"))),
    ]);
    let table = format_table(&resp);
    assert!(table.contains("timestamp"));
    assert!(table.contains("job=one"));
    assert!(table.contains("job=two"));
    assert!(!table.contains("job=api"));
    let one = table.find("101").unwrap();
    let two = table.find("202").unwrap();
    assert!(one < two);
    // a laid-out grid, not the raw cells
    assert!(table.contains("|"));
}

#[test]
fn health_status_is_classified_case_insensitively() {
    assert_eq!(classify_health_status("OK"), HealthClass::Good);
    assert_eq!(classify_health_status("healthy"), HealthClass::Good);
    assert_eq!(classify_health_status("Error"), HealthClass::Bad);
    assert_eq!(classify_health_status("UNHEALTHY"), HealthClass::Bad);
    assert_eq!(classify_health_status("Warning"), HealthClass::Warn);
    assert_eq!(classify_health_status("degraded"), HealthClass::Other);
    assert_eq!(format_health_status("OK"), "OK");
}

#[test]
fn uptime_formats_days_hours_minutes() {
    assert_eq!(format_uptime("90061"), "1d 1h 1m");
    assert_eq!(format_uptime("3661.9"), "1h 1m");
    assert_eq!(format_uptime("59"), "0m");
    assert_eq!(format_uptime("-5"), "0m");
    assert_eq!(format_uptime("soon"), "soon");
}

#[test]
fn bytes_format_in_the_largest_unit() {
    assert_eq!(format_bytes(0), "0.00 B");
    assert_eq!(format_bytes(1023), "1023.00 B");
    assert_eq!(format_bytes(1024), "1.00 KB");
    assert_eq!(format_bytes(1536), "1.50 KB");
    assert_eq!(format_bytes(10 * 1024 * 1024), "10.00 MB");
    assert_eq!(format_bytes(1073741824), "1.00 GB");
    assert_eq!(format_bytes(3 * 1073741824 + 1073741824 / 2), "3.50 GB");
}

#[test]
fn endpoint_resolution_follows_cluster_mode() {
    let cluster = ClusterConfig {
        query_endpoint: "/custom/query".to_string(),
        query_range_endpoint: "/custom/range".to_string(),
        health_endpoint: "/health".to_string(),
        metrics_endpoint: "/metrics".to_string(),
        use_select_endpoint: true,
        select_account_id: "7".to_string(),
        select_project_id: "0".to_string(),
        vminsert_host: None,
        vmstorage_host: None,
    };
    assert_eq!(resolve_endpoint(&None, "/api/v1/query"), "/api/v1/query");
    assert_eq!(
        resolve_endpoint(&Some(cluster.clone()), "/api/v1/query"),
        "/select/7/prometheus/api/v1/query"
    );
    assert_eq!(resolve_endpoint(&Some(cluster.clone()), "/health"), "/health");
    let direct = ClusterConfig { use_select_endpoint: false, ..cluster };
    assert_eq!(resolve_endpoint(&Some(direct), "/api/v1/query"), "/custom/query");
}

#[test]
fn config_default_values() {
    let c = Config::default();
    assert_eq!(c.host, "http://localhost:8428");
    assert_eq!(c.timeout, 30);
    assert_eq!(c.output.format, OutputFormat::Table);
    assert!(c.output.color && c.output.pretty);
    assert!(c.auth.is_none() && c.cluster.is_none());
    assert_eq!(default_chunk_size(), 1000);
}

#[test]
fn range_tokens_resolve_to_their_durations() {
    let cases: Vec<(&str, i64)> = vec![
        ("1h", 3600),
        ("1hour", 3600),
        ("6h", 21600),
        ("6hours", 21600),
        ("24h", 86400),
        ("1d", 86400),
        ("1day", 86400),
        ("7d", 604800),
        ("7days", 604800),
        ("30d", 2592000),
        ("30days", 2592000),
    ];
    for (token, seconds) in cases {
        let w = resolve_at(token, 2_000_000_000).unwrap();
        assert_eq!(w, TimeWindow { start: 2_000_000_000 - seconds, end: 2_000_000_000 });
    }
}

#[test]
fn unknown_range_token_echoes_itself() {
    match resolve_at("90m", 0) {
        Err(m) => assert_eq!(m, "unknown time range: 90m"),
        other => panic!("expected an error, got {:?}", other),
    }
}

#[test]
fn clock_anchored_range_spans_duration() {
    let (start, end) = parse_time_range("1h").unwrap();
    let s: i64 = start.parse().unwrap();
    let e: i64 = end.parse().unwrap();
    assert_eq!(e - s, 3600);
    assert!(e > 1_600_000_000);
    assert!(parse_time_range("yesterday").is_err());
}

#[test]
fn empty_queries_are_rejected() {
    for q in ["", "   ", "\t\n"] {
        match validate_promql_query(q) {
            Err(m) => assert_eq!(m, "query must not be empty"),
            other => panic!("expected a rejection, got {:?}", other),
        }
    }
}

#[test]
fn plausible_queries_are_admitted() {
    assert!(validate_promql_query("up").is_ok());
    assert!(validate_promql_query("rate(http_requests_total[5m])").is_ok());
    assert!(validate_promql_query("node_cpu_seconds_total{mode=\"idle\"}").is_ok());
    assert!(validate_promql_query("a + b").is_ok());
}

#[test]
fn shapeless_queries_are_rejected() {
    match validate_promql_query("???") {
        Err(m) => assert_eq!(m, "query must contain operators, functions or be a plain metric"),
        other => panic!("expected a rejection, got {:?}", other),
    }
}

#[test]
fn error_messages_name_their_kind() {
    assert_eq!(
        VmCliError::TimeParseError("bad".to_string()).message(),
        "invalid time range: bad"
    );
    assert_eq!(VmCliError::Timeout.message(), "operation timed out");
    assert_eq!(
        VmCliError::ApiError { message: "boom".to_string(), status: Some(500) }.message(),
        "api error: boom"
    );
    assert_eq!(
        VmCliError::FileNotFound("x.txt".to_string()).message(),
        "file not found: x.txt"
    );
}
