use vector_buffers::text::ends_with;
use vector_buffers::regex_parse::{compile_pattern, parse_regex_all};

#[test]
fn ends_with_mismatch() {
    assert!(!ends_with(b"bar", b"foo", true));
    assert!(!ends_with(b"bar", b"foobar", true));
    assert!(!ends_with(b"foobar", b"oba", true));
}

#[test]
fn ends_with_match() {
    assert!(ends_with(b"foobar", b"bar", true));
    assert!(!ends_with(b"foobar", b"foo", true));
}

#[test]
fn ends_with_case_sensitivity() {
    assert!(ends_with(b"fooBAR", b"BAR", true));
    assert!(!ends_with(b"foobar", b"BAR", true));
    assert!(ends_with(b"foobar", b"BAR", false));
    assert!(!ends_with(b"foobar", b"R", true));
    assert!(ends_with(b"foobar", b"R", false));
}

fn entry(rec: &[(String, Option<String>)], key: &str) -> Option<String> {
    rec.iter().find(|(k, _)| k == key).and_then(|(_, v)| v.clone())
}

#[test]
fn parse_regex_all_matches() {
    let re = compile_pattern(r"(?P<fruit>[\w\.]+) and (?P<veg>[\w]+)").unwrap();
    let records = parse_regex_all(&re, b"apples and carrots, peaches and peas", false);
    assert_eq!(records.len(), 2);
    assert_eq!(entry(&records[0], "fruit").as_deref(), Some("apples"));
    assert_eq!(entry(&records[0], "veg").as_deref(), Some("carrots"));
    assert_eq!(entry(&records[1], "fruit").as_deref(), Some("peaches"));
    assert_eq!(entry(&records[1], "veg").as_deref(), Some("peas"));
    assert_eq!(records[0].len(), 2);
}

#[test]
fn parse_regex_all_numeric_groups() {
    let re = compile_pattern(r"(?P<fruit>[\w\.]+) and (?P<veg>[\w]+)").unwrap();
    let records = parse_regex_all(&re, b"apples and carrots, peaches and peas", true);
    assert_eq!(records.len(), 2);
    assert_eq!(entry(&records[0], "0").as_deref(), Some("apples and carrots"));
    assert_eq!(entry(&records[0], "1").as_deref(), Some("apples"));
    assert_eq!(entry(&records[0], "2").as_deref(), Some("carrots"));
    assert_eq!(entry(&records[1], "0").as_deref(), Some("peaches and peas"));
    assert_eq!(entry(&records[0], "fruit").as_deref(), Some("apples"));
    assert_eq!(records[0].len(), 5);
}

#[test]
fn parse_regex_all_no_matches() {
    let re = compile_pattern(r"(?P<fruit>[\w\.]+) and (?P<veg>[\w]+)").unwrap();
    let records = parse_regex_all(&re, b"I don't match", false);
    assert!(records.is_empty());
}

#[test]
fn parse_regex_all_rejects_bad_pattern() {
    assert!(compile_pattern(r"(unclosed").is_none());
}

#[test]
fn events_received_counts() {
    let event = vector_buffers::internal_events::AwsEcsMetricsEventsReceived {
        byte_size: 2048,
        count: 17,
        http_path: "/v4/stats".to_string(),
    };
    let updates = event.emit();
    assert_eq!(updates.len(), 3);
    assert_eq!(updates[0].name, "component_received_events_total");
    assert_eq!(updates[0].amount, 17);
    assert_eq!(updates[0].labels, vec![("http_path".to_string(), "/v4/stats".to_string())]);
    assert_eq!(updates[1].name, "component_received_event_bytes_total");
    assert_eq!(updates[1].amount, 2048);
    assert_eq!(updates[1].labels, vec![("http_path".to_string(), "/v4/stats".to_string())]);
    assert_eq!(updates[2].name, "events_in_total");
    assert_eq!(updates[2].amount, 17);
    assert!(updates[2].labels.is_empty());
}

#[test]
fn request_completed_duration() {
    let event = vector_buffers::internal_events::AwsEcsMetricsRequestCompleted {
        start: 1_000_000,
        end: 4_500_000,
    };
    let (count, duration) = event.emit();
    assert_eq!(count, 1);
    assert_eq!(duration, 3_500_000);
}

#[test]
fn parse_error_counters() {
    let event = vector_buffers::internal_events::AwsEcsMetricsParseError {
        error: "expected value at line 1 column 1".to_string(),
        endpoint: "http://169.254.170.2/v4/stats".to_string(),
        body: "not json".to_string(),
    };
    let updates = event.emit();
    assert_eq!(updates.len(), 2);
    assert_eq!(updates[0].name, "parse_errors_total");
    assert_eq!(updates[0].amount, 1);
    assert_eq!(updates[1].name, "component_errors_total");
    assert_eq!(
        updates[1].labels,
        vec![
            ("stage".to_string(), "processing".to_string()),
            ("error_type".to_string(), "parser_failed".to_string()),
            ("endpoint".to_string(), "http://169.254.170.2/v4/stats".to_string()),
        ]
    );
}

#[test]
fn response_error_counters() {
    let event = vector_buffers::internal_events::AwsEcsMetricsResponseError {
        code: 503,
        endpoint: "http://169.254.170.2/v4/stats".to_string(),
    };
    let updates = event.emit();
    assert_eq!(updates[0].name, "http_error_response_total");
    assert_eq!(updates[1].labels[1], ("error_code".to_string(), "503".to_string()));
}

#[test]
fn http_error_counters() {
    let event = vector_buffers::internal_events::AwsEcsMetricsHttpError {
        error_code: "connection_refused".to_string(),
        endpoint: "http://169.254.170.2/v4/stats".to_string(),
    };
    let updates = event.emit();
    assert_eq!(updates[0].name, "http_request_errors_total");
    assert_eq!(updates[1].labels[2], ("error_code".to_string(), "connection_refused".to_string()));
}
