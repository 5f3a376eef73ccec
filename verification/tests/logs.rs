use trapo_server::logs::parse_log_lines;
use trapo_server::logs::{
    format_log_record, log_matches, log_record_from_line, parse_log_line, parse_log_line_with_fallback,
    recent_filtered_records, single_line, LogFilter, LogRecord,
};

#[test]
fn process_log_message_is_single_line() {
    assert_eq!(single_line("one\ntwo\tthree"), "one two three");
}

#[test]
fn parser_preserves_native_lines_with_fallback_timestamp() {
    let record = parse_log_line_with_fallback(
        "ggml_backend_cuda_graph_compute: CUDA graph warmup complete",
        Some("2026-07-07T00:00:00Z"),
    );
    assert_eq!(record.timestamp, "2026-07-07T00:00:00Z");
    assert_eq!(record.component, "native");
    assert!(record.message.contains("ggml_backend_cuda_graph_compute"));
}

#[test]
fn parser_reads_structured_log_lines() {
    let record = parse_log_line("2026-07-07T00:00:00Z INFO server ready");
    assert_eq!(format_log_record(&record), "2026-07-07T00:00:00Z INFO server ready");
}

#[test]
fn single_line_drops_outer_and_repeated_whitespace() {
    assert_eq!(single_line("  a \u{3000} b\r\n"), "a b");
    assert_eq!(single_line(" \t\n"), "");
    assert_eq!(single_line("x"), "x");
}

#[test]
fn structured_lines_fill_missing_fields() {
    let record = log_record_from_line("2026-07-07T00:00:00Z", true, "unused");
    assert_eq!(record.level, "INFO");
    assert_eq!(record.component, "app");
    assert_eq!(record.message, "");
    let record = log_record_from_line("t WARN ocr message with  spaces", true, "unused");
    assert_eq!(record.timestamp, "t");
    assert_eq!(record.level, "WARN");
    assert_eq!(record.component, "ocr");
    assert_eq!(record.message, "message with  spaces");
    let native = log_record_from_line("plain", false, "stamp");
    assert_eq!(native.timestamp, "stamp");
    assert_eq!(native.level, "INFO");
    assert_eq!(native.message, "plain");
}

#[test]
fn lines_without_timestamp_get_the_current_time_without_fallback() {
    let record = parse_log_line_with_fallback("not a timestamp", Some(""));
    assert_eq!(record.component, "native");
    assert!(!record.timestamp.is_empty());
    assert!(record.timestamp.contains('T'));
}

fn record(level: &str, component: &str, message: &str) -> LogRecord {
    LogRecord {
        timestamp: "2026-07-07T00:00:00Z".to_string(),
        level: level.to_string(),
        component: component.to_string(),
        message: message.to_string(),
    }
}

fn filter(level: Option<&str>, component: Option<&str>, query: Option<&str>) -> LogFilter {
    LogFilter {
        level: level.map(str::to_string),
        component: component.map(str::to_string),
        query: query.map(str::to_string),
    }
}

#[test]
fn filters_ignore_case_and_blank_terms() {
    let r = record("ERROR", "ingest", "PP-OCRv6 create engine failed");
    assert!(log_matches(&r, &filter(Some(" error "), None, None)));
    assert!(!log_matches(&r, &filter(Some("warn"), None, None)));
    assert!(log_matches(&r, &filter(Some("  "), Some("INGEST"), Some("pp-ocrv6"))));
    assert!(!log_matches(&r, &filter(None, Some("native"), None)));
    assert!(log_matches(&r, &filter(None, None, Some("error ingest"))));
    assert!(!log_matches(&r, &filter(None, None, Some("missing"))));
}

#[test]
fn recent_filtered_applies_filters_before_limit() {
    let mut records = vec![record("ERROR", "ingest", "PP-OCRv6 create engine failed")];
    for index in 0..20 {
        records.push(record("WARN", "native-stderr", &format!("native warning {index}")));
    }
    let logs = recent_filtered_records(&records, 5, &filter(Some("ERROR"), None, None));
    assert_eq!(logs.len(), 1);
    assert_eq!(logs[0].level, "ERROR");
    assert!(logs[0].message.contains("PP-OCRv6"));

    let last = recent_filtered_records(&records, 5, &filter(None, Some("native-stderr"), None));
    assert_eq!(last.len(), 5);
    assert_eq!(last[4].message, "native warning 19");
    assert_eq!(last[0].message, "native warning 15");
    let one = recent_filtered_records(&records, 0, &filter(None, None, None));
    assert_eq!(one.len(), 1);
}

#[test]
fn log_files_carry_timestamps_forward() {
    let lines: Vec<String> = [
        "2026-07-07T00:00:00Z WARN ocr slow page",
        "native line one",
        "native line two",
    ]
    .iter()
    .map(|s| s.to_string())
    .collect();
    let records = parse_log_lines(&lines);
    assert_eq!(records.len(), 3);
    assert_eq!(records[0].level, "WARN");
    assert_eq!(records[1].timestamp, "2026-07-07T00:00:00Z");
    assert_eq!(records[2].timestamp, "2026-07-07T00:00:00Z");
    assert_eq!(records[2].message, "native line two");
}
