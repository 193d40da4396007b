use serde_json::Value;
use telemetry::event::{span_to_json, EventRecord, SpanRecord};
use telemetry::fields::{ErrorJsonFields, ErrorJsonVisitor, FieldRecord};
use telemetry::json::{json_string, FloatText};
use telemetry::read::read_fields;
use telemetry::setup::{sentry_dsn, sentry_environment, telemetry_level, TelemetryLevel};
use telemetry::ErrorJsonFormat;

#[derive(Debug)]
struct DebugField {
    id: u8,
}

fn name(s: &str) -> String {
    s.to_string()
}

fn message(text: &str) -> FieldRecord {
    FieldRecord::Debug { name: name("message"), text: text.to_string() }
}

fn error(field: &str, msg: &str, sources: &[&str]) -> FieldRecord {
    FieldRecord::Error {
        name: name(field),
        message: msg.to_string(),
        sources: sources.iter().map(|s| s.to_string()).collect(),
    }
}

fn event(level: &str, fields: Vec<FieldRecord>, span: Option<SpanRecord>, scope: Option<Vec<SpanRecord>>) -> EventRecord {
    EventRecord {
        timestamp: "2024-01-01T00:00:00.000000Z".to_string(),
        level: level.to_string(),
        target: "json_format".to_string(),
        fields,
        span,
        scope,
    }
}

fn format(e: EventRecord) -> String {
    ErrorJsonFormat.format_event(e).unwrap()
}

fn events(output: &str) -> Vec<Value> {
    output.lines().map(|line| serde_json::from_str(line).unwrap()).collect()
}

fn strings(items: &[&str]) -> Value {
    Value::Array(items.iter().map(|s| Value::from(*s)).collect())
}

/// The span `request` as the subscriber keeps it: fields written at creation,
/// then the late records added to them.
fn span(created: Vec<FieldRecord>, late: Vec<FieldRecord>) -> SpanRecord {
    let fields = ErrorJsonFields;
    let current = fields.format_fields(created);
    let merged = fields.add_fields(&current, late).unwrap();
    SpanRecord { name: name("request"), fields: merged }
}

#[test]
fn records_nested_typed_error_sources_in_one_event() {
    let output = format(event(
        "ERROR",
        vec![
            error("error", "outer error", &["intermediate error", "root I/O error"]),
            message("operation failed"),
        ],
        None,
        None,
    ));
    let events = events(&output);
    assert_eq!(events.len(), 1);
    assert_eq!(events[0]["error"], "outer error");
    assert_eq!(events[0]["error.chain"], strings(&["intermediate error", "root I/O error"]));
}

#[test]
fn records_realistic_wrapped_error() {
    let output = format(event(
        "ERROR",
        vec![
            error("error", "secret storage operation failed", &["OpenBao denied the operation"]),
            message("gRPC error occurred"),
        ],
        None,
        None,
    ));
    let event = events(&output).pop().unwrap();
    assert_eq!(event["error"], "secret storage operation failed");
    assert_eq!(event["error.chain"], strings(&["OpenBao denied the operation"]));
}

#[test]
fn records_an_empty_chain_for_an_error_without_a_source() {
    let output = format(event(
        "ERROR",
        vec![error("error", "standalone error", &[]), message("operation failed")],
        None,
        None,
    ));
    let event = events(&output).pop().unwrap();
    assert_eq!(event["error"], "standalone error");
    assert_eq!(event["error.chain"], strings(&[]));
}

#[test]
fn preserves_ordinary_json_fields() {
    let debug_value = DebugField { id: 7 };
    assert_eq!(debug_value.id, 7);
    let output = format(event(
        "INFO",
        vec![
            FieldRecord::Str { name: name("string"), text: "value".to_string() },
            FieldRecord::I64 { name: name("integer"), signed: 42 },
            FieldRecord::Bool { name: name("boolean"), flag: true },
            FieldRecord::Debug { name: name("debug"), text: format!("{:?}", debug_value) },
            message("ordinary fields"),
        ],
        None,
        None,
    ));
    let event = events(&output).pop().unwrap();
    assert_eq!(event["message"], "ordinary fields");
    assert_eq!(event["string"], "value");
    assert_eq!(event["integer"], 42);
    assert_eq!(event["boolean"], true);
    assert_eq!(event["debug"], "DebugField { id: 7 }");
}

#[test]
fn records_error_fields_on_spans() {
    let late = || vec![error("error", "span error", &["span source"])];
    let output = format(event(
        "INFO",
        vec![message("handled request")],
        Some(span(vec![], late())),
        Some(vec![span(vec![], late())]),
    ));
    let event = events(&output).pop().unwrap();
    for span in [&event["span"], event["spans"].as_array().unwrap().last().unwrap()] {
        assert_eq!(span["error"], "span error");
        assert_eq!(span["error.chain"], strings(&["span source"]));
    }
}

#[test]
fn merges_late_span_records_as_valid_json() {
    let created = || vec![FieldRecord::I64 { name: name("request_id"), signed: 42 }];
    let late = || vec![error("error", "late error", &["late source"])];
    let output = format(event(
        "INFO",
        vec![message("handled request")],
        Some(span(created(), late())),
        Some(vec![span(created(), late())]),
    ));
    let event = events(&output).pop().unwrap();
    assert_eq!(event["span"]["request_id"], 42);
    assert_eq!(event["span"]["error"], "late error");
    assert_eq!(event["span"]["error.chain"], strings(&["late source"]));
}

#[test]
fn empty_fields_are_an_empty_object() {
    assert_eq!(ErrorJsonFields.format_fields(vec![]), "{}");
}

#[test]
fn fields_are_written_in_ascending_key_order() {
    let text = ErrorJsonFields.format_fields(vec![
        FieldRecord::Str { name: name("zeta"), text: "z".to_string() },
        FieldRecord::U64 { name: name("alpha"), unsigned: 1 },
        FieldRecord::Bool { name: name("Beta"), flag: false },
        FieldRecord::Float { name: name("mid"), number: None },
    ]);
    assert_eq!(text, r#"{"Beta":false,"alpha":1,"mid":null,"zeta":"z"}"#);
}

#[test]
fn a_later_record_replaces_an_earlier_one() {
    let text = ErrorJsonFields.format_fields(vec![
        FieldRecord::I64 { name: name("n"), signed: 1 },
        FieldRecord::I64 { name: name("n"), signed: -2 },
    ]);
    assert_eq!(text, r#"{"n":-2}"#);
}

#[test]
fn integers_are_written_in_decimal() {
    let text = ErrorJsonFields.format_fields(vec![
        FieldRecord::I64 { name: name("min"), signed: i64::MIN },
        FieldRecord::U64 { name: name("max"), unsigned: u64::MAX },
        FieldRecord::I64 { name: name("zero"), signed: 0 },
        FieldRecord::I64 { name: name("ten"), signed: 10 },
    ]);
    assert_eq!(
        text,
        r#"{"max":18446744073709551615,"min":-9223372036854775808,"ten":10,"zero":0}"#
    );
}

#[test]
fn strings_are_escaped() {
    let text = ErrorJsonFields.format_fields(vec![FieldRecord::Str {
        name: name("s\"k"),
        text: "a\"b\\c\nd\te\u{1}f\u{7f}é".to_string(),
    }]);
    assert_eq!(text, "{\"s\\\"k\":\"a\\\"b\\\\c\\nd\\te\\u0001f\u{7f}é\"}");
    let v: Value = serde_json::from_str(&text).unwrap();
    assert_eq!(v["s\"k"], "a\"b\\c\nd\te\u{1}f\u{7f}é");
}

#[test]
fn bytes_are_an_array_of_numbers() {
    let text = ErrorJsonFields.format_fields(vec![FieldRecord::Bytes {
        name: name("raw"),
        bytes: vec![0, 1, 255],
    }]);
    assert_eq!(text, r#"{"raw":[0,1,255]}"#);
}

#[test]
fn floating_point_text_is_kept() {
    let text = ErrorJsonFields.format_fields(vec![FieldRecord::Float {
        name: name("ratio"),
        number: FloatText::new("0.5".to_string()),
    }]);
    assert_eq!(text, r#"{"ratio":0.5}"#);
    assert!(FloatText::new("1\n".to_string()).is_none());
}

#[test]
fn log_fields_are_left_out_and_raw_names_lose_their_prefix() {
    let text = ErrorJsonFields.format_fields(vec![
        FieldRecord::Debug { name: name("log.target"), text: "x".to_string() },
        FieldRecord::Debug { name: name("r#type"), text: "kind".to_string() },
        FieldRecord::Str { name: name("log.line"), text: "kept".to_string() },
    ]);
    assert_eq!(text, r#"{"log.line":"kept","type":"kind"}"#);
}

#[test]
fn error_chain_key_follows_the_field_name() {
    let mut visitor = ErrorJsonVisitor::new();
    visitor.record_error("cause", "top".to_string(), &vec!["a".to_string(), "b".to_string()]);
    assert_eq!(visitor.to_json_text(), r#"{"cause":"top","cause.chain":["a","b"]}"#);
}

#[test]
fn adding_to_unreadable_fields_fails() {
    let result = ErrorJsonFields.add_fields("not json", vec![message("m")]);
    assert!(result.is_err());
    let result = ErrorJsonFields.add_fields("[1]", vec![message("m")]);
    assert!(result.is_err());
}

#[test]
fn adding_to_empty_fields_starts_afresh() {
    let text = ErrorJsonFields
        .add_fields("", vec![FieldRecord::U64 { name: name("n"), unsigned: 3 }])
        .unwrap();
    assert_eq!(text, r#"{"n":3}"#);
}

#[test]
fn late_records_merge_like_records_made_at_once() {
    let first = || vec![FieldRecord::I64 { name: name("request_id"), signed: 42 }, message("m")];
    let later = || vec![message("n"), FieldRecord::Bool { name: name("done"), flag: true }];
    let fields = ErrorJsonFields;
    let current = fields.format_fields(first());
    let merged = fields.add_fields(&current, later()).unwrap();
    let mut all = first();
    all.extend(later());
    assert_eq!(merged, fields.format_fields(all));
    assert_eq!(merged, r#"{"done":true,"message":"n","request_id":42}"#);
}

#[test]
fn a_span_carries_its_name() {
    let v = span_to_json(name("request"), r#"{"id":5, "name":"old"}"#).unwrap();
    assert_eq!(json_string(&v), r#"{"id":5,"name":"request"}"#);
    assert!(span_to_json(name("request"), "{").is_err());
}

#[test]
fn an_event_line_is_exact() {
    let line = format(EventRecord {
        timestamp: "T".to_string(),
        level: "WARN".to_string(),
        target: "app".to_string(),
        fields: vec![message("hi"), FieldRecord::Str { name: name("target"), text: "ignored".to_string() }],
        span: None,
        scope: None,
    });
    assert_eq!(line, "{\"level\":\"WARN\",\"message\":\"hi\",\"target\":\"app\",\"timestamp\":\"T\"}\n");
}

#[test]
fn event_fields_win_over_time_and_level() {
    let line = format(event(
        "INFO",
        vec![FieldRecord::Str { name: name("level"), text: "custom".to_string() }],
        None,
        None,
    ));
    let e = events(&line).pop().unwrap();
    assert_eq!(e["level"], "custom");
}

#[test]
fn a_span_without_current_scope_has_no_spans() {
    let line = format(event("INFO", vec![], Some(span(vec![], vec![])), None));
    let e = events(&line).pop().unwrap();
    assert_eq!(e["span"]["name"], "request");
    assert_eq!(e["spans"], strings(&[]));
}

#[test]
fn unreadable_span_fields_fail_the_event() {
    let bad = || SpanRecord { name: name("request"), fields: "not json".to_string() };
    assert!(ErrorJsonFormat.format_event(event("INFO", vec![], Some(bad()), None)).is_err());
    assert!(ErrorJsonFormat
        .format_event(event("INFO", vec![], Some(span(vec![], vec![])), Some(vec![bad()])))
        .is_err());
    assert!(ErrorJsonFormat.format_event(event("INFO", vec![], None, Some(vec![bad()]))).is_ok());
}

#[test]
fn scope_spans_come_root_first() {
    let root = SpanRecord { name: name("root"), fields: "{}".to_string() };
    let leaf = SpanRecord { name: name("leaf"), fields: "{}".to_string() };
    let line = format(event("INFO", vec![], Some(span(vec![], vec![])), Some(vec![root, leaf])));
    let e = events(&line).pop().unwrap();
    assert_eq!(e["spans"][0]["name"], "root");
    assert_eq!(e["spans"][1]["name"], "leaf");
}

#[test]
fn environment_names_map_to_sentry_labels() {
    assert_eq!(sentry_environment("test"), Some("testing"));
    assert_eq!(sentry_environment("prod"), Some("production"));
    assert_eq!(sentry_environment("staging"), None);
    assert_eq!(sentry_environment(""), None);
}

#[test]
fn a_disabled_sdk_exports_nothing() {
    assert_eq!(telemetry_level(true), TelemetryLevel::Off);
    assert_eq!(telemetry_level(false), TelemetryLevel::Info);
}

#[test]
fn line_feeds_in_fields_keep_the_event_on_one_line() {
    let output = format(event(
        "INFO",
        vec![message("first\nsecond"), FieldRecord::Str { name: name("key\n"), text: "\r\n".to_string() }],
        Some(span(vec![FieldRecord::Str { name: name("note"), text: "a\nb".to_string() }], vec![])),
        None,
    ));
    assert_eq!(output.matches('\n').count(), 1);
    assert!(output.ends_with('\n'));
    let e = events(&output).pop().unwrap();
    assert_eq!(e["message"], "first\nsecond");
    assert_eq!(e["span"]["note"], "a\nb");
}

#[test]
fn fields_read_back_hold_each_value_as_its_compact_text() {
    let o = read_fields(r#"{ "b" : {"y": 1, "x": [1, 2.50]}, "a": "\u0041\n" }"#).unwrap();
    assert_eq!(
        json_string(&o.into_json()),
        r#"{"a":"A\n","b":{"x":[1,2.5],"y":1}}"#
    );
    assert!(read_fields("[]").is_none());
    assert!(read_fields("").is_none());
}

#[test]
fn written_fields_read_back_as_written() {
    let text = ErrorJsonFields.format_fields(vec![
        error("error", "e\"1", &["a", "b"]),
        FieldRecord::I64 { name: name("n"), signed: i64::MIN },
        FieldRecord::Bytes { name: name("raw"), bytes: vec![7] },
    ]);
    let o = read_fields(&text).unwrap();
    assert_eq!(json_string(&o.into_json()), text);
}

#[test]
fn a_dsn_is_taken_only_when_valid() {
    assert!(sentry_dsn(None).is_none());
    assert!(sentry_dsn(Some("not a dsn".to_string())).is_none());
    assert!(sentry_dsn(Some("https://public@sentry.example.com/42".to_string())).is_some());
}
