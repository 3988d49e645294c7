use correlation_core::time::UtcInstant;
use correlation_core::backend::{AnomalyWindowQuery, BackendError, LogQuery, MetricQuery, SpanStatus};
use correlation_core::json::{Json, JsonNumber};
use correlation_core::loki::{log_request, logql, loki_is_readable, parse_loki};
use correlation_core::prom::{parse_prom_points, parse_prom_range, prom_is_readable, promql, series_request, window_request};
use correlation_core::tempo::{fetch_failure, parse_tempo_trace, search_hits, search_request, trace_url};

fn s(x: &str) -> Json {
    Json::String(x.to_string())
}

fn n(x: u64) -> Json {
    Json::Number(JsonNumber::PosInt(x))
}

fn f(x: f64) -> Json {
    Json::Number(JsonNumber::Float(x.to_bits()))
}

fn arr(items: Vec<Json>) -> Json {
    Json::Array(items)
}

fn obj(members: Vec<(&str, Json)>) -> Json {
    Json::Object(members.into_iter().map(|(k, v)| (k.to_string(), v)).collect())
}

fn params(p: &[(String, String)]) -> Vec<(&str, &str)> {
    p.iter().map(|(k, v)| (k.as_str(), v.as_str())).collect()
}

fn otlp_body() -> Json {
    obj(vec![(
        "batches",
        arr(vec![obj(vec![
            (
                "resource",
                obj(vec![(
                    "attributes",
                    arr(vec![obj(vec![("key", s("service.name")), ("value", obj(vec![("stringValue", s("auth"))]))])]),
                )]),
            ),
            (
                "scopeSpans",
                arr(vec![obj(vec![(
                    "spans",
                    arr(vec![obj(vec![
                        ("spanId", s("span1")),
                        ("traceId", s("trace1")),
                        ("parentSpanId", s("")),
                        ("name", s("POST /login")),
                        ("startTimeUnixNano", s("1716465600000000000")),
                        ("endTimeUnixNano", s("1716465600050000000")),
                        ("status", obj(vec![("code", n(0))])),
                    ])]),
                )])]),
            ),
        ])]),
    )])
}

#[test]
fn parses_minimal_otlp_response() {
    let spans = parse_tempo_trace(&otlp_body()).unwrap();
    assert_eq!(spans.len(), 1);
    assert_eq!(spans[0].service, "auth");
    assert_eq!(spans[0].operation, "POST /login");
}

#[test]
fn otlp_span_fields_are_read() {
    let spans = parse_tempo_trace(&otlp_body()).unwrap();
    let sp = &spans[0];
    assert_eq!(sp.span_id, "span1");
    assert_eq!(sp.trace_id, "trace1");
    assert_eq!(sp.parent_id, None, "an empty parent id is no parent");
    assert_eq!(sp.start, 1_716_465_600_000_000_000);
    assert_eq!(sp.duration_ms, 50);
    assert_eq!(sp.status, SpanStatus::Success);
    assert_eq!(sp.status_message, None);
}

#[test]
fn otlp_status_code_two_is_a_failure_and_missing_service_is_unknown() {
    let body = obj(vec![(
        "batches",
        arr(vec![obj(vec![(
            "scopeSpans",
            arr(vec![obj(vec![(
                "spans",
                arr(vec![obj(vec![
                    ("spanId", s("b")),
                    ("parentSpanId", s("a")),
                    ("startTimeUnixNano", s("2000000000")),
                    ("endTimeUnixNano", s("1000000000")),
                    ("status", obj(vec![("code", n(2)), ("message", s("boom"))])),
                ])]),
            )])]),
        )])]),
    )]);
    let spans = parse_tempo_trace(&body).unwrap();
    assert_eq!(spans.len(), 1);
    assert_eq!(spans[0].service, "unknown");
    assert_eq!(spans[0].parent_id, Some("a".to_string()));
    assert_eq!(spans[0].status, SpanStatus::Error);
    assert_eq!(spans[0].status_message, Some("boom".to_string()));
    assert_eq!(spans[0].duration_ms, 0, "an end before the start is no time");
    assert_eq!(spans[0].operation, "");
}

#[test]
fn otlp_answer_without_batches_is_malformed() {
    assert!(matches!(parse_tempo_trace(&obj(vec![])), Err(BackendError::MalformedResponse)));
    assert!(matches!(parse_tempo_trace(&obj(vec![("batches", s("x"))])), Err(BackendError::MalformedResponse)));
}

#[test]
fn fetch_failure_mentioning_404_is_empty() {
    assert!(matches!(fetch_failure("not found (404)"), BackendError::Empty));
    assert!(matches!(fetch_failure("status 500 Internal Server Error"), BackendError::Unreachable));
    assert!(matches!(fetch_failure("40"), BackendError::Unreachable));
}

#[test]
fn trace_url_names_the_trace() {
    assert_eq!(trace_url("http://tempo:3200", "abc"), "http://tempo:3200/api/traces/abc");
}

#[test]
fn search_request_carries_query_window_and_limit() {
    let r = search_request("http://tempo:3200", "{ resource.service.name = \"auth\" }", 0, 100, 5);
    assert_eq!(r.url, "http://tempo:3200/api/search");
    assert_eq!(
        params(&r.params),
        vec![("q", "{ resource.service.name = \"auth\" }"), ("start", "0"), ("end", "100"), ("limit", "5")]
    );
}

#[test]
fn search_traces_extracts_hits_with_duration() {
    let body = obj(vec![(
        "traces",
        arr(vec![
            obj(vec![("traceID", s("aaa")), ("rootServiceName", s("auth")), ("durationMs", n(5))]),
            obj(vec![("traceID", s("bbb")), ("rootServiceName", s("transactions")), ("durationMs", n(812))]),
            obj(vec![("traceID", s("ccc")), ("rootServiceName", s("notifications"))]),
        ]),
    )]);
    let hits = search_hits(&body);
    let ids: Vec<&str> = hits.iter().map(|h| h.trace_id.as_str()).collect();
    assert_eq!(ids, vec!["aaa", "bbb", "ccc"]);
    assert_eq!(hits[1].duration_ms, 812);
    assert_eq!(hits[1].root_service, "transactions");
    // durationMs omitted by Tempo for ~0ms traces -> defaults to 0.
    assert_eq!(hits[2].duration_ms, 0);
}

#[test]
fn search_traces_empty_when_no_matches() {
    let hits = search_hits(&obj(vec![("traces", arr(vec![]))]));
    assert!(hits.is_empty());
}

#[test]
fn search_hits_skip_entries_without_id() {
    let body = obj(vec![("traces", arr(vec![obj(vec![("rootServiceName", s("x"))]), obj(vec![("traceID", s("z"))])]))]);
    let hits = search_hits(&body);
    assert_eq!(hits.len(), 1);
    assert_eq!(hits[0].trace_id, "z");
    assert_eq!(hits[0].root_service, "unknown");
}

fn loki_body() -> Json {
    obj(vec![(
        "data",
        obj(vec![(
            "result",
            arr(vec![obj(vec![
                ("stream", obj(vec![("service_name", s("auth")), ("level", s("ERROR"))])),
                ("values", arr(vec![arr(vec![s("1716465600000000000"), s("smtp send failed: i/o timeout")])])),
            ])]),
        )]),
    )])
}

#[test]
fn parses_minimal_loki_response() {
    let logs = parse_loki(&loki_body()).unwrap();
    assert_eq!(logs.len(), 1);
    assert_eq!(logs[0].service, "auth");
    assert_eq!(logs[0].level, "ERROR");
}

#[test]
fn loki_line_fields_are_read() {
    let logs = parse_loki(&loki_body()).unwrap();
    assert_eq!(logs[0].ts, 1_716_465_600_000_000_000);
    assert_eq!(logs[0].message, "smtp send failed: i/o timeout");
    assert_eq!(logs[0].trace_id, None);
}

#[test]
fn loki_defaults_and_malformed_entries() {
    let unlabelled = obj(vec![(
        "data",
        obj(vec![("result", arr(vec![obj(vec![("values", arr(vec![arr(vec![s("x"), n(1)])]))])]))]),
    )]);
    let logs = parse_loki(&unlabelled).unwrap();
    assert_eq!(logs[0].service, "unknown");
    assert_eq!(logs[0].level, "INFO");
    assert_eq!(logs[0].ts, 0);
    assert_eq!(logs[0].message, "");
    let bad = obj(vec![("data", obj(vec![("result", arr(vec![obj(vec![("values", arr(vec![s("oops")]))])]))]))]);
    assert!(matches!(parse_loki(&bad), Err(BackendError::MalformedResponse)));
    assert!(matches!(parse_loki(&obj(vec![])), Err(BackendError::MalformedResponse)));
}

fn log_query(services: Vec<String>) -> LogQuery {
    LogQuery { services, start: UtcInstant::from_unix_nanos(1_000), end: UtcInstant::from_unix_nanos(2_000), level_at_least: None }
}

#[test]
fn empty_services_returns_empty() {
    assert!(log_request("http://127.0.0.1:1", &log_query(vec![])).is_none());
}

#[test]
fn log_request_selects_the_services_of_the_window() {
    let r = log_request("http://loki:3100", &log_query(vec!["auth".into(), "db".into()])).unwrap();
    assert_eq!(r.url, "http://loki:3100/loki/api/v1/query_range");
    assert_eq!(
        params(&r.params),
        vec![
            ("query", "{service_name=\"auth\"|service_name=\"db\"}"),
            ("start", "1000"),
            ("end", "2000"),
            ("limit", "5000"),
        ]
    );
    assert_eq!(logql(&vec!["one".to_string()]), "{service_name=\"one\"}");
}

#[test]
fn log_request_writes_far_windows_as_zero() {
    let q = LogQuery {
        services: vec!["auth".into()],
        start: UtcInstant::from_parts(-20_000_000_000, 0).unwrap(),
        end: UtcInstant::from_parts(10_413_792_000, 0).unwrap(),
        level_at_least: None,
    };
    let r = log_request("http://loki:3100", &q).unwrap();
    assert_eq!(params(&r.params)[1], ("start", "0"));
    assert_eq!(params(&r.params)[2], ("end", "0"));
}

#[test]
fn parses_minimal_series_response() {
    let body = obj(vec![(
        "data",
        obj(vec![(
            "result",
            arr(vec![obj(vec![
                ("metric", obj(vec![])),
                ("values", arr(vec![arr(vec![f(1716465600.0), s("0.025")]), arr(vec![f(1716465605.0), s("0.030")])])),
            ])]),
        )]),
    )]);
    let series = parse_prom_range(&body).unwrap();
    assert_eq!(series.len(), 1);
    assert_eq!(series[0].len(), 2);
}

#[test]
fn reads_minimal_anomaly_window_samples() {
    let body = obj(vec![(
        "data",
        obj(vec![(
            "result",
            arr(vec![obj(vec![
                ("metric", obj(vec![("service", s("transactions"))])),
                ("values", arr(vec![arr(vec![f(1716465600.0), s("1.5")])])),
            ])]),
        )]),
    )]);
    let points = parse_prom_points(&body).unwrap();
    assert_eq!(points.len(), 1);
    assert_eq!(points[0].0, "transactions");
    assert_eq!(points[0].1.value, "1.5");
    assert_eq!(points[0].1.ts, Some(JsonNumber::Float(1716465600.0f64.to_bits())));
}

#[test]
fn prom_samples_default_and_malformed() {
    let body = obj(vec![("data", obj(vec![("result", arr(vec![obj(vec![("values", arr(vec![arr(vec![s("t"), n(3)])]))])]))]))]);
    let points = parse_prom_points(&body).unwrap();
    assert_eq!(points[0].0, "unknown");
    assert_eq!(points[0].1.value, "0");
    assert_eq!(points[0].1.ts, None);
    let bad = obj(vec![("data", obj(vec![("result", arr(vec![obj(vec![("values", arr(vec![n(1)]))])]))]))]);
    assert!(matches!(parse_prom_range(&bad), Err(BackendError::MalformedResponse)));
    assert!(matches!(parse_prom_points(&bad), Err(BackendError::MalformedResponse)));
}

#[test]
fn prom_requests_carry_selector_and_whole_seconds() {
    let q = MetricQuery {
        metric: "http_request_duration_seconds:p99".into(),
        service: "auth".into(),
        start: UtcInstant::from_unix_nanos(-1),
        end: UtcInstant::from_unix_nanos(1_716_465_600_999_999_999),
    };
    let r = series_request("http://prom:9090", &q);
    assert_eq!(r.url, "http://prom:9090/api/v1/query_range");
    assert_eq!(
        params(&r.params),
        vec![
            ("query", "http_request_duration_seconds:p99{service=\"auth\"}"),
            ("start", "-1"),
            ("end", "1716465600"),
            ("step", "5"),
        ]
    );
    assert_eq!(promql("m", "s"), "m{service=\"s\"}");
    let w = window_request("http://prom:9090", &AnomalyWindowQuery { metric: "m".into(), start: UtcInstant::from_unix_nanos(0), end: UtcInstant::from_unix_nanos(5_000_000_000) });
    assert_eq!(params(&w.params), vec![("query", "m"), ("start", "0"), ("end", "5"), ("step", "5")]);
}

fn answer(entries: Vec<Json>) -> Json {
    obj(vec![("data", obj(vec![("result", arr(vec![obj(vec![("values", arr(entries))])]))]))])
}

#[test]
fn readable_answers_are_told_apart() {
    let complete = answer(vec![arr(vec![s("1"), s("a")])]);
    assert!(loki_is_readable(&complete));
    assert!(prom_is_readable(&complete));
    let short = answer(vec![arr(vec![s("1"), s("a")]), arr(vec![s("2")])]);
    assert!(!loki_is_readable(&short));
    assert!(!prom_is_readable(&short));
    // the reading stops at an entry that is not an array
    let stops = answer(vec![n(1), arr(vec![s("2")])]);
    assert!(loki_is_readable(&stops));
    assert!(prom_is_readable(&stops));
    assert!(loki_is_readable(&obj(vec![])));
    assert!(prom_is_readable(&obj(vec![])));
}
