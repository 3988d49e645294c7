use correlation_core::time::{Clock, TestClock, UtcInstant};
use correlation_core::backend::{BackendError, LogRecord, Span, SpanStatus};
use correlation_core::config::CorrelationConfig;
use correlation_core::engine::{
    build_tree, classify_trace_fetch, fits_window, empty_incident, logs_or_empty, present_suspects, service_summaries, sorted_services,
    span_chains_simple, span_refs, trace_incident, trace_query, try_build_tree, IncidentMeta, TraceFetch,
};
use correlation_core::ranking::ScoredSuspect;
use correlation_core::schema::{TraceTrigger, Trigger};
use correlation_core::version::SCHEMA_VERSION;

const T0: i64 = 1_716_465_600_000_000_000;
const MS: i64 = 1_000_000;

fn span(id: &str, service: &str, parent: Option<&str>, status: SpanStatus, start: i64, duration_ms: i64) -> Span {
    Span {
        span_id: id.into(),
        trace_id: "t1".into(),
        parent_id: parent.map(|p| p.to_string()),
        service: service.into(),
        operation: format!("op-{id}"),
        start,
        duration_ms,
        status,
        status_message: None,
        attributes: vec![],
    }
}

fn log(service: &str, level: &str) -> LogRecord {
    LogRecord { ts: T0, service: service.into(), level: level.into(), message: "m".into(), trace_id: None }
}

fn meta() -> IncidentMeta {
    IncidentMeta {
        incident_id: "inc-1".into(),
        produced_at: UtcInstant::from_unix_nanos(T0),
        engine_version: "0.1.0".into(),
        config_hash: "sha256:0000000000000001".into(),
        elapsed_ms: 7,
    }
}

fn trace_spans() -> Vec<Span> {
    vec![
        span("root", "gateway", None, SpanStatus::Success, T0, 100),
        span("a", "auth", Some("root"), SpanStatus::Error, T0 + 10 * MS, 30),
        span("b", "accounts", Some("root"), SpanStatus::Success, T0 + 20 * MS, 200),
        span("c", "auth", Some("a"), SpanStatus::Success, T0 + 12 * MS, 5),
    ]
}

#[test]
fn absent_trace_gives_a_note() {
    match classify_trace_fetch(Err(BackendError::Empty)) {
        TraceFetch::NotFound(note) => assert_eq!(note, "trace not found in backend"),
        _ => panic!("expected a note"),
    }
    match classify_trace_fetch(Ok(vec![])) {
        TraceFetch::NotFound(note) => assert_eq!(note, "trace not found"),
        _ => panic!("expected a note"),
    }
    assert!(matches!(classify_trace_fetch(Err(BackendError::Timeout)), TraceFetch::Failed(BackendError::Timeout)));
    match classify_trace_fetch(Ok(trace_spans())) {
        TraceFetch::Found(spans) => assert_eq!(spans.len(), 4),
        _ => panic!("expected spans"),
    }
}

#[test]
fn services_are_sorted_and_once_each() {
    assert_eq!(sorted_services(&trace_spans()), vec!["accounts", "auth", "gateway"]);
}

#[test]
fn log_query_covers_the_trace_with_the_expansion() {
    let cfg = CorrelationConfig::default();
    let q = trace_query(&trace_spans(), &cfg);
    assert_eq!(q.services, vec!["accounts", "auth", "gateway"]);
    assert_eq!(q.start, UtcInstant::from_unix_nanos(T0 - 30_000_000_000));
    // the latest end is span b: T0 + 20 ms + 200 ms
    assert_eq!(q.end, UtcInstant::from_unix_nanos(T0 + 220 * MS + 30_000_000_000));
    assert!(q.level_at_least.is_none());
}

#[test]
fn log_window_may_reach_past_2262() {
    // an expansion of about 634 years widens the window beyond the
    // nanosecond range of an i64, but not beyond the calendar
    let mut cfg = CorrelationConfig::default();
    cfg.window_expansion_sec = 20_000_000_000;
    assert!(fits_window(&trace_spans(), &cfg));
    let q = trace_query(&trace_spans(), &cfg);
    assert_eq!(q.start.nanos(), T0 as i128 - 20_000_000_000_000_000_000);
    assert_eq!(q.end.nanos(), (T0 + 220 * MS) as i128 + 20_000_000_000_000_000_000);
    // a time span holds at most i64::MAX milliseconds
    cfg.window_expansion_sec = i64::MAX / 1000 + 1;
    assert!(!fits_window(&trace_spans(), &cfg));
    // a window that leaves the calendar
    cfg.window_expansion_sec = 9_000_000_000_000;
    assert!(!fits_window(&trace_spans(), &cfg));
    cfg.window_expansion_sec = 30;
    assert!(fits_window(&trace_spans(), &cfg));
    assert!(!fits_window(&vec![span("x", "s", None, SpanStatus::Success, T0, i64::MIN)], &cfg));
}

#[test]
fn service_summaries_count_spans_and_logs() {
    let spans = trace_spans();
    let logs = vec![log("auth", "ERROR"), log("auth", "INFO"), log("gateway", "ERROR"), log("other", "ERROR")];
    let names = vec!["auth".to_string(), "gateway".to_string()];
    let sums = service_summaries(&names, &spans, &logs);
    assert_eq!(sums.len(), 2);
    assert_eq!(sums[0].name, "auth");
    assert_eq!(sums[0].span_count, 2);
    assert_eq!(sums[0].error_span_count, 1);
    assert_eq!(sums[0].log_count, 2);
    assert_eq!(sums[0].error_log_count, 1);
    assert_eq!(sums[1].span_count, 1);
    assert_eq!(sums[1].error_span_count, 0);
    assert_eq!(sums[1].log_count, 1);
}

#[test]
fn span_tree_follows_parents_in_input_order() {
    let tree = build_tree(&trace_spans());
    assert_eq!(tree.len(), 1);
    assert_eq!(tree[0].span_id, "root");
    let kids: Vec<&str> = tree[0].children.iter().map(|c| c.span_id.as_str()).collect();
    assert_eq!(kids, vec!["a", "b"]);
    assert_eq!(tree[0].children[0].children.len(), 1);
    assert_eq!(tree[0].children[0].children[0].span_id, "c");
    assert!(tree[0].children[1].children.is_empty());
}

#[test]
fn spans_without_a_root_form_no_tree() {
    let orphans = vec![span("x", "s", Some("gone"), SpanStatus::Success, T0, 1)];
    assert!(build_tree(&orphans).is_empty());
}

#[test]
fn span_refs_write_the_status() {
    let refs = span_refs(trace_spans());
    assert_eq!(refs.len(), 4);
    assert_eq!(refs[0].status, "OK");
    assert_eq!(refs[1].status, "ERROR");
    assert_eq!(refs[1].id, "a");
    assert_eq!(refs[1].parent_id, Some("root".to_string()));
    assert_eq!(refs[3].operation, "op-c");
}

fn scored(service: &str) -> ScoredSuspect {
    ScoredSuspect {
        service: service.into(),
        score: 1.5f64.to_bits(),
        direct_error: 1.0f64.to_bits(),
        direct_anomaly: 0,
        propagated: 0.5f64.to_bits(),
        direct_latency: 0,
        temporal_mult: 1.0f64.to_bits(),
        contributors: vec![("error_span".into(), "span:a".into(), 1.0f64.to_bits())],
    }
}

#[test]
fn suspects_are_numbered_from_one() {
    let s = present_suspects(vec![scored("auth"), scored("gateway")]);
    assert_eq!(s.len(), 2);
    assert_eq!(s[0].rank, 1);
    assert_eq!(s[1].rank, 2);
    assert_eq!(s[1].service, "gateway");
    assert_eq!(s[0].evidence_breakdown.contributors[0].reference, "span:a");
    assert_eq!(f64::from_bits(s[0].evidence_breakdown.propagated_weight), 0.5);
}

#[test]
fn empty_incident_keeps_trigger_and_notes() {
    let ic = empty_incident(
        Trigger::Trace { trace: TraceTrigger { trace_id: "does-not-exist".into() } },
        vec!["trace not found".into()],
        meta(),
    );
    assert_eq!(ic.schema_version, SCHEMA_VERSION);
    assert_eq!(ic.incident_id, "inc-1");
    assert_eq!(ic.notes, vec!["trace not found".to_string()]);
    assert_eq!(ic.window.start, UtcInstant::from_unix_nanos(T0));
    assert_eq!(ic.window.end, UtcInstant::from_unix_nanos(T0));
    assert!(!ic.window.expanded);
    assert!(ic.suspects.is_empty() && ic.spans.is_empty() && ic.services.is_empty());
}

#[test]
fn trace_incident_assembles_the_document() {
    let spans = trace_spans();
    let cfg = CorrelationConfig::default();
    let q = trace_query(&spans, &cfg);
    let logs = vec![log("auth", "ERROR")];
    let ic = trace_incident("t1".into(), spans, &logs, q, vec![scored("auth")], meta());
    match &ic.trigger {
        Trigger::Trace { trace } => assert_eq!(trace.trace_id, "t1"),
        _ => panic!("expected a trace trigger"),
    }
    assert!(ic.window.expanded);
    assert_eq!(ic.services.len(), 3);
    assert_eq!(ic.services[1].name, "auth");
    assert_eq!(ic.services[1].error_log_count, 1);
    assert_eq!(ic.suspects.len(), 1);
    assert_eq!(ic.spans.len(), 4);
    assert_eq!(ic.span_tree.len(), 1);
    assert!(ic.notes.is_empty());
    assert_eq!(ic.elapsed_ms, 7);
}

#[test]
fn stamp_gives_a_fresh_uuid_and_the_clock_time() {
    let clock = TestClock { now: UtcInstant::from_unix_nanos(T0) };
    let m = IncidentMeta::stamp(clock.now(), "0.1.0", "sha256:abc".into(), 12);
    assert_eq!(m.incident_id.len(), 36);
    for (i, c) in m.incident_id.chars().enumerate() {
        if [8, 13, 18, 23].contains(&i) {
            assert_eq!(c, '-');
        } else {
            assert!(c.is_ascii_hexdigit() && !c.is_ascii_uppercase());
        }
    }
    assert_eq!(m.produced_at, UtcInstant::from_unix_nanos(T0));
    assert_eq!(m.engine_version, "0.1.0");
    assert_eq!(m.elapsed_ms, 12);
    let other = IncidentMeta::stamp(clock.now(), "0.1.0", "sha256:abc".into(), 12);
    assert_ne!(m.incident_id, other.incident_id);
}

#[test]
fn parent_links_that_loop_give_no_forest() {
    // x is a root, y is x's child, and another span with id x is y's child.
    let looping = vec![
        span("x", "s", None, SpanStatus::Success, T0, 1),
        span("y", "s", Some("x"), SpanStatus::Success, T0, 1),
        span("x", "s", Some("y"), SpanStatus::Success, T0, 1),
    ];
    assert!(try_build_tree(&looping).is_none());
    assert!(!span_chains_simple(&looping));
    assert!(span_chains_simple(&trace_spans()));
}

#[test]
fn repeated_ids_without_a_loop_repeat_the_subtree() {
    let spans = vec![
        span("r", "s", None, SpanStatus::Success, T0, 1),
        span("k", "s", Some("r"), SpanStatus::Success, T0, 1),
        span("k", "s", Some("r"), SpanStatus::Success, T0, 1),
        span("g", "s", Some("k"), SpanStatus::Success, T0, 1),
    ];
    let forest = try_build_tree(&spans).unwrap();
    assert_eq!(forest.len(), 1);
    assert_eq!(forest[0].children.len(), 2);
    assert_eq!(forest[0].children[0].children[0].span_id, "g");
    assert_eq!(forest[0].children[1].children[0].span_id, "g");
}

#[test]
fn a_failed_log_fetch_gives_no_logs() {
    assert!(logs_or_empty(Err(BackendError::Unreachable)).is_empty());
    assert_eq!(logs_or_empty(Ok(vec![log("a", "INFO")])).len(), 1);
}
