use correlation_core::time::UtcInstant;
use correlation_core::render::{
    render_md, suspect_block, event_line_of, window_line_of, Figures, SuspectFigures, batches_section, engine_line, notable_order, notable_spans_section, notes_section, services_section,
    status_is_error, timeline_section, title, trace_trigger, window_line,
};
use correlation_core::schema::{
    Contributor, EvidenceBreakdown, IncidentContext, AnomalyTrigger, Suspect, LogBatchRef, ServiceSummary, SpanRef, TimelineEvent, TraceTrigger, Trigger, Window,
};

fn span_ref(id: &str, status: &str, duration_ms: i64, message: Option<&str>) -> SpanRef {
    SpanRef {
        id: id.into(),
        trace_id: "t".into(),
        parent_id: None,
        service: "svc".into(),
        operation: format!("op{id}"),
        start: 0,
        duration_ms,
        status: status.into(),
        status_message: message.map(|m| m.to_string()),
        attributes: vec![],
    }
}

#[test]
fn status_text_is_compared_without_case() {
    assert!(status_is_error("ERROR"));
    assert!(status_is_error("error"));
    assert!(status_is_error("ErRoR"));
    assert!(!status_is_error("OK"));
    assert!(!status_is_error("errors"));
    assert!(!status_is_error("erro"));
}

#[test]
fn failed_spans_come_first_then_the_longest() {
    let spans = vec![
        span_ref("0", "OK", 50, None),
        span_ref("1", "ERROR", 10, None),
        span_ref("2", "OK", 90, None),
        span_ref("3", "error", 10, None),
        span_ref("4", "OK", 90, None),
    ];
    assert_eq!(notable_order(&spans), vec![1, 3, 2, 4, 0]);
}

#[test]
fn notable_spans_are_capped_at_twelve() {
    let spans: Vec<SpanRef> = (0..14).map(|i| span_ref(&i.to_string(), "OK", i, None)).collect();
    let text = notable_spans_section(&spans);
    assert!(text.starts_with("\n## Notable spans\n- `svc:op13` — 13ms — OK\n"));
    assert_eq!(text.lines().filter(|l| l.starts_with("- `")).count(), 12);
    assert!(text.ends_with("- … 2 more spans\n"));
    assert!(!text.contains("op1`"));
    assert_eq!(notable_spans_section(&vec![]), "");
}

#[test]
fn notable_span_line_shows_a_non_empty_message() {
    let spans = vec![span_ref("a", "ERROR", 7, Some("boom")), span_ref("b", "OK", 3, Some(""))];
    assert_eq!(
        notable_spans_section(&spans),
        "\n## Notable spans\n- `svc:opa` — 7ms — ERROR — boom\n- `svc:opb` — 3ms — OK\n"
    );
}

#[test]
fn header_lines() {
    assert_eq!(title("inc-1"), "# Incident inc-1\n");
    let t = Trigger::Trace { trace: TraceTrigger { trace_id: "abc".into() } };
    assert_eq!(trace_trigger(&t), Some("**Trigger:** trace `abc`\n".to_string()));
    let a = Trigger::Anomaly {
        anomaly: AnomalyTrigger {
            metric: "m".into(),
            service: "s".into(),
            window: Window { start: UtcInstant::from_unix_nanos(0), end: UtcInstant::from_unix_nanos(0), expanded: false },
            observed_value: 0,
            baseline_mean: 0,
            baseline_stddev: 0,
            z_score: 0,
            detector: "zscore".into(),
        },
    };
    assert_eq!(trace_trigger(&a), None);
    assert_eq!(
        window_line(&Window {
            start: UtcInstant::from_unix_nanos(1_716_465_600_000_000_000),
            end: UtcInstant::from_unix_nanos(1_716_465_660_000_000_000),
            expanded: true,
        }),
        "**Window:** 2024-05-23 12:00:00 UTC → 2024-05-23 12:01:00 UTC (expanded)\n"
    );
    assert_eq!(
        engine_line("0.1.0", "sha256:0123456789abcdef", 42),
        "**Engine:** 0.1.0  ·  config sha256:012345678  ·  elapsed 42ms\n\n"
    );
    assert_eq!(engine_line("v", "short", 0), "**Engine:** v  ·  config short  ·  elapsed 0ms\n\n");
}

#[test]
fn services_table() {
    let rows = vec![ServiceSummary {
        name: "auth".into(),
        span_count: 3,
        error_span_count: 1,
        log_count: 10,
        error_log_count: 2,
    }];
    assert_eq!(
        services_section(&rows),
        "\n## Affected services\n| service | spans | error spans | logs | error logs |\n|---|---|---|---|---|\n| auth | 3 | 1 | 10 | 2 |\n"
    );
    assert_eq!(services_section(&vec![]), "");
}

#[test]
fn log_batches_quote_their_first_sample() {
    let batches = vec![
        LogBatchRef {
            id: "lb_0".into(),
            service: "auth".into(),
            level: "ERROR".into(),
            time_bucket: "1716465600".into(),
            count: 3,
            sample_messages: vec!["say \"hi\"".into(), "x".into()],
        },
        LogBatchRef {
            id: "lb_1".into(),
            service: "db".into(),
            level: "INFO".into(),
            time_bucket: "1716465600".into(),
            count: 1,
            sample_messages: vec![],
        },
    ];
    assert_eq!(
        batches_section(&batches),
        "\n## Log batches\n- `auth` ERROR ×3 — e.g. \"say \\\"hi\\\"\"\n- `db` INFO ×1\n"
    );
}

#[test]
fn timeline_and_notes() {
    let events = vec![TimelineEvent { ts: UtcInstant::from_unix_nanos(0), kind: "span".into(), reference: "span:a".into() }];
    assert_eq!(timeline_section(&events), "\n## Timeline\n- 1970-01-01 00:00:00 UTC span `span:a`\n");
    assert_eq!(timeline_section(&vec![]), "");
    assert_eq!(notes_section(&vec![]), "\n## Notes\n(none)\n");
    assert_eq!(notes_section(&vec!["a".into(), "b".into()]), "\n## Notes\n- a\n- b\n");
}

#[test]
fn the_document_puts_the_sections_in_order() {
    let ic = IncidentContext {
        schema_version: "1.0.0".into(),
        incident_id: "inc-1".into(),
        produced_at: UtcInstant::from_unix_nanos(0),
        engine_version: "0.1.0".into(),
        config_hash: "sha256:0000000000000001".into(),
        elapsed_ms: 3,
        trigger: Trigger::Trace { trace: TraceTrigger { trace_id: "t1".into() } },
        window: Window { start: UtcInstant::from_unix_nanos(0), end: UtcInstant::from_unix_nanos(0), expanded: false },
        services: vec![],
        suspects: vec![],
        spans: vec![span_ref("a", "OK", 4, None)],
        span_tree: vec![],
        log_batches: vec![],
        metric_anomalies: vec![],
        timeline: vec![],
        notes: vec![],
    };
    let figures = Figures { anomaly_trigger: String::new(), suspects: vec![], anomaly_lines: vec![] };
    assert_eq!(
        render_md(&ic, &figures),
        "# Incident inc-1\n**Trigger:** trace `t1`\n**Window:** 1970-01-01 00:00:00 UTC → 1970-01-01 00:00:00 UTC (raw)\n\
         **Engine:** 0.1.0  ·  config sha256:000000000  ·  elapsed 3ms\n\n## Top suspects\n(none)\n\
         \n## Notable spans\n- `svc:opa` — 4ms — OK\n\n## Notes\n(none)\n"
    );
}

fn suspect(rank: usize, service: &str, contributors: Vec<(&str, &str)>) -> Suspect {
    Suspect {
        rank,
        service: service.into(),
        score: 1.5f64.to_bits(),
        evidence_breakdown: EvidenceBreakdown {
            direct_error_weight: 1.0f64.to_bits(),
            direct_anomaly_weight: 0,
            propagated_weight: 0,
            direct_latency_weight: 0,
            temporal_tightness_multiplier: 1.0f64.to_bits(),
            contributors: contributors
                .into_iter()
                .map(|(kind, reference)| Contributor { kind: kind.into(), reference: reference.into(), weight: 1.0f64.to_bits() })
                .collect(),
        },
    }
}

#[test]
fn a_suspect_block_names_rank_service_and_contributors() {
    let s = suspect(2, "payments", vec![("error_span", "span:p1"), ("error_log", "log:p")]);
    let f = SuspectFigures {
        score: "1.50".into(),
        breakdown_lines: "   - evidence: error 1.00\n".into(),
        contributor_weights: vec!["1.00".into(), "0.50".into()],
    };
    assert_eq!(
        suspect_block(&s, &f),
        "2. **payments** — score 1.50\n   - evidence: error 1.00\n   - error_span `span:p1` (+1.00)\n   - error_log `log:p` (+0.50)\n"
    );
}

#[test]
fn a_document_lists_every_suspect() {
    let ic = IncidentContext {
        schema_version: "1.0.0".into(),
        incident_id: "inc-2".into(),
        produced_at: UtcInstant::from_unix_nanos(0),
        engine_version: "0.1.0".into(),
        config_hash: "ħash-ünïcode-\"quoted\"".into(),
        elapsed_ms: 0,
        trigger: Trigger::Trace { trace: TraceTrigger { trace_id: "t2".into() } },
        window: Window { start: UtcInstant::from_unix_nanos(0), end: UtcInstant::from_unix_nanos(0), expanded: true },
        services: vec![],
        suspects: vec![suspect(1, "checkout", vec![("error_span", "span:c")]), suspect(2, "inventory", vec![])],
        spans: vec![],
        span_tree: vec![],
        log_batches: vec![],
        metric_anomalies: vec![],
        timeline: vec![],
        notes: vec!["nöte".into()],
    };
    let figures = Figures {
        anomaly_trigger: String::new(),
        suspects: vec![
            SuspectFigures { score: "1.50".into(), breakdown_lines: String::new(), contributor_weights: vec!["1.00".into()] },
            SuspectFigures { score: "0.20".into(), breakdown_lines: String::new(), contributor_weights: vec![] },
        ],
        anomaly_lines: vec![],
    };
    let md = render_md(&ic, &figures);
    assert!(md.contains("## Top suspects\n1. **checkout** — score 1.50\n   - error_span `span:c` (+1.00)\n2. **inventory** — score 0.20\n"));
    for sus in &ic.suspects {
        assert!(md.contains(&sus.service));
    }
    assert!(md.ends_with("\n## Notes\n- nöte\n"));
}

#[test]
fn window_and_event_lines_take_written_instants() {
    assert_eq!(window_line_of("a", "b", true), "**Window:** a → b (expanded)\n");
    assert_eq!(window_line_of("a", "b", false), "**Window:** a → b (raw)\n");
    assert_eq!(event_line_of("then", "span", "span:a"), "- then span `span:a`\n");
    let far = UtcInstant::from_parts(10_413_792_000, 0).unwrap();
    assert_eq!(
        window_line(&Window { start: far, end: far, expanded: false }),
        "**Window:** 2300-01-01 00:00:00 UTC → 2300-01-01 00:00:00 UTC (raw)\n"
    );
}
