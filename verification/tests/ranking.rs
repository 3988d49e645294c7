use correlation_core::backend::SpanStatus;
use correlation_core::config::CorrelationConfig;
use correlation_core::graph::builder::EvidenceGraph;
use correlation_core::graph::edges::{Edge, EdgeKind};
use correlation_core::graph::nodes::Node;
use correlation_core::ranking::{gather_evidence, Contribution};

const T0: i64 = 1_716_465_600_000_000_000;

fn span_node(id: &str, service: &str, status: SpanStatus, duration_ms: i64, parent: Option<&str>) -> Node {
    Node::Span {
        id: id.into(),
        service: service.into(),
        operation: "op".into(),
        status,
        start: T0,
        duration_ms,
        parent: parent.map(|p| p.to_string()),
        status_message: None,
    }
}

#[test]
fn latency_evidence_names_the_slow_worker_not_the_blocked_caller() {
    let mut g = EvidenceGraph::new();
    let svc_slow = g.add_node(Node::service("slow".into()));
    let svc_caller = g.add_node(Node::service("caller".into()));
    let caller_span = g.add_node(span_node("c1", "caller", SpanStatus::Success, 800, None));
    let slow_span = g.add_node(span_node("s1", "slow", SpanStatus::Success, 790, Some("c1")));
    g.add_edge(Edge { from: caller_span, to: svc_caller, kind: EdgeKind::EmittedBy });
    g.add_edge(Edge { from: slow_span, to: svc_slow, kind: EdgeKind::EmittedBy });
    g.add_edge(Edge { from: "span:c1".into(), to: "span:s1".into(), kind: EdgeKind::ParentOf });

    let ev = gather_evidence(&g, &CorrelationConfig::default(), None);
    assert_eq!(ev.services, vec!["slow".to_string(), "caller".to_string()]);
    assert_eq!(ev.slow.len(), 1, "the caller's self-time (10 ms) is below the threshold");
    assert_eq!(ev.slow[0].service, "slow");
    assert_eq!(ev.slow[0].node, "span:s1");
    assert_eq!(ev.slow[0].self_ms, 790);
    assert!(ev.direct.is_empty());
    assert!(ev.blame.is_empty());
}

#[test]
fn error_span_counts_against_its_service() {
    let mut g = EvidenceGraph::new();
    let bad = g.add_node(Node::service("bad".into()));
    let _good = g.add_node(Node::service("good".into()));
    let sp = g.add_node(span_node("s1", "bad", SpanStatus::Error, 10, None));
    g.add_edge(Edge { from: sp, to: bad.clone(), kind: EdgeKind::EmittedBy });
    let ev = gather_evidence(&g, &CorrelationConfig::default(), None);
    assert_eq!(ev.direct.len(), 1);
    assert_eq!(ev.direct[0].0, "bad");
    match &ev.direct[0].1 {
        Contribution::ErrorSpan { node, duration_ms } => {
            assert_eq!(node, "span:s1");
            assert_eq!(*duration_ms, 10);
        }
        _ => panic!("expected an error span"),
    }
    assert!(ev.slow.is_empty(), "a failing span is not slow evidence");
}

#[test]
fn another_error_span_adds_evidence() {
    let cfg = CorrelationConfig::default();
    let mut g = EvidenceGraph::new();
    let svc = g.add_node(Node::service("s".into()));
    let s1 = g.add_node(span_node("a", "s", SpanStatus::Error, 10, None));
    g.add_edge(Edge { from: s1, to: svc.clone(), kind: EdgeKind::EmittedBy });
    let before = gather_evidence(&g, &cfg, None).direct.len();
    let s2 = g.add_node(span_node("b", "s", SpanStatus::Error, 10, None));
    g.add_edge(Edge { from: s2, to: svc.clone(), kind: EdgeKind::EmittedBy });
    let after = gather_evidence(&g, &cfg, None).direct.len();
    assert_eq!(before, 1);
    assert_eq!(after, 2);
}

#[test]
fn blame_walks_caused_by_edges_up_to_the_depth() {
    let mut g = EvidenceGraph::new();
    for (id, svc, parent) in [("a", "front", None), ("b", "mid", Some("a")), ("c", "back", Some("b"))] {
        g.add_node(Node::service(svc.into()));
        g.add_node(span_node(id, svc, SpanStatus::Error, 5, parent));
    }
    g.add_edge(Edge { from: "span:c".into(), to: "span:b".into(), kind: EdgeKind::CausedBy });
    g.add_edge(Edge { from: "span:b".into(), to: "span:a".into(), kind: EdgeKind::CausedBy });
    let ev = gather_evidence(&g, &CorrelationConfig::default(), None);
    let steps: Vec<(String, String, u8)> =
        ev.blame.iter().map(|b| (b.source.clone(), b.target.clone(), b.depth)).collect();
    assert_eq!(
        steps,
        vec![
            ("mid".to_string(), "front".to_string(), 1),
            ("back".to_string(), "mid".to_string(), 1),
            ("back".to_string(), "front".to_string(), 2),
        ]
    );
}

#[test]
fn anomalies_near_the_trigger_are_tight() {
    let mut g = EvidenceGraph::new();
    for (id, svc, start_s) in [("x", "near", 10i64), ("y", "far", 45)] {
        g.add_node(Node::MetricAnomaly {
            id: id.into(),
            service: svc.into(),
            metric: "p99".into(),
            window_start: T0 + start_s * 1_000_000_000,
            window_end: T0 + (start_s + 5) * 1_000_000_000,
            severity: 0,
            detector: "zscore".into(),
            baseline_mean: 0,
            observed_peak: 0,
        });
    }
    let ev = gather_evidence(&g, &CorrelationConfig::default(), Some(T0));
    assert_eq!(ev.tight, vec!["near".to_string()]);
    let none = gather_evidence(&g, &CorrelationConfig::default(), None);
    assert!(none.tight.is_empty());
}

#[test]
fn blame_stops_at_the_configured_depth() {
    let mut g = EvidenceGraph::new();
    for (id, svc, parent) in [("a", "front", None), ("b", "mid", Some("a")), ("c", "back", Some("b"))] {
        g.add_node(Node::service(svc.into()));
        g.add_node(span_node(id, svc, SpanStatus::Error, 5, parent));
    }
    g.add_edge(Edge { from: "span:c".into(), to: "span:b".into(), kind: EdgeKind::CausedBy });
    g.add_edge(Edge { from: "span:b".into(), to: "span:a".into(), kind: EdgeKind::CausedBy });
    let mut cfg = CorrelationConfig::default();
    cfg.causal_propagation_max_depth = 1;
    let ev = gather_evidence(&g, &cfg, None);
    assert_eq!(ev.blame.len(), 2);
    assert!(ev.blame.iter().all(|b| b.depth == 1));
    assert_eq!(ev.blame[1].source, "back");
    assert_eq!(ev.blame[1].target, "mid");
}
