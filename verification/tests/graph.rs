use correlation_core::backend::{LogRecord, Span, SpanStatus};
use correlation_core::config::CorrelationConfig;
use correlation_core::graph::builder::{build_from, EvidenceGraph};
use correlation_core::graph::edges::{Edge, EdgeKind};
use correlation_core::graph::invariants::{check_no_caused_by_cycles, check_no_dangling};
use correlation_core::graph::nodes::{Node, NodeId};

const T0: i64 = 1_716_465_600_000_000_000;

fn span(id: &str, service: &str, parent: Option<&str>, status: SpanStatus, duration_ms: i64) -> Span {
    Span {
        span_id: id.into(),
        trace_id: "t1".into(),
        parent_id: parent.map(|p| p.to_string()),
        service: service.into(),
        operation: "op".into(),
        start: T0,
        duration_ms,
        status,
        status_message: None,
        attributes: vec![],
    }
}

fn log(service: &str, level: &str, ts: i64, message: &str) -> LogRecord {
    LogRecord { ts, service: service.into(), level: level.into(), message: message.into(), trace_id: None }
}

#[test]
fn node_ids_are_stable_and_unique() {
    let svc = Node::service("auth".into());
    let svc2 = Node::service("auth".into());
    let other = Node::service("accounts".into());
    assert_eq!(svc.id(), svc2.id());
    assert_ne!(svc.id(), other.id());
    let _: NodeId = svc.id();
}

#[test]
fn graph_dedups_nodes_and_edges() {
    let mut g = EvidenceGraph::new();
    let svc = Node::service("auth".into());
    let id1 = g.add_node(svc.clone());
    let id2 = g.add_node(svc.clone());
    assert_eq!(id1, id2);
    assert_eq!(g.node_count(), 1);
    let e = Edge { from: id1.clone(), to: id1.clone(), kind: EdgeKind::EmittedBy };
    g.add_edge(e.clone());
    g.add_edge(e);
    assert_eq!(g.edge_count(), 1);
}

#[test]
fn graph_rejects_dangling_edge_in_strict_mode() {
    let mut g = EvidenceGraph::new();
    let e = Edge { from: "svc:foo".into(), to: "svc:bar".into(), kind: EdgeKind::EmittedBy };
    let res = g.add_edge_strict(e);
    assert!(res.is_err());
}

#[test]
fn node_ids_carry_their_kind() {
    assert_eq!(Node::service("auth".into()).id(), "svc:auth");
    let sp = Node::Span {
        id: "s1".into(),
        service: "auth".into(),
        operation: "login".into(),
        status: SpanStatus::Success,
        start: T0,
        duration_ms: 5,
        parent: None,
        status_message: None,
    };
    assert_eq!(sp.id(), "span:s1");
    assert_eq!(sp.service_name(), Some("auth"));
    assert_eq!(Node::service("auth".into()).service_name(), Some("auth"));
}

#[test]
fn strict_rejection_names_the_missing_end() {
    let mut g = EvidenceGraph::new();
    g.add_node(Node::service("foo".into()));
    let to_missing = Edge { from: "svc:foo".into(), to: "svc:bar".into(), kind: EdgeKind::EmittedBy };
    assert_eq!(g.add_edge_strict(to_missing), Err("dangling to: svc:bar".to_string()));
    let from_missing = Edge { from: "svc:baz".into(), to: "svc:foo".into(), kind: EdgeKind::EmittedBy };
    assert_eq!(g.add_edge_strict(from_missing), Err("dangling from: svc:baz".to_string()));
    assert_eq!(g.edge_count(), 0);
    let ok = Edge { from: "svc:foo".into(), to: "svc:foo".into(), kind: EdgeKind::EmittedBy };
    assert_eq!(g.add_edge_strict(ok.clone()), Ok(true));
    assert_eq!(g.add_edge_strict(ok), Ok(false));
    assert_eq!(g.edge_count(), 1);
}

#[test]
fn strict_insertions_between_services_keep_the_invariants() {
    let mut g = EvidenceGraph::new();
    let svcs = ["a", "b", "c", "d"];
    for s in &svcs {
        g.add_node(Node::service((*s).to_string()));
    }
    let pairs = [(0, 1), (1, 2), (2, 0), (3, 3), (1, 0), (0, 1), (2, 3), (3, 1)];
    for (f, t) in pairs {
        let r = g.add_edge_strict(Edge {
            from: format!("svc:{}", svcs[f]),
            to: format!("svc:{}", svcs[t]),
            kind: EdgeKind::EmittedBy,
        });
        assert!(r.is_ok());
    }
    assert_eq!(g.edge_count(), 7);
    assert!(check_no_dangling(&g).is_ok());
    assert!(check_no_caused_by_cycles(&g).is_ok());
}

#[test]
fn dangling_check_names_the_first_dangling_edge() {
    let mut g = EvidenceGraph::new();
    g.add_node(Node::service("a".into()));
    g.add_edge(Edge { from: "svc:a".into(), to: "svc:a".into(), kind: EdgeKind::EmittedBy });
    g.add_edge(Edge { from: "svc:a".into(), to: "svc:zz".into(), kind: EdgeKind::EmittedBy });
    g.add_edge(Edge { from: "svc:yy".into(), to: "svc:a".into(), kind: EdgeKind::EmittedBy });
    assert_eq!(check_no_dangling(&g), Err("dangling to svc:zz".to_string()));
}

#[test]
fn caused_by_cycle_is_reported() {
    let mut g = EvidenceGraph::new();
    g.add_node(Node::service("x".into()));
    for id in ["p", "q"] {
        g.add_node(Node::Span {
            id: id.into(),
            service: "x".into(),
            operation: "op".into(),
            status: SpanStatus::Error,
            start: T0,
            duration_ms: 1,
            parent: None,
            status_message: None,
        });
    }
    g.add_edge(Edge { from: "span:p".into(), to: "span:q".into(), kind: EdgeKind::CausedBy });
    assert!(check_no_caused_by_cycles(&g).is_ok());
    g.add_edge(Edge { from: "span:q".into(), to: "span:p".into(), kind: EdgeKind::CausedBy });
    assert_eq!(check_no_caused_by_cycles(&g), Err("cycle through span:p".to_string()));
}

#[test]
fn edges_by_end_and_kind() {
    let mut g = EvidenceGraph::new();
    g.add_edge(Edge { from: "span:a".into(), to: "svc:s".into(), kind: EdgeKind::EmittedBy });
    g.add_edge(Edge { from: "span:b".into(), to: "svc:s".into(), kind: EdgeKind::EmittedBy });
    g.add_edge(Edge { from: "span:a".into(), to: "span:b".into(), kind: EdgeKind::ParentOf });
    let to_s = g.edges_to(&"svc:s".to_string(), EdgeKind::EmittedBy);
    assert_eq!(to_s.len(), 2);
    assert_eq!(to_s[0].from, "span:a");
    assert_eq!(to_s[1].from, "span:b");
    let from_a = g.edges_from(&"span:a".to_string(), EdgeKind::ParentOf);
    assert_eq!(from_a.len(), 1);
    assert_eq!(from_a[0].to, "span:b");
    assert_eq!(g.edges().len(), 3);
}

#[test]
fn build_from_links_spans_services_and_log_batches() {
    let spans = vec![
        span("root", "api", None, SpanStatus::Success, 100),
        span("child", "db", Some("root"), SpanStatus::Error, 80),
    ];
    let logs = vec![
        log("db", "ERROR", T0 + 1_000_000_000, "timeout"),
        log("db", "ERROR", T0 + 2_000_000_000, "timeout again"),
        log("api", "INFO", T0, "request"),
    ];
    let g = build_from(&spans, &logs, &[], &CorrelationConfig::default());
    // two services, two spans, two log batches
    assert_eq!(g.node_count(), 6);
    let ids: Vec<String> = g.nodes().into_iter().map(|(id, _)| id).collect();
    assert_eq!(ids, vec!["svc:api", "span:root", "svc:db", "span:child", "lb:lb_0", "lb:lb_1"]);
    // the failing child blames its parent
    let blame = g.edges_from(&"span:child".to_string(), EdgeKind::CausedBy);
    assert_eq!(blame.len(), 1);
    assert_eq!(blame[0].to, "span:root");
    let parent = g.edges_from(&"span:root".to_string(), EdgeKind::ParentOf);
    assert_eq!(parent.len(), 1);
    match g.get(&"lb:lb_1".to_string()) {
        Some(Node::LogBatch { service, level, count, samples, bucket_start, .. }) => {
            assert_eq!(service, "db");
            assert_eq!(level, "ERROR");
            assert_eq!(*count, 2);
            assert_eq!(samples, &vec!["timeout".to_string(), "timeout again".to_string()]);
            assert_eq!(*bucket_start, 1_716_465_600);
        }
        other => panic!("unexpected node {other:?}"),
    }
    assert!(check_no_dangling(&g).is_ok());
    assert!(check_no_caused_by_cycles(&g).is_ok());
}

#[test]
fn lookup_gives_the_first_node_added_under_an_id() {
    let mut g = EvidenceGraph::new();
    let first = Node::Span {
        id: "s1".into(),
        service: "a".into(),
        operation: "first".into(),
        status: SpanStatus::Success,
        start: T0,
        duration_ms: 5,
        parent: None,
        status_message: None,
    };
    let second = Node::Span {
        id: "s1".into(),
        service: "b".into(),
        operation: "second".into(),
        status: SpanStatus::Error,
        start: T0,
        duration_ms: 9,
        parent: None,
        status_message: None,
    };
    assert!(g.get(&"span:s1".to_string()).is_none());
    g.add_node(first);
    g.add_node(second);
    match g.get(&"span:s1".to_string()) {
        Some(Node::Span { operation, duration_ms, .. }) => {
            assert_eq!(operation, "first");
            assert_eq!(*duration_ms, 5);
        }
        other => panic!("unexpected node {other:?}"),
    }
    assert_eq!(g.node_count(), 1);
}

#[test]
fn build_from_needs_no_bucket_width_without_logs() {
    let mut cfg = CorrelationConfig::default();
    cfg.log_bucket_sec = 0;
    let spans = vec![span("root", "api", None, SpanStatus::Success, 100)];
    let g = build_from(&spans, &[], &[], &cfg);
    assert_eq!(g.node_count(), 2);
    assert_eq!(g.edge_count(), 1);
}
