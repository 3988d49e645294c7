//! The evidence that ranks suspect services, read off the evidence graph.
//!
//! Weighting and summing the evidence is real arithmetic and happens where
//! the scores are formed; this module decides which evidence counts, for
//! which service, and how far blame travels.
use vstd::prelude::*;
use crate::backend::{F64Bits, SpanStatus, UnixNanos};
use crate::config::CorrelationConfig;
use crate::graph::builder::{
    EvidenceGraph, GraphView, add_edge_spec, add_node_spec, distinct_ids, edges_from_spec, has_id, lookup,
    lemma_lookup_push,
};
use crate::graph::invariants::{dangling, no_dangling};
use crate::graph::nodes::service_node_id;
use crate::graph::edges::{Edge, EdgeKind, EdgeView};
use crate::graph::nodes::{Node, NodeId, NodeView, node_id};
use crate::json::text_eq;

verus! {

/// Direct evidence against a service.
pub enum Contribution {
    /// A failing span: its node id and its duration.
    ErrorSpan { node: String, duration_ms: i64 },
    /// A batch of `ERROR` log lines: its node id and its size.
    ErrorLogBatch { node: String, count: usize },
    /// A metric anomaly: its node id and its severity.
    Anomaly { node: String, severity: F64Bits },
}

/// A contribution as the specifications see it.
pub enum ContributionView {
    ErrorSpan { node: Seq<char>, duration_ms: i64 },
    ErrorLogBatch { node: Seq<char>, count: usize },
    Anomaly { node: Seq<char>, severity: F64Bits },
}

impl View for Contribution {
    type V = ContributionView;

    open spec fn view(&self) -> ContributionView {
        match self {
            Contribution::ErrorSpan { node, duration_ms } => ContributionView::ErrorSpan {
                node: node@,
                duration_ms: *duration_ms,
            },
            Contribution::ErrorLogBatch { node, count } => ContributionView::ErrorLogBatch {
                node: node@,
                count: *count,
            },
            Contribution::Anomaly { node, severity } => ContributionView::Anomaly {
                node: node@,
                severity: *severity,
            },
        }
    }
}

/// Blame that reaches `target` from a span of `source`, `depth` steps
/// along `CausedBy` edges away (it is weighted by the propagation factor to
/// the power `depth`).
pub struct Blame {
    pub source: String,
    pub target: String,
    pub depth: u8,
}

/// A successful span whose own work took longer than the threshold.
pub struct SlowSpan {
    pub service: String,
    pub node: String,
    /// Its duration less the durations of its child spans, in milliseconds.
    pub self_ms: i128,
}

/// Everything the scores of a ranking are formed from.
pub struct RankingEvidence {
    /// The services of the graph, once each, in node order.
    pub services: Vec<String>,
    /// Direct evidence, with the service it counts against, in edge order.
    pub direct: Vec<(String, Contribution)>,
    /// Propagated blame, span by span in node order, step by step.
    pub blame: Vec<Blame>,
    /// Slow successful spans, in node order.
    pub slow: Vec<SlowSpan>,
    /// Services with an anomaly that began within 30 seconds of the anomaly
    /// under investigation, in node order.
    pub tight: Vec<String>,
}

/// A service with the weights of its ranking; the weights are formed from
/// a `RankingEvidence` where the arithmetic is done.
pub struct ScoredSuspect {
    pub service: String,
    pub score: F64Bits,
    pub direct_error: F64Bits,
    pub direct_anomaly: F64Bits,
    pub propagated: F64Bits,
    pub direct_latency: F64Bits,
    pub temporal_mult: F64Bits,
    /// Kind, referenced id and weight of each piece of evidence.
    pub contributors: Vec<(String, String, F64Bits)>,
}

/// The services of some nodes, in order.
pub open spec fn service_names(nodes: Seq<NodeView>) -> Seq<Seq<char>>
    decreases nodes.len(),
{
    if nodes.len() == 0 {
        Seq::empty()
    } else {
        let rest = service_names(nodes.drop_last());
        match nodes.last() {
            NodeView::Service { name } => rest.push(name),
            _ => rest,
        }
    }
}

/// The direct evidence that edge `e` carries: an `EmittedBy` edge from a
/// failing span, a batch of `ERROR` lines or an anomaly to a service node.
pub open spec fn direct_of(g: GraphView, e: EdgeView) -> Option<(Seq<char>, ContributionView)> {
    if e.kind != EdgeKind::EmittedBy {
        None
    } else {
        match (lookup(g.nodes, e.to), lookup(g.nodes, e.from)) {
            (Some(NodeView::Service { name }), Some(n)) => match n {
                NodeView::Span { id, status, duration_ms, .. } => if status == SpanStatus::Error {
                    Some((name, ContributionView::ErrorSpan { node: "span:"@ + id, duration_ms }))
                } else {
                    None
                },
                NodeView::LogBatch { id, level, count, .. } => if level == "ERROR"@ {
                    Some((name, ContributionView::ErrorLogBatch { node: "lb:"@ + id, count }))
                } else {
                    None
                },
                NodeView::MetricAnomaly { id, severity, .. } => Some(
                    (name, ContributionView::Anomaly { node: "anom:"@ + id, severity }),
                ),
                _ => None,
            },
            _ => None,
        }
    }
}

/// The direct evidence of some edges, in order.
pub open spec fn direct_list(g: GraphView, edges: Seq<EdgeView>) -> Seq<(Seq<char>, ContributionView)>
    decreases edges.len(),
{
    if edges.len() == 0 {
        Seq::empty()
    } else {
        let rest = direct_list(g, edges.drop_last());
        match direct_of(g, edges.last()) {
            Some(x) => rest.push(x),
            None => rest,
        }
    }
}

/// The services that blame reaches when it walks from `cur` along the
/// first `CausedBy` edge of each node, at most `left` steps, with the step
/// count at which it reaches them; steps that land on a node that is not a
/// span are walked through without blaming anyone.
pub open spec fn walk(g: GraphView, cur: Seq<char>, left: nat, depth: nat) -> Seq<(Seq<char>, nat)>
    decreases left,
{
    if left == 0 {
        Seq::empty()
    } else {
        let outs = edges_from_spec(g.edges, cur, EdgeKind::CausedBy);
        if outs.len() == 0 {
            Seq::empty()
        } else {
            let t = outs[0].to;
            let here = match lookup(g.nodes, t) {
                Some(NodeView::Span { service, .. }) => seq![(service, (depth + 1) as nat)],
                _ => Seq::empty(),
            };
            here + walk(g, t, (left - 1) as nat, (depth + 1) as nat)
        }
    }
}

/// The blame a span node starts, tagged with its service.
pub open spec fn blame_of(g: GraphView, n: NodeView, max_depth: nat) -> Seq<(Seq<char>, Seq<char>, nat)> {
    match n {
        NodeView::Span { service, .. } => walk(g, node_id(n), max_depth, 0).map_values(
            |x: (Seq<char>, nat)| (service, x.0, x.1),
        ),
        _ => Seq::empty(),
    }
}

/// The blame of some nodes, in order.
pub open spec fn blame_list(g: GraphView, nodes: Seq<NodeView>, max_depth: nat) -> Seq<(Seq<char>, Seq<char>, nat)>
    decreases nodes.len(),
{
    if nodes.len() == 0 {
        Seq::empty()
    } else {
        blame_list(g, nodes.drop_last(), max_depth) + blame_of(g, nodes.last(), max_depth)
    }
}

/// The total duration of the span children of `parent` among `edges`.
pub open spec fn child_sum(g: GraphView, edges: Seq<EdgeView>, parent: Seq<char>) -> int
    decreases edges.len(),
{
    if edges.len() == 0 {
        0
    } else {
        let e = edges.last();
        let here: int = if e.kind == EdgeKind::ParentOf && e.from == parent {
            match lookup(g.nodes, e.to) {
                Some(NodeView::Span { duration_ms, .. }) => duration_ms as int,
                _ => 0,
            }
        } else {
            0
        };
        child_sum(g, edges.drop_last(), parent) + here
    }
}

/// A successful span node whose self-time exceeds `threshold`, with its
/// service, its id and its self-time.
pub open spec fn slow_of(g: GraphView, n: NodeView, threshold: i64) -> Option<(Seq<char>, Seq<char>, int)> {
    match n {
        NodeView::Span { service, status, duration_ms, .. } => {
            let self_ms = duration_ms - child_sum(g, g.edges, node_id(n));
            if status != SpanStatus::Error && self_ms > threshold {
                Some((service, node_id(n), self_ms))
            } else {
                None
            }
        },
        _ => None,
    }
}

/// The slow spans among some nodes, in order.
pub open spec fn slow_list(g: GraphView, nodes: Seq<NodeView>, threshold: i64) -> Seq<(Seq<char>, Seq<char>, int)>
    decreases nodes.len(),
{
    if nodes.len() == 0 {
        Seq::empty()
    } else {
        let rest = slow_list(g, nodes.drop_last(), threshold);
        match slow_of(g, nodes.last(), threshold) {
            Some(x) => rest.push(x),
            None => rest,
        }
    }
}

/// Whole seconds between two instants, rounded towards zero.
pub open spec fn whole_seconds_between(a: UnixNanos, b: UnixNanos) -> int {
    let d = (a as int) - (b as int);
    if d >= 0 { d / 1_000_000_000 } else { -((-d) / 1_000_000_000) }
}

/// The services whose anomaly window starts less than 30 whole seconds
/// away from `t0`, among some nodes, in order.
pub open spec fn tight_list(nodes: Seq<NodeView>, t0: UnixNanos) -> Seq<Seq<char>>
    decreases nodes.len(),
{
    if nodes.len() == 0 {
        Seq::empty()
    } else {
        let rest = tight_list(nodes.drop_last(), t0);
        match nodes.last() {
            NodeView::MetricAnomaly { service, window_start, .. } => {
                let s = whole_seconds_between(window_start, t0);
                if -30 < s < 30 { rest.push(service) } else { rest }
            },
            _ => rest,
        }
    }
}

/// The texts of a list of strings.
pub open spec fn texts(v: Seq<String>) -> Seq<Seq<char>> {
    v.map_values(|s: String| s@)
}

fn services_of(nodes: &Vec<(NodeId, Node)>, Ghost(nv): Ghost<Seq<NodeView>>) -> (r: Vec<String>)
    requires
        nodes@.len() == nv.len(),
        forall|j: int| 0 <= j < nv.len() ==> (#[trigger] nodes@[j]).1@ == nv[j],
    ensures
        texts(r@) == service_names(nv),
{
    let mut r: Vec<String> = Vec::new();
    let mut i: usize = 0;
    while i < nodes.len()
        invariant
            i <= nodes@.len(),
            nodes@.len() == nv.len(),
            forall|j: int| 0 <= j < nv.len() ==> (#[trigger] nodes@[j]).1@ == nv[j],
            texts(r@) == service_names(nv.take(i as int)),
        decreases nodes@.len() - i,
    {
        proof {
            assert(nv.take(i + 1).drop_last() =~= nv.take(i as int));
            assert(nv.take(i + 1).last() == nv[i as int]);
        }
        match &nodes[i].1 {
            Node::Service { name } => {
                r.push(name.clone());
                proof {
                    assert(texts(r@) =~= service_names(nv.take(i as int)).push(name@));
                }
            },
            _ => {},
        }
        i = i + 1;
    }
    assert(nv.take(nv.len() as int) =~= nv);
    r
}

fn direct_for(g: &EvidenceGraph, e: &Edge) -> (r: Option<(String, Contribution)>)
    requires
        g.wf(),
    ensures
        match r {
            Some(x) => direct_of(g@, e@) == Some((x.0@, x.1@)),
            None => direct_of(g@, e@) is None,
        },
{
    if e.kind != EdgeKind::EmittedBy {
        return None;
    }
    let svc = g.get(&e.to);
    let from = g.get(&e.from);
    match (svc, from) {
        (Some(Node::Service { name }), Some(n)) => match n {
            Node::Span { id, status, duration_ms, .. } => if *status == SpanStatus::Error {
                Some(
                    (
                        name.clone(),
                        Contribution::ErrorSpan {
                            node: crate::text::concat("span:", id.as_str()),
                            duration_ms: *duration_ms,
                        },
                    ),
                )
            } else {
                None
            },
            Node::LogBatch { id, level, count, .. } => if text_eq(level.as_str(), "ERROR") {
                Some(
                    (
                        name.clone(),
                        Contribution::ErrorLogBatch {
                            node: crate::text::concat("lb:", id.as_str()),
                            count: *count,
                        },
                    ),
                )
            } else {
                None
            },
            Node::MetricAnomaly { id, severity, .. } => Some(
                (
                    name.clone(),
                    Contribution::Anomaly {
                        node: crate::text::concat("anom:", id.as_str()),
                        severity: *severity,
                    },
                ),
            ),
            _ => None,
        },
        _ => None,
    }
}

/// The views of a list of direct contributions.
pub open spec fn direct_view(v: Seq<(String, Contribution)>) -> Seq<(Seq<char>, ContributionView)> {
    v.map_values(|x: (String, Contribution)| (x.0@, x.1@))
}

fn direct_evidence(g: &EvidenceGraph) -> (r: Vec<(String, Contribution)>)
    requires
        g.wf(),
    ensures
        direct_view(r@) == direct_list(g@, g@.edges),
{
    let es = g.edges();
    let ghost ev = g@.edges;
    let mut r: Vec<(String, Contribution)> = Vec::new();
    let mut i: usize = 0;
    while i < es.len()
        invariant
            g.wf(),
            ev == g@.edges,
            es@.map_values(|e: Edge| e@) == ev,
            i <= es@.len(),
            direct_view(r@) == direct_list(g@, ev.take(i as int)),
        decreases es@.len() - i,
    {
        proof {
            assert(es@.map_values(|e: Edge| e@)[i as int] == es@[i as int]@);
            assert(ev.take(i + 1).drop_last() =~= ev.take(i as int));
            assert(ev.take(i + 1).last() == ev[i as int]);
        }
        match direct_for(g, &es[i]) {
            Some(x) => {
                let ghost xv = (x.0@, x.1@);
                r.push(x);
                proof {
                    assert(direct_view(r@) =~= direct_list(g@, ev.take(i as int)).push(xv));
                }
            },
            None => {},
        }
        i = i + 1;
    }
    assert(ev.take(ev.len() as int) =~= ev);
    r
}

fn walk_from(g: &EvidenceGraph, start: &NodeId, source: &String, max_depth: u8, out: &mut Vec<Blame>)
    requires
        g.wf(),
    ensures
        blame_view(final(out)@) == blame_view(old(out)@) + walk(g@, start@, max_depth as nat, 0).map_values(
            |x: (Seq<char>, nat)| (source@, x.0, x.1),
        ),
{
    let ghost base = blame_view(out@);
    let ghost total = walk(g@, start@, max_depth as nat, 0);
    let ghost tag = |x: (Seq<char>, nat)| (source@, x.0, x.1);
    let mut current: NodeId = start.clone();
    let mut depth: u8 = 0;
    let mut stop = false;
    proof {
        assert(blame_view(out@) =~= base + Seq::<(Seq<char>, nat)>::empty().map_values(tag));
    }
    let ghost mut done: Seq<(Seq<char>, nat)> = Seq::empty();
    while depth < max_depth && !stop
        invariant
            g.wf(),
            depth <= max_depth,
            tag == (|x: (Seq<char>, nat)| (source@, x.0, x.1)),
            total == walk(g@, start@, max_depth as nat, 0),
            stop ==> total == done,
            !stop ==> total == done + walk(g@, current@, (max_depth - depth) as nat, depth as nat),
            blame_view(out@) == base + done.map_values(tag),
        decreases max_depth - depth, if stop { 0int } else { 1int },
    {
        let outs = g.edges_from(&current, EdgeKind::CausedBy);
        let ghost rest = walk(g@, current@, (max_depth - depth) as nat, depth as nat);
        if outs.len() == 0 {
            proof {
                assert(outs@.map_values(|e: Edge| e@).len() == 0);
                assert(rest =~= Seq::<(Seq<char>, nat)>::empty());
                assert(total =~= done);
            }
            stop = true;
        } else {
            let target = outs[0].to.clone();
            proof {
                assert(outs@.map_values(|e: Edge| e@)[0] == outs@[0]@);
            }
            let ghost here: Seq<(Seq<char>, nat)> = match lookup(g@.nodes, target@) {
                Some(NodeView::Span { service, .. }) => seq![(service, (depth + 1) as nat)],
                _ => Seq::empty(),
            };
            match g.get(&target) {
                Some(Node::Span { service, .. }) => {
                    let ghost before = out@;
                    out.push(Blame { source: source.clone(), target: service.clone(), depth: depth + 1 });
                    proof {
                        assert(here == seq![(service@, (depth + 1) as nat)]);
                        assert(blame_view(out@) =~= blame_view(before).push((source@, service@, (depth + 1) as nat)));
                        assert((done + here).map_values(tag) =~= done.map_values(tag).push(tag((service@, (depth + 1) as nat))));
                        assert(blame_view(out@) =~= base + (done + here).map_values(tag));
                    }
                },
                _ => {
                    proof {
                        assert(here =~= Seq::<(Seq<char>, nat)>::empty());
                        assert(done + here =~= done);
                    }
                },
            }
            proof {
                assert(rest == here + walk(g@, target@, (max_depth - depth - 1) as nat, (depth + 1) as nat));
                assert(total =~= (done + here) + walk(g@, target@, (max_depth - depth - 1) as nat, (depth + 1) as nat));
                done = done + here;
            }
            current = target;
            depth = depth + 1;
        }
    }
    proof {
        if !stop {
            assert(walk(g@, current@, 0, depth as nat) =~= Seq::<(Seq<char>, nat)>::empty());
            assert(total =~= done);
        }
    }
}

/// The views of a list of blame steps.
pub open spec fn blame_view(v: Seq<Blame>) -> Seq<(Seq<char>, Seq<char>, nat)> {
    v.map_values(|b: Blame| (b.source@, b.target@, b.depth as nat))
}

fn blame_evidence(g: &EvidenceGraph, nodes: &Vec<(NodeId, Node)>, max_depth: u8) -> (r: Vec<Blame>)
    requires
        g.wf(),
        nodes@.len() == g@.nodes.len(),
        forall|j: int| 0 <= j < nodes@.len() ==> (#[trigger] nodes@[j]).1@ == g@.nodes[j]
            && nodes@[j].0@ == node_id(g@.nodes[j]),
    ensures
        blame_view(r@) == blame_list(g@, g@.nodes, max_depth as nat),
{
    let ghost nv = g@.nodes;
    let mut r: Vec<Blame> = Vec::new();
    let mut i: usize = 0;
    proof {
        assert(blame_view(r@) =~= Seq::<(Seq<char>, Seq<char>, nat)>::empty());
    }
    while i < nodes.len()
        invariant
            g.wf(),
            nv == g@.nodes,
            nodes@.len() == nv.len(),
            forall|j: int| 0 <= j < nodes@.len() ==> (#[trigger] nodes@[j]).1@ == nv[j]
                && nodes@[j].0@ == node_id(nv[j]),
            i <= nodes@.len(),
            blame_view(r@) == blame_list(g@, nv.take(i as int), max_depth as nat),
        decreases nodes@.len() - i,
    {
        proof {
            assert(nv.take(i + 1).drop_last() =~= nv.take(i as int));
            assert(nv.take(i + 1).last() == nv[i as int]);
        }
        let (id, n) = (&nodes[i].0, &nodes[i].1);
        match n {
            Node::Span { service, .. } => {
                walk_from(g, id, service, max_depth, &mut r);
            },
            _ => {
                proof {
                    assert(blame_of(g@, nv[i as int], max_depth as nat) =~= Seq::<(Seq<char>, Seq<char>, nat)>::empty());
                    assert(blame_view(r@) =~= blame_list(g@, nv.take(i as int), max_depth as nat) + Seq::<(Seq<char>, Seq<char>, nat)>::empty());
                }
            },
        }
        i = i + 1;
    }
    assert(nv.take(nv.len() as int) =~= nv);
    r
}

fn child_total(g: &EvidenceGraph, es: &Vec<Edge>, parent: &NodeId) -> (r: i128)
    requires
        g.wf(),
        es@.map_values(|e: Edge| e@) == g@.edges,
    ensures
        r as int == child_sum(g@, g@.edges, parent@),
        -(es@.len() as int) * 0x8000_0000_0000_0000 <= r <= (es@.len() as int) * 0x8000_0000_0000_0000,
{
    let ghost ev = g@.edges;
    let mut total: i128 = 0;
    let mut i: usize = 0;
    while i < es.len()
        invariant
            g.wf(),
            ev == g@.edges,
            es@.map_values(|e: Edge| e@) == ev,
            i <= es@.len(),
            total as int == child_sum(g@, ev.take(i as int), parent@),
            -(i as int) * 0x8000_0000_0000_0000 <= total <= (i as int) * 0x8000_0000_0000_0000,
        decreases es@.len() - i,
    {
        proof {
            assert(es@.map_values(|e: Edge| e@)[i as int] == es@[i as int]@);
            assert(ev.take(i + 1).drop_last() =~= ev.take(i as int));
            assert(ev.take(i + 1).last() == ev[i as int]);
        }
        let e = &es[i];
        if e.kind == EdgeKind::ParentOf && text_eq(e.from.as_str(), parent.as_str()) {
            match g.get(&e.to) {
                Some(Node::Span { duration_ms, .. }) => {
                    total = total + (*duration_ms as i128);
                },
                _ => {},
            }
        }
        i = i + 1;
    }
    assert(ev.take(ev.len() as int) =~= ev);
    total
}

/// The views of a list of slow spans.
pub open spec fn slow_view(v: Seq<SlowSpan>) -> Seq<(Seq<char>, Seq<char>, int)> {
    v.map_values(|s: SlowSpan| (s.service@, s.node@, s.self_ms as int))
}

fn slow_evidence(g: &EvidenceGraph, nodes: &Vec<(NodeId, Node)>, threshold: i64) -> (r: Vec<SlowSpan>)
    requires
        g.wf(),
        nodes@.len() == g@.nodes.len(),
        forall|j: int| 0 <= j < nodes@.len() ==> (#[trigger] nodes@[j]).1@ == g@.nodes[j]
            && nodes@[j].0@ == node_id(g@.nodes[j]),
    ensures
        slow_view(r@) == slow_list(g@, g@.nodes, threshold),
{
    let es = g.edges();
    let ne = es.len();
    let ghost nv = g@.nodes;
    let mut r: Vec<SlowSpan> = Vec::new();
    let mut i: usize = 0;
    proof {
        assert(slow_view(r@) =~= Seq::<(Seq<char>, Seq<char>, int)>::empty());
        assert(es@.len() == g@.edges.len());
    }
    while i < nodes.len()
        invariant
            g.wf(),
            nv == g@.nodes,
            es@.map_values(|e: Edge| e@) == g@.edges,
            es@.len() == ne,
            nodes@.len() == nv.len(),
            forall|j: int| 0 <= j < nodes@.len() ==> (#[trigger] nodes@[j]).1@ == nv[j]
                && nodes@[j].0@ == node_id(nv[j]),
            i <= nodes@.len(),
            slow_view(r@) == slow_list(g@, nv.take(i as int), threshold),
        decreases nodes@.len() - i,
    {
        proof {
            assert(nv.take(i + 1).drop_last() =~= nv.take(i as int));
            assert(nv.take(i + 1).last() == nv[i as int]);
        }
        let (id, n) = (&nodes[i].0, &nodes[i].1);
        match n {
            Node::Span { service, status, duration_ms, .. } => {
                let children = child_total(g, &es, id);
                let self_ms: i128 = (*duration_ms as i128) - children;
                if *status != SpanStatus::Error && self_ms > threshold as i128 {
                    r.push(SlowSpan { service: service.clone(), node: id.clone(), self_ms });
                    proof {
                        assert(slow_view(r@) =~= slow_list(g@, nv.take(i as int), threshold).push(
                            (service@, id@, self_ms as int),
                        ));
                    }
                }
            },
            _ => {},
        }
        i = i + 1;
    }
    assert(nv.take(nv.len() as int) =~= nv);
    r
}

fn seconds_between(a: UnixNanos, b: UnixNanos) -> (r: i128)
    ensures
        r as int == whole_seconds_between(a, b),
{
    let d: i128 = (a as i128) - (b as i128);
    if d >= 0 {
        d / 1_000_000_000
    } else {
        -((-d) / 1_000_000_000)
    }
}

fn tight_evidence(nodes: &Vec<(NodeId, Node)>, Ghost(nv): Ghost<Seq<NodeView>>, t0: UnixNanos) -> (r: Vec<String>)
    requires
        nodes@.len() == nv.len(),
        forall|j: int| 0 <= j < nv.len() ==> (#[trigger] nodes@[j]).1@ == nv[j],
    ensures
        texts(r@) == tight_list(nv, t0),
{
    let mut r: Vec<String> = Vec::new();
    let mut i: usize = 0;
    while i < nodes.len()
        invariant
            i <= nodes@.len(),
            nodes@.len() == nv.len(),
            forall|j: int| 0 <= j < nv.len() ==> (#[trigger] nodes@[j]).1@ == nv[j],
            texts(r@) == tight_list(nv.take(i as int), t0),
        decreases nodes@.len() - i,
    {
        proof {
            assert(nv.take(i + 1).drop_last() =~= nv.take(i as int));
            assert(nv.take(i + 1).last() == nv[i as int]);
        }
        match &nodes[i].1 {
            Node::MetricAnomaly { service, window_start, .. } => {
                let s = seconds_between(*window_start, t0);
                if -30 < s && s < 30 {
                    r.push(service.clone());
                    proof {
                        assert(texts(r@) =~= tight_list(nv.take(i as int), t0).push(service@));
                    }
                }
            },
            _ => {},
        }
        i = i + 1;
    }
    assert(nv.take(nv.len() as int) =~= nv);
    r
}

/// The evidence a ranking of `g` is formed from: the services; the direct
/// evidence of each `EmittedBy` edge; the blame that each span node passes
/// along `CausedBy` edges, at most `causal_propagation_max_depth` steps;
/// the successful spans whose self-time exceeds `slow_span_self_ms`; and,
/// when the investigation started at `anomaly_start`, the services with an
/// anomaly that began within 30 seconds of it.
pub fn gather_evidence(g: &EvidenceGraph, cfg: &CorrelationConfig, anomaly_start: Option<UnixNanos>) -> (r: RankingEvidence)
    requires
        g.wf(),
    ensures
        texts(r.services@) == service_names(g@.nodes),
        direct_view(r.direct@) == direct_list(g@, g@.edges),
        blame_view(r.blame@) == blame_list(g@, g@.nodes, cfg.causal_propagation_max_depth as nat),
        slow_view(r.slow@) == slow_list(g@, g@.nodes, cfg.slow_span_self_ms),
        texts(r.tight@) == match anomaly_start {
            Some(t0) => tight_list(g@.nodes, t0),
            None => Seq::<Seq<char>>::empty(),
        },
{
    let nodes = g.nodes();
    let services = services_of(&nodes, Ghost(g@.nodes));
    let direct = direct_evidence(g);
    let blame = blame_evidence(g, &nodes, cfg.causal_propagation_max_depth);
    let slow = slow_evidence(g, &nodes, cfg.slow_span_self_ms);
    let tight = match anomaly_start {
        Some(t0) => tight_evidence(&nodes, Ghost(g@.nodes), t0),
        None => {
            let v: Vec<String> = Vec::new();
            assert(texts(v@) =~= Seq::<Seq<char>>::empty());
            v
        },
    };
    RankingEvidence { services, direct, blame, slow, tight }
}

proof fn lemma_service_names_source(nodes: Seq<NodeView>, x: Seq<char>)
    requires
        service_names(nodes).contains(x),
    ensures
        exists|i: int| 0 <= i < nodes.len() && nodes[i] == (NodeView::Service { name: x }),
    decreases nodes.len(),
{
    let rest = service_names(nodes.drop_last());
    if rest.contains(x) {
        lemma_service_names_source(nodes.drop_last(), x);
        let i = choose|i: int| 0 <= i < nodes.drop_last().len() && nodes.drop_last()[i] == (NodeView::Service { name: x });
        assert(nodes[i] == nodes.drop_last()[i]);
    } else {
        match nodes.last() {
            NodeView::Service { name } => {
                assert(service_names(nodes) == rest.push(name));
                let k = choose|k: int| 0 <= k < service_names(nodes).len() && service_names(nodes)[k] == x;
                assert(k == rest.len());
                assert(nodes[nodes.len() - 1] == (NodeView::Service { name: x }));
            },
            _ => {},
        }
    }
}

/// Every entry of a list of slow spans comes from one of the nodes it was
/// taken from: a span node that did not fail, of the entry's service, with
/// the entry's id, and whose self-time exceeds the threshold.
proof fn lemma_slow_entries_come_from(g: GraphView, nodes: Seq<NodeView>, threshold: i64)
    ensures
        forall|i: int| #![trigger slow_list(g, nodes, threshold)[i]] 0 <= i < slow_list(g, nodes, threshold).len() ==> exists|j: int|
            0 <= j < nodes.len() && #[trigger] slow_of(g, nodes[j], threshold) == Some(
                slow_list(g, nodes, threshold)[i],
            ),
    decreases nodes.len(),
{
    if nodes.len() > 0 {
        let rest = nodes.drop_last();
        lemma_slow_entries_come_from(g, rest, threshold);
        let l = slow_list(g, nodes, threshold);
        let r = slow_list(g, rest, threshold);
        assert forall|i: int| #![trigger l[i]] 0 <= i < l.len() implies exists|j: int|
            0 <= j < nodes.len() && #[trigger] slow_of(g, nodes[j], threshold) == Some(l[i]) by {
            if i < r.len() {
                let j = choose|j: int| 0 <= j < rest.len() && #[trigger] slow_of(g, rest[j], threshold) == Some(r[i]);
                assert(nodes[j] == rest[j]);
                assert(l[i] == r[i]);
            } else {
                assert(slow_of(g, nodes[nodes.len() - 1], threshold) == Some(l[i]));
            }
        }
    }
}

/// In a graph whose node ids are distinct, the node with the id of
/// `nodes[j]` is `nodes[j]`.
proof fn lemma_lookup_at(nodes: Seq<NodeView>, j: int)
    requires
        distinct_ids(nodes),
        0 <= j < nodes.len(),
    ensures
        lookup(nodes, node_id(nodes[j])) == Some(nodes[j]),
{
    reveal(lookup);
    let id = node_id(nodes[j]);
    assert(has_id(nodes, id));
    let i = choose|i: int| 0 <= i < nodes.len() && node_id(nodes[i]) == id && forall|k: int|
        0 <= k < i ==> node_id(nodes[k]) != id;
    if i < j {
        assert(node_id(nodes[i]) != node_id(nodes[j]));
    } else if i > j {
        assert(node_id(nodes[j]) != id);
    }
}

/// A failing span is never latency evidence: every slow span of the
/// evidence names, by its id, a span node of the graph of the same service
/// that did not fail, and whose duration less the durations of its child
/// spans exceeds the threshold.
pub proof fn lemma_slow_spans_did_not_fail(g: GraphView, threshold: i64)
    requires
        distinct_ids(g.nodes),
    ensures
        forall|i: int| 0 <= i < slow_list(g, g.nodes, threshold).len() ==> (match lookup(
            g.nodes,
            #[trigger] slow_list(g, g.nodes, threshold)[i].1,
        ) {
            Some(NodeView::Span { service, status, duration_ms, .. }) => status != SpanStatus::Error && service
                == slow_list(g, g.nodes, threshold)[i].0 && slow_list(g, g.nodes, threshold)[i].2 == duration_ms
                - child_sum(g, g.edges, slow_list(g, g.nodes, threshold)[i].1) && slow_list(g, g.nodes, threshold)[i].2
                > threshold,
            _ => false,
        }),
{
    lemma_slow_entries_come_from(g, g.nodes, threshold);
    let l = slow_list(g, g.nodes, threshold);
    assert forall|i: int| 0 <= i < l.len() implies (match lookup(g.nodes, #[trigger] l[i].1) {
        Some(NodeView::Span { service, status, duration_ms, .. }) => status != SpanStatus::Error && service == l[i].0
            && l[i].2 == duration_ms - child_sum(g, g.edges, l[i].1) && l[i].2 > threshold,
        _ => false,
    }) by {
        let j = choose|j: int| 0 <= j < g.nodes.len() && #[trigger] slow_of(g, g.nodes[j], threshold) == Some(l[i]);
        lemma_lookup_at(g.nodes, j);
    }
}

/// A graph whose node ids are distinct names each of its services once: a
/// ranking has exactly one entry per service.
pub proof fn lemma_services_once(nodes: Seq<NodeView>)
    requires
        distinct_ids(nodes),
    ensures
        forall|i: int, j: int| 0 <= i < j < service_names(nodes).len() ==> service_names(nodes)[i] != service_names(nodes)[j],
        forall|i: int| 0 <= i < nodes.len() ==> (#[trigger] nodes[i] matches NodeView::Service { name }
            ==> service_names(nodes).contains(name)),
    decreases nodes.len(),
{
    if nodes.len() > 0 {
        let init = nodes.drop_last();
        assert forall|i: int, j: int| 0 <= i < j < init.len() implies node_id(init[i]) != node_id(init[j]) by {
            assert(init[i] == nodes[i] && init[j] == nodes[j]);
        }
        lemma_services_once(init);
        let rest = service_names(init);
        match nodes.last() {
            NodeView::Service { name } => {
                let names = service_names(nodes);
                assert(names == rest.push(name));
                if rest.contains(name) {
                    lemma_service_names_source(init, name);
                    let i = choose|i: int| 0 <= i < init.len() && init[i] == (NodeView::Service { name: name });
                    assert(nodes[i] == init[i]);
                    assert(node_id(nodes[i]) == node_id(nodes[nodes.len() - 1]));
                }
                assert forall|i: int, j: int| 0 <= i < j < names.len() implies names[i] != names[j] by {
                    if j == rest.len() {
                        assert(names[i] == rest[i]);
                    } else {
                        assert(names[i] == rest[i] && names[j] == rest[j]);
                    }
                }
                assert forall|i: int| 0 <= i < nodes.len() implies (#[trigger] nodes[i] matches NodeView::Service { name: m }
                    ==> names.contains(m)) by {
                    if i < init.len() {
                        assert(nodes[i] == init[i]);
                        if let NodeView::Service { name: m } = nodes[i] {
                            assert(rest.contains(m));
                            let k = choose|k: int| 0 <= k < rest.len() && rest[k] == m;
                            assert(names[k] == m);
                        }
                    } else {
                        assert(names[rest.len() as int] == name);
                    }
                }
            },
            _ => {
                assert(service_names(nodes) == rest);
                assert forall|i: int| 0 <= i < nodes.len() implies (#[trigger] nodes[i] matches NodeView::Service { name: m }
                    ==> service_names(nodes).contains(m)) by {
                    if i < init.len() {
                        assert(nodes[i] == init[i]);
                    }
                }
            },
        }
    }
}

proof fn lemma_direct_list_stable(g: GraphView, h: GraphView, edges: Seq<EdgeView>)
    requires
        forall|i: int| 0 <= i < edges.len() ==> lookup(h.nodes, (#[trigger] edges[i]).from) == lookup(g.nodes, edges[i].from)
            && lookup(h.nodes, edges[i].to) == lookup(g.nodes, edges[i].to),
    ensures
        direct_list(h, edges) == direct_list(g, edges),
    decreases edges.len(),
{
    if edges.len() > 0 {
        let init = edges.drop_last();
        assert forall|i: int| 0 <= i < init.len() implies lookup(h.nodes, (#[trigger] init[i]).from) == lookup(g.nodes, init[i].from)
            && lookup(h.nodes, init[i].to) == lookup(g.nodes, init[i].to) by {
            assert(init[i] == edges[i]);
        }
        lemma_direct_list_stable(g, h, init);
        assert(edges.last() == edges[edges.len() - 1]);
    }
}

/// Evidence only accumulates: adding a failing span and its edge to an
/// existing service, in a graph without dangling edges, keeps every piece
/// of direct evidence already there and adds the span's own after them.
pub proof fn lemma_error_span_adds_evidence(g: GraphView, sp: NodeView, svc: Seq<char>)
    requires
        no_dangling(g),
        !has_id(g.nodes, node_id(sp)),
        sp matches NodeView::Span { status, .. } && status == SpanStatus::Error,
        lookup(g.nodes, service_node_id(svc)) == Some(NodeView::Service { name: svc }),
        !g.edges.contains(EdgeView { from: node_id(sp), to: service_node_id(svc), kind: EdgeKind::EmittedBy }),
    ensures
        ({
            let e = EdgeView { from: node_id(sp), to: service_node_id(svc), kind: EdgeKind::EmittedBy };
            let h = add_edge_spec(add_node_spec(g, sp), e);
            direct_list(h, h.edges) == direct_list(g, g.edges).push(
                (svc, ContributionView::ErrorSpan { node: node_id(sp), duration_ms: sp->Span_duration_ms }),
            )
        }),
{
    let e = EdgeView { from: node_id(sp), to: service_node_id(svc), kind: EdgeKind::EmittedBy };
    let g1 = add_node_spec(g, sp);
    let h = add_edge_spec(g1, e);
    assert(g1.nodes == g.nodes.push(sp));
    assert(h.edges == g.edges.push(e));
    assert(h.nodes == g.nodes.push(sp));
    assert forall|i: int| 0 <= i < g.edges.len() implies lookup(h.nodes, (#[trigger] g.edges[i]).from) == lookup(g.nodes, g.edges[i].from)
        && lookup(h.nodes, g.edges[i].to) == lookup(g.nodes, g.edges[i].to) by {
        assert(!dangling(g, g.edges[i]));
        lemma_lookup_push(g.nodes, sp, g.edges[i].from);
        lemma_lookup_push(g.nodes, sp, g.edges[i].to);
    }
    lemma_direct_list_stable(g, h, g.edges);
    lemma_lookup_push(g.nodes, sp, node_id(sp));
    reveal(lookup);
    let w = choose|i: int| 0 <= i < g.nodes.len() && node_id(g.nodes[i]) == service_node_id(svc);
    assert(has_id(g.nodes, service_node_id(svc)));
    lemma_lookup_push(g.nodes, sp, service_node_id(svc));
    assert(h.edges.drop_last() == g.edges);
    assert(h.edges.last() == e);
}

proof fn lemma_walk_depths(g: GraphView, cur: Seq<char>, left: nat, depth: nat)
    ensures
        forall|i: int| 0 <= i < walk(g, cur, left, depth).len() ==> depth < (#[trigger] walk(g, cur, left, depth)[i]).1
            <= depth + left,
    decreases left,
{
    if left > 0 {
        let outs = edges_from_spec(g.edges, cur, EdgeKind::CausedBy);
        if outs.len() > 0 {
            let t = outs[0].to;
            lemma_walk_depths(g, t, (left - 1) as nat, (depth + 1) as nat);
            let here = match lookup(g.nodes, t) {
                Some(NodeView::Span { service, .. }) => seq![(service, (depth + 1) as nat)],
                _ => Seq::empty(),
            };
            let rest = walk(g, t, (left - 1) as nat, (depth + 1) as nat);
            assert(walk(g, cur, left, depth) == here + rest);
            assert forall|i: int| 0 <= i < walk(g, cur, left, depth).len() implies depth < (
            #[trigger] walk(g, cur, left, depth)[i]).1 <= depth + left by {
                if i >= here.len() {
                    assert(walk(g, cur, left, depth)[i] == rest[i - here.len()]);
                } else {
                    assert(walk(g, cur, left, depth)[i] == here[i]);
                }
            }
        }
    }
}

/// Blame travels at least one step and at most the configured number of
/// steps: every entry of the propagated blame has a depth between 1 and
/// `max_depth`.
pub proof fn lemma_blame_within_depth(g: GraphView, nodes: Seq<NodeView>, max_depth: nat)
    ensures
        forall|i: int| 0 <= i < blame_list(g, nodes, max_depth).len() ==> 1 <= (#[trigger] blame_list(g, nodes, max_depth)[i]).2
            <= max_depth,
    decreases nodes.len(),
{
    if nodes.len() > 0 {
        lemma_blame_within_depth(g, nodes.drop_last(), max_depth);
        let rest = blame_list(g, nodes.drop_last(), max_depth);
        let here = blame_of(g, nodes.last(), max_depth);
        assert(blame_list(g, nodes, max_depth) == rest + here);
        match nodes.last() {
            NodeView::Span { .. } => {
                lemma_walk_depths(g, node_id(nodes.last()), max_depth, 0);
            },
            _ => {},
        }
        assert forall|i: int| 0 <= i < blame_list(g, nodes, max_depth).len() implies 1 <= (
        #[trigger] blame_list(g, nodes, max_depth)[i]).2 <= max_depth by {
            if i >= rest.len() {
                assert(blame_list(g, nodes, max_depth)[i] == here[i - rest.len()]);
            } else {
                assert(blame_list(g, nodes, max_depth)[i] == rest[i]);
            }
        }
    }
}

} // verus!
