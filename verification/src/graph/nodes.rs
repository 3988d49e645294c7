//! Nodes of the evidence graph and their ids.
use vstd::prelude::*;
use crate::backend::{F64Bits, SpanStatus, UnixNanos};
use crate::text::concat;

verus! {

/// The id of a node: a kind prefix followed by the node's own id.
pub type NodeId = String;

/// One piece of evidence, or a service it points at.
#[derive(Clone, Debug)]
pub enum Node {
    Service {
        name: String,
    },
    Span {
        id: String,
        service: String,
        operation: String,
        status: SpanStatus,
        start: UnixNanos,
        duration_ms: i64,
        parent: Option<String>,
        status_message: Option<String>,
    },
    /// Log lines of one service and level that fall in one time bucket.
    LogBatch {
        id: String,
        service: String,
        level: String,
        /// Start of the bucket, in seconds since the Unix epoch.
        bucket_start: i64,
        count: usize,
        samples: Vec<String>,
    },
    MetricAnomaly {
        id: String,
        service: String,
        metric: String,
        window_start: UnixNanos,
        window_end: UnixNanos,
        severity: F64Bits,
        detector: String,
        baseline_mean: F64Bits,
        observed_peak: F64Bits,
    },
}

/// A node as the specifications see it.
pub enum NodeView {
    Service {
        name: Seq<char>,
    },
    Span {
        id: Seq<char>,
        service: Seq<char>,
        operation: Seq<char>,
        status: SpanStatus,
        start: UnixNanos,
        duration_ms: i64,
        parent: Option<Seq<char>>,
        status_message: Option<Seq<char>>,
    },
    LogBatch {
        id: Seq<char>,
        service: Seq<char>,
        level: Seq<char>,
        bucket_start: i64,
        count: usize,
        samples: Seq<Seq<char>>,
    },
    MetricAnomaly {
        id: Seq<char>,
        service: Seq<char>,
        metric: Seq<char>,
        window_start: UnixNanos,
        window_end: UnixNanos,
        severity: F64Bits,
        detector: Seq<char>,
        baseline_mean: F64Bits,
        observed_peak: F64Bits,
    },
}

/// The text of an optional string.
pub open spec fn opt_view(o: Option<String>) -> Option<Seq<char>> {
    match o {
        Some(s) => Some(s@),
        None => None,
    }
}

/// The texts of a list of strings.
pub open spec fn strings_view(v: Seq<String>) -> Seq<Seq<char>> {
    v.map_values(|s: String| s@)
}

impl View for Node {
    type V = NodeView;

    open spec fn view(&self) -> NodeView {
        match self {
            Node::Service { name } => NodeView::Service { name: name@ },
            Node::Span {
                id,
                service,
                operation,
                status,
                start,
                duration_ms,
                parent,
                status_message,
            } => NodeView::Span {
                id: id@,
                service: service@,
                operation: operation@,
                status: *status,
                start: *start,
                duration_ms: *duration_ms,
                parent: opt_view(*parent),
                status_message: opt_view(*status_message),
            },
            Node::LogBatch { id, service, level, bucket_start, count, samples } => NodeView::LogBatch {
                id: id@,
                service: service@,
                level: level@,
                bucket_start: *bucket_start,
                count: *count,
                samples: strings_view(samples@),
            },
            Node::MetricAnomaly {
                id,
                service,
                metric,
                window_start,
                window_end,
                severity,
                detector,
                baseline_mean,
                observed_peak,
            } => NodeView::MetricAnomaly {
                id: id@,
                service: service@,
                metric: metric@,
                window_start: *window_start,
                window_end: *window_end,
                severity: *severity,
                detector: detector@,
                baseline_mean: *baseline_mean,
                observed_peak: *observed_peak,
            },
        }
    }
}

/// The id of a node: `svc:`, `span:`, `lb:` or `anom:` followed by the
/// service name or the node's own id.
pub open spec fn node_id(n: NodeView) -> Seq<char> {
    match n {
        NodeView::Service { name } => "svc:"@ + name,
        NodeView::Span { id, .. } => "span:"@ + id,
        NodeView::LogBatch { id, .. } => "lb:"@ + id,
        NodeView::MetricAnomaly { id, .. } => "anom:"@ + id,
    }
}

/// The id that a span node with span id `id` gets.
pub open spec fn span_node_id(id: Seq<char>) -> Seq<char> {
    "span:"@ + id
}

/// The id that the node of service `name` gets.
pub open spec fn service_node_id(name: Seq<char>) -> Seq<char> {
    "svc:"@ + name
}

/// The service a node belongs to (a service node belongs to itself).
pub open spec fn node_service(n: NodeView) -> Seq<char> {
    match n {
        NodeView::Service { name } => name,
        NodeView::Span { service, .. } => service,
        NodeView::LogBatch { service, .. } => service,
        NodeView::MetricAnomaly { service, .. } => service,
    }
}

/// The id of the span node for span id `id`.
pub fn span_node_id_of(id: &str) -> (r: NodeId)
    ensures
        r@ == span_node_id(id@),
{
    concat("span:", id)
}

pub(crate) fn copy_opt(o: &Option<String>) -> (r: Option<String>)
    ensures
        opt_view(r) == opt_view(*o),
{
    match o {
        Some(s) => Some(s.clone()),
        None => None,
    }
}

fn copy_strings(v: &Vec<String>) -> (r: Vec<String>)
    ensures
        strings_view(r@) == strings_view(v@),
{
    let mut r: Vec<String> = Vec::new();
    let mut i: usize = 0;
    while i < v.len()
        invariant
            i <= v@.len(),
            r@.len() == i,
            forall|j: int| 0 <= j < i ==> r@[j]@ == v@[j]@,
        decreases v@.len() - i,
    {
        r.push(v[i].clone());
        i = i + 1;
    }
    assert(strings_view(r@) =~= strings_view(v@));
    r
}

impl Node {
    /// The node of the service `name`.
    pub fn service(name: String) -> (n: Node)
        ensures
            n@ == (NodeView::Service { name: name@ }),
    {
        Node::Service { name }
    }

    /// This node's id.
    pub fn id(&self) -> (r: NodeId)
        ensures
            r@ == node_id(self@),
    {
        match self {
            Node::Service { name } => concat("svc:", name.as_str()),
            Node::Span { id, .. } => concat("span:", id.as_str()),
            Node::LogBatch { id, .. } => concat("lb:", id.as_str()),
            Node::MetricAnomaly { id, .. } => concat("anom:", id.as_str()),
        }
    }

    /// The service this node belongs to; every node has one.
    pub fn service_name(&self) -> (r: Option<&str>)
        ensures
            r matches Some(s) && s@ == node_service(self@),
    {
        match self {
            Node::Service { name } => Some(name.as_str()),
            Node::Span { service, .. } => Some(service.as_str()),
            Node::LogBatch { service, .. } => Some(service.as_str()),
            Node::MetricAnomaly { service, .. } => Some(service.as_str()),
        }
    }

    /// A copy of this node.
    pub fn duplicate(&self) -> (r: Node)
        ensures
            r@ == self@,
    {
        match self {
            Node::Service { name } => Node::Service { name: name.clone() },
            Node::Span {
                id,
                service,
                operation,
                status,
                start,
                duration_ms,
                parent,
                status_message,
            } => Node::Span {
                id: id.clone(),
                service: service.clone(),
                operation: operation.clone(),
                status: *status,
                start: *start,
                duration_ms: *duration_ms,
                parent: copy_opt(parent),
                status_message: copy_opt(status_message),
            },
            Node::LogBatch { id, service, level, bucket_start, count, samples } => Node::LogBatch {
                id: id.clone(),
                service: service.clone(),
                level: level.clone(),
                bucket_start: *bucket_start,
                count: *count,
                samples: copy_strings(samples),
            },
            Node::MetricAnomaly {
                id,
                service,
                metric,
                window_start,
                window_end,
                severity,
                detector,
                baseline_mean,
                observed_peak,
            } => Node::MetricAnomaly {
                id: id.clone(),
                service: service.clone(),
                metric: metric.clone(),
                window_start: *window_start,
                window_end: *window_end,
                severity: *severity,
                detector: detector.clone(),
                baseline_mean: *baseline_mean,
                observed_peak: *observed_peak,
            },
        }
    }
}

/// Two nodes get the same id exactly when they are of the same kind and
/// carry the same name (for a service) or the same own id: ids are stable
/// and tell nodes of different kinds apart.
pub proof fn lemma_node_id_injective(a: NodeView, b: NodeView)
    ensures
        (node_id(a) == node_id(b)) <==> (match (a, b) {
            (NodeView::Service { name: x }, NodeView::Service { name: y }) => x == y,
            (NodeView::Span { id: x, .. }, NodeView::Span { id: y, .. }) => x == y,
            (NodeView::LogBatch { id: x, .. }, NodeView::LogBatch { id: y, .. }) => x == y,
            (NodeView::MetricAnomaly { id: x, .. }, NodeView::MetricAnomaly { id: y, .. }) => x == y,
            _ => false,
        }),
{
    reveal_strlit("svc:");
    reveal_strlit("span:");
    reveal_strlit("lb:");
    reveal_strlit("anom:");
    let ia = node_id(a);
    let ib = node_id(b);
    match (a, b) {
        (NodeView::Service { name: x }, NodeView::Service { name: y }) => {
            if ia == ib {
                assert(x =~= ia.skip(4));
                assert(y =~= ib.skip(4));
            }
        },
        (NodeView::Span { id: x, .. }, NodeView::Span { id: y, .. }) => {
            if ia == ib {
                assert(x =~= ia.skip(5));
                assert(y =~= ib.skip(5));
            }
        },
        (NodeView::LogBatch { id: x, .. }, NodeView::LogBatch { id: y, .. }) => {
            if ia == ib {
                assert(x =~= ia.skip(3));
                assert(y =~= ib.skip(3));
            }
        },
        (NodeView::MetricAnomaly { id: x, .. }, NodeView::MetricAnomaly { id: y, .. }) => {
            if ia == ib {
                assert(x =~= ia.skip(5));
                assert(y =~= ib.skip(5));
            }
        },
        _ => {
            // The prefixes differ in their first two characters.
            assert(ia[0] != ib[0] || ia[1] != ib[1]);
        },
    }
}

} // verus!
