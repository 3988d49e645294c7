//! The incident document that the engine produces.
//!
//! Real-valued fields (scores, weights, measurements) hold the bit patterns
//! of their binary64 values.
use vstd::prelude::*;
use crate::backend::{F64Bits, UnixNanos};
use crate::time::UtcInstant;
use crate::json::Json;

verus! {

/// The incident document.
pub struct IncidentContext {
    pub schema_version: String,
    pub incident_id: String,
    pub produced_at: UtcInstant,
    pub engine_version: String,
    pub config_hash: String,
    pub elapsed_ms: u64,
    pub trigger: Trigger,
    pub window: Window,
    pub services: Vec<ServiceSummary>,
    pub suspects: Vec<Suspect>,
    pub spans: Vec<SpanRef>,
    pub span_tree: Vec<TreeNode>,
    pub log_batches: Vec<LogBatchRef>,
    pub metric_anomalies: Vec<MetricAnomalyRef>,
    pub timeline: Vec<TimelineEvent>,
    pub notes: Vec<String>,
}

/// What started the correlation.
pub enum Trigger {
    Trace { trace: TraceTrigger },
    Anomaly { anomaly: AnomalyTrigger },
}

/// A trace that was asked about.
pub struct TraceTrigger {
    pub trace_id: String,
}

/// A metric anomaly that was asked about.
pub struct AnomalyTrigger {
    pub metric: String,
    pub service: String,
    pub window: Window,
    pub observed_value: F64Bits,
    pub baseline_mean: F64Bits,
    pub baseline_stddev: F64Bits,
    pub z_score: F64Bits,
    pub detector: String,
}

/// The time window the evidence was gathered in.
pub struct Window {
    pub start: UtcInstant,
    pub end: UtcInstant,
    /// Whether the window was widened beyond the trigger's own interval.
    pub expanded: bool,
}

/// How much telemetry one service contributed.
pub struct ServiceSummary {
    pub name: String,
    pub span_count: usize,
    pub error_span_count: usize,
    pub log_count: usize,
    pub error_log_count: usize,
}

/// A ranked suspect service.
pub struct Suspect {
    pub rank: usize,
    pub service: String,
    pub score: F64Bits,
    pub evidence_breakdown: EvidenceBreakdown,
}

/// How a suspect's score is made up.
pub struct EvidenceBreakdown {
    pub direct_error_weight: F64Bits,
    pub direct_anomaly_weight: F64Bits,
    pub propagated_weight: F64Bits,
    pub direct_latency_weight: F64Bits,
    pub temporal_tightness_multiplier: F64Bits,
    pub contributors: Vec<Contributor>,
}

/// One piece of evidence behind a score: its kind, the id it refers to and
/// its weight.
pub struct Contributor {
    pub kind: String,
    pub reference: String,
    pub weight: F64Bits,
}

/// A span as the document lists it.
pub struct SpanRef {
    pub id: String,
    pub trace_id: String,
    pub parent_id: Option<String>,
    pub service: String,
    pub operation: String,
    pub start: UnixNanos,
    pub duration_ms: i64,
    /// `OK` or `ERROR`.
    pub status: String,
    pub status_message: Option<String>,
    pub attributes: Vec<(String, Json)>,
}

/// A span with the spans below it.
pub struct TreeNode {
    pub span_id: String,
    pub children: Vec<TreeNode>,
}

/// A batch of log lines as the document lists it.
pub struct LogBatchRef {
    pub id: String,
    pub service: String,
    pub level: String,
    pub time_bucket: String,
    pub count: usize,
    pub sample_messages: Vec<String>,
}

/// A metric anomaly as the document lists it.
pub struct MetricAnomalyRef {
    pub id: String,
    pub service: String,
    pub metric: String,
    pub window: Window,
    pub severity: F64Bits,
    pub detector: String,
    pub baseline_mean: F64Bits,
    pub observed_peak: F64Bits,
}

/// One event on the incident's timeline.
pub struct TimelineEvent {
    pub ts: UtcInstant,
    pub kind: String,
    pub reference: String,
}

} // verus!
