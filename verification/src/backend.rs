//! The records that the telemetry backends deliver, and the queries and
//! errors of the backend interface.
use vstd::prelude::*;
use crate::json::Json;
use crate::text::{concat, owned};
use crate::time::{UtcInstant, instant_display};

verus! {

/// An instant, as nanoseconds since the Unix epoch (UTC).
pub type UnixNanos = i64;

/// The bit pattern of a binary64 measurement (a metric value, a weight or a
/// score). The library carries such values; arithmetic on them happens at
/// the edge of the program.
pub type F64Bits = u64;

/// Whether a span completed normally.
#[derive(PartialEq, Eq, Structural, Clone, Copy, Debug)]
pub enum SpanStatus {
    Success,
    Error,
}

/// One span of a distributed trace.
#[derive(Debug)]
pub struct Span {
    pub span_id: String,
    pub trace_id: String,
    pub parent_id: Option<String>,
    pub service: String,
    pub operation: String,
    pub start: UnixNanos,
    pub duration_ms: i64,
    pub status: SpanStatus,
    pub status_message: Option<String>,
    /// Span attributes, in the order the backend reported them.
    pub attributes: Vec<(String, Json)>,
}

/// One log line.
#[derive(Debug)]
pub struct LogRecord {
    pub ts: UnixNanos,
    pub service: String,
    pub level: String,
    pub message: String,
    pub trace_id: Option<String>,
}

/// A request for the logs of some services inside a time window.
#[derive(Clone, Debug)]
pub struct LogQuery {
    pub services: Vec<String>,
    pub start: UtcInstant,
    pub end: UtcInstant,
    pub level_at_least: Option<String>,
}

/// A request for one metric of one service inside a time window.
pub struct MetricQuery {
    pub metric: String,
    pub service: String,
    pub start: UtcInstant,
    pub end: UtcInstant,
}

/// A request for one metric, across services, inside a time window.
pub struct AnomalyWindowQuery {
    pub metric: String,
    pub start: UtcInstant,
    pub end: UtcInstant,
}

/// A request to an HTTP endpoint of a store: the URL and the query
/// parameters.
#[derive(Debug)]
pub struct RangeRequest {
    pub url: String,
    pub params: Vec<(String, String)>,
}

/// The views of some query parameters.
pub open spec fn params_view(p: Seq<(String, String)>) -> Seq<(Seq<char>, Seq<char>)> {
    p.map_values(|x: (String, String)| (x.0@, x.1@))
}

/// Why a backend could not answer.
#[derive(Debug)]
pub enum BackendError {
    Unreachable,
    Timeout,
    PartialContent(String),
    MalformedResponse,
    RateLimited,
    RetentionMiss(UtcInstant),
    Empty,
}

/// The text of an error, as its `Display` writes it.
pub open spec fn backend_error_text(e: BackendError) -> Seq<char> {
    match e {
        BackendError::Unreachable => "unreachable"@,
        BackendError::Timeout => "timeout"@,
        BackendError::PartialContent(s) => "partial content: "@ + s@,
        BackendError::MalformedResponse => "malformed response"@,
        BackendError::RateLimited => "rate limited"@,
        BackendError::RetentionMiss(t) => "retention miss before "@ + instant_display(t@),
        BackendError::Empty => "empty"@,
    }
}

impl BackendError {
    /// The text of the error, as its `Display` writes it.
    pub fn describe(&self) -> (r: String)
        ensures
            r@ == backend_error_text(*self),
    {
        match self {
            BackendError::Unreachable => owned("unreachable"),
            BackendError::Timeout => owned("timeout"),
            BackendError::PartialContent(s) => concat("partial content: ", s.as_str()),
            BackendError::MalformedResponse => owned("malformed response"),
            BackendError::RateLimited => owned("rate limited"),
            BackendError::RetentionMiss(t) => concat("retention miss before ", t.text().as_str()),
            BackendError::Empty => owned("empty"),
        }
    }
}

/// How often and how patiently a backend request is retried.
pub struct RetryPolicy {
    pub attempts: u32,
    pub backoffs_ms: Vec<u64>,
}

/// The pause before the attempt that follows attempt `i` (counted from 0):
/// the `i`-th configured backoff, or one second past the configured ones.
pub open spec fn backoff_spec(backoffs: Seq<u64>, i: int) -> u64 {
    if 0 <= i < backoffs.len() { backoffs[i] } else { 1000 }
}

impl Default for RetryPolicy {
    /// Three attempts, pausing 100 ms, then 400 ms.
    fn default() -> (p: RetryPolicy)
        ensures
            p.attempts == 3,
            p.backoffs_ms@ == seq![100u64, 400u64, 1600u64],
    {
        let mut b: Vec<u64> = Vec::new();
        b.push(100);
        b.push(400);
        b.push(1600);
        assert(b@ =~= seq![100u64, 400u64, 1600u64]);
        RetryPolicy { attempts: 3, backoffs_ms: b }
    }
}

impl RetryPolicy {
    /// The pause, in milliseconds, that follows the failed attempt `i`, or
    /// `None` when attempt `i` was the last one and the error is given up.
    pub fn pause_after(&self, i: u32) -> (r: Option<u64>)
        ensures
            r == (if (i as int) + 1 < self.attempts as int {
                Some(backoff_spec(self.backoffs_ms@, i as int))
            } else {
                None
            }),
    {
        if i < self.attempts && i + 1 < self.attempts {
            let k = i as usize;
            if k < self.backoffs_ms.len() {
                Some(self.backoffs_ms[k])
            } else {
                Some(1000)
            }
        } else {
            None
        }
    }

    /// What follows attempt `i` (counted from 0): the result is handed
    /// back after a success; after a failure, the next attempt follows the
    /// pause of `pause_after`, or, after the last attempt, the error is
    /// handed back.
    pub fn next_action(&self, i: u32, succeeded: bool) -> (r: RetryAction)
        ensures
            r == (if succeeded {
                RetryAction::Finish
            } else if (i as int) + 1 < self.attempts as int {
                RetryAction::RetryAfter(backoff_spec(self.backoffs_ms@, i as int))
            } else {
                RetryAction::GiveUp
            }),
    {
        if succeeded {
            RetryAction::Finish
        } else {
            match self.pause_after(i) {
                Some(ms) => RetryAction::RetryAfter(ms),
                None => RetryAction::GiveUp,
            }
        }
    }
}

/// What a retried request does after an attempt.
#[derive(PartialEq, Eq, Structural, Clone, Copy, Debug)]
pub enum RetryAction {
    /// Hand back the attempt's success.
    Finish,
    /// Pause this many milliseconds, then attempt again.
    RetryAfter(u64),
    /// Hand back the attempt's error.
    GiveUp,
}

} // verus!
