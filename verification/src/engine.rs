//! The decisions of the correlation pipeline: what to do with a fetched
//! trace, which window and services to ask the log store about, and how the
//! incident document is put together.
use vstd::prelude::*;
use crate::backend::{BackendError, LogQuery, LogRecord, Span, SpanStatus};
use crate::config::CorrelationConfig;
use crate::graph::nodes::opt_view;
use crate::json::text_eq;
use crate::ranking::ScoredSuspect;
use crate::schema::{
    Contributor, EvidenceBreakdown, IncidentContext, ServiceSummary, SpanRef, Suspect, TraceTrigger, TreeNode,
    Trigger, Window,
};
use crate::text::{compare_text, lemma_text_order_antisym, lemma_text_order_trans, owned, text_order};
use crate::time::{EARLIEST_NANOS, LATEST_NANOS, NANOS_PER_SECOND, UtcInstant, in_calendar};
use crate::version::SCHEMA_VERSION;

verus! {

/// What a trace lookup leads to.
pub enum TraceFetch {
    /// The trace is not there: an empty incident with this note.
    NotFound(String),
    /// The backend failed: the correlation fails with this error.
    Failed(BackendError),
    /// The spans to correlate.
    Found(Vec<Span>),
}

/// Decides what a trace lookup leads to: a backend that reports the trace
/// as absent, or returns no spans, gives an empty incident with a note; any
/// other backend error is passed on.
pub fn classify_trace_fetch(r: Result<Vec<Span>, BackendError>) -> (t: TraceFetch)
    ensures
        match r {
            Ok(spans) => if spans@.len() == 0 {
                t matches TraceFetch::NotFound(note) && note@ == "trace not found"@
            } else {
                t == TraceFetch::Found(spans)
            },
            Err(BackendError::Empty) => t matches TraceFetch::NotFound(note) && note@ == "trace not found in backend"@,
            Err(e) => t == TraceFetch::Failed(e),
        },
{
    match r {
        Ok(spans) => if spans.len() == 0 {
            TraceFetch::NotFound(owned("trace not found"))
        } else {
            TraceFetch::Found(spans)
        },
        Err(BackendError::Empty) => TraceFetch::NotFound(owned("trace not found in backend")),
        Err(e) => TraceFetch::Failed(e),
    }
}

/// The logs a log fetch gives the correlation: what came back, or none
/// when the log store failed (the incident is then formed without logs).
pub fn logs_or_empty(r: Result<Vec<LogRecord>, BackendError>) -> (logs: Vec<LogRecord>)
    ensures
        match r {
            Ok(v) => logs == v,
            Err(_) => logs@.len() == 0,
        },
{
    match r {
        Ok(v) => v,
        Err(_) => Vec::new(),
    }
}

/// The instant a span ends.
pub open spec fn span_end(s: Span) -> int {
    s.start as int + s.duration_ms as int * 1_000_000
}

/// The earliest start among some spans.
pub open spec fn min_start(spans: Seq<Span>) -> int
    decreases spans.len(),
{
    if spans.len() <= 1 {
        if spans.len() == 0 { 0 } else { spans[0].start as int }
    } else {
        let m = min_start(spans.drop_last());
        let x = spans.last().start as int;
        if x < m { x } else { m }
    }
}

/// The latest end among some spans.
pub open spec fn max_end(spans: Seq<Span>) -> int
    decreases spans.len(),
{
    if spans.len() <= 1 {
        if spans.len() == 0 { 0 } else { span_end(spans[0]) }
    } else {
        let m = max_end(spans.drop_last());
        let x = span_end(spans.last());
        if x > m { x } else { m }
    }
}

/// The window expansion, in nanoseconds.
pub open spec fn expansion(cfg: CorrelationConfig) -> int {
    cfg.window_expansion_sec as int * 1_000_000_000
}

/// The largest number of whole seconds a time span can hold (chrono's
/// `TimeDelta` holds up to `i64::MAX` milliseconds either way).
pub open spec fn max_delta_secs() -> int {
    i64::MAX / 1000
}

/// The window computation stays inside the calendar: every span's duration
/// is a time span and its end an instant of the calendar, the expansion is
/// a time span, and the widened window lies in the calendar.
pub open spec fn window_fits(spans: Seq<Span>, cfg: CorrelationConfig) -> bool {
    &&& forall|i: int| 0 <= i < spans.len() ==> (#[trigger] spans[i]).duration_ms != i64::MIN && in_calendar(span_end(spans[i]))
    &&& -max_delta_secs() <= cfg.window_expansion_sec <= max_delta_secs()
    &&& in_calendar(min_start(spans) - expansion(cfg))
    &&& in_calendar(max_end(spans) + expansion(cfg))
}

/// The texts of a list of strings.
pub open spec fn texts(v: Seq<String>) -> Seq<Seq<char>> {
    v.map_values(|s: String| s@)
}

/// `names` holds each of `of` once, in increasing order, and nothing else.
pub open spec fn sorted_set_of(names: Seq<Seq<char>>, of: Seq<Seq<char>>) -> bool {
    &&& forall|i: int, j: int| 0 <= i < j < names.len() ==> text_order(names[i], names[j]) == -1
    &&& forall|i: int| 0 <= i < names.len() ==> of.contains(#[trigger] names[i])
    &&& forall|i: int| 0 <= i < of.len() ==> names.contains(#[trigger] of[i])
}

/// The services of some spans, one per span.
pub open spec fn span_services(spans: Seq<Span>) -> Seq<Seq<char>> {
    spans.map_values(|s: Span| s.service@)
}

/// Adds `s` to the increasing list `v` unless it is there.
fn insert_sorted(v: &mut Vec<String>, s: String)
    requires
        forall|i: int, j: int| 0 <= i < j < old(v)@.len() ==> text_order(old(v)@[i]@, old(v)@[j]@) == -1,
    ensures
        forall|i: int, j: int| 0 <= i < j < final(v)@.len() ==> text_order(final(v)@[i]@, final(v)@[j]@) == -1,
        texts(final(v)@).to_set() == texts(old(v)@).to_set().insert(s@),
{
    let ghost old_v = v@;
    let mut p: usize = 0;
    while p < v.len() && compare_text(v[p].as_str(), s.as_str()) == -1
        invariant
            p <= v@.len(),
            v@ == old_v,
            forall|a: int| 0 <= a < p ==> text_order(#[trigger] v@[a]@, s@) == -1,
        decreases v@.len() - p,
    {
        p = p + 1;
    }
    if p < v.len() && compare_text(v[p].as_str(), s.as_str()) == 0 {
        proof {
            lemma_text_order_antisym(v@[p as int]@, s@);
            assert(texts(old_v)[p as int] == s@);
            assert(texts(old_v).to_set() =~= texts(old_v).to_set().insert(s@));
        }
        return;
    }
    let ghost sv = s@;
    v.insert(p, s);
    proof {
        if p < old_v.len() {
            lemma_text_order_antisym(old_v[p as int]@, sv);
        }
        assert forall|a: int, b: int| 0 <= a < b < v@.len() implies text_order(v@[a]@, v@[b]@) == -1 by {
            if b < p {
                assert(v@[a] == old_v[a] && v@[b] == old_v[b]);
            } else if b == p {
                assert(v@[a] == old_v[a]);
            } else if a == p {
                assert(v@[b] == old_v[b - 1]);
                if b - 1 > p {
                    lemma_text_order_trans(sv, old_v[p as int]@, old_v[b - 1]@);
                }
            } else if a < p {
                assert(v@[a] == old_v[a] && v@[b] == old_v[b - 1]);
            } else {
                assert(v@[a] == old_v[a - 1] && v@[b] == old_v[b - 1]);
            }
        }
        assert forall|x: Seq<char>| texts(v@).to_set().contains(x) <==> texts(old_v).to_set().insert(sv).contains(x) by {
            if texts(v@).to_set().contains(x) {
                let k = choose|k: int| 0 <= k < texts(v@).len() && texts(v@)[k] == x;
                if k < p {
                    assert(texts(old_v)[k] == x);
                } else if k > p {
                    assert(texts(old_v)[k - 1] == x);
                }
            }
            if texts(old_v).to_set().contains(x) {
                let k = choose|k: int| 0 <= k < texts(old_v).len() && texts(old_v)[k] == x;
                if k < p {
                    assert(texts(v@)[k] == x);
                } else {
                    assert(texts(v@)[k + 1] == x);
                }
            }
            if x == sv {
                assert(texts(v@)[p as int] == x);
            }
        }
        assert(texts(v@).to_set() =~= texts(old_v).to_set().insert(sv));
    }
}

/// The services of some spans, each once, in increasing order.
pub fn sorted_services(spans: &[Span]) -> (r: Vec<String>)
    ensures
        sorted_set_of(texts(r@), span_services(spans@)),
{
    let mut v: Vec<String> = Vec::new();
    let mut i: usize = 0;
    proof {
        assert(texts(v@).to_set() =~= span_services(spans@.take(0)).to_set());
    }
    while i < spans.len()
        invariant
            i <= spans@.len(),
            forall|a: int, b: int| 0 <= a < b < v@.len() ==> text_order(v@[a]@, v@[b]@) == -1,
            texts(v@).to_set() == span_services(spans@.take(i as int)).to_set(),
        decreases spans@.len() - i,
    {
        let ghost before = span_services(spans@.take(i as int));
        insert_sorted(&mut v, spans[i].service.clone());
        proof {
            assert(span_services(spans@.take(i + 1)) =~= before.push(spans@[i as int].service@));
            before.lemma_push_to_set_commute(spans@[i as int].service@);
        }
        i = i + 1;
    }
    proof {
        assert(spans@.take(spans@.len() as int) =~= spans@);
        let t = texts(v@);
        let of = span_services(spans@);
        assert forall|k: int| 0 <= k < t.len() implies of.contains(#[trigger] t[k]) by {
            assert(t.to_set().contains(t[k]));
        }
        assert forall|k: int| 0 <= k < of.len() implies t.contains(#[trigger] of[k]) by {
            assert(of.to_set().contains(of[k]));
        }
        assert forall|a: int, b: int| 0 <= a < b < t.len() implies text_order(t[a], t[b]) == -1 by {
            assert(t[a] == v@[a]@ && t[b] == v@[b]@);
        }
    }
    v
}

/// The log query of a trace: its services, each once in increasing order,
/// and the span interval of the trace widened on both sides by the window
/// expansion.
pub fn trace_query(spans: &[Span], cfg: &CorrelationConfig) -> (q: LogQuery)
    requires
        spans@.len() > 0,
        window_fits(spans@, *cfg),
    ensures
        sorted_set_of(texts(q.services@), span_services(spans@)),
        q.start@ == min_start(spans@) - expansion(*cfg),
        q.end@ == max_end(spans@) + expansion(*cfg),
        q.level_at_least is None,
{
    let services = sorted_services(spans);
    let mut lo: i64 = spans[0].start;
    let mut hi: i128 = (spans[0].start as i128) + (spans[0].duration_ms as i128) * 1_000_000;
    proof {
        assert(span_end(spans@[0]) == span_end(spans@[0]));
        assert(spans@.take(1) =~= seq![spans@[0]]);
    }
    let mut i: usize = 1;
    while i < spans.len()
        invariant
            1 <= i <= spans@.len(),
            window_fits(spans@, *cfg),
            lo as int == min_start(spans@.take(i as int)),
            hi as int == max_end(spans@.take(i as int)),
        decreases spans@.len() - i,
    {
        let s = &spans[i];
        let end: i128 = (s.start as i128) + (s.duration_ms as i128) * 1_000_000;
        proof {
            assert(spans@.take(i + 1).drop_last() =~= spans@.take(i as int));
            assert(spans@.take(i + 1).last() == spans@[i as int]);
        }
        if s.start < lo {
            lo = s.start;
        }
        if end > hi {
            hi = end;
        }
        i = i + 1;
    }
    assert(spans@.take(spans@.len() as int) =~= spans@);
    let exp: i128 = (cfg.window_expansion_sec as i128) * NANOS_PER_SECOND;
    let start = UtcInstant::from_nanos((lo as i128) - exp).unwrap();
    let end = UtcInstant::from_nanos(hi + exp).unwrap();
    LogQuery { services, start, end, level_at_least: None }
}

/// Whether the window computation of a trace stays inside the calendar
/// (what `trace_query` needs of its spans and configuration).
pub fn fits_window(spans: &[Span], cfg: &CorrelationConfig) -> (r: bool)
    ensures
        r == window_fits(spans@, *cfg),
{
    let mut spans_ok = true;
    let mut lo: i128 = 0;
    let mut hi: i128 = 0;
    let mut i: usize = 0;
    while i < spans.len()
        invariant
            i <= spans@.len(),
            spans_ok == (forall|j: int| 0 <= j < i ==> (#[trigger] spans@[j]).duration_ms != i64::MIN && in_calendar(span_end(spans@[j]))),
            lo as int == min_start(spans@.take(i as int)),
            hi as int == max_end(spans@.take(i as int)),
            i64::MIN <= lo <= i64::MAX,
            -10_000_000_000_000_000_000_000_000 <= hi <= 10_000_000_000_000_000_000_000_000,
        decreases spans@.len() - i,
    {
        let s = &spans[i];
        let end: i128 = (s.start as i128) + (s.duration_ms as i128) * 1_000_000;
        proof {
            assert(spans@.take(i + 1).drop_last() =~= spans@.take(i as int));
            assert(spans@.take(i + 1).last() == spans@[i as int]);
            if i == 0 {
                assert(spans@.take(1) =~= seq![spans@[0]]);
            }
        }
        if s.duration_ms == i64::MIN || end < EARLIEST_NANOS || end > LATEST_NANOS {
            spans_ok = false;
        }
        if i == 0 {
            lo = s.start as i128;
            hi = end;
        } else {
            if (s.start as i128) < lo {
                lo = s.start as i128;
            }
            if end > hi {
                hi = end;
            }
        }
        i = i + 1;
    }
    assert(spans@.take(spans@.len() as int) =~= spans@);
    let max_secs: i64 = i64::MAX / 1000;
    let secs = cfg.window_expansion_sec;
    let exp: i128 = (secs as i128) * NANOS_PER_SECOND;
    let start: i128 = lo - exp;
    let end: i128 = hi + exp;
    spans_ok && -max_secs <= secs && secs <= max_secs && EARLIEST_NANOS <= start && start <= LATEST_NANOS
        && EARLIEST_NANOS <= end && end <= LATEST_NANOS
}

/// Whether a span belongs to the service `name`.
pub open spec fn of_service(name: Seq<char>) -> spec_fn(Span) -> bool {
    |s: Span| s.service@ == name
}

/// Whether a span of the service `name` failed.
pub open spec fn failed_of_service(name: Seq<char>) -> spec_fn(Span) -> bool {
    |s: Span| s.service@ == name && s.status == SpanStatus::Error
}

/// Whether a log line belongs to the service `name`.
pub open spec fn logged_by(name: Seq<char>) -> spec_fn(LogRecord) -> bool {
    |l: LogRecord| l.service@ == name
}

/// Whether a log line of the service `name` is at level `ERROR`.
pub open spec fn error_logged_by(name: Seq<char>) -> spec_fn(LogRecord) -> bool {
    |l: LogRecord| l.service@ == name && l.level@ == "ERROR"@
}

/// The summary of service `name`: its spans, failed spans, log lines and
/// `ERROR` log lines.
pub open spec fn summary_matches(x: ServiceSummary, name: Seq<char>, spans: Seq<Span>, logs: Seq<LogRecord>) -> bool {
    &&& x.name@ == name
    &&& x.span_count == spans.filter(of_service(name)).len()
    &&& x.error_span_count == spans.filter(failed_of_service(name)).len()
    &&& x.log_count == logs.filter(logged_by(name)).len()
    &&& x.error_log_count == logs.filter(error_logged_by(name)).len()
}

/// A service's error-log count counts exactly its log lines whose level is
/// `ERROR`: with no log line it is zero, and one more log line adds one to
/// it exactly when the line is the service's and its level is `ERROR` (a
/// line at any other level, or of another service, adds nothing), while the
/// log count grows by one for every line of the service.
pub proof fn lemma_error_log_count_counts_error_lines(
    name: Seq<char>,
    spans: Seq<Span>,
    logs: Seq<LogRecord>,
    l: LogRecord,
    none: ServiceSummary,
    before: ServiceSummary,
    after: ServiceSummary,
)
    requires
        summary_matches(none, name, spans, Seq::empty()),
        summary_matches(before, name, spans, logs),
        summary_matches(after, name, spans, logs.push(l)),
    ensures
        none.error_log_count == 0,
        none.log_count == 0,
        after.error_log_count == before.error_log_count + (if l.service@ == name && l.level@ == "ERROR"@ {
            1int
        } else {
            0int
        }),
        after.log_count == before.log_count + (if l.service@ == name { 1int } else { 0int }),
        after.error_log_count <= after.log_count,
{
    reveal_with_fuel(Seq::filter, 1);
    logs.lemma_filter_push(l, error_logged_by(name));
    logs.lemma_filter_push(l, logged_by(name));
    lemma_error_lines_are_lines(logs.push(l), name);
}

proof fn lemma_error_lines_are_lines(logs: Seq<LogRecord>, name: Seq<char>)
    ensures
        logs.filter(error_logged_by(name)).len() <= logs.filter(logged_by(name)).len(),
    decreases logs.len(),
{
    if logs.len() > 0 {
        lemma_error_lines_are_lines(logs.drop_last(), name);
        assert(logs.drop_last().push(logs.last()) =~= logs);
        logs.drop_last().lemma_filter_push(logs.last(), error_logged_by(name));
        logs.drop_last().lemma_filter_push(logs.last(), logged_by(name));
    } else {
        reveal_with_fuel(Seq::filter, 1);
    }
}

proof fn lemma_filter_step<A>(s: Seq<A>, p: spec_fn(A) -> bool, i: int)
    requires
        0 <= i < s.len(),
    ensures
        s.take(i + 1).filter(p) == if p(s[i]) { s.take(i).filter(p).push(s[i]) } else { s.take(i).filter(p) },
{
    reveal_with_fuel(Seq::filter, 1);
    assert(s.take(i + 1).drop_last() =~= s.take(i));
    assert(s.take(i + 1).last() == s[i]);
}

proof fn lemma_filter_len_bound<A>(s: Seq<A>, p: spec_fn(A) -> bool)
    ensures
        s.filter(p).len() <= s.len(),
{
    broadcast use vstd::seq_lib::group_filter_ensures;
}

fn summarize(name: &String, spans: &[Span], logs: &[LogRecord]) -> (x: ServiceSummary)
    ensures
        summary_matches(x, name@, spans@, logs@),
{
    let ghost n = name@;
    let mut sc: usize = 0;
    let mut esc: usize = 0;
    let mut i: usize = 0;
    proof {
        assert(spans@.take(0) =~= Seq::<Span>::empty());
        reveal_with_fuel(Seq::filter, 1);
    }
    while i < spans.len()
        invariant
            i <= spans@.len(),
            n == name@,
            sc == spans@.take(i as int).filter(of_service(n)).len(),
            esc == spans@.take(i as int).filter(failed_of_service(n)).len(),
        decreases spans@.len() - i,
    {
        proof {
            lemma_filter_step(spans@, of_service(n), i as int);
            lemma_filter_step(spans@, failed_of_service(n), i as int);
            lemma_filter_len_bound(spans@.take(i as int), of_service(n));
            lemma_filter_len_bound(spans@.take(i as int), failed_of_service(n));
        }
        let s = &spans[i];
        if text_eq(s.service.as_str(), name.as_str()) {
            sc = sc + 1;
            if s.status == SpanStatus::Error {
                esc = esc + 1;
            }
        }
        i = i + 1;
    }
    let mut lc: usize = 0;
    let mut elc: usize = 0;
    let mut j: usize = 0;
    proof {
        assert(logs@.take(0) =~= Seq::<LogRecord>::empty());
        reveal_with_fuel(Seq::filter, 1);
    }
    while j < logs.len()
        invariant
            j <= logs@.len(),
            n == name@,
            lc == logs@.take(j as int).filter(logged_by(n)).len(),
            elc == logs@.take(j as int).filter(error_logged_by(n)).len(),
        decreases logs@.len() - j,
    {
        proof {
            lemma_filter_step(logs@, logged_by(n), j as int);
            lemma_filter_step(logs@, error_logged_by(n), j as int);
            lemma_filter_len_bound(logs@.take(j as int), logged_by(n));
            lemma_filter_len_bound(logs@.take(j as int), error_logged_by(n));
        }
        let l = &logs[j];
        if text_eq(l.service.as_str(), name.as_str()) {
            lc = lc + 1;
            if text_eq(l.level.as_str(), "ERROR") {
                elc = elc + 1;
            }
        }
        j = j + 1;
    }
    assert(spans@.take(spans@.len() as int) =~= spans@);
    assert(logs@.take(logs@.len() as int) =~= logs@);
    ServiceSummary { name: name.clone(), span_count: sc, error_span_count: esc, log_count: lc, error_log_count: elc }
}

/// One summary per service, in the order of `services`.
pub fn service_summaries(services: &Vec<String>, spans: &[Span], logs: &[LogRecord]) -> (r: Vec<ServiceSummary>)
    ensures
        r@.len() == services@.len(),
        forall|i: int| 0 <= i < r@.len() ==> summary_matches(#[trigger] r@[i], services@[i]@, spans@, logs@),
{
    let mut r: Vec<ServiceSummary> = Vec::new();
    let mut i: usize = 0;
    while i < services.len()
        invariant
            i <= services@.len(),
            r@.len() == i,
            forall|k: int| 0 <= k < i ==> summary_matches(#[trigger] r@[k], services@[k]@, spans@, logs@),
        decreases services@.len() - i,
    {
        r.push(summarize(&services[i], spans, logs));
        i = i + 1;
    }
    r
}

// ---------------------------------------------------------------------------
// The span tree.
// ---------------------------------------------------------------------------

/// Whether a span's parent is `parent` (`None` for a root span).
pub open spec fn has_parent(parent: Option<Seq<char>>) -> spec_fn(Span) -> bool {
    |s: Span| opt_view(s.parent_id) == parent
}

/// The ids of the spans whose parent is `parent`, in input order.
pub open spec fn children_of(spans: Seq<Span>, parent: Option<Seq<char>>) -> Seq<Seq<char>> {
    spans.filter(has_parent(parent)).map_values(|s: Span| s.span_id@)
}

/// `t` is the tree below span `id`: its children are the trees of the spans
/// whose parent is `id`, in input order; `depth` bounds its height, and a
/// node at the bound has no children to leave out.
pub open spec fn is_tree(t: TreeNode, spans: Seq<Span>, id: Seq<char>, depth: nat) -> bool
    decreases depth,
{
    &&& t.span_id@ == id
    &&& if depth == 0 {
        t.children@.len() == 0 && children_of(spans, Some(id)).len() == 0
    } else {
        let kids = children_of(spans, Some(id));
        &&& t.children@.len() == kids.len()
        &&& forall|i: int| 0 <= i < kids.len() ==> is_tree(#[trigger] t.children@[i], spans, kids[i], (depth - 1) as nat)
    }
}

/// Span `c` is a child of the span with id `parent`.
pub open spec fn child_link(spans: Seq<Span>, parent: Seq<char>, child: Seq<char>) -> bool {
    exists|c: int| 0 <= c < spans.len() && spans[c].span_id@ == child && opt_view(spans[c].parent_id) == Some(parent)
}

/// `path` runs from a root span down through children: its first id is a
/// root's and each next id is a child's of the one before.
pub open spec fn is_chain(spans: Seq<Span>, path: Seq<Seq<char>>) -> bool {
    &&& path.len() >= 1
    &&& exists|r: int| 0 <= r < spans.len() && spans[r].span_id@ == path[0] && spans[r].parent_id is None
    &&& forall|k: int| 0 <= k < path.len() - 1 ==> #[trigger] child_link(spans, path[k], path[k + 1])
}

/// No chain of parent links from a root comes back to an id it passed: the
/// span forest is finite.
pub open spec fn chains_simple(spans: Seq<Span>) -> bool {
    forall|path: Seq<Seq<char>>| #[trigger] is_chain(spans, path) ==> path.no_duplicates()
}

fn children_ids(spans: &[Span], parent: &String) -> (r: Vec<String>)
    ensures
        texts(r@) == children_of(spans@, Some(parent@)),
{
    let mut r: Vec<String> = Vec::new();
    let mut i: usize = 0;
    let ghost p = has_parent(Some(parent@));
    proof {
        reveal_with_fuel(Seq::filter, 1);
        assert(spans@.take(0).filter(p) =~= Seq::<Span>::empty());
        assert(texts(r@) =~= spans@.take(0).filter(p).map_values(|s: Span| s.span_id@));
    }
    while i < spans.len()
        invariant
            i <= spans@.len(),
            p == has_parent(Some(parent@)),
            texts(r@) == spans@.take(i as int).filter(p).map_values(|s: Span| s.span_id@),
        decreases spans@.len() - i,
    {
        proof {
            lemma_filter_step(spans@, p, i as int);
        }
        let s = &spans[i];
        let is_child = match &s.parent_id {
            Some(q) => text_eq(q.as_str(), parent.as_str()),
            None => false,
        };
        if is_child {
            let ghost before = r@;
            r.push(s.span_id.clone());
            proof {
                assert(p(spans@[i as int]));
                assert(texts(r@) =~= texts(before).push(spans@[i as int].span_id@));
                assert(texts(r@) =~= spans@.take(i + 1).filter(p).map_values(|s: Span| s.span_id@));
            }
        } else {
            proof {
                assert(spans@.take(i + 1).filter(p) == spans@.take(i as int).filter(p));
            }
        }
        i = i + 1;
    }
    assert(spans@.take(spans@.len() as int) =~= spans@);
    r
}

fn root_ids(spans: &[Span]) -> (r: Vec<String>)
    ensures
        texts(r@) == children_of(spans@, None),
{
    let mut r: Vec<String> = Vec::new();
    let mut i: usize = 0;
    let ghost p = has_parent(None);
    proof {
        reveal_with_fuel(Seq::filter, 1);
        assert(spans@.take(0).filter(p) =~= Seq::<Span>::empty());
        assert(texts(r@) =~= spans@.take(0).filter(p).map_values(|s: Span| s.span_id@));
    }
    while i < spans.len()
        invariant
            i <= spans@.len(),
            p == has_parent(None),
            texts(r@) == spans@.take(i as int).filter(p).map_values(|s: Span| s.span_id@),
        decreases spans@.len() - i,
    {
        proof {
            lemma_filter_step(spans@, p, i as int);
        }
        let s = &spans[i];
        if s.parent_id.is_none() {
            let ghost before = r@;
            r.push(s.span_id.clone());
            proof {
                assert(p(spans@[i as int]));
                assert(texts(r@) =~= texts(before).push(spans@[i as int].span_id@));
                assert(texts(r@) =~= spans@.take(i + 1).filter(p).map_values(|s: Span| s.span_id@));
            }
        } else {
            proof {
                assert(spans@.take(i + 1).filter(p) == spans@.take(i as int).filter(p));
            }
        }
        i = i + 1;
    }
    assert(spans@.take(spans@.len() as int) =~= spans@);
    r
}

proof fn lemma_children_spans(spans: Seq<Span>, parent: Option<Seq<char>>, i: int)
    requires
        0 <= i < children_of(spans, parent).len(),
    ensures
        exists|c: int| 0 <= c < spans.len() && spans[c].span_id@ == children_of(spans, parent)[i]
            && opt_view(spans[c].parent_id) == parent,
{
    broadcast use vstd::seq_lib::group_filter_ensures;
    let f = spans.filter(has_parent(parent));
    let s = f[i];
    assert(f.contains(s));
    spans.lemma_filter_contains_rev(has_parent(parent), s);
    let c = choose|c: int| 0 <= c < spans.len() && spans[c] == s;
    assert(has_parent(parent)(s));
}

proof fn lemma_chain_extends(spans: Seq<Span>, path: Seq<Seq<char>>, kid: Seq<char>)
    requires
        is_chain(spans, path),
        child_link(spans, path[path.len() - 1], kid),
    ensures
        is_chain(spans, path.push(kid)),
{
    let np = path.push(kid);
    assert forall|k: int| 0 <= k < np.len() - 1 implies #[trigger] child_link(spans, np[k], np[k + 1]) by {
        if k < path.len() - 1 {
            assert(np[k] == path[k] && np[k + 1] == path[k + 1]);
        }
    }
    assert(np[0] == path[0]);
}

/// A chain without a repeated id is no longer than the list of spans.
proof fn lemma_chain_len(spans: Seq<Span>, path: Seq<Seq<char>>)
    requires
        is_chain(spans, path),
        path.no_duplicates(),
    ensures
        path.len() <= spans.len(),
{
    let ids = spans.map_values(|s: Span| s.span_id@);
    assert forall|k: int| 0 <= k < path.len() implies ids.to_set().contains(#[trigger] path[k]) by {
        if k == 0 {
            let r = choose|r: int| 0 <= r < spans.len() && spans[r].span_id@ == path[0] && spans[r].parent_id is None;
            assert(ids[r] == path[0]);
        } else {
            assert(child_link(spans, path[k - 1], path[(k - 1) + 1]));
            let d = choose|d: int| 0 <= d < spans.len() && spans[d].span_id@ == path[k]
                && opt_view(spans[d].parent_id) == Some(path[k - 1]);
            assert(ids[d] == path[k]);
        }
    }
    path.unique_seq_to_set();
    assert(path.to_set().subset_of(ids.to_set()));
    vstd::seq_lib::seq_to_set_is_finite(ids);
    vstd::set_lib::lemma_len_subset(path.to_set(), ids.to_set());
    ids.lemma_cardinality_of_set();
}

/// The ids of the children of `parent` are the ids that `child_link` joins to it.
proof fn lemma_child_in_children(spans: Seq<Span>, parent: Seq<char>, child: Seq<char>)
    requires
        child_link(spans, parent, child),
    ensures
        children_of(spans, Some(parent)).contains(child),
{
    broadcast use vstd::seq_lib::group_filter_ensures;
    let c = choose|c: int| 0 <= c < spans.len() && spans[c].span_id@ == child
        && opt_view(spans[c].parent_id) == Some(parent);
    let p = has_parent(Some(parent));
    assert(p(spans[c]));
    spans.lemma_filter_contains(p, c);
    let f = spans.filter(p);
    let j = choose|j: int| 0 <= j < f.len() && f[j] == spans[c];
    assert(children_of(spans, Some(parent))[j] == child);
}

/// Below a tree of height at most `depth`, no downward run of parent links
/// from its root is longer than `depth + 1`.
proof fn lemma_tree_bounds_runs(t: TreeNode, spans: Seq<Span>, id: Seq<char>, depth: nat, run: Seq<Seq<char>>)
    requires
        is_tree(t, spans, id, depth),
        run.len() >= 1,
        run[0] == id,
        forall|k: int| 0 <= k < run.len() - 1 ==> #[trigger] child_link(spans, run[k], run[k + 1]),
    ensures
        run.len() <= depth + 1,
    decreases depth,
{
    if run.len() >= 2 {
        let z = 0int;
        assert(child_link(spans, run[z], run[z + 1]));
        lemma_child_in_children(spans, id, run[1]);
        let kids = children_of(spans, Some(id));
        let j = choose|j: int| 0 <= j < kids.len() && kids[j] == run[1];
        if depth > 0 {
            let rest = run.drop_first();
            assert forall|k: int| 0 <= k < rest.len() - 1 implies #[trigger] child_link(spans, rest[k], rest[k + 1]) by {
                assert(child_link(spans, run[k + 1], run[(k + 1) + 1]));
            }
            lemma_tree_bounds_runs(t.children@[j], spans, kids[j], (depth - 1) as nat, rest);
        }
    }
}

/// A chain whose last id occurs earlier can be continued for ever: it has
/// continuations of every length.
proof fn lemma_pump(spans: Seq<Span>, p: Seq<Seq<char>>, a: int, k: nat)
    requires
        is_chain(spans, p),
        0 <= a < p.len() - 1,
        p[a] == p[p.len() - 1],
    ensures
        exists|q: Seq<Seq<char>>| #[trigger] is_chain(spans, q) && q.len() == p.len() + k,
    decreases k,
{
    if k == 0 {
        assert(is_chain(spans, p));
    } else {
        assert(child_link(spans, p[a], p[a + 1]));
        lemma_chain_extends(spans, p, p[a + 1]);
        let q = p.push(p[a + 1]);
        assert(q[a + 1] == q[q.len() - 1]);
        lemma_pump(spans, q, a + 1, (k - 1) as nat);
        let r = choose|r: Seq<Seq<char>>| #[trigger] is_chain(spans, r) && r.len() == q.len() + (k - 1);
        assert(is_chain(spans, r) && r.len() == p.len() + k);
    }
}

/// A chain longer than the list of spans repeats an id.
proof fn lemma_long_chain_repeats(spans: Seq<Span>, path: Seq<Seq<char>>)
    requires
        is_chain(spans, path),
        path.len() > spans.len(),
    ensures
        !chains_simple(spans),
{
    if path.no_duplicates() {
        lemma_chain_len(spans, path);
    }
}

/// No two spans share an id.
pub open spec fn distinct_span_ids(spans: Seq<Span>) -> bool {
    forall|i: int, j: int| 0 <= i < j < spans.len() ==> spans[i].span_id@ != spans[j].span_id@
}

proof fn lemma_chain_no_repeat(spans: Seq<Span>, path: Seq<Seq<char>>, a: int, b: int)
    requires
        distinct_span_ids(spans),
        is_chain(spans, path),
        0 <= a < b < path.len(),
    ensures
        path[a] != path[b],
    decreases a,
{
    if path[a] == path[b] {
        assert(child_link(spans, path[b - 1], path[(b - 1) + 1]));
        let d = choose|d: int| 0 <= d < spans.len() && spans[d].span_id@ == path[b]
            && opt_view(spans[d].parent_id) == Some(path[b - 1]);
        if a == 0 {
            let r = choose|r: int| 0 <= r < spans.len() && spans[r].span_id@ == path[0] && spans[r].parent_id is None;
            if r < d {
                assert(spans[r].span_id@ != spans[d].span_id@);
            } else if d < r {
                assert(spans[d].span_id@ != spans[r].span_id@);
            }
        } else {
            assert(child_link(spans, path[a - 1], path[(a - 1) + 1]));
            let e = choose|e: int| 0 <= e < spans.len() && spans[e].span_id@ == path[a]
                && opt_view(spans[e].parent_id) == Some(path[a - 1]);
            if e < d {
                assert(spans[e].span_id@ != spans[d].span_id@);
            } else if d < e {
                assert(spans[d].span_id@ != spans[e].span_id@);
            }
            lemma_chain_no_repeat(spans, path, a - 1, b - 1);
        }
    }
}

/// Spans with distinct ids (as the spans of one trace are) always form a
/// finite forest: no chain of parent links comes back to an id.
pub proof fn lemma_distinct_ids_chains_simple(spans: Seq<Span>)
    requires
        distinct_span_ids(spans),
    ensures
        chains_simple(spans),
{
    assert forall|path: Seq<Seq<char>>| #[trigger] is_chain(spans, path) implies path.no_duplicates() by {
        assert forall|a: int, b: int| 0 <= a < path.len() && 0 <= b < path.len() && a != b implies path[a] != path[b] by {
            if a < b {
                lemma_chain_no_repeat(spans, path, a, b);
            } else {
                lemma_chain_no_repeat(spans, path, b, a);
            }
        }
    }
}

fn subtree(spans: &[Span], id: &String, level: usize, Ghost(path): Ghost<Seq<Seq<char>>>) -> (t: Option<TreeNode>)
    requires
        level == path.len(),
        1 <= level <= spans@.len(),
        is_chain(spans@, path),
        path[path.len() - 1] == id@,
    ensures
        t matches Some(x) ==> is_tree(x, spans@, id@, (spans@.len() - path.len()) as nat),
        t is None ==> !chains_simple(spans@),
    decreases spans@.len() - path.len(),
{
    let kids = children_ids(spans, id);
    let ghost kv = children_of(spans@, Some(id@));
    let mut children: Vec<TreeNode> = Vec::new();
    let n = spans.len();
    if level < n {
        let mut i: usize = 0;
        while i < kids.len()
            invariant
                is_chain(spans@, path),
                path[path.len() - 1] == id@,
                1 <= path.len() < spans@.len(),
                level == path.len(),
                n == spans@.len(),
                level < n,
                texts(kids@) == kv,
                kv == children_of(spans@, Some(id@)),
                i <= kids@.len(),
                children@.len() == i,
                forall|k: int| 0 <= k < i ==> is_tree(#[trigger] children@[k], spans@, kv[k], (spans@.len() - path.len() - 1) as nat),
            decreases kids@.len() - i,
        {
            proof {
                assert(texts(kids@)[i as int] == kids@[i as int]@);
                lemma_children_spans(spans@, Some(id@), i as int);
                lemma_chain_extends(spans@, path, kv[i as int]);
            }
            match subtree(spans, &kids[i], level + 1, Ghost(path.push(kids@[i as int]@))) {
                Some(child) => children.push(child),
                None => {
                    return None;
                },
            }
            i = i + 1;
        }
    } else if kids.len() > 0 {
        proof {
            // The chain continues past the number of spans, so it repeats.
            lemma_children_spans(spans@, Some(id@), 0);
            lemma_chain_extends(spans@, path, kv[0]);
            lemma_long_chain_repeats(spans@, path.push(kv[0]));
        }
        return None;
    }
    Some(TreeNode { span_id: id.clone(), children })
}

/// The span forest of a trace, when the parent links of the spans are
/// finite: one tree per root span (a span without a parent), in input order;
/// below each span the trees of the spans whose parent it is, in input
/// order. `None` when a chain of parent links comes back to an id it passed,
/// so that the trees would never end.
pub fn try_build_tree(spans: &[Span]) -> (r: Option<Vec<TreeNode>>)
    ensures
        r is Some <==> chains_simple(spans@),
        r matches Some(f) ==> f@.len() == children_of(spans@, None).len() && forall|i: int|
            0 <= i < f@.len() ==> is_tree(#[trigger] f@[i], spans@, children_of(spans@, None)[i], (spans@.len() - 1) as nat),
{
    let roots = root_ids(spans);
    let ghost rv = children_of(spans@, None);
    let mut r: Vec<TreeNode> = Vec::new();
    let mut i: usize = 0;
    while i < roots.len()
        invariant
            texts(roots@) == rv,
            rv == children_of(spans@, None),
            i <= roots@.len(),
            r@.len() == i,
            forall|k: int| 0 <= k < i ==> is_tree(#[trigger] r@[k], spans@, rv[k], (spans@.len() - 1) as nat),
        decreases roots@.len() - i,
    {
        proof {
            assert(texts(roots@)[i as int] == roots@[i as int]@);
            lemma_children_spans(spans@, None, i as int);
            let c = choose|c: int| 0 <= c < spans@.len() && spans@[c].span_id@ == rv[i as int]
                && opt_view(spans@[c].parent_id) == None::<Seq<char>>;
            let path = Seq::<Seq<char>>::empty().push(rv[i as int]);
            assert(spans@[c].parent_id is None);
            assert(is_chain(spans@, path));
        }
        match subtree(spans, &roots[i], 1, Ghost(Seq::empty().push(roots@[i as int]@))) {
            Some(t) => r.push(t),
            None => {
                return None;
            },
        }
        i = i + 1;
    }
    proof {
        // Every chain is bounded by the trees, so none can repeat.
        assert forall|path: Seq<Seq<char>>| #[trigger] is_chain(spans@, path) implies path.no_duplicates() by {
            if !path.no_duplicates() {
                let (a, b) = choose|a: int, b: int| 0 <= a < path.len() && 0 <= b < path.len() && a != b
                    && path[a] == path[b];
                let (lo, hi) = if a < b { (a, b) } else { (b, a) };
                let pre = path.take(hi + 1);
                assert forall|k: int| 0 <= k < pre.len() - 1 implies #[trigger] child_link(spans@, pre[k], pre[k + 1]) by {
                    assert(child_link(spans@, path[k], path[k + 1]));
                }
                assert(pre[0] == path[0]);
                assert(is_chain(spans@, pre));
                lemma_pump(spans@, pre, lo, spans@.len());
                let q = choose|q: Seq<Seq<char>>| #[trigger] is_chain(spans@, q) && q.len() == pre.len() + spans@.len();
                let rt = choose|rt: int| 0 <= rt < spans@.len() && spans@[rt].span_id@ == q[0]
                    && spans@[rt].parent_id is None;
                let p0 = has_parent(None);
                broadcast use vstd::seq_lib::group_filter_ensures;
                assert(p0(spans@[rt]));
                spans@.lemma_filter_contains(p0, rt);
                let f0 = spans@.filter(p0);
                let j = choose|j: int| 0 <= j < f0.len() && f0[j] == spans@[rt];
                assert(rv[j] == q[0]);
                assert(f0.len() == rv.len());
                assert(0 <= j < r@.len());
                assert(is_tree(r@[j], spans@, rv[j], (spans@.len() - 1) as nat));
                lemma_tree_bounds_runs(r@[j], spans@, rv[j], (spans@.len() - 1) as nat, q);
            }
        }
    }
    Some(r)
}

/// Whether the parent links of the spans are finite (see `try_build_tree`).
pub fn span_chains_simple(spans: &[Span]) -> (r: bool)
    ensures
        r == chains_simple(spans@),
{
    try_build_tree(spans).is_some()
}

/// The span forest of a trace (see `try_build_tree`), for spans whose
/// parent links are finite.
pub fn build_tree(spans: &[Span]) -> (r: Vec<TreeNode>)
    requires
        chains_simple(spans@),
    ensures
        r@.len() == children_of(spans@, None).len(),
        forall|i: int| 0 <= i < r@.len() ==> is_tree(#[trigger] r@[i], spans@, children_of(spans@, None)[i], (spans@.len() - 1) as nat),
{
    match try_build_tree(spans) {
        Some(f) => f,
        None => Vec::new(),
    }
}

// ---------------------------------------------------------------------------
// The incident document.
// ---------------------------------------------------------------------------

/// The parts of an incident document that come from outside the
/// correlation: its id, when and by which engine version it was produced,
/// the label of the configuration, and how long the correlation took.
pub struct IncidentMeta {
    pub incident_id: String,
    pub produced_at: UtcInstant,
    pub engine_version: String,
    pub config_hash: String,
    pub elapsed_ms: u64,
}

/// Whether `c` is a lowercase hexadecimal digit.
pub open spec fn is_lower_hex(c: char) -> bool {
    ('0' <= c && c <= '9') || ('a' <= c && c <= 'f')
}

/// The hyphenated lowercase form of a UUID: 36 characters, hyphens at
/// positions 8, 13, 18 and 23, hexadecimal digits elsewhere.
pub open spec fn is_hyphenated_uuid(s: Seq<char>) -> bool {
    &&& s.len() == 36
    &&& forall|i: int| 0 <= i < 36 ==> if i == 8 || i == 13 || i == 18 || i == 23 {
        s[i] == '-'
    } else {
        is_lower_hex(#[trigger] s[i])
    }
}

/// A fresh time-ordered (version 7) UUID in hyphenated form
/// (`uuid::Uuid::now_v7`, written with `Display`). Which UUID comes out
/// depends on the clock and on chance; only its form is promised.
#[verifier::external_body]
fn new_uuid_text() -> (r: String)
    ensures
        is_hyphenated_uuid(r@),
{
    uuid::Uuid::now_v7().to_string()
}

impl IncidentMeta {
    /// The stamp of an incident produced at `produced_at`: a fresh incident
    /// id, the instant, the engine version, the configuration label and the
    /// elapsed time.
    pub fn stamp(produced_at: UtcInstant, engine_version: &str, config_hash: String, elapsed_ms: u64) -> (m: IncidentMeta)
        ensures
            is_hyphenated_uuid(m.incident_id@),
            m.produced_at == produced_at,
            m.engine_version@ == engine_version@,
            m.config_hash == config_hash,
            m.elapsed_ms == elapsed_ms,
    {
        IncidentMeta {
            incident_id: new_uuid_text(),
            produced_at,
            engine_version: owned(engine_version),
            config_hash,
            elapsed_ms,
        }
    }
}

/// `OK` or `ERROR`.
pub open spec fn status_text(s: SpanStatus) -> Seq<char> {
    match s {
        SpanStatus::Success => "OK"@,
        SpanStatus::Error => "ERROR"@,
    }
}

/// `r` lists span `s`.
pub open spec fn lists_span(r: SpanRef, s: Span) -> bool {
    &&& r.id == s.span_id
    &&& r.trace_id == s.trace_id
    &&& r.parent_id == s.parent_id
    &&& r.service == s.service
    &&& r.operation == s.operation
    &&& r.start == s.start
    &&& r.duration_ms == s.duration_ms
    &&& r.status@ == status_text(s.status)
    &&& r.status_message == s.status_message
    &&& r.attributes == s.attributes
}

/// The spans as the document lists them, in input order.
pub fn span_refs(spans: Vec<Span>) -> (r: Vec<SpanRef>)
    ensures
        r@.len() == spans@.len(),
        forall|i: int| 0 <= i < r@.len() ==> lists_span(#[trigger] r@[i], spans@[i]),
{
    let ghost sv = spans@;
    let mut r: Vec<SpanRef> = Vec::new();
    let mut rest = spans;
    let mut taken: Vec<Span> = Vec::new();
    // Take the spans from the back, then list them front to back.
    while rest.len() > 0
        invariant
            sv == rest@ + taken@.reverse(),
        decreases rest@.len(),
    {
        let s = rest.pop().unwrap();
        taken.push(s);
        proof {
            assert(sv =~= rest@ + taken@.reverse());
        }
    }
    assert(taken@.reverse() =~= sv);
    let ghost tv = taken@;
    while taken.len() > 0
        invariant
            tv.reverse() == sv,
            taken@ == tv.take(taken@.len() as int),
            r@.len() + taken@.len() == sv.len(),
            forall|i: int| 0 <= i < r@.len() ==> lists_span(#[trigger] r@[i], sv[i]),
        decreases taken@.len(),
    {
        let k = taken.len() - 1;
        let s = taken.pop().unwrap();
        proof {
            assert(s == tv[k as int]);
            assert(sv[r@.len() as int] == tv[k as int]);
            assert(taken@ =~= tv.take(k as int));
        }
        let status = match s.status {
            SpanStatus::Success => owned("OK"),
            SpanStatus::Error => owned("ERROR"),
        };
        r.push(
            SpanRef {
                id: s.span_id,
                trace_id: s.trace_id,
                parent_id: s.parent_id,
                service: s.service,
                operation: s.operation,
                start: s.start,
                duration_ms: s.duration_ms,
                status,
                status_message: s.status_message,
                attributes: s.attributes,
            },
        );
    }
    r
}

/// `x` presents the `i`-th ranked suspect `s`.
pub open spec fn presents(x: Suspect, s: ScoredSuspect, i: int) -> bool {
    &&& x.rank == i + 1
    &&& x.service == s.service
    &&& x.score == s.score
    &&& x.evidence_breakdown.direct_error_weight == s.direct_error
    &&& x.evidence_breakdown.direct_anomaly_weight == s.direct_anomaly
    &&& x.evidence_breakdown.propagated_weight == s.propagated
    &&& x.evidence_breakdown.direct_latency_weight == s.direct_latency
    &&& x.evidence_breakdown.temporal_tightness_multiplier == s.temporal_mult
    &&& x.evidence_breakdown.contributors@.len() == s.contributors@.len()
    &&& forall|k: int| 0 <= k < s.contributors@.len() ==> {
        let c = #[trigger] x.evidence_breakdown.contributors@[k];
        &&& c.kind == s.contributors@[k].0
        &&& c.reference == s.contributors@[k].1
        &&& c.weight == s.contributors@[k].2
    }
}

fn present(s: ScoredSuspect, i: usize) -> (x: Suspect)
    requires
        i < usize::MAX,
    ensures
        presents(x, s, i as int),
{
    let ghost sv = s;
    let mut cs: Vec<Contributor> = Vec::new();
    let mut src = s.contributors;
    let mut rev: Vec<(String, String, u64)> = Vec::new();
    while src.len() > 0
        invariant
            sv.contributors@ == src@ + rev@.reverse(),
        decreases src@.len(),
    {
        let c = src.pop().unwrap();
        rev.push(c);
        proof {
            assert(sv.contributors@ =~= src@ + rev@.reverse());
        }
    }
    assert(rev@.reverse() =~= sv.contributors@);
    let ghost rv = rev@;
    while rev.len() > 0
        invariant
            rv.reverse() == sv.contributors@,
            rev@ == rv.take(rev@.len() as int),
            cs@.len() + rev@.len() == sv.contributors@.len(),
            forall|k: int| 0 <= k < cs@.len() ==> {
                let c = #[trigger] cs@[k];
                &&& c.kind == sv.contributors@[k].0
                &&& c.reference == sv.contributors@[k].1
                &&& c.weight == sv.contributors@[k].2
            },
        decreases rev@.len(),
    {
        let k = rev.len() - 1;
        let c = rev.pop().unwrap();
        proof {
            assert(c == rv[k as int]);
            assert(sv.contributors@[cs@.len() as int] == rv[k as int]);
            assert(rev@ =~= rv.take(k as int));
        }
        cs.push(Contributor { kind: c.0, reference: c.1, weight: c.2 });
    }
    Suspect {
        rank: i + 1,
        service: s.service,
        score: s.score,
        evidence_breakdown: EvidenceBreakdown {
            direct_error_weight: s.direct_error,
            direct_anomaly_weight: s.direct_anomaly,
            propagated_weight: s.propagated,
            direct_latency_weight: s.direct_latency,
            temporal_tightness_multiplier: s.temporal_mult,
            contributors: cs,
        },
    }
}

/// The ranked suspects as the document presents them, numbered from 1 in
/// ranking order.
pub fn present_suspects(ranked: Vec<ScoredSuspect>) -> (r: Vec<Suspect>)
    ensures
        r@.len() == ranked@.len(),
        forall|i: int| 0 <= i < r@.len() ==> presents(#[trigger] r@[i], ranked@[i], i),
{
    let ghost sv = ranked@;
    let total = ranked.len();
    let mut rest = ranked;
    let mut rev: Vec<ScoredSuspect> = Vec::new();
    while rest.len() > 0
        invariant
            sv == rest@ + rev@.reverse(),
        decreases rest@.len(),
    {
        let s = rest.pop().unwrap();
        rev.push(s);
        proof {
            assert(sv =~= rest@ + rev@.reverse());
        }
    }
    assert(rev@.reverse() =~= sv);
    let ghost rv = rev@;
    let mut r: Vec<Suspect> = Vec::new();
    assert(rv.len() == sv.len());
    while rev.len() > 0
        invariant
            rv.reverse() == sv,
            total == sv.len(),
            rev@ == rv.take(rev@.len() as int),
            r@.len() + rev@.len() == sv.len(),
            forall|i: int| 0 <= i < r@.len() ==> presents(#[trigger] r@[i], sv[i], i),
        decreases rev@.len(),
    {
        let k = rev.len() - 1;
        let s = rev.pop().unwrap();
        proof {
            assert(s == rv[k as int]);
            assert(sv[r@.len() as int] == rv[k as int]);
            assert(rev@ =~= rv.take(k as int));
        }
        let i = r.len();
        r.push(present(s, i));
    }
    r
}

/// An incident document with nothing in it but its trigger and notes: its
/// window is the instant it was produced at, not expanded.
pub fn empty_incident(trigger: Trigger, notes: Vec<String>, meta: IncidentMeta) -> (ic: IncidentContext)
    ensures
        ic.schema_version@ == SCHEMA_VERSION@,
        ic.incident_id == meta.incident_id,
        ic.produced_at == meta.produced_at,
        ic.engine_version == meta.engine_version,
        ic.config_hash == meta.config_hash,
        ic.elapsed_ms == meta.elapsed_ms,
        ic.trigger == trigger,
        ic.window == (Window { start: meta.produced_at, end: meta.produced_at, expanded: false }),
        ic.services@.len() == 0,
        ic.suspects@.len() == 0,
        ic.spans@.len() == 0,
        ic.span_tree@.len() == 0,
        ic.log_batches@.len() == 0,
        ic.metric_anomalies@.len() == 0,
        ic.timeline@.len() == 0,
        ic.notes == notes,
{
    IncidentContext {
        schema_version: owned(SCHEMA_VERSION),
        incident_id: meta.incident_id,
        produced_at: meta.produced_at,
        engine_version: meta.engine_version,
        config_hash: meta.config_hash,
        elapsed_ms: meta.elapsed_ms,
        trigger,
        window: Window { start: meta.produced_at, end: meta.produced_at, expanded: false },
        services: Vec::new(),
        suspects: Vec::new(),
        spans: Vec::new(),
        span_tree: Vec::new(),
        log_batches: Vec::new(),
        metric_anomalies: Vec::new(),
        timeline: Vec::new(),
        notes,
    }
}

/// The incident document of a trace: the trace as trigger; the queried
/// window, expanded; one summary per queried service; the ranked suspects;
/// the spans; the span forest; no batches, anomalies, timeline or notes.
pub fn trace_incident(
    trace_id: String,
    spans: Vec<Span>,
    logs: &[LogRecord],
    query: LogQuery,
    ranked: Vec<ScoredSuspect>,
    meta: IncidentMeta,
) -> (ic: IncidentContext)
    requires
        chains_simple(spans@),
    ensures
        ic.schema_version@ == SCHEMA_VERSION@,
        ic.incident_id == meta.incident_id,
        ic.produced_at == meta.produced_at,
        ic.engine_version == meta.engine_version,
        ic.config_hash == meta.config_hash,
        ic.elapsed_ms == meta.elapsed_ms,
        ic.trigger == (Trigger::Trace { trace: TraceTrigger { trace_id } }),
        ic.window == (Window { start: query.start, end: query.end, expanded: true }),
        ic.services@.len() == query.services@.len(),
        forall|i: int| 0 <= i < ic.services@.len() ==> summary_matches(#[trigger] ic.services@[i], query.services@[i]@, spans@, logs@),
        ic.suspects@.len() == ranked@.len(),
        forall|i: int| 0 <= i < ic.suspects@.len() ==> presents(#[trigger] ic.suspects@[i], ranked@[i], i),
        ic.spans@.len() == spans@.len(),
        forall|i: int| 0 <= i < ic.spans@.len() ==> lists_span(#[trigger] ic.spans@[i], spans@[i]),
        ic.span_tree@.len() == children_of(spans@, None).len(),
        forall|i: int| 0 <= i < ic.span_tree@.len() ==> is_tree(#[trigger] ic.span_tree@[i], spans@, children_of(spans@, None)[i], (spans@.len() - 1) as nat),
        ic.log_batches@.len() == 0,
        ic.metric_anomalies@.len() == 0,
        ic.timeline@.len() == 0,
        ic.notes@.len() == 0,
{
    let services = service_summaries(&query.services, spans.as_slice(), logs);
    let span_tree = build_tree(spans.as_slice());
    let suspects = present_suspects(ranked);
    let ghost sv = spans@;
    let refs = span_refs(spans);
    IncidentContext {
        schema_version: owned(SCHEMA_VERSION),
        incident_id: meta.incident_id,
        produced_at: meta.produced_at,
        engine_version: meta.engine_version,
        config_hash: meta.config_hash,
        elapsed_ms: meta.elapsed_ms,
        trigger: Trigger::Trace { trace: TraceTrigger { trace_id } },
        window: Window { start: query.start, end: query.end, expanded: true },
        services,
        suspects,
        spans: refs,
        span_tree,
        log_batches: Vec::new(),
        metric_anomalies: Vec::new(),
        timeline: Vec::new(),
        notes: Vec::new(),
    }
}

} // verus!
