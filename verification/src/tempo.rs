//! Reading the answers of the trace store (Tempo).
use vstd::prelude::*;
use crate::backend::{BackendError, RangeRequest, Span, SpanStatus, params_view};
use crate::json::{
    Json, as_array, as_i64, as_str, as_u64, at, items_of, items_or_empty, member, member2, nanos_field, nanos_or, str_or,
    text_eq, text_of,
};
use crate::text::{concat, dec, dec_int, i64_text, owned, u64_text};

verus! {

/// A trace found by a search.
#[derive(Debug)]
pub struct TraceHit {
    pub trace_id: String,
    pub root_service: String,
    pub duration_ms: u64,
}

/// The URL of the trace `id` at the store `base`.
pub fn trace_url(base: &str, id: &str) -> (r: String)
    ensures
        r@ == base@ + "/api/traces/"@ + id@,
{
    let mut r = concat(base, "/api/traces/");
    r.append(id);
    r
}

/// The URL of the search endpoint of the store `base`.
pub fn search_url(base: &str) -> (r: String)
    ensures
        r@ == base@ + "/api/search"@,
{
    concat(base, "/api/search")
}

/// The search request for the traces that a TraceQL query matches between
/// two instants (in Unix seconds), at most `limit` of them.
pub fn search_request(base: &str, traceql: &str, start_sec: i64, end_sec: i64, limit: u32) -> (r: RangeRequest)
    ensures
        r.url@ == base@ + "/api/search"@,
        params_view(r.params@) == seq![
            ("q"@, traceql@),
            ("start"@, dec_int(start_sec as int)),
            ("end"@, dec_int(end_sec as int)),
            ("limit"@, dec(limit as nat)),
        ],
{
    let mut params: Vec<(String, String)> = Vec::new();
    params.push((owned("q"), owned(traceql)));
    params.push((owned("start"), i64_text(start_sec)));
    params.push((owned("end"), i64_text(end_sec)));
    params.push((owned("limit"), u64_text(limit as u64)));
    proof {
        assert(params_view(params@) =~= seq![
            ("q"@, traceql@),
            ("start"@, dec_int(start_sec as int)),
            ("end"@, dec_int(end_sec as int)),
            ("limit"@, dec(limit as nat)),
        ]);
    }
    RangeRequest { url: search_url(base), params }
}

/// Whether `s` occurs in `t` as a contiguous piece.
pub open spec fn contains_text(t: Seq<char>, s: Seq<char>) -> bool {
    exists|i: int| 0 <= i && i + s.len() <= t.len() && #[trigger] t.subrange(i, i + s.len()) == s
}

/// The error a failed trace fetch becomes: a failure whose message mentions
/// `404` means the trace is not there; any other means the store could not
/// be reached.
pub fn fetch_failure(message: &str) -> (e: BackendError)
    ensures
        e == (if contains_text(message@, "404"@) { BackendError::Empty } else { BackendError::Unreachable }),
{
    let cs = crate::text::chars_of(message);
    proof {
        reveal_strlit("404");
    }
    let mut i: usize = 0;
    while i < cs.len() && cs.len() - i >= 3
        invariant
            cs@ == message@,
            i <= cs@.len(),
            forall|j: int| 0 <= j < i && j + 3 <= cs@.len() ==> #[trigger] cs@.subrange(j, j + 3) != "404"@,
        decreases cs@.len() - i,
    {
        proof {
            reveal_strlit("404");
        }
        if cs[i] == '4' && cs[i + 1] == '0' && cs[i + 2] == '4' {
            assert(cs@.subrange(i as int, i + 3) =~= "404"@);
            return BackendError::Empty;
        }
        assert(cs@.subrange(i as int, i + 3)[0] == cs@[i as int]);
        assert(cs@.subrange(i as int, i + 3)[1] == cs@[i + 1]);
        assert(cs@.subrange(i as int, i + 3)[2] == cs@[i + 2]);
        i = i + 1;
    }
    BackendError::Unreachable
}

/// The hits of a search answer: every entry of `traces` with a `traceID`,
/// in answer order; a missing root service reads `unknown` and a missing
/// duration 0.
pub open spec fn hit_of(t: Json) -> Option<(Seq<char>, Seq<char>, u64)> {
    match as_str(at(t, "traceID"@)) {
        Some(id) => Some(
            (
                id,
                str_or(at(t, "rootServiceName"@), "unknown"@),
                match as_u64(at(t, "durationMs"@)) {
                    Some(d) => d,
                    None => 0,
                },
            ),
        ),
        None => None,
    }
}

/// The hits among some entries, in order.
pub open spec fn hits_of(ts: Seq<Json>) -> Seq<(Seq<char>, Seq<char>, u64)>
    decreases ts.len(),
{
    if ts.len() == 0 {
        Seq::empty()
    } else {
        let rest = hits_of(ts.drop_last());
        match hit_of(ts.last()) {
            Some(h) => rest.push(h),
            None => rest,
        }
    }
}

/// The views of some hits.
pub open spec fn hits_view(v: Seq<TraceHit>) -> Seq<(Seq<char>, Seq<char>, u64)> {
    v.map_values(|h: TraceHit| (h.trace_id@, h.root_service@, h.duration_ms))
}

/// The hits of a search answer.
pub fn search_hits(v: &Json) -> (r: Vec<TraceHit>)
    ensures
        hits_view(r@) == hits_of(items_or_empty(at(*v, "traces"@))),
{
    let mut r: Vec<TraceHit> = Vec::new();
    let traces = items_of(member(v, "traces"));
    match traces {
        Some(ts) => {
            let ghost tv = ts@;
            let mut i: usize = 0;
            proof {
                assert(tv.take(0) =~= Seq::<Json>::empty());
                assert(hits_view(r@) =~= Seq::<(Seq<char>, Seq<char>, u64)>::empty());
            }
            while i < ts.len()
                invariant
                    tv == ts@,
                    i <= tv.len(),
                    hits_view(r@) == hits_of(tv.take(i as int)),
                decreases tv.len() - i,
            {
                let t = &ts[i];
                proof {
                    assert(tv.take(i + 1).drop_last() =~= tv.take(i as int));
                    assert(tv.take(i + 1).last() == tv[i as int]);
                }
                match text_of(member(t, "traceID")) {
                    Some(id) => {
                        let root = match text_of(member(t, "rootServiceName")) {
                            Some(s) => owned(s),
                            None => owned("unknown"),
                        };
                        let d = match member(t, "durationMs") {
                            Some(x) => match x.as_u64() {
                                Some(n) => n,
                                None => 0,
                            },
                            None => 0,
                        };
                        let ghost before = r@;
                        r.push(TraceHit { trace_id: owned(id), root_service: root, duration_ms: d });
                        proof {
                            assert(hits_view(r@) =~= hits_view(before).push(hit_of(tv[i as int]).unwrap()));
                        }
                    },
                    None => {},
                }
                i = i + 1;
            }
            assert(tv.take(tv.len() as int) =~= tv);
        },
        None => {
            assert(hits_view(r@) =~= Seq::<(Seq<char>, Seq<char>, u64)>::empty());
        },
    }
    r
}

/// Whether a resource attribute is the service name.
pub open spec fn names_service(a: Json) -> bool {
    as_str(at(a, "key"@)) == Some("service.name"@)
}

/// The position of the first attribute that is the service name.
pub open spec fn service_attr_index(attrs: Seq<Json>) -> Option<int>
    decreases attrs.len(),
{
    if attrs.len() == 0 {
        None
    } else if names_service(attrs[0]) {
        Some(0)
    } else {
        match service_attr_index(attrs.drop_first()) {
            Some(i) => Some(i + 1),
            None => None,
        }
    }
}

/// The service of a batch: the string value of its first `service.name`
/// resource attribute, or `unknown`.
pub open spec fn batch_service(b: Json) -> Seq<char> {
    match as_array(at(at(b, "resource"@), "attributes"@)) {
        Some(attrs) => match service_attr_index(attrs) {
            Some(i) => str_or(at(at(attrs[i], "value"@), "stringValue"@), "unknown"@),
            None => "unknown"@,
        },
        None => "unknown"@,
    }
}

/// The spans of the scopes of a batch, each with the batch's service.
pub open spec fn scope_spans(scopes: Seq<Json>, service: Seq<char>) -> Seq<(Json, Seq<char>)>
    decreases scopes.len(),
{
    if scopes.len() == 0 {
        Seq::empty()
    } else {
        scope_spans(scopes.drop_last(), service) + items_or_empty(at(scopes.last(), "spans"@)).map_values(
            |sp: Json| (sp, service),
        )
    }
}

/// The spans of some batches, each with its batch's service, in order.
pub open spec fn batch_spans(batches: Seq<Json>) -> Seq<(Json, Seq<char>)>
    decreases batches.len(),
{
    if batches.len() == 0 {
        Seq::empty()
    } else {
        batch_spans(batches.drop_last()) + scope_spans(
            items_or_empty(at(batches.last(), "scopeSpans"@)),
            batch_service(batches.last()),
        )
    }
}

/// The service of a batch is the string value of its first resource
/// attribute keyed `service.name` (or `unknown` when that value is not a
/// string), and `unknown` when no resource attribute is keyed so.
pub proof fn lemma_batch_service_is_first_service_name(b: Json, attrs: Seq<Json>)
    requires
        as_array(at(at(b, "resource"@), "attributes"@)) == Some(attrs),
    ensures
        forall|j: int| 0 <= j < attrs.len() && as_str(at(#[trigger] attrs[j], "key"@)) == Some("service.name"@) && (forall|k: int|
            0 <= k < j ==> as_str(at(attrs[k], "key"@)) != Some("service.name"@)) ==> batch_service(b) == str_or(
            at(at(attrs[j], "value"@), "stringValue"@),
            "unknown"@,
        ),
        (forall|k: int| 0 <= k < attrs.len() ==> as_str(at(#[trigger] attrs[k], "key"@)) != Some("service.name"@))
            ==> batch_service(b) == "unknown"@,
{
    assert forall|j: int| 0 <= j < attrs.len() && as_str(at(#[trigger] attrs[j], "key"@)) == Some("service.name"@) && (forall|k: int|
        0 <= k < j ==> as_str(at(attrs[k], "key"@)) != Some("service.name"@)) implies service_attr_index(attrs) == Some(j) by {
        lemma_service_attr_index_first(attrs, j);
    }
    lemma_service_attr_index_none(attrs);
}

proof fn lemma_service_attr_index_first(attrs: Seq<Json>, j: int)
    requires
        0 <= j < attrs.len(),
        names_service(attrs[j]),
        forall|k: int| 0 <= k < j ==> !names_service(#[trigger] attrs[k]),
    ensures
        service_attr_index(attrs) == Some(j),
    decreases j,
{
    if j > 0 {
        assert(!names_service(attrs[0]));
        let rest = attrs.drop_first();
        assert forall|k: int| 0 <= k < j - 1 implies !names_service(#[trigger] rest[k]) by {
            assert(rest[k] == attrs[k + 1]);
        }
        lemma_service_attr_index_first(rest, j - 1);
    }
}

proof fn lemma_service_attr_index_none(attrs: Seq<Json>)
    ensures
        (forall|k: int| 0 <= k < attrs.len() ==> !names_service(#[trigger] attrs[k])) ==> service_attr_index(attrs) is None,
    decreases attrs.len(),
{
    if attrs.len() > 0 {
        let rest = attrs.drop_first();
        lemma_service_attr_index_none(rest);
        if forall|k: int| 0 <= k < attrs.len() ==> !names_service(#[trigger] attrs[k]) {
            assert forall|k: int| 0 <= k < rest.len() implies !names_service(#[trigger] rest[k]) by {
                assert(rest[k] == attrs[k + 1]);
            }
        }
    }
}

proof fn lemma_scope_spans_labels(scopes: Seq<Json>, service: Seq<char>)
    ensures
        forall|i: int| 0 <= i < scope_spans(scopes, service).len() ==> (#[trigger] scope_spans(scopes, service)[i]).1 == service,
    decreases scopes.len(),
{
    if scopes.len() > 0 {
        lemma_scope_spans_labels(scopes.drop_last(), service);
        let head = scope_spans(scopes.drop_last(), service);
        let tail = items_or_empty(at(scopes.last(), "spans"@)).map_values(|sp: Json| (sp, service));
        assert forall|i: int| 0 <= i < scope_spans(scopes, service).len() implies (#[trigger] scope_spans(
            scopes,
            service,
        )[i]).1 == service by {
            if i < head.len() {
                assert(scope_spans(scopes, service)[i] == head[i]);
            } else {
                assert(scope_spans(scopes, service)[i] == tail[i - head.len()]);
            }
        }
    }
}

/// The spans of two runs of batches, one after the other, are the spans of
/// the first run followed by those of the second: what a batch contributes
/// does not depend on the batches around it.
pub proof fn lemma_batch_spans_split(a: Seq<Json>, b: Seq<Json>)
    ensures
        batch_spans(a + b) == batch_spans(a) + batch_spans(b),
    decreases b.len(),
{
    if b.len() == 0 {
        assert(a + b =~= a);
        assert(batch_spans(a) + batch_spans(b) =~= batch_spans(a));
    } else {
        lemma_batch_spans_split(a, b.drop_last());
        assert((a + b).drop_last() =~= a + b.drop_last());
        assert((a + b).last() == b.last());
        let tail = scope_spans(items_or_empty(at(b.last(), "scopeSpans"@)), batch_service(b.last()));
        assert(batch_spans(a) + batch_spans(b.drop_last()) + tail =~= batch_spans(a) + (batch_spans(b.drop_last()) + tail));
    }
}

/// Each batch contributes its own spans, labelled with its own service: in
/// the spans of some batches, those of batch `k` follow the spans of the
/// batches before it, are the spans that batch gives on its own, and each
/// carries the `service.name` resource attribute of batch `k` (or
/// `unknown`).
pub proof fn lemma_spans_carry_their_batch_service(batches: Seq<Json>, k: int)
    requires
        0 <= k < batches.len(),
    ensures
        batch_spans(batches.take(k)).len() + batch_spans(seq![batches[k]]).len() <= batch_spans(batches).len(),
        forall|i: int| 0 <= i < batch_spans(seq![batches[k]]).len() ==> batch_spans(batches)[batch_spans(batches.take(k)).len() + i]
            == #[trigger] batch_spans(seq![batches[k]])[i],
        forall|i: int| 0 <= i < batch_spans(seq![batches[k]]).len() ==> (#[trigger] batch_spans(seq![batches[k]])[i]).1
            == batch_service(batches[k]),
{
    let before = batches.take(k);
    let own = seq![batches[k]];
    let after = batches.skip(k + 1);
    assert(batches =~= before + own + after);
    lemma_batch_spans_split(before + own, after);
    lemma_batch_spans_split(before, own);
    assert(own.drop_last() =~= Seq::<Json>::empty());
    assert(own.last() == batches[k]);
    assert(batch_spans(Seq::<Json>::empty()) =~= Seq::<(Json, Seq<char>)>::empty());
    lemma_scope_spans_labels(items_or_empty(at(batches[k], "scopeSpans"@)), batch_service(batches[k]));
    assert(batch_spans(own) =~= scope_spans(items_or_empty(at(batches[k], "scopeSpans"@)), batch_service(batches[k])));
}

/// `x` is the span that the OTLP span `sp` of service `service` describes:
/// ids and name (empty when missing), the parent unless it is empty, start
/// and end (a missing end is the start), the whole milliseconds between them
/// (none when it ends before it starts), status code 2 as a failure, and the
/// status message.
pub open spec fn is_tempo_span(x: Span, sp: Json, service: Seq<char>) -> bool {
    let start = nanos_or(at(sp, "startTimeUnixNano"@), 0);
    let end = nanos_or(at(sp, "endTimeUnixNano"@), start);
    let d = end as int - start as int;
    let code = match as_i64(at(at(sp, "status"@), "code"@)) {
        Some(c) => c,
        None => 0,
    };
    &&& x.span_id@ == str_or(at(sp, "spanId"@), ""@)
    &&& x.trace_id@ == str_or(at(sp, "traceId"@), ""@)
    &&& x.parent_id.is_some() == (as_str(at(sp, "parentSpanId"@)) matches Some(p) && p.len() > 0)
    &&& (x.parent_id matches Some(p) ==> as_str(at(sp, "parentSpanId"@)) == Some(p@))
    &&& x.service@ == service
    &&& x.operation@ == str_or(at(sp, "name"@), ""@)
    &&& x.start == start
    &&& x.duration_ms as int == (if d >= 0 { d / 1_000_000 } else { 0 })
    &&& x.status == (if code == 2 { SpanStatus::Error } else { SpanStatus::Success })
    &&& x.status_message.is_some() == as_str(at(at(sp, "status"@), "message"@)).is_some()
    &&& (x.status_message matches Some(m) ==> as_str(at(at(sp, "status"@), "message"@)) == Some(m@))
    &&& x.attributes@.len() == 0
}

fn text_or(x: Option<&Json>, d: &str) -> (r: String)
    ensures
        match x {
            Some(j) => r@ == str_or(*j, d@),
            None => r@ == d@,
        },
{
    match text_of(x) {
        Some(s) => owned(s),
        None => owned(d),
    }
}

fn tempo_span(sp: &Json, service: &String) -> (x: Span)
    ensures
        is_tempo_span(x, *sp, service@),
{
    let start = nanos_field(sp, "startTimeUnixNano", 0);
    let end = nanos_field(sp, "endTimeUnixNano", start);
    let d: i128 = (end as i128) - (start as i128);
    let dur: i64 = if d >= 0 {
        (d / 1_000_000) as i64
    } else {
        0
    };
    let code: i64 = match member2(sp, "status", "code") {
        Some(c) => match c.as_i64() {
            Some(n) => n,
            None => 0,
        },
        None => 0,
    };
    let parent = match text_of(member(sp, "parentSpanId")) {
        Some(p) => if p.unicode_len() > 0 {
            Some(owned(p))
        } else {
            None
        },
        None => None,
    };
    let message = match text_of(member2(sp, "status", "message")) {
        Some(m) => Some(owned(m)),
        None => None,
    };
    let span = Span {
        span_id: text_or(member(sp, "spanId"), ""),
        trace_id: text_or(member(sp, "traceId"), ""),
        parent_id: parent,
        service: service.clone(),
        operation: text_or(member(sp, "name"), ""),
        start,
        duration_ms: dur,
        status: if code == 2 { SpanStatus::Error } else { SpanStatus::Success },
        status_message: message,
        attributes: Vec::new(),
    };
    proof {
        reveal_strlit("");
        assert(""@ =~= Seq::<char>::empty());
    }
    span
}

fn service_of(b: &Json) -> (r: String)
    ensures
        r@ == batch_service(*b),
{
    match items_of(member2(b, "resource", "attributes")) {
        Some(attrs) => {
            let mut i: usize = 0;
            let ghost av = attrs@;
            assert(av.skip(0) =~= av);
            while i < attrs.len()
                invariant
                    av == attrs@,
                    as_array(at(at(*b, "resource"@), "attributes"@)) == Some(av),
                    i <= av.len(),
                    service_attr_index(av) == match service_attr_index(av.skip(i as int)) {
                        Some(k) => Some(k + i),
                        None => None,
                    },
                decreases av.len() - i,
            {
                let a = &attrs[i];
                proof {
                    assert(av.skip(i as int)[0] == av[i as int]);
                    assert(av.skip(i as int).drop_first() =~= av.skip(i + 1));
                }
                let is_name = match text_of(member(a, "key")) {
                    Some(k) => text_eq(k, "service.name"),
                    None => false,
                };
                if is_name {
                    proof {
                        assert(names_service(av.skip(i as int)[0]));
                        assert(service_attr_index(av.skip(i as int)) == Some(0int));
                        assert(service_attr_index(av) == Some(i as int));
                    }
                    return text_or(member2(a, "value", "stringValue"), "unknown");
                }
                i = i + 1;
            }
            proof {
                assert(av.skip(i as int).len() == 0);
            }
            owned("unknown")
        },
        None => owned("unknown"),
    }
}

/// Reads the spans of a trace answer: each span of each scope of each batch,
/// in answer order, with its batch's service. An answer without a `batches`
/// array is malformed.
pub fn parse_tempo_trace(v: &Json) -> (r: Result<Vec<Span>, BackendError>)
    ensures
        match as_array(at(*v, "batches"@)) {
            Some(batches) => r matches Ok(spans) && spans@.len() == batch_spans(batches).len()
                && forall|i: int| 0 <= i < spans@.len() ==> is_tempo_span(
                    #[trigger] spans@[i],
                    batch_spans(batches)[i].0,
                    batch_spans(batches)[i].1,
                ),
            None => r matches Err(e) && e == BackendError::MalformedResponse,
        },
{
    let batches = match items_of(member(v, "batches")) {
        Some(b) => b,
        None => {
            return Err(BackendError::MalformedResponse);
        },
    };
    let ghost bv = batches@;
    let mut out: Vec<Span> = Vec::new();
    let mut b: usize = 0;
    proof {
        assert(bv.take(0) =~= Seq::<Json>::empty());
    }
    while b < batches.len()
        invariant
            bv == batches@,
            b <= bv.len(),
            out@.len() == batch_spans(bv.take(b as int)).len(),
            forall|i: int| 0 <= i < out@.len() ==> is_tempo_span(
                #[trigger] out@[i],
                batch_spans(bv.take(b as int))[i].0,
                batch_spans(bv.take(b as int))[i].1,
            ),
        decreases bv.len() - b,
    {
        let batch = &batches[b];
        let service = service_of(batch);
        let ghost before = batch_spans(bv.take(b as int));
        let ghost base = out@;
        let ghost scopes = items_or_empty(at(*batch, "scopeSpans"@));
        proof {
            assert(bv.take(b + 1).drop_last() =~= bv.take(b as int));
            assert(bv.take(b + 1).last() == bv[b as int]);
            assert(scope_spans(scopes.take(0), service@) =~= Seq::<(Json, Seq<char>)>::empty());
        }
        match items_of(member(batch, "scopeSpans")) {
            Some(ss) => {
                let mut k: usize = 0;
                while k < ss.len()
                    invariant
                        scopes == ss@,
                        k <= ss@.len(),
                        out@.len() == base.len() + scope_spans(scopes.take(k as int), service@).len(),
                        base.len() == before.len(),
                        forall|i: int| 0 <= i < base.len() ==> out@[i] == base[i],
                        forall|i: int| 0 <= i < scope_spans(scopes.take(k as int), service@).len() ==> is_tempo_span(
                            #[trigger] out@[base.len() + i],
                            scope_spans(scopes.take(k as int), service@)[i].0,
                            scope_spans(scopes.take(k as int), service@)[i].1,
                        ),
                    decreases ss@.len() - k,
                {
                    let scope = &ss[k];
                    let ghost mid = out@;
                    let ghost prev = scope_spans(scopes.take(k as int), service@);
                    let ghost sps = items_or_empty(at(*scope, "spans"@));
                    proof {
                        assert(scopes.take(k + 1).drop_last() =~= scopes.take(k as int));
                        assert(scopes.take(k + 1).last() == scopes[k as int]);
                        assert(scope_spans(scopes.take(k + 1), service@) == prev + sps.map_values(
                            |sp: Json| (sp, service@),
                        ));
                    }
                    match items_of(member(scope, "spans")) {
                        Some(list) => {
                            let mut j: usize = 0;
                            while j < list.len()
                                invariant
                                    sps == list@,
                                    j <= list@.len(),
                                    out@.len() == mid.len() + j,
                                    forall|i: int| 0 <= i < mid.len() ==> out@[i] == mid[i],
                                    forall|i: int| 0 <= i < j ==> is_tempo_span(
                                        #[trigger] out@[mid.len() + i],
                                        sps[i],
                                        service@,
                                    ),
                                decreases list@.len() - j,
                            {
                                out.push(tempo_span(&list[j], &service));
                                j = j + 1;
                            }
                        },
                        None => {},
                    }
                    proof {
                        let now = scope_spans(scopes.take(k + 1), service@);
                        assert(out@.len() == base.len() + now.len());
                        assert forall|i: int| 0 <= i < now.len() implies is_tempo_span(
                            #[trigger] out@[base.len() + i],
                            now[i].0,
                            now[i].1,
                        ) by {
                            if i < prev.len() {
                                assert(now[i] == prev[i]);
                                assert(out@[base.len() + i] == mid[base.len() + i]);
                            } else {
                                assert(now[i] == sps.map_values(|sp: Json| (sp, service@))[i - prev.len()]);
                                assert(mid.len() == base.len() + prev.len());
                                assert(base.len() + i == mid.len() + (i - prev.len()));
                                assert(is_tempo_span(out@[mid.len() + (i - prev.len())], sps[i - prev.len()], service@));
                            }
                        }
                    }
                    k = k + 1;
                }
                proof {
                    assert(scopes.take(ss@.len() as int) =~= scopes);
                }
            },
            None => {},
        }
        proof {
            let now = batch_spans(bv.take(b + 1));
            assert(now == before + scope_spans(scopes, service@));
            assert forall|i: int| 0 <= i < out@.len() implies is_tempo_span(
                #[trigger] out@[i],
                now[i].0,
                now[i].1,
            ) by {
                if i < before.len() {
                    assert(now[i] == before[i]);
                    assert(out@[i] == base[i]);
                } else {
                    assert(now[i] == scope_spans(scopes, service@)[i - before.len()]);
                    assert(out@[base.len() + (i - before.len())] == out@[i]);
                }
            }
        }
        b = b + 1;
    }
    assert(bv.take(bv.len() as int) =~= bv);
    Ok(out)
}

} // verus!
