//! Asking the log store (Loki) and reading its answers.
use vstd::prelude::*;
use crate::backend::{BackendError, LogQuery, LogRecord, RangeRequest, params_view};
use crate::time::UtcInstant;
use crate::json::{Json, as_array, at, items_of, items_or_empty, member, member2, nanos_or, str_or, text_of};
use crate::text::{append_str, concat, i64_text, owned, dec_int};

verus! {

/// The LogQL selector term of one service.
pub open spec fn service_term(s: Seq<char>) -> Seq<char> {
    "service_name=\""@ + s + "\""@
}

/// The terms of some services, joined by `|`.
pub open spec fn joined_terms(services: Seq<Seq<char>>) -> Seq<char>
    decreases services.len(),
{
    if services.len() == 0 {
        Seq::empty()
    } else if services.len() == 1 {
        service_term(services[0])
    } else {
        joined_terms(services.drop_last()) + "|"@ + service_term(services.last())
    }
}

/// The LogQL stream selector that matches the logs of any of `services`.
pub open spec fn logql_spec(services: Seq<Seq<char>>) -> Seq<char> {
    "{"@ + joined_terms(services) + "}"@
}

/// The texts of some strings.
pub open spec fn texts(v: Seq<String>) -> Seq<Seq<char>> {
    v.map_values(|s: String| s@)
}

/// The LogQL stream selector that matches the logs of any of `services`.
pub fn logql(services: &Vec<String>) -> (r: String)
    ensures
        r@ == logql_spec(texts(services@)),
{
    proof {
        reveal_strlit("{");
        reveal_strlit("}");
        reveal_strlit("|");
    }
    let ghost sv = texts(services@);
    let mut terms = owned("");
    let mut i: usize = 0;
    proof {
        reveal_strlit("");
        assert(sv.take(0) =~= Seq::<Seq<char>>::empty());
    }
    while i < services.len()
        invariant
            sv == texts(services@),
            i <= services@.len(),
            terms@ == joined_terms(sv.take(i as int)),
        decreases services@.len() - i,
    {
        proof {
            assert(sv.take(i + 1).drop_last() =~= sv.take(i as int));
            assert(sv.take(i + 1).last() == services@[i as int]@);
            reveal_strlit("|");
            reveal_strlit("service_name=\"");
            reveal_strlit("\"");
        }
        if i > 0 {
            append_str(&mut terms, "|");
        }
        append_str(&mut terms, "service_name=\"");
        append_str(&mut terms, services[i].as_str());
        append_str(&mut terms, "\"");
        proof {
            if i == 0 {
                assert(sv.take(1) =~= seq![sv[0]]);
                assert(terms@ =~= service_term(sv[0]));
            } else {
                assert(terms@ =~= joined_terms(sv.take(i as int)) + "|"@ + service_term(sv[i as int]));
            }
        }
        i = i + 1;
    }
    assert(sv.take(services@.len() as int) =~= sv);
    let mut r = owned("{");
    append_str(&mut r, terms.as_str());
    append_str(&mut r, "}");
    assert(r@ =~= logql_spec(sv));
    r
}

/// The query-range endpoint of the log store `base`.
pub open spec fn loki_url_spec(base: Seq<char>) -> Seq<char> {
    base + "/loki/api/v1/query_range"@
}

fn param(name: &str, value: String) -> (r: (String, String))
    ensures
        r.0@ == name@,
        r.1@ == value@,
{
    (owned(name), value)
}

/// Nanoseconds since the epoch where they fit in an `i64`, and 0 elsewhere
/// (chrono's `timestamp_nanos_opt`, then `unwrap_or(0)`).
pub open spec fn nanos_or_zero(t: int) -> int {
    if i64::MIN <= t <= i64::MAX {
        t
    } else {
        0
    }
}

/// Nanoseconds since the epoch of `t` where they fit in an `i64`, and 0
/// elsewhere.
pub fn unix_nanos_or_zero(t: UtcInstant) -> (r: i64)
    ensures
        r as int == nanos_or_zero(t@),
{
    let n = t.nanos();
    if (i64::MIN as i128) <= n && n <= (i64::MAX as i128) {
        n as i64
    } else {
        0
    }
}

/// The request for the logs that `q` asks for at the log store `base`:
/// none when `q` names no service (the answer is then empty without asking);
/// else the selector of its services, its window in nanoseconds (0 for an
/// end outside the `i64` range) and a limit of 5000 lines.
pub fn log_request(base: &str, q: &LogQuery) -> (r: Option<RangeRequest>)
    ensures
        q.services@.len() == 0 ==> r is None,
        q.services@.len() > 0 ==> (r matches Some(req) && req.url@ == loki_url_spec(base@) && params_view(req.params@)
            == seq![
            ("query"@, logql_spec(texts(q.services@))),
            ("start"@, dec_int(nanos_or_zero(q.start@))),
            ("end"@, dec_int(nanos_or_zero(q.end@))),
            ("limit"@, "5000"@),
        ]),
{
    if q.services.len() == 0 {
        return None;
    }
    let url = concat(base, "/loki/api/v1/query_range");
    let mut params: Vec<(String, String)> = Vec::new();
    params.push(param("query", logql(&q.services)));
    params.push(param("start", i64_text(unix_nanos_or_zero(q.start))));
    params.push(param("end", i64_text(unix_nanos_or_zero(q.end))));
    params.push(param("limit", owned("5000")));
    proof {
        assert(params_view(params@) =~= seq![
            ("query"@, logql_spec(texts(q.services@))),
            ("start"@, dec_int(nanos_or_zero(q.start@))),
            ("end"@, dec_int(nanos_or_zero(q.end@))),
            ("limit"@, "5000"@),
        ]);
    }
    Some(RangeRequest { url, params })
}

/// The service a log stream is labelled with, or `unknown`.
pub open spec fn stream_service(st: Json) -> Seq<char> {
    str_or(at(at(st, "stream"@), "service_name"@), "unknown"@)
}

/// The level a log stream is labelled with, or `INFO`.
pub open spec fn stream_level(st: Json) -> Seq<char> {
    str_or(at(at(st, "stream"@), "level"@), "INFO"@)
}

/// The entries of a log stream.
pub open spec fn stream_values(st: Json) -> Seq<Json> {
    items_or_empty(at(st, "values"@))
}

/// The entries of some streams, each with its stream's service and level,
/// in answer order.
pub open spec fn loki_entries(streams: Seq<Json>) -> Seq<(Json, Seq<char>, Seq<char>)>
    decreases streams.len(),
{
    if streams.len() == 0 {
        Seq::empty()
    } else {
        let st = streams.last();
        loki_entries(streams.drop_last()) + stream_values(st).map_values(
            |e: Json| (e, stream_service(st), stream_level(st)),
        )
    }
}

/// The entries of two runs of streams, one after the other, are the entries
/// of the first run followed by those of the second: what a stream
/// contributes does not depend on the streams around it.
pub proof fn lemma_loki_entries_split(a: Seq<Json>, b: Seq<Json>)
    ensures
        loki_entries(a + b) == loki_entries(a) + loki_entries(b),
    decreases b.len(),
{
    if b.len() == 0 {
        assert(a + b =~= a);
        assert(loki_entries(a) + loki_entries(b) =~= loki_entries(a));
    } else {
        lemma_loki_entries_split(a, b.drop_last());
        assert((a + b).drop_last() =~= a + b.drop_last());
        assert((a + b).last() == b.last());
        let st = b.last();
        let tail = stream_values(st).map_values(|e: Json| (e, stream_service(st), stream_level(st)));
        assert(loki_entries(a) + loki_entries(b.drop_last()) + tail =~= loki_entries(a) + (loki_entries(b.drop_last())
            + tail));
    }
}

/// Each stream contributes its own entries, labelled with its own labels: in
/// the entries of some streams, those of stream `k` follow the entries of
/// the streams before it, are its values in order, and each carries the
/// `service_name` label of stream `k` (or `unknown`) and its `level` label
/// (or `INFO`).
pub proof fn lemma_entries_carry_their_stream_labels(streams: Seq<Json>, k: int)
    requires
        0 <= k < streams.len(),
    ensures
        loki_entries(streams.take(k)).len() + stream_values(streams[k]).len() <= loki_entries(streams).len(),
        forall|i: int| 0 <= i < stream_values(streams[k]).len() ==> loki_entries(streams)[loki_entries(streams.take(k)).len() + i]
            == (#[trigger] stream_values(streams[k])[i], stream_service(streams[k]), stream_level(streams[k])),
{
    let before = streams.take(k);
    let own = seq![streams[k]];
    let after = streams.skip(k + 1);
    assert(streams =~= before + own + after);
    lemma_loki_entries_split(before + own, after);
    lemma_loki_entries_split(before, own);
    assert(own.drop_last() =~= Seq::<Json>::empty());
    assert(own.last() == streams[k]);
    assert(loki_entries(Seq::<Json>::empty()) =~= Seq::<(Json, Seq<char>, Seq<char>)>::empty());
    assert(loki_entries(own) =~= stream_values(streams[k]).map_values(
        |e: Json| (e, stream_service(streams[k]), stream_level(streams[k])),
    ));
}

/// Every entry of a stream is an array.
pub open spec fn stream_arrays(st: Json) -> bool {
    forall|k: int| 0 <= k < stream_values(st).len() ==> (#[trigger] as_array(stream_values(st)[k])) is Some
}

/// Every entry read before entry `k` of stream `s` was an array.
pub open spec fn arrays_before(streams: Seq<Json>, s: int, k: int) -> bool {
    &&& forall|t: int| 0 <= t < s ==> #[trigger] stream_arrays(streams[t])
    &&& forall|j: int| 0 <= j < k ==> (#[trigger] as_array(stream_values(streams[s])[j])) is Some
}

/// An entry that is an array holds a timestamp and a line.
pub open spec fn entry_complete(e: Json) -> bool {
    match as_array(e) {
        Some(a) => a.len() >= 2,
        None => true,
    }
}

/// Every entry that the reading of an answer reaches (those up to the first
/// one that is not an array) is complete.
pub open spec fn loki_readable(v: Json) -> bool {
    match as_array(at(at(v, "data"@), "result"@)) {
        Some(streams) => forall|s: int, k: int|
            0 <= s < streams.len() && 0 <= k < stream_values(streams[s]).len() && arrays_before(streams, s, k)
                ==> #[trigger] entry_complete(stream_values(streams[s])[k]),
        None => true,
    }
}

/// Whether an answer can be read: every entry that the reading reaches
/// holds a timestamp and a line (what `parse_loki` needs of its answer).
pub fn loki_is_readable(v: &Json) -> (r: bool)
    ensures
        r == loki_readable(*v),
{
    let streams = match items_of(member2(v, "data", "result")) {
        Some(x) => x,
        None => {
            return true;
        },
    };
    let ghost sv = streams@;
    let mut b: usize = 0;
    while b < streams.len()
        invariant
            sv == streams@,
            as_array(at(at(*v, "data"@), "result"@)) == Some(sv),
            b <= sv.len(),
            forall|t: int| 0 <= t < b ==> #[trigger] stream_arrays(sv[t]),
            forall|t: int, k: int|
                0 <= t < b && 0 <= k < stream_values(sv[t]).len() ==> #[trigger] entry_complete(stream_values(sv[t])[k]),
        decreases sv.len() - b,
    {
        let st = &streams[b];
        let ghost vals = stream_values(*st);
        match items_of(member(st, "values")) {
            Some(list) => {
                let mut j: usize = 0;
                while j < list.len()
                    invariant
                        vals == list@,
                        vals == stream_values(sv[b as int]),
                        sv == streams@,
                        *st == sv[b as int],
                        b < sv.len(),
                        as_array(at(at(*v, "data"@), "result"@)) == Some(sv),
                        forall|t: int| 0 <= t < b ==> #[trigger] stream_arrays(sv[t]),
                        forall|t: int, k: int|
                            0 <= t < b && 0 <= k < stream_values(sv[t]).len() ==> #[trigger] entry_complete(
                                stream_values(sv[t])[k],
                            ),
                        j <= vals.len(),
                        forall|k: int| 0 <= k < j ==> (#[trigger] as_array(vals[k])) is Some,
                        forall|k: int| 0 <= k < j ==> #[trigger] entry_complete(vals[k]),
                    decreases vals.len() - j,
                {
                    match list[j].as_array() {
                        Some(a) => {
                            if a.len() < 2 {
                                proof {
                                    assert(arrays_before(sv, b as int, j as int));
                                    assert(!entry_complete(stream_values(sv[b as int])[j as int]));
                                }
                                return false;
                            }
                        },
                        None => {
                            proof {
                                assert forall|t: int, k: int|
                                    0 <= t < sv.len() && 0 <= k < stream_values(sv[t]).len() && arrays_before(sv, t, k)
                                    implies #[trigger] entry_complete(stream_values(sv[t])[k]) by {
                                    if t > b {
                                        assert(stream_arrays(sv[b as int]));
                                        assert(as_array(stream_values(sv[b as int])[j as int]) is Some);
                                    } else if t == b && k > j {
                                        assert(as_array(stream_values(sv[t])[j as int]) is Some);
                                    }
                                }
                            }
                            return true;
                        },
                    }
                    j = j + 1;
                }
                proof {
                    assert(stream_arrays(sv[b as int]));
                }
            },
            None => {
                proof {
                    assert(stream_values(sv[b as int]) =~= Seq::<Json>::empty());
                    assert(stream_arrays(sv[b as int]));
                }
            },
        }
        b = b + 1;
    }
    true
}

/// `x` is the log line that the entry `e` of a stream of service `svc` and
/// level `level` describes: the decimal nanosecond timestamp (0 when missing
/// or unreadable) and the line (empty when missing).
pub open spec fn is_loki_record(x: LogRecord, e: Json, svc: Seq<char>, level: Seq<char>) -> bool {
    let a = as_array(e).unwrap();
    &&& x.ts == nanos_or(a[0], 0)
    &&& x.service@ == svc
    &&& x.level@ == level
    &&& x.message@ == str_or(a[1], ""@)
    &&& x.trace_id is None
}

/// Reads the log lines of a query-range answer: every entry of every stream,
/// in answer order. An answer without a result array, or with an entry that
/// is not an array, is malformed.
pub fn parse_loki(v: &Json) -> (r: Result<Vec<LogRecord>, BackendError>)
    requires
        loki_readable(*v),
    ensures
        match as_array(at(at(*v, "data"@), "result"@)) {
            Some(streams) => if forall|s: int| 0 <= s < streams.len() ==> #[trigger] stream_arrays(streams[s]) {
                r matches Ok(recs) && recs@.len() == loki_entries(streams).len() && forall|i: int|
                    0 <= i < recs@.len() ==> is_loki_record(
                        #[trigger] recs@[i],
                        loki_entries(streams)[i].0,
                        loki_entries(streams)[i].1,
                        loki_entries(streams)[i].2,
                    )
            } else {
                r matches Err(e) && e == BackendError::MalformedResponse
            },
            None => r matches Err(e) && e == BackendError::MalformedResponse,
        },
{
    let streams = match items_of(member2(v, "data", "result")) {
        Some(x) => x,
        None => {
            return Err(BackendError::MalformedResponse);
        },
    };
    let ghost sv = streams@;
    let mut out: Vec<LogRecord> = Vec::new();
    let mut b: usize = 0;
    proof {
        assert(sv.take(0) =~= Seq::<Json>::empty());
    }
    while b < streams.len()
        invariant
            sv == streams@,
            as_array(at(at(*v, "data"@), "result"@)) == Some(sv),
            loki_readable(*v),
            b <= sv.len(),
            forall|t: int| 0 <= t < b ==> #[trigger] stream_arrays(sv[t]),
            out@.len() == loki_entries(sv.take(b as int)).len(),
            forall|i: int| 0 <= i < out@.len() ==> is_loki_record(
                #[trigger] out@[i],
                loki_entries(sv.take(b as int))[i].0,
                loki_entries(sv.take(b as int))[i].1,
                loki_entries(sv.take(b as int))[i].2,
            ),
        decreases sv.len() - b,
    {
        let st = &streams[b];
        let svc = match text_of(member2(st, "stream", "service_name")) {
            Some(s) => owned(s),
            None => owned("unknown"),
        };
        let level = match text_of(member2(st, "stream", "level")) {
            Some(s) => owned(s),
            None => owned("INFO"),
        };
        let ghost before = loki_entries(sv.take(b as int));
        let ghost base = out@;
        let ghost vals = stream_values(*st);
        let ghost tagged = vals.map_values(|e: Json| (e, stream_service(*st), stream_level(*st)));
        proof {
            assert(sv.take(b + 1).drop_last() =~= sv.take(b as int));
            assert(sv.take(b + 1).last() == sv[b as int]);
            assert(loki_entries(sv.take(b + 1)) == before + tagged);
        }
        match items_of(member(st, "values")) {
            Some(list) => {
                let mut j: usize = 0;
                while j < list.len()
                    invariant
                        vals == list@,
                        vals == stream_values(sv[b as int]),
                        sv == streams@,
                        *st == sv[b as int],
                        b < sv.len(),
                        as_array(at(at(*v, "data"@), "result"@)) == Some(sv),
                        loki_readable(*v),
                        forall|t: int| 0 <= t < b ==> #[trigger] stream_arrays(sv[t]),
                        forall|k: int| 0 <= k < j ==> (#[trigger] as_array(vals[k])) is Some,
                        svc@ == stream_service(*st),
                        level@ == stream_level(*st),
                        j <= vals.len(),
                        out@.len() == base.len() + j,
                        forall|i: int| 0 <= i < base.len() ==> out@[i] == base[i],
                        forall|k: int| 0 <= k < j ==> is_loki_record(
                            #[trigger] out@[base.len() + k],
                            vals[k],
                            svc@,
                            level@,
                        ),
                    decreases vals.len() - j,
                {
                    let entry = &list[j];
                    let arr = match entry.as_array() {
                        Some(a) => a,
                        None => {
                            proof {
                                assert(as_array(stream_values(sv[b as int])[j as int]) is None);
                                assert(!stream_arrays(sv[b as int]));
                            }
                            return Err(BackendError::MalformedResponse);
                        },
                    };
                    proof {
                        assert(arrays_before(sv, b as int, j as int));
                        assert(entry_complete(stream_values(sv[b as int])[j as int]));
                    }
                    let ts = match text_of(Some(&arr[0])) {
                        Some(s) => match crate::text::parse_i64(s) {
                            Some(n) => n,
                            None => 0,
                        },
                        None => 0,
                    };
                    let msg = match text_of(Some(&arr[1])) {
                        Some(s) => owned(s),
                        None => owned(""),
                    };
                    out.push(LogRecord { ts, service: svc.clone(), level: level.clone(), message: msg, trace_id: None });
                    proof {
                        reveal_strlit("");
                    }
                    j = j + 1;
                }
            },
            None => {},
        }
        proof {
            assert(stream_arrays(sv[b as int]));
            let now = loki_entries(sv.take(b + 1));
            assert forall|i: int| 0 <= i < out@.len() implies is_loki_record(
                #[trigger] out@[i],
                now[i].0,
                now[i].1,
                now[i].2,
            ) by {
                if i < before.len() {
                    assert(now[i] == before[i]);
                    assert(out@[i] == base[i]);
                } else {
                    assert(now[i] == tagged[i - before.len()]);
                    assert(out@[base.len() + (i - before.len())] == out@[i]);
                }
            }
        }
        b = b + 1;
    }
    assert(sv.take(sv.len() as int) =~= sv);
    Ok(out)
}

} // verus!
