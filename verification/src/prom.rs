//! Asking the metric store (Prometheus) and reading its answers.
//!
//! The store answers with binary64 timestamps and decimal value texts; the
//! readers here keep both as the store wrote them, and the edge of the
//! program turns them into numbers.
use vstd::prelude::*;
use crate::backend::{AnomalyWindowQuery, BackendError, MetricQuery, RangeRequest, params_view};
use crate::time::{UtcInstant, secs_of};
use crate::json::{Json, JsonNumber, as_array, at, items_of, items_or_empty, member, member2, str_or, text_of};
use crate::text::{append_str, concat, dec_int, i64_text, owned};

verus! {

/// The query-range endpoint of the metric store `base`.
pub open spec fn prom_url_spec(base: Seq<char>) -> Seq<char> {
    base + "/api/v1/query_range"@
}

/// The PromQL selector of one metric of one service.
pub open spec fn promql_spec(metric: Seq<char>, service: Seq<char>) -> Seq<char> {
    metric + "{service=\""@ + service + "\"}"@
}

/// The PromQL selector of one metric of one service.
pub fn promql(metric: &str, service: &str) -> (r: String)
    ensures
        r@ == promql_spec(metric@, service@),
{
    let mut r = concat(metric, "{service=\"");
    append_str(&mut r, service);
    append_str(&mut r, "\"}");
    r
}

fn seconds_param(name: &str, ts: UtcInstant) -> (r: (String, String))
    ensures
        r.0@ == name@,
        r.1@ == dec_int(secs_of(ts@)),
{
    let (secs, _) = ts.parts();
    (owned(name), i64_text(secs))
}

/// The request for the series of one metric of one service that `q` asks
/// for: its selector, its window in whole seconds and a step of 5 seconds.
pub fn series_request(base: &str, q: &MetricQuery) -> (r: RangeRequest)
    ensures
        r.url@ == prom_url_spec(base@),
        params_view(r.params@) == seq![
            ("query"@, promql_spec(q.metric@, q.service@)),
            ("start"@, dec_int(secs_of(q.start@))),
            ("end"@, dec_int(secs_of(q.end@))),
            ("step"@, "5"@),
        ],
{
    let mut params: Vec<(String, String)> = Vec::new();
    params.push((owned("query"), promql(q.metric.as_str(), q.service.as_str())));
    params.push(seconds_param("start", q.start));
    params.push(seconds_param("end", q.end));
    params.push((owned("step"), owned("5")));
    proof {
        assert(params_view(params@) =~= seq![
            ("query"@, promql_spec(q.metric@, q.service@)),
            ("start"@, dec_int(secs_of(q.start@))),
            ("end"@, dec_int(secs_of(q.end@))),
            ("step"@, "5"@),
        ]);
    }
    RangeRequest { url: concat(base, "/api/v1/query_range"), params }
}

/// The request for one metric across services that `q` asks for: the bare
/// metric name as the query, its window in whole seconds and a step of 5
/// seconds.
pub fn window_request(base: &str, q: &AnomalyWindowQuery) -> (r: RangeRequest)
    ensures
        r.url@ == prom_url_spec(base@),
        params_view(r.params@) == seq![
            ("query"@, q.metric@),
            ("start"@, dec_int(secs_of(q.start@))),
            ("end"@, dec_int(secs_of(q.end@))),
            ("step"@, "5"@),
        ],
{
    let mut params: Vec<(String, String)> = Vec::new();
    params.push((owned("query"), q.metric.clone()));
    params.push(seconds_param("start", q.start));
    params.push(seconds_param("end", q.end));
    params.push((owned("step"), owned("5")));
    proof {
        assert(params_view(params@) =~= seq![
            ("query"@, q.metric@),
            ("start"@, dec_int(secs_of(q.start@))),
            ("end"@, dec_int(secs_of(q.end@))),
            ("step"@, "5"@),
        ]);
    }
    RangeRequest { url: concat(base, "/api/v1/query_range"), params }
}

/// One sample of an answer, as the store wrote it: the timestamp when it is
/// a number, and the value text (`0` when missing).
#[derive(Debug)]
pub struct Sample {
    pub ts: Option<JsonNumber>,
    pub value: String,
}

/// The number that a JSON value is, if it is one.
pub open spec fn number_of(j: Json) -> Option<JsonNumber> {
    match j {
        Json::Number(n) => Some(n),
        _ => None,
    }
}

/// The samples of one series of an answer.
pub open spec fn series_values(series: Json) -> Seq<Json> {
    items_or_empty(at(series, "values"@))
}

/// Every sample of a series is an array.
pub open spec fn series_arrays(series: Json) -> bool {
    forall|k: int| 0 <= k < series_values(series).len() ==> (#[trigger] as_array(series_values(series)[k])) is Some
}

/// Every sample read before sample `k` of series `s` was an array.
pub open spec fn samples_before(all: Seq<Json>, s: int, k: int) -> bool {
    &&& forall|t: int| 0 <= t < s ==> #[trigger] series_arrays(all[t])
    &&& forall|j: int| 0 <= j < k ==> (#[trigger] as_array(series_values(all[s])[j])) is Some
}

/// A sample that is an array holds a timestamp and a value.
pub open spec fn sample_complete(e: Json) -> bool {
    match as_array(e) {
        Some(a) => a.len() >= 2,
        None => true,
    }
}

/// Every sample that the reading of an answer reaches (those up to the
/// first one that is not an array) is complete.
pub open spec fn prom_readable(v: Json) -> bool {
    match as_array(at(at(v, "data"@), "result"@)) {
        Some(all) => forall|s: int, k: int|
            0 <= s < all.len() && 0 <= k < series_values(all[s]).len() && samples_before(all, s, k)
                ==> #[trigger] sample_complete(series_values(all[s])[k]),
        None => true,
    }
}

/// Whether an answer can be read: every sample that the reading reaches
/// holds a timestamp and a value (what `parse_prom_range` and
/// `parse_prom_points` need of their answer).
pub fn prom_is_readable(v: &Json) -> (r: bool)
    ensures
        r == prom_readable(*v),
{
    let all = match items_of(member2(v, "data", "result")) {
        Some(x) => x,
        None => {
            return true;
        },
    };
    let ghost av = all@;
    let mut b: usize = 0;
    while b < all.len()
        invariant
            av == all@,
            as_array(at(at(*v, "data"@), "result"@)) == Some(av),
            b <= av.len(),
            forall|t: int| 0 <= t < b ==> #[trigger] series_arrays(av[t]),
            forall|t: int, k: int|
                0 <= t < b && 0 <= k < series_values(av[t]).len() ==> #[trigger] sample_complete(series_values(av[t])[k]),
        decreases av.len() - b,
    {
        let series = &all[b];
        let ghost vals = series_values(*series);
        match items_of(member(series, "values")) {
            Some(list) => {
                let mut j: usize = 0;
                while j < list.len()
                    invariant
                        vals == list@,
                        vals == series_values(av[b as int]),
                        av == all@,
                        *series == av[b as int],
                        b < av.len(),
                        as_array(at(at(*v, "data"@), "result"@)) == Some(av),
                        forall|t: int| 0 <= t < b ==> #[trigger] series_arrays(av[t]),
                        forall|t: int, k: int|
                            0 <= t < b && 0 <= k < series_values(av[t]).len() ==> #[trigger] sample_complete(
                                series_values(av[t])[k],
                            ),
                        j <= vals.len(),
                        forall|k: int| 0 <= k < j ==> (#[trigger] as_array(vals[k])) is Some,
                        forall|k: int| 0 <= k < j ==> #[trigger] sample_complete(vals[k]),
                    decreases vals.len() - j,
                {
                    match list[j].as_array() {
                        Some(a) => {
                            if a.len() < 2 {
                                proof {
                                    assert(samples_before(av, b as int, j as int));
                                    assert(!sample_complete(series_values(av[b as int])[j as int]));
                                }
                                return false;
                            }
                        },
                        None => {
                            proof {
                                assert forall|t: int, k: int|
                                    0 <= t < av.len() && 0 <= k < series_values(av[t]).len() && samples_before(av, t, k)
                                    implies #[trigger] sample_complete(series_values(av[t])[k]) by {
                                    if t > b {
                                        assert(series_arrays(av[b as int]));
                                        assert(as_array(series_values(av[b as int])[j as int]) is Some);
                                    } else if t == b && k > j {
                                        assert(as_array(series_values(av[t])[j as int]) is Some);
                                    }
                                }
                            }
                            return true;
                        },
                    }
                    j = j + 1;
                }
                proof {
                    assert(series_arrays(av[b as int]));
                }
            },
            None => {
                proof {
                    assert(series_values(av[b as int]) =~= Seq::<Json>::empty());
                    assert(series_arrays(av[b as int]));
                }
            },
        }
        b = b + 1;
    }
    true
}

/// `x` is the sample that the array `e` describes.
pub open spec fn is_sample(x: Sample, e: Json) -> bool {
    let a = as_array(e).unwrap();
    &&& x.ts == number_of(a[0])
    &&& x.value@ == str_or(a[1], "0"@)
}

/// The service a series is labelled with, or `unknown`.
pub open spec fn series_service(series: Json) -> Seq<char> {
    str_or(at(at(series, "metric"@), "service"@), "unknown"@)
}

/// The samples of some series, each with its series' service, in answer
/// order.
pub open spec fn labelled_samples(all: Seq<Json>) -> Seq<(Json, Seq<char>)>
    decreases all.len(),
{
    if all.len() == 0 {
        Seq::empty()
    } else {
        let s = all.last();
        labelled_samples(all.drop_last()) + series_values(s).map_values(|e: Json| (e, series_service(s)))
    }
}

fn sample_of(e: &Json) -> (r: Option<Sample>)
    requires
        sample_complete(*e),
    ensures
        match as_array(*e) {
            Some(_) => r matches Some(x) && is_sample(x, *e),
            None => r is None,
        },
{
    match e.as_array() {
        Some(a) => {
            let ts = match &a[0] {
                Json::Number(n) => Some(*n),
                _ => None,
            };
            let value = match text_of(Some(&a[1])) {
                Some(s) => owned(s),
                None => owned("0"),
            };
            Some(Sample { ts, value })
        },
        None => None,
    }
}

/// The samples of one series, in order; `None` when one of them is not an
/// array.
fn series_samples(series: &Json, Ghost(all): Ghost<Seq<Json>>, Ghost(s): Ghost<int>) -> (r: Option<Vec<Sample>>)
    requires
        0 <= s < all.len(),
        all[s] == *series,
        prom_readable_in(all),
        forall|t: int| 0 <= t < s ==> #[trigger] series_arrays(all[t]),
    ensures
        series_arrays(*series) ==> (r matches Some(xs) && xs@.len() == series_values(*series).len() && forall|k: int|
            0 <= k < xs@.len() ==> is_sample(#[trigger] xs@[k], series_values(*series)[k])),
        !series_arrays(*series) ==> r is None,
{
    let ghost vals = series_values(*series);
    let mut out: Vec<Sample> = Vec::new();
    match items_of(member(series, "values")) {
        Some(list) => {
            let mut j: usize = 0;
            while j < list.len()
                invariant
                    vals == list@,
                    vals == series_values(all[s]),
                    all[s] == *series,
                    0 <= s < all.len(),
                    prom_readable_in(all),
                    forall|t: int| 0 <= t < s ==> #[trigger] series_arrays(all[t]),
                    forall|k: int| 0 <= k < j ==> (#[trigger] as_array(vals[k])) is Some,
                    j <= vals.len(),
                    out@.len() == j,
                    forall|k: int| 0 <= k < j ==> is_sample(#[trigger] out@[k], vals[k]),
                decreases vals.len() - j,
            {
                proof {
                    assert(samples_before(all, s, j as int));
                    assert(sample_complete(series_values(all[s])[j as int]));
                }
                match sample_of(&list[j]) {
                    Some(x) => out.push(x),
                    None => {
                        proof {
                            assert(as_array(vals[j as int]) is None);
                            assert(!series_arrays(*series));
                        }
                        return None;
                    },
                }
                j = j + 1;
            }
        },
        None => {},
    }
    Some(out)
}

/// The readability condition, over the series of an answer.
pub open spec fn prom_readable_in(all: Seq<Json>) -> bool {
    forall|s: int, k: int|
        0 <= s < all.len() && 0 <= k < series_values(all[s]).len() && samples_before(all, s, k)
            ==> #[trigger] sample_complete(series_values(all[s])[k])
}

/// Reads the series of a query-range answer: one list of samples per
/// series, in answer order. An answer without a result array, or with a
/// sample that is not an array, is malformed.
pub fn parse_prom_range(v: &Json) -> (r: Result<Vec<Vec<Sample>>, BackendError>)
    requires
        prom_readable(*v),
    ensures
        match as_array(at(at(*v, "data"@), "result"@)) {
            Some(all) => if forall|s: int| 0 <= s < all.len() ==> #[trigger] series_arrays(all[s]) {
                r matches Ok(series) && series@.len() == all.len() && forall|s: int|
                    0 <= s < all.len() ==> (#[trigger] series@[s])@.len() == series_values(all[s]).len() && forall|k: int|
                        0 <= k < series@[s]@.len() ==> is_sample(#[trigger] series@[s]@[k], series_values(all[s])[k])
            } else {
                r matches Err(e) && e == BackendError::MalformedResponse
            },
            None => r matches Err(e) && e == BackendError::MalformedResponse,
        },
{
    let all = match items_of(member2(v, "data", "result")) {
        Some(x) => x,
        None => {
            return Err(BackendError::MalformedResponse);
        },
    };
    let ghost av = all@;
    assert(prom_readable_in(av));
    let mut out: Vec<Vec<Sample>> = Vec::new();
    let mut b: usize = 0;
    while b < all.len()
        invariant
            av == all@,
            as_array(at(at(*v, "data"@), "result"@)) == Some(av),
            prom_readable_in(av),
            b <= av.len(),
            forall|t: int| 0 <= t < b ==> #[trigger] series_arrays(av[t]),
            out@.len() == b,
            forall|t: int| 0 <= t < b ==> (#[trigger] out@[t])@.len() == series_values(av[t]).len() && forall|k: int|
                0 <= k < out@[t]@.len() ==> is_sample(#[trigger] out@[t]@[k], series_values(av[t])[k]),
        decreases av.len() - b,
    {
        match series_samples(&all[b], Ghost(av), Ghost(b as int)) {
            Some(xs) => out.push(xs),
            None => {
                proof {
                    let xs = as_array(at(at(*v, "data"@), "result"@)).unwrap();
                    assert(xs == av);
                    assert(!series_arrays(xs[b as int]));
                }
                return Err(BackendError::MalformedResponse);
            },
        }
        b = b + 1;
    }
    Ok(out)
}

/// `x` is the labelled sample that `e` of a series of `service` describes.
pub open spec fn is_labelled_sample(x: (String, Sample), e: Json, service: Seq<char>) -> bool {
    x.0@ == service && is_sample(x.1, e)
}

/// Reads the samples of a query-range answer across services: every sample
/// of every series, in answer order, each with its series' service. An
/// answer without a result array, or with a sample that is not an array, is
/// malformed.
pub fn parse_prom_points(v: &Json) -> (r: Result<Vec<(String, Sample)>, BackendError>)
    requires
        prom_readable(*v),
    ensures
        match as_array(at(at(*v, "data"@), "result"@)) {
            Some(all) => if forall|s: int| 0 <= s < all.len() ==> #[trigger] series_arrays(all[s]) {
                r matches Ok(pts) && pts@.len() == labelled_samples(all).len() && forall|i: int|
                    0 <= i < pts@.len() ==> is_labelled_sample(
                        #[trigger] pts@[i],
                        labelled_samples(all)[i].0,
                        labelled_samples(all)[i].1,
                    )
            } else {
                r matches Err(e) && e == BackendError::MalformedResponse
            },
            None => r matches Err(e) && e == BackendError::MalformedResponse,
        },
{
    let all = match items_of(member2(v, "data", "result")) {
        Some(x) => x,
        None => {
            return Err(BackendError::MalformedResponse);
        },
    };
    let ghost av = all@;
    assert(prom_readable_in(av));
    let mut out: Vec<(String, Sample)> = Vec::new();
    let mut b: usize = 0;
    proof {
        assert(av.take(0) =~= Seq::<Json>::empty());
    }
    while b < all.len()
        invariant
            av == all@,
            as_array(at(at(*v, "data"@), "result"@)) == Some(av),
            prom_readable_in(av),
            b <= av.len(),
            forall|t: int| 0 <= t < b ==> #[trigger] series_arrays(av[t]),
            out@.len() == labelled_samples(av.take(b as int)).len(),
            forall|i: int| 0 <= i < out@.len() ==> is_labelled_sample(
                #[trigger] out@[i],
                labelled_samples(av.take(b as int))[i].0,
                labelled_samples(av.take(b as int))[i].1,
            ),
        decreases av.len() - b,
    {
        let series = &all[b];
        let svc = match text_of(member2(series, "metric", "service")) {
            Some(s) => owned(s),
            None => owned("unknown"),
        };
        let ghost before = labelled_samples(av.take(b as int));
        let ghost base = out@;
        let ghost tagged = series_values(*series).map_values(|e: Json| (e, series_service(*series)));
        proof {
            assert(av.take(b + 1).drop_last() =~= av.take(b as int));
            assert(av.take(b + 1).last() == av[b as int]);
            assert(labelled_samples(av.take(b + 1)) == before + tagged);
        }
        let xs = match series_samples(series, Ghost(av), Ghost(b as int)) {
            Some(xs) => xs,
            None => {
                proof {
                    let xs = as_array(at(at(*v, "data"@), "result"@)).unwrap();
                    assert(xs == av);
                    assert(!series_arrays(xs[b as int]));
                }
                return Err(BackendError::MalformedResponse);
            },
        };
        let mut j: usize = 0;
        let n = xs.len();
        let ghost xv = xs@;
        let mut rest = xs;
        while rest.len() > 0
            invariant
                xv.len() == n,
                rest@ == xv.skip(j as int),
                j + rest@.len() == n,
                j <= n,
                out@.len() == base.len() + j,
                forall|i: int| 0 <= i < base.len() ==> out@[i] == base[i],
                forall|k: int| 0 <= k < j ==> (#[trigger] out@[base.len() + k]).0@ == svc@ && out@[base.len()
                    + k].1 == xv[k],
            decreases rest@.len(),
        {
            let x = rest.remove(0);
            proof {
                assert(x == xv[j as int]);
                assert(rest@ =~= xv.skip(j + 1));
            }
            out.push((svc.clone(), x));
            j = j + 1;
        }
        proof {
            assert(series_arrays(av[b as int]));
            let now = labelled_samples(av.take(b + 1));
            assert forall|i: int| 0 <= i < out@.len() implies is_labelled_sample(
                #[trigger] out@[i],
                now[i].0,
                now[i].1,
            ) by {
                if i < before.len() {
                    assert(now[i] == before[i]);
                    assert(out@[i] == base[i]);
                } else {
                    assert(now[i] == tagged[i - before.len()]);
                    assert(out@[base.len() + (i - before.len())] == out@[i]);
                }
            }
        }
        b = b + 1;
    }
    assert(av.take(av.len() as int) =~= av);
    Ok(out)
}

} // verus!
