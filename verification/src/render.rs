//! The Markdown form of an incident document. The edge of the program
//! writes the real-valued figures (scores, weights, measurements) as text;
//! everything else, and the document as a whole, is written here.
use vstd::prelude::*;
use crate::schema::{Contributor, IncidentContext, Suspect, LogBatchRef, ServiceSummary, SpanRef, TimelineEvent, Trigger, Window};
use crate::text::{append_str, chars_of, dec, dec_int, owned, push_char, push_i64, push_u64};
use crate::time::instant_display;

verus! {

// ---------------------------------------------------------------------------
// Which spans are notable.
// ---------------------------------------------------------------------------

/// `c` in lower case, for the ASCII letters.
pub open spec fn ascii_lower(c: char) -> char {
    if 'A' <= c && c <= 'Z' {
        ((c as u32) + 32) as char
    } else {
        c
    }
}

/// Whether a status text reads `error`, ignoring ASCII case.
pub open spec fn is_error_status(s: Seq<char>) -> bool {
    s.len() == 5 && forall|i: int| 0 <= i < 5 ==> ascii_lower(#[trigger] s[i]) == "error"@[i]
}

fn folds_to(c: char, lower: char, upper: char) -> (r: bool)
    requires
        'a' <= lower <= 'z',
        upper as u32 + 32 == lower as u32,
    ensures
        r == (ascii_lower(c) == lower),
{
    c == lower || c == upper
}

/// Whether a status text reads `error`, ignoring ASCII case.
pub fn status_is_error(s: &str) -> (r: bool)
    ensures
        r == is_error_status(s@),
{
    proof {
        reveal_strlit("error");
    }
    let cs = chars_of(s);
    if cs.len() != 5 {
        return false;
    }
    let r = folds_to(cs[0], 'e', 'E') && folds_to(cs[1], 'r', 'R') && folds_to(cs[2], 'r', 'R') && folds_to(
        cs[3],
        'o',
        'O',
    ) && folds_to(cs[4], 'r', 'R');
    proof {
        if r {
            assert forall|i: int| 0 <= i < 5 implies ascii_lower(#[trigger] s@[i]) == "error"@[i] by {
                if i == 0 {
                } else if i == 1 {
                } else if i == 2 {
                } else if i == 3 {
                } else {
                }
            }
        } else {
            if is_error_status(s@) {
                assert(ascii_lower(s@[0]) == "error"@[0]);
                assert(ascii_lower(s@[1]) == "error"@[1]);
                assert(ascii_lower(s@[2]) == "error"@[2]);
                assert(ascii_lower(s@[3]) == "error"@[3]);
                assert(ascii_lower(s@[4]) == "error"@[4]);
            }
        }
    }
    r
}

/// Whether span `i` of the list failed.
pub open spec fn span_failed(spans: Seq<SpanRef>, i: int) -> bool {
    is_error_status(spans[i].status@)
}

/// Whether span `a` is listed before span `b`: failed spans first, then
/// longer spans first, then in list order.
pub open spec fn listed_before(spans: Seq<SpanRef>, a: int, b: int) -> bool {
    ||| (span_failed(spans, a) && !span_failed(spans, b))
    ||| (span_failed(spans, a) == span_failed(spans, b) && spans[a].duration_ms > spans[b].duration_ms)
    ||| (span_failed(spans, a) == span_failed(spans, b) && spans[a].duration_ms == spans[b].duration_ms && a < b)
}

/// `order` lists every span once, in the order `listed_before` gives.
pub open spec fn is_notable_order(spans: Seq<SpanRef>, order: Seq<usize>) -> bool {
    &&& order.len() == spans.len()
    &&& order.no_duplicates()
    &&& forall|i: int| 0 <= i < order.len() ==> #[trigger] order[i] < spans.len()
    &&& forall|i: int, j: int| 0 <= i < j < order.len() ==> listed_before(spans, #[trigger] order[i] as int, #[trigger] order[j] as int)
}

fn listed_first(fails: &Vec<bool>, durs: &Vec<i64>, a: usize, b: usize, Ghost(spans): Ghost<Seq<SpanRef>>) -> (r: bool)
    requires
        fails@.len() == spans.len(),
        durs@.len() == spans.len(),
        a < spans.len(),
        b < spans.len(),
        forall|i: int| 0 <= i < spans.len() ==> #[trigger] fails@[i] == span_failed(spans, i),
        forall|i: int| 0 <= i < spans.len() ==> #[trigger] durs@[i] == spans[i].duration_ms,
    ensures
        r == listed_before(spans, a as int, b as int),
{
    let fa = fails[a];
    let fb = fails[b];
    if fa != fb {
        fa
    } else if durs[a] != durs[b] {
        durs[a] > durs[b]
    } else {
        a < b
    }
}

/// The order in which the spans are listed: failed spans first, then longer
/// spans first, keeping list order between equals.
pub fn notable_order(spans: &Vec<SpanRef>) -> (order: Vec<usize>)
    ensures
        is_notable_order(spans@, order@),
{
    let ghost sv = spans@;
    let mut fails: Vec<bool> = Vec::new();
    let mut durs: Vec<i64> = Vec::new();
    let mut i: usize = 0;
    while i < spans.len()
        invariant
            sv == spans@,
            i <= sv.len(),
            fails@.len() == i,
            durs@.len() == i,
            forall|j: int| 0 <= j < i ==> #[trigger] fails@[j] == span_failed(sv, j),
            forall|j: int| 0 <= j < i ==> #[trigger] durs@[j] == sv[j].duration_ms,
        decreases sv.len() - i,
    {
        fails.push(status_is_error(spans[i].status.as_str()));
        durs.push(spans[i].duration_ms);
        i = i + 1;
    }
    let mut order: Vec<usize> = Vec::new();
    let mut k: usize = 0;
    while k < spans.len()
        invariant
            sv == spans@,
            fails@.len() == sv.len(),
            durs@.len() == sv.len(),
            forall|j: int| 0 <= j < sv.len() ==> #[trigger] fails@[j] == span_failed(sv, j),
            forall|j: int| 0 <= j < sv.len() ==> #[trigger] durs@[j] == sv[j].duration_ms,
            k <= sv.len(),
            order@.len() == k,
            order@.no_duplicates(),
            forall|q: int| 0 <= q < order@.len() ==> #[trigger] order@[q] < k,
            forall|a: int, b: int| 0 <= a < b < order@.len() ==> listed_before(sv, #[trigger] order@[a] as int, #[trigger] order@[b] as int),
        decreases sv.len() - k,
    {
        let mut p: usize = 0;
        let mut stop = false;
        while p < order.len() && !stop
            invariant
                sv == spans@,
                fails@.len() == sv.len(),
                durs@.len() == sv.len(),
                forall|j: int| 0 <= j < sv.len() ==> #[trigger] fails@[j] == span_failed(sv, j),
                forall|j: int| 0 <= j < sv.len() ==> #[trigger] durs@[j] == sv[j].duration_ms,
                k < sv.len(),
                p <= order@.len(),
                forall|q: int| 0 <= q < order@.len() ==> #[trigger] order@[q] < k,
                forall|q: int| 0 <= q < p ==> listed_before(sv, #[trigger] order@[q] as int, k as int),
                stop ==> p < order@.len() && !listed_before(sv, order@[p as int] as int, k as int),
            decreases order@.len() - p, if stop { 0int } else { 1int },
        {
            if listed_first(&fails, &durs, order[p], k, Ghost(sv)) {
                p = p + 1;
            } else {
                stop = true;
            }
        }
        let ghost old_order = order@;
        proof {
            assert forall|q: int| p <= q < old_order.len() implies listed_before(sv, k as int, #[trigger] old_order[q] as int) by {
                assert(!listed_before(sv, old_order[p as int] as int, k as int));
                if q > p {
                    assert(listed_before(sv, old_order[p as int] as int, old_order[q] as int));
                }
            }
        }
        order.insert(p, k);
        proof {
            assert(order@ == old_order.insert(p as int, k));
            assert forall|a: int, b: int| 0 <= a < b < order@.len() implies listed_before(sv, #[trigger] order@[a] as int, #[trigger] order@[b] as int) by {
                if a < p && b < p {
                    assert(order@[a] == old_order[a] && order@[b] == old_order[b]);
                } else if a < p && b == p {
                    assert(order@[a] == old_order[a]);
                } else if a < p {
                    assert(order@[a] == old_order[a] && order@[b] == old_order[b - 1]);
                } else if a == p {
                    assert(order@[b] == old_order[b - 1]);
                } else {
                    assert(order@[a] == old_order[a - 1] && order@[b] == old_order[b - 1]);
                }
            }
            assert forall|q: int| 0 <= q < order@.len() implies #[trigger] order@[q] < k + 1 by {
                if q < p {
                    assert(order@[q] == old_order[q]);
                } else if q > p {
                    assert(order@[q] == old_order[q - 1]);
                }
            }
            assert forall|a: int, b: int| 0 <= a < order@.len() && 0 <= b < order@.len() && a != b implies order@[a] != order@[b] by {
                if a != p as int && b != p as int {
                    let a0 = if a < p { a } else { a - 1 };
                    let b0 = if b < p { b } else { b - 1 };
                    assert(order@[a] == old_order[a0] && order@[b] == old_order[b0]);
                } else if a == p {
                    let b0 = if b < p { b } else { b - 1 };
                    assert(order@[b] == old_order[b0]);
                } else {
                    let a0 = if a < p { a } else { a - 1 };
                    assert(order@[a] == old_order[a0]);
                }
            }
        }
        k = k + 1;
    }
    order
}

proof fn lemma_order_covers(spans: Seq<SpanRef>, o: Seq<usize>, v: int)
    requires
        is_notable_order(spans, o),
        0 <= v < spans.len(),
    ensures
        exists|i: int| 0 <= i < o.len() && o[i] as int == v,
{
    broadcast use vstd::set::group_set_axioms, vstd::seq_lib::seq_to_set_is_finite;

    let n = spans.len() as int;
    let t = o.map_values(|x: usize| x as int);
    assert forall|i: int, j: int| 0 <= i < t.len() && 0 <= j < t.len() && i != j implies t[i] != t[j] by {
        assert(o[i] != o[j]);
    }
    assert(t.no_duplicates());
    t.unique_seq_to_set();
    vstd::set_lib::lemma_int_range(0, n);
    assert forall|x: int| t.to_set().contains(x) implies vstd::set_lib::set_int_range(0, n).contains(x) by {
        let i = choose|i: int| 0 <= i < t.len() && t[i] == x;
        assert(o[i] < spans.len());
    }
    vstd::set_lib::lemma_subset_equality(t.to_set(), vstd::set_lib::set_int_range(0, n));
    assert(vstd::set_lib::set_int_range(0, n).contains(v));
    assert(t.to_set().contains(v));
    let i = choose|i: int| 0 <= i < t.len() && t[i] == v;
    assert(o[i] as int == v);
}

proof fn lemma_orders_agree_upto(spans: Seq<SpanRef>, a: Seq<usize>, b: Seq<usize>, k: int)
    requires
        is_notable_order(spans, a),
        is_notable_order(spans, b),
        0 <= k <= a.len(),
    ensures
        forall|j: int| 0 <= j < k ==> a[j] == b[j],
    decreases k,
{
    if k > 0 {
        lemma_orders_agree_upto(spans, a, b, k - 1);
        let i = k - 1;
        let x = a[i];
        let y = b[i];
        if x != y {
            lemma_order_covers(spans, a, y as int);
            let p = choose|p: int| 0 <= p < a.len() && a[p] as int == y as int;
            lemma_order_covers(spans, b, x as int);
            let q = choose|q: int| 0 <= q < b.len() && b[q] as int == x as int;
            if p < i {
                assert(b[p] == y);
            }
            if q < i {
                assert(a[q] == x);
            }
            assert(listed_before(spans, a[i] as int, a[p] as int));
            assert(listed_before(spans, b[i] as int, b[q] as int));
        }
    }
}

/// There is only one notable order of a list of spans: any two orders
/// that list every span once, failed before clean, longer before shorter
/// and in list order between equals, are the same.
pub proof fn lemma_notable_order_unique(spans: Seq<SpanRef>, a: Seq<usize>, b: Seq<usize>)
    requires
        is_notable_order(spans, a),
        is_notable_order(spans, b),
    ensures
        a == b,
{
    lemma_orders_agree_upto(spans, a, b, a.len() as int);
    assert(a =~= b);
}

// ---------------------------------------------------------------------------
// Lines of text.
// ---------------------------------------------------------------------------

/// The pieces of text one after the other.
pub open spec fn concat_all(parts: Seq<Seq<char>>) -> Seq<char>
    decreases parts.len(),
{
    if parts.len() == 0 {
        Seq::empty()
    } else {
        concat_all(parts.drop_last()) + parts.last()
    }
}

/// The texts of some strings.
pub open spec fn texts(v: Seq<String>) -> Seq<Seq<char>> {
    v.map_values(|s: String| s@)
}

/// Appends the pieces of text one after the other to `s`.
fn append_all(s: &mut String, parts: &Vec<String>)
    ensures
        final(s)@ == old(s)@ + concat_all(texts(parts@)),
{
    let ghost pv = texts(parts@);
    let ghost start = s@;
    let mut i: usize = 0;
    proof {
        assert(pv.take(0) =~= Seq::<Seq<char>>::empty());
        assert(s@ =~= start + concat_all(pv.take(0)));
    }
    while i < parts.len()
        invariant
            pv == texts(parts@),
            i <= parts@.len(),
            s@ == start + concat_all(pv.take(i as int)),
        decreases parts@.len() - i,
    {
        proof {
            assert(pv.take(i + 1).drop_last() =~= pv.take(i as int));
            assert(pv.take(i + 1).last() == parts@[i as int]@);
        }
        append_str(s, parts[i].as_str());
        proof {
            assert(s@ =~= start + concat_all(pv.take(i + 1)));
        }
        i = i + 1;
    }
    assert(pv.take(parts@.len() as int) =~= pv);
}

/// A quoted, escaped form of a text, as std's `Debug` for `str` writes it.
pub uninterp spec fn debug_quoted(s: Seq<char>) -> Seq<char>;

/// `s` in quotes with its special characters escaped (std's `Debug` for
/// `str`). The contract names the text; it does not spell out the escapes.
#[verifier::external_body]
fn quoted(s: &str) -> (r: String)
    ensures
        r@ == debug_quoted(s@),
{
    format!("{:?}", s)
}

// ---------------------------------------------------------------------------
// The sections.
// ---------------------------------------------------------------------------

/// The first line of the document.
pub open spec fn title_line(incident_id: Seq<char>) -> Seq<char> {
    "# Incident "@ + incident_id + "\n"@
}

/// The first line of the document.
pub fn title(incident_id: &str) -> (r: String)
    ensures
        r@ == title_line(incident_id@),
{
    let mut r = owned("# Incident ");
    append_str(&mut r, incident_id);
    append_str(&mut r, "\n");
    r
}

/// The trigger line of a trace incident.
pub open spec fn trace_trigger_line(trace_id: Seq<char>) -> Seq<char> {
    "**Trigger:** trace `"@ + trace_id + "`\n"@
}

/// The trigger line of a trace incident; the line of an anomaly incident
/// holds figures and is written at the edge.
pub fn trace_trigger(trigger: &Trigger) -> (r: Option<String>)
    ensures
        match trigger {
            Trigger::Trace { trace } => r matches Some(t) && t@ == trace_trigger_line(trace.trace_id@),
            Trigger::Anomaly { .. } => r is None,
        },
{
    match trigger {
        Trigger::Trace { trace } => {
            let mut r = owned("**Trigger:** trace `");
            append_str(&mut r, trace.trace_id.as_str());
            append_str(&mut r, "`\n");
            Some(r)
        },
        Trigger::Anomaly { .. } => None,
    }
}

/// The window line, with its instants written as `start` and `end`.
pub open spec fn window_text(start: Seq<char>, end: Seq<char>, expanded: bool) -> Seq<char> {
    "**Window:** "@ + start + " → "@ + end + " ("@ + (if expanded {
        "expanded"@
    } else {
        "raw"@
    }) + ")\n"@
}

/// The window line.
pub open spec fn window_line_spec(w: Window) -> Seq<char> {
    window_text(instant_display(w.start@), instant_display(w.end@), w.expanded)
}

/// The window line, with its instants written as `start` and `end`.
pub fn window_line_of(start: &str, end: &str, expanded: bool) -> (r: String)
    ensures
        r@ == window_text(start@, end@, expanded),
{
    let mut r = owned("**Window:** ");
    append_str(&mut r, start);
    append_str(&mut r, " → ");
    append_str(&mut r, end);
    append_str(&mut r, " (");
    if expanded {
        append_str(&mut r, "expanded");
    } else {
        append_str(&mut r, "raw");
    }
    append_str(&mut r, ")\n");
    r
}

/// The window line.
pub fn window_line(w: &Window) -> (r: String)
    ensures
        r@ == window_line_spec(*w),
{
    window_line_of(w.start.text().as_str(), w.end.text().as_str(), w.expanded)
}

/// The first 16 characters of a configuration label.
pub open spec fn short_label(hash: Seq<char>) -> Seq<char> {
    if hash.len() <= 16 {
        hash
    } else {
        hash.take(16)
    }
}

/// The engine line, and the blank line after it.
pub open spec fn engine_line_spec(version: Seq<char>, hash: Seq<char>, elapsed_ms: u64) -> Seq<char> {
    "**Engine:** "@ + version + "  ·  config "@ + short_label(hash) + "  ·  elapsed "@ + dec(elapsed_ms as nat)
        + "ms\n\n"@
}

/// The engine line, and the blank line after it.
pub fn engine_line(version: &str, hash: &str, elapsed_ms: u64) -> (r: String)
    ensures
        r@ == engine_line_spec(version@, hash@, elapsed_ms),
{
    let mut r = owned("**Engine:** ");
    append_str(&mut r, version);
    append_str(&mut r, "  ·  config ");
    let cs = chars_of(hash);
    let mut i: usize = 0;
    let ghost before = r@;
    while i < cs.len() && i < 16
        invariant
            cs@ == hash@,
            i <= cs@.len(),
            i <= 16,
            r@ == before + cs@.take(i as int),
        decreases cs@.len() - i,
    {
        push_char(&mut r, cs[i]);
        i = i + 1;
        assert(r@ =~= before + cs@.take(i as int));
    }
    proof {
        if hash@.len() <= 16 {
            assert(cs@.take(i as int) =~= hash@);
        }
    }
    append_str(&mut r, "  ·  elapsed ");
    push_u64(&mut r, elapsed_ms);
    append_str(&mut r, "ms\n\n");
    r
}

/// The row of a service in the table of affected services.
pub open spec fn service_row(x: ServiceSummary) -> Seq<char> {
    "| "@ + x.name@ + " | "@ + dec(x.span_count as nat) + " | "@ + dec(x.error_span_count as nat) + " | "@ + dec(
        x.log_count as nat,
    ) + " | "@ + dec(x.error_log_count as nat) + " |\n"@
}

/// The table of affected services, when there is one.
pub open spec fn services_text(services: Seq<ServiceSummary>) -> Seq<char> {
    if services.len() == 0 {
        Seq::empty()
    } else {
        "\n## Affected services\n| service | spans | error spans | logs | error logs |\n|---|---|---|---|---|\n"@
            + concat_all(services.map_values(|x: ServiceSummary| service_row(x)))
    }
}

fn service_row_text(x: &ServiceSummary) -> (r: String)
    ensures
        r@ == service_row(*x),
{
    let mut r = owned("| ");
    append_str(&mut r, x.name.as_str());
    append_str(&mut r, " | ");
    push_u64(&mut r, x.span_count as u64);
    append_str(&mut r, " | ");
    push_u64(&mut r, x.error_span_count as u64);
    append_str(&mut r, " | ");
    push_u64(&mut r, x.log_count as u64);
    append_str(&mut r, " | ");
    push_u64(&mut r, x.error_log_count as u64);
    append_str(&mut r, " |\n");
    r
}

/// The table of affected services: a heading, the column names and one row
/// per service; nothing when there is no service.
pub fn services_section(services: &Vec<ServiceSummary>) -> (r: String)
    ensures
        r@ == services_text(services@),
{
    if services.len() == 0 {
        proof {
            reveal_strlit("");
        }
        return owned("");
    }
    let mut rows: Vec<String> = Vec::new();
    let mut i: usize = 0;
    while i < services.len()
        invariant
            i <= services@.len(),
            rows@.len() == i,
            forall|j: int| 0 <= j < i ==> (#[trigger] rows@[j])@ == service_row(services@[j]),
        decreases services@.len() - i,
    {
        rows.push(service_row_text(&services[i]));
        i = i + 1;
    }
    let mut r = owned("\n## Affected services\n| service | spans | error spans | logs | error logs |\n|---|---|---|---|---|\n");
    append_all(&mut r, &rows);
    assert(texts(rows@) =~= services@.map_values(|x: ServiceSummary| service_row(x)));
    r
}

/// What follows the line of a notable span: its status message, when it
/// has a non-empty one.
pub open spec fn message_suffix(m: Option<String>) -> Seq<char> {
    match m {
        Some(t) => if t@.len() > 0 {
            " — "@ + t@
        } else {
            Seq::empty()
        },
        None => Seq::empty(),
    }
}

/// The line of a notable span.
pub open spec fn span_line(sp: SpanRef) -> Seq<char> {
    "- `"@ + sp.service@ + ":"@ + sp.operation@ + "` — "@ + dec_int(sp.duration_ms as int) + "ms — "@ + sp.status@
        + message_suffix(sp.status_message) + "\n"@
}

/// How many spans are listed at most.
pub const NOTABLE_SPANS: usize = 12;

/// The section of notable spans in a given order: at most the first
/// twelve, and a line that counts the rest; nothing when there is no span.
pub open spec fn notable_text(spans: Seq<SpanRef>, order: Seq<usize>) -> Seq<char> {
    if spans.len() == 0 {
        Seq::empty()
    } else {
        let shown = if order.len() <= 12 { order } else { order.take(12) };
        "\n## Notable spans\n"@ + concat_all(shown.map_values(|i: usize| span_line(spans[i as int]))) + if spans.len()
            > 12 {
            "- … "@ + dec((spans.len() - 12) as nat) + " more spans\n"@
        } else {
            Seq::empty()
        }
    }
}

fn span_line_text(sp: &SpanRef) -> (r: String)
    ensures
        r@ == span_line(*sp),
{
    let mut r = owned("- `");
    append_str(&mut r, sp.service.as_str());
    append_str(&mut r, ":");
    append_str(&mut r, sp.operation.as_str());
    append_str(&mut r, "` — ");
    push_i64(&mut r, sp.duration_ms);
    append_str(&mut r, "ms — ");
    append_str(&mut r, sp.status.as_str());
    match &sp.status_message {
        Some(m) => {
            if m.unicode_len() > 0 {
                append_str(&mut r, " — ");
                append_str(&mut r, m.as_str());
            }
        },
        None => {},
    }
    append_str(&mut r, "\n");
    proof {
        reveal_strlit("");
    }
    r
}

/// The section of notable spans: failed spans first, then longer spans
/// first (list order between equals), at most twelve of them, and a line
/// that counts the rest; nothing when there is no span.
pub fn notable_spans_section(spans: &Vec<SpanRef>) -> (r: String)
    ensures
        exists|order: Seq<usize>| is_notable_order(spans@, order) && r@ == notable_text(spans@, order),
{
    let order = notable_order(spans);
    if spans.len() == 0 {
        proof {
            reveal_strlit("");
        }
        return owned("");
    }
    let shown: usize = if order.len() <= NOTABLE_SPANS { order.len() } else { NOTABLE_SPANS };
    let ghost sel = if order@.len() <= 12 { order@ } else { order@.take(12) };
    let mut lines: Vec<String> = Vec::new();
    let mut i: usize = 0;
    while i < shown
        invariant
            shown == sel.len(),
            sel.len() <= order@.len(),
            forall|j: int| 0 <= j < sel.len() ==> sel[j] == order@[j],
            is_notable_order(spans@, order@),
            i <= shown,
            lines@.len() == i,
            forall|j: int| 0 <= j < i ==> (#[trigger] lines@[j])@ == span_line(spans@[sel[j] as int]),
        decreases shown - i,
    {
        let k = order[i];
        lines.push(span_line_text(&spans[k]));
        i = i + 1;
    }
    let mut r = owned("\n## Notable spans\n");
    append_all(&mut r, &lines);
    assert(texts(lines@) =~= sel.map_values(|j: usize| span_line(spans@[j as int])));
    if spans.len() > NOTABLE_SPANS {
        append_str(&mut r, "- … ");
        push_u64(&mut r, (spans.len() - NOTABLE_SPANS) as u64);
        append_str(&mut r, " more spans\n");
    } else {
        proof {
            reveal_strlit("");
        }
    }
    proof {
        assert(r@ =~= notable_text(spans@, order@));
    }
    r
}

/// The line of a log batch: its service, level and size, and its first
/// sample line, quoted, when it has one.
pub open spec fn batch_line(b: LogBatchRef) -> Seq<char> {
    "- `"@ + b.service@ + "` "@ + b.level@ + " ×"@ + dec(b.count as nat) + (if b.sample_messages@.len() > 0 {
        " — e.g. "@ + debug_quoted(b.sample_messages@[0]@)
    } else {
        Seq::empty()
    }) + "\n"@
}

/// The section of log batches; nothing when there is none.
pub open spec fn batches_text(batches: Seq<LogBatchRef>) -> Seq<char> {
    if batches.len() == 0 {
        Seq::empty()
    } else {
        "\n## Log batches\n"@ + concat_all(batches.map_values(|b: LogBatchRef| batch_line(b)))
    }
}

fn batch_line_text(b: &LogBatchRef) -> (r: String)
    ensures
        r@ == batch_line(*b),
{
    let mut r = owned("- `");
    append_str(&mut r, b.service.as_str());
    append_str(&mut r, "` ");
    append_str(&mut r, b.level.as_str());
    append_str(&mut r, " ×");
    push_u64(&mut r, b.count as u64);
    if b.sample_messages.len() > 0 {
        append_str(&mut r, " — e.g. ");
        append_str(&mut r, quoted(b.sample_messages[0].as_str()).as_str());
    } else {
        proof {
            reveal_strlit("");
        }
    }
    append_str(&mut r, "\n");
    r
}

/// The section of log batches: a heading and one line per batch; nothing
/// when there is none.
pub fn batches_section(batches: &Vec<LogBatchRef>) -> (r: String)
    ensures
        r@ == batches_text(batches@),
{
    if batches.len() == 0 {
        proof {
            reveal_strlit("");
        }
        return owned("");
    }
    let mut lines: Vec<String> = Vec::new();
    let mut i: usize = 0;
    while i < batches.len()
        invariant
            i <= batches@.len(),
            lines@.len() == i,
            forall|j: int| 0 <= j < i ==> (#[trigger] lines@[j])@ == batch_line(batches@[j]),
        decreases batches@.len() - i,
    {
        lines.push(batch_line_text(&batches[i]));
        i = i + 1;
    }
    let mut r = owned("\n## Log batches\n");
    append_all(&mut r, &lines);
    assert(texts(lines@) =~= batches@.map_values(|b: LogBatchRef| batch_line(b)));
    r
}

/// The line of a timeline event, with its instant written as `ts`.
pub open spec fn event_text(ts: Seq<char>, kind: Seq<char>, reference: Seq<char>) -> Seq<char> {
    "- "@ + ts + " "@ + kind + " `"@ + reference + "`\n"@
}

/// The line of a timeline event.
pub open spec fn event_line(e: TimelineEvent) -> Seq<char> {
    event_text(instant_display(e.ts@), e.kind@, e.reference@)
}

/// The timeline section; nothing when there is no event.
pub open spec fn timeline_text(events: Seq<TimelineEvent>) -> Seq<char> {
    if events.len() == 0 {
        Seq::empty()
    } else {
        "\n## Timeline\n"@ + concat_all(events.map_values(|e: TimelineEvent| event_line(e)))
    }
}

/// The line of a timeline event, with its instant written as `ts`.
pub fn event_line_of(ts: &str, kind: &str, reference: &str) -> (r: String)
    ensures
        r@ == event_text(ts@, kind@, reference@),
{
    let mut r = owned("- ");
    append_str(&mut r, ts);
    append_str(&mut r, " ");
    append_str(&mut r, kind);
    append_str(&mut r, " `");
    append_str(&mut r, reference);
    append_str(&mut r, "`\n");
    r
}

fn event_line_text(e: &TimelineEvent) -> (r: String)
    ensures
        r@ == event_line(*e),
{
    event_line_of(e.ts.text().as_str(), e.kind.as_str(), e.reference.as_str())
}

/// The timeline section: a heading and one line per event; nothing when
/// there is no event.
pub fn timeline_section(events: &Vec<TimelineEvent>) -> (r: String)
    ensures
        r@ == timeline_text(events@),
{
    if events.len() == 0 {
        proof {
            reveal_strlit("");
        }
        return owned("");
    }
    let mut lines: Vec<String> = Vec::new();
    let mut i: usize = 0;
    while i < events.len()
        invariant
            i <= events@.len(),
            lines@.len() == i,
            forall|j: int| 0 <= j < i ==> (#[trigger] lines@[j])@ == event_line(events@[j]),
        decreases events@.len() - i,
    {
        lines.push(event_line_text(&events[i]));
        i = i + 1;
    }
    let mut r = owned("\n## Timeline\n");
    append_all(&mut r, &lines);
    assert(texts(lines@) =~= events@.map_values(|e: TimelineEvent| event_line(e)));
    r
}

/// The line of a note.
pub open spec fn note_line(n: Seq<char>) -> Seq<char> {
    "- "@ + n + "\n"@
}

/// The notes section, which the document always ends with: `(none)` when
/// there is no note.
pub open spec fn notes_text(notes: Seq<String>) -> Seq<char> {
    "\n## Notes\n"@ + (if notes.len() == 0 {
        "(none)\n"@
    } else {
        Seq::empty()
    }) + concat_all(notes.map_values(|n: String| note_line(n@)))
}

/// The notes section, which the document always ends with: a heading, then
/// `(none)` or one line per note.
pub fn notes_section(notes: &Vec<String>) -> (r: String)
    ensures
        r@ == notes_text(notes@),
{
    let mut lines: Vec<String> = Vec::new();
    let mut i: usize = 0;
    while i < notes.len()
        invariant
            i <= notes@.len(),
            lines@.len() == i,
            forall|j: int| 0 <= j < i ==> (#[trigger] lines@[j])@ == note_line(notes@[j]@),
        decreases notes@.len() - i,
    {
        let mut l = owned("- ");
        append_str(&mut l, notes[i].as_str());
        append_str(&mut l, "\n");
        lines.push(l);
        i = i + 1;
    }
    let mut r = owned("\n## Notes\n");
    if notes.len() == 0 {
        append_str(&mut r, "(none)\n");
    } else {
        proof {
            reveal_strlit("");
        }
    }
    append_all(&mut r, &lines);
    assert(texts(lines@) =~= notes@.map_values(|n: String| note_line(n@)));
    r
}

// ---------------------------------------------------------------------------
// The document.
// ---------------------------------------------------------------------------

/// The written figures of one suspect: its score, the lines of its evidence
/// breakdown (the `evidence:` line and the `temporal tightness` line, each
/// where it applies, or nothing) and the weight of each of its contributors,
/// in their order.
pub struct SuspectFigures {
    pub score: String,
    pub breakdown_lines: String,
    pub contributor_weights: Vec<String>,
}

/// The parts of a document that hold real-valued figures, already written:
/// the trigger line of an anomaly incident, the figures of each suspect (in
/// rank order) and one line per metric anomaly.
pub struct Figures {
    pub anomaly_trigger: String,
    pub suspects: Vec<SuspectFigures>,
    pub anomaly_lines: Vec<String>,
}

/// Whether the written figures of a suspect give one weight per contributor.
pub open spec fn figures_fit(s: Suspect, f: SuspectFigures) -> bool {
    f.contributor_weights@.len() == s.evidence_breakdown.contributors@.len()
}

/// The line of one contributor, with its weight written as `weight`.
pub open spec fn contributor_line(c: Contributor, weight: Seq<char>) -> Seq<char> {
    "   - "@ + c.kind@ + " `"@ + c.reference@ + "` (+"@ + weight + ")\n"@
}

/// The lines of the contributors, the `j`-th with the `j`-th written weight.
pub open spec fn contributor_lines(cs: Seq<Contributor>, weights: Seq<String>) -> Seq<char> {
    concat_all(Seq::new(cs.len(), |j: int| contributor_line(cs[j], weights[j]@)))
}

/// The first line of a suspect's block: its rank, its service and its score.
pub open spec fn rank_line(s: Suspect, score: Seq<char>) -> Seq<char> {
    dec(s.rank as nat) + ". **"@ + s.service@ + "** — score "@ + score + "\n"@
}

/// The block of one suspect: its rank line, the breakdown lines, and one
/// line per contributor.
pub open spec fn suspect_block_text(s: Suspect, f: SuspectFigures) -> Seq<char> {
    rank_line(s, f.score@) + f.breakdown_lines@ + contributor_lines(
        s.evidence_breakdown.contributors@,
        f.contributor_weights@,
    )
}

/// The block of one suspect in the document: `rank. **service** — score x`,
/// the lines of its evidence breakdown, then `- kind `ref` (+w)` for each
/// contributor.
pub fn suspect_block(s: &Suspect, f: &SuspectFigures) -> (r: String)
    requires
        figures_fit(*s, *f),
    ensures
        r@ == suspect_block_text(*s, *f),
{
    let mut r = String::new();
    push_u64(&mut r, s.rank as u64);
    append_str(&mut r, ". **");
    append_str(&mut r, s.service.as_str());
    append_str(&mut r, "** — score ");
    append_str(&mut r, f.score.as_str());
    append_str(&mut r, "\n");
    append_str(&mut r, f.breakdown_lines.as_str());
    let cs = &s.evidence_breakdown.contributors;
    let mut lines: Vec<String> = Vec::new();
    let mut j: usize = 0;
    while j < cs.len()
        invariant
            j <= cs@.len(),
            cs@.len() == f.contributor_weights@.len(),
            lines@.len() == j,
            forall|k: int| 0 <= k < j ==> (#[trigger] lines@[k])@ == contributor_line(cs@[k], f.contributor_weights@[k]@),
        decreases cs@.len() - j,
    {
        let c = &cs[j];
        let mut l = owned("   - ");
        append_str(&mut l, c.kind.as_str());
        append_str(&mut l, " `");
        append_str(&mut l, c.reference.as_str());
        append_str(&mut l, "` (+");
        append_str(&mut l, f.contributor_weights[j].as_str());
        append_str(&mut l, ")\n");
        lines.push(l);
        j = j + 1;
    }
    append_all(&mut r, &lines);
    proof {
        assert(texts(lines@) =~= Seq::new(cs@.len(), |k: int| contributor_line(cs@[k], f.contributor_weights@[k]@)));
        assert(r@ =~= suspect_block_text(*s, *f));
    }
    r
}

/// The trigger line: the trace's, or the written anomaly line.
pub open spec fn trigger_text(t: Trigger, anomaly_line: Seq<char>) -> Seq<char> {
    match t {
        Trigger::Trace { trace } => trace_trigger_line(trace.trace_id@),
        Trigger::Anomaly { .. } => anomaly_line,
    }
}

/// The blocks of the suspects, the `i`-th with the `i`-th written figures.
pub open spec fn suspect_blocks(suspects: Seq<Suspect>, figs: Seq<SuspectFigures>) -> Seq<Seq<char>> {
    Seq::new(suspects.len(), |i: int| suspect_block_text(suspects[i], figs[i]))
}

/// The suspects section: its heading, one block per suspect in rank order,
/// and `(none)` when there is no suspect.
pub open spec fn suspects_text(suspects: Seq<Suspect>, figs: Seq<SuspectFigures>) -> Seq<char> {
    "## Top suspects\n"@ + concat_all(suspect_blocks(suspects, figs)) + (if suspects.len() == 0 {
        "(none)\n"@
    } else {
        Seq::empty()
    })
}

/// The metric-anomalies section: its heading and the written lines; nothing
/// when there is no anomaly.
pub open spec fn anomalies_text(n_anomalies: nat, lines: Seq<Seq<char>>) -> Seq<char> {
    if n_anomalies == 0 {
        Seq::empty()
    } else {
        "\n## Metric anomalies\n"@ + concat_all(lines)
    }
}

/// The whole document, with the notable spans in `order`: title, trigger,
/// window and engine lines, suspects, affected services, notable spans,
/// metric anomalies, log batches, timeline and notes.
pub open spec fn document_text(ic: IncidentContext, f: Figures, order: Seq<usize>) -> Seq<char> {
    title_line(ic.incident_id@) + trigger_text(ic.trigger, f.anomaly_trigger@) + window_line_spec(ic.window)
        + engine_line_spec(ic.engine_version@, ic.config_hash@, ic.elapsed_ms) + suspects_text(
        ic.suspects@,
        f.suspects@,
    ) + services_text(ic.services@) + notable_text(ic.spans@, order) + anomalies_text(
        ic.metric_anomalies@.len(),
        texts(f.anomaly_lines@),
    ) + batches_text(ic.log_batches@) + timeline_text(ic.timeline@) + notes_text(ic.notes@)
}

/// `needle` occurs in `hay` as a run of consecutive characters.
pub open spec fn occurs_in(needle: Seq<char>, hay: Seq<char>) -> bool {
    exists|k: int| 0 <= k && k + needle.len() <= hay.len() && #[trigger] hay.subrange(k, k + needle.len()) == needle
}

proof fn lemma_occurs_at_end(needle: Seq<char>, a: Seq<char>)
    ensures
        occurs_in(needle, a + needle),
{
    assert((a + needle).subrange(a.len() as int, (a.len() + needle.len()) as int) =~= needle);
}

proof fn lemma_occurs_at_start(needle: Seq<char>, b: Seq<char>)
    ensures
        occurs_in(needle, needle + b),
{
    let k: int = 0;
    assert((needle + b).subrange(k, k + needle.len()) =~= needle);
}

proof fn lemma_occurs_extend(needle: Seq<char>, a: Seq<char>, b: Seq<char>)
    requires
        occurs_in(needle, a),
    ensures
        occurs_in(needle, a + b),
        occurs_in(needle, b + a),
{
    let k = choose|k: int| 0 <= k && k + needle.len() <= a.len() && #[trigger] a.subrange(k, k + needle.len()) == needle;
    assert((a + b).subrange(k, k + needle.len()) =~= a.subrange(k, k + needle.len()));
    assert((b + a).subrange(b.len() + k, b.len() + k + needle.len()) =~= a.subrange(k, k + needle.len()));
}

proof fn lemma_occurs_in_concat_all(needle: Seq<char>, parts: Seq<Seq<char>>, j: int)
    requires
        0 <= j < parts.len(),
        occurs_in(needle, parts[j]),
    ensures
        occurs_in(needle, concat_all(parts)),
    decreases parts.len(),
{
    if j == parts.len() - 1 {
        lemma_occurs_extend(needle, parts.last(), concat_all(parts.drop_last()));
    } else {
        assert(parts.drop_last()[j] == parts[j]);
        lemma_occurs_in_concat_all(needle, parts.drop_last(), j);
        lemma_occurs_extend(needle, concat_all(parts.drop_last()), parts.last());
    }
}

/// Every document has the suspects heading and names the service of every
/// suspect, whatever the figures were written as.
pub proof fn lemma_document_lists_suspects(ic: IncidentContext, f: Figures, order: Seq<usize>)
    ensures
        occurs_in("## Top suspects"@, document_text(ic, f, order)),
        forall|i: int| 0 <= i < ic.suspects@.len() ==> occurs_in(#[trigger] ic.suspects@[i].service@, document_text(ic, f, order)),
{
    let pre = title_line(ic.incident_id@) + trigger_text(ic.trigger, f.anomaly_trigger@) + window_line_spec(ic.window)
        + engine_line_spec(ic.engine_version@, ic.config_hash@, ic.elapsed_ms);
    let blocks = suspect_blocks(ic.suspects@, f.suspects@);
    let head = "## Top suspects\n"@ + concat_all(blocks);
    let tail = if ic.suspects@.len() == 0 { "(none)\n"@ } else { Seq::<char>::empty() };
    let sus = suspects_text(ic.suspects@, f.suspects@);
    let doc = document_text(ic, f, order);
    assert(sus == head + tail);
    let post = services_text(ic.services@) + notable_text(ic.spans@, order) + anomalies_text(
        ic.metric_anomalies@.len(),
        texts(f.anomaly_lines@),
    ) + batches_text(ic.log_batches@) + timeline_text(ic.timeline@) + notes_text(ic.notes@);
    assert(doc =~= (pre + sus) + post);
    // Whatever occurs in the suspects section occurs in the document.
    assert forall|needle: Seq<char>| occurs_in(needle, head) implies occurs_in(needle, doc) by {
        lemma_occurs_extend(needle, head, tail);
        lemma_occurs_extend(needle, sus, pre);
        lemma_occurs_extend(needle, pre + sus, post);
    }
    reveal_strlit("## Top suspects");
    reveal_strlit("## Top suspects\n");
    assert("## Top suspects\n"@ =~= "## Top suspects"@ + "\n"@) by {
        reveal_strlit("\n");
    }
    lemma_occurs_at_start("## Top suspects"@, "\n"@);
    lemma_occurs_extend("## Top suspects"@, "## Top suspects\n"@, concat_all(blocks));
    assert forall|i: int| 0 <= i < ic.suspects@.len() implies occurs_in(#[trigger] ic.suspects@[i].service@, doc) by {
        let s = ic.suspects@[i];
        let fi = f.suspects@[i];
        let svc = s.service@;
        let a = dec(s.rank as nat) + ". **"@;
        lemma_occurs_at_end(svc, a);
        lemma_occurs_extend(svc, a + svc, "** — score "@);
        lemma_occurs_extend(svc, a + svc + "** — score "@, fi.score@);
        lemma_occurs_extend(svc, a + svc + "** — score "@ + fi.score@, "\n"@);
        assert(rank_line(s, fi.score@) == a + svc + "** — score "@ + fi.score@ + "\n"@);
        lemma_occurs_extend(svc, rank_line(s, fi.score@), fi.breakdown_lines@);
        lemma_occurs_extend(
            svc,
            rank_line(s, fi.score@) + fi.breakdown_lines@,
            contributor_lines(s.evidence_breakdown.contributors@, fi.contributor_weights@),
        );
        assert(blocks[i] == suspect_block_text(s, fi));
        lemma_occurs_in_concat_all(svc, blocks, i);
        lemma_occurs_extend(svc, concat_all(blocks), "## Top suspects\n"@);
    }
}

/// The Markdown document of an incident, with its figures already written:
/// title, trigger, window and engine lines, the suspects (or `(none)`), the
/// affected services, the notable spans, the metric anomalies, the log
/// batches, the timeline and the notes, each section as its function here
/// writes it. The figures hold one set per suspect, in rank order, and one
/// weight per contributor of each.
pub fn render_md(ic: &IncidentContext, figures: &Figures) -> (r: String)
    requires
        figures.suspects@.len() == ic.suspects@.len(),
        forall|i: int| 0 <= i < ic.suspects@.len() ==> figures_fit(#[trigger] ic.suspects@[i], figures.suspects@[i]),
    ensures
        exists|order: Seq<usize>| is_notable_order(ic.spans@, order) && r@ == document_text(*ic, *figures, order),
{
    let mut s = title(ic.incident_id.as_str());
    match trace_trigger(&ic.trigger) {
        Some(line) => append_str(&mut s, line.as_str()),
        None => append_str(&mut s, figures.anomaly_trigger.as_str()),
    }
    append_str(&mut s, window_line(&ic.window).as_str());
    append_str(&mut s, engine_line(ic.engine_version.as_str(), ic.config_hash.as_str(), ic.elapsed_ms).as_str());
    let ghost before_suspects = s@;
    append_str(&mut s, "## Top suspects\n");
    let mut blocks: Vec<String> = Vec::new();
    let mut i: usize = 0;
    while i < ic.suspects.len()
        invariant
            i <= ic.suspects@.len(),
            figures.suspects@.len() == ic.suspects@.len(),
            forall|k: int| 0 <= k < ic.suspects@.len() ==> figures_fit(#[trigger] ic.suspects@[k], figures.suspects@[k]),
            blocks@.len() == i,
            forall|k: int| 0 <= k < i ==> (#[trigger] blocks@[k])@ == suspect_block_text(ic.suspects@[k], figures.suspects@[k]),
        decreases ic.suspects@.len() - i,
    {
        blocks.push(suspect_block(&ic.suspects[i], &figures.suspects[i]));
        i = i + 1;
    }
    assert(texts(blocks@) =~= suspect_blocks(ic.suspects@, figures.suspects@));
    append_all(&mut s, &blocks);
    if ic.suspects.len() == 0 {
        append_str(&mut s, "(none)\n");
    } else {
        proof {
            reveal_strlit("");
        }
    }
    proof {
        reveal_strlit("");
        assert(s@ =~= before_suspects + suspects_text(ic.suspects@, figures.suspects@));
    }
    append_str(&mut s, services_section(&ic.services).as_str());
    let notable = notable_spans_section(&ic.spans);
    let ghost order = choose|order: Seq<usize>| is_notable_order(ic.spans@, order) && notable@ == notable_text(
        ic.spans@,
        order,
    );
    append_str(&mut s, notable.as_str());
    let ghost before_anomalies = s@;
    if ic.metric_anomalies.len() > 0 {
        append_str(&mut s, "\n## Metric anomalies\n");
        append_all(&mut s, &figures.anomaly_lines);
    }
    proof {
        assert(s@ =~= before_anomalies + anomalies_text(ic.metric_anomalies@.len(), texts(figures.anomaly_lines@)));
    }
    append_str(&mut s, batches_section(&ic.log_batches).as_str());
    append_str(&mut s, timeline_section(&ic.timeline).as_str());
    append_str(&mut s, notes_section(&ic.notes).as_str());
    proof {
        assert(s@ =~= document_text(*ic, *figures, order));
    }
    s
}

} // verus!
