//! Asking a language model to explain an incident: which incident, the
//! prompt and request that go out, and the text that comes back.
use vstd::prelude::*;
use crate::json::{Json, JsonNumber, as_array, as_str, at, items_of, member, text_eq, text_of};
use crate::render::concat_all;
use crate::text::{append_str, chars_of, from_chars, owned};

verus! {

/// The system prompt: what the model is asked to do with the document.
pub const EXPLAIN_SYSTEM: &'static str = "You are an SRE incident assistant. You are given a machine-generated incident context document (JSON) from a distributed-tracing correlation engine that has already gathered and ranked the evidence across traces, logs, and metrics. Explain the incident in plain English for an on-call engineer, in three short sections:\n1. Root cause — name the top-ranked suspect service and cite the specific evidence the engine used (latency self-time, error spans, metric anomaly, or propagation from a dependency).\n2. Blast radius — which services are affected versus clean, and why (distinguish a slow/failing worker from a caller merely blocked waiting on it).\n3. Recommended next step — one concrete action to confirm or remediate.\nGround every claim in the document. Do not invent services, metrics, error messages, or causes that are not present. If the evidence is thin or the incident is degraded (see the notes), say so plainly rather than guessing.";

/// Which incident is explained.
pub enum ExplainSource {
    /// A saved incident document, at this path.
    Saved(String),
    /// The incident of this trace, correlated now.
    Live(String),
}

/// Picks the incident to explain: a saved document when its path is given,
/// else the trace when its id is given; with neither, the error says what
/// is missing.
pub fn explain_source(incident: Option<String>, trace_id: Option<String>) -> (r: Result<ExplainSource, String>)
    ensures
        match (incident, trace_id) {
            (Some(p), _) => r matches Ok(ExplainSource::Saved(x)) && x == p,
            (None, Some(t)) => r matches Ok(ExplainSource::Live(x)) && x == t,
            (None, None) => r matches Err(m) && m@
                == "corr explain needs --trace-id <id> or --incident <incident.json>"@,
        },
{
    match (incident, trace_id) {
        (Some(p), _) => Ok(ExplainSource::Saved(p)),
        (None, Some(t)) => Ok(ExplainSource::Live(t)),
        (None, None) => Err(owned("corr explain needs --trace-id <id> or --incident <incident.json>")),
    }
}

/// Whether the request is sent, or only shown.
pub enum ExplainMode {
    /// Print the request that would be sent, without sending it.
    DryRun,
    /// Send the request with this API key.
    Call(String),
}

/// Decides whether the request is sent: a dry run when one is asked for or
/// when no API key is set; otherwise the request goes out with the key.
pub fn explain_mode(dry_run: bool, api_key: Option<String>) -> (m: ExplainMode)
    ensures
        (dry_run || api_key is None) ==> m is DryRun,
        (!dry_run && api_key is Some) ==> m == ExplainMode::Call(api_key->0),
{
    if dry_run {
        return ExplainMode::DryRun;
    }
    match api_key {
        Some(k) => ExplainMode::Call(k),
        None => ExplainMode::DryRun,
    }
}

/// The user message: the incident document in a JSON code block.
pub open spec fn user_prompt_spec(doc: Seq<char>) -> Seq<char> {
    "Incident context document:\n\n```json\n"@ + doc + "\n```"@
}

/// The user message: the incident document in a JSON code block.
pub fn user_prompt(doc: &str) -> (r: String)
    ensures
        r@ == user_prompt_spec(doc@),
{
    let mut r = owned("Incident context document:\n\n```json\n");
    append_str(&mut r, doc);
    append_str(&mut r, "\n```");
    r
}

/// What a dry run prints: both messages, under headings.
pub open spec fn dry_run_spec(system: Seq<char>, user: Seq<char>) -> Seq<char> {
    "# system\n"@ + system + "\n\n# user\n"@ + user
}

/// What a dry run prints: both messages, under headings.
pub fn dry_run_text(system: &str, user: &str) -> (r: String)
    ensures
        r@ == dry_run_spec(system@, user@),
{
    let mut r = owned("# system\n");
    append_str(&mut r, system);
    append_str(&mut r, "\n\n# user\n");
    append_str(&mut r, user);
    r
}

fn member_of(key: &str, value: Json) -> (r: (String, Json))
    ensures
        r.0@ == key@,
        r.1 == value,
{
    (owned(key), value)
}

fn text_json(s: &str) -> (r: Json)
    ensures
        r matches Json::String(t) && t@ == s@,
{
    Json::String(owned(s))
}

/// `m` is the user message `user`.
pub open spec fn message_is(m: Json, user: Seq<char>) -> bool {
    &&& m matches Json::Object(msg) && msg@.len() == 2
    &&& m->Object_0@[0].0@ == "role"@ && as_str(m->Object_0@[0].1) == Some("user"@)
    &&& m->Object_0@[1].0@ == "content"@ && as_str(m->Object_0@[1].1) == Some(user)
}

/// The request body: the model, a budget of 2048 output tokens, adaptive
/// thinking, the system prompt and one user message.
pub open spec fn is_explain_request(r: Json, model: Seq<char>, system: Seq<char>, user: Seq<char>) -> bool {
    &&& r matches Json::Object(m) && m@.len() == 5
    &&& r->Object_0@[0].0@ == "model"@ && as_str(r->Object_0@[0].1) == Some(model)
    &&& r->Object_0@[1].0@ == "max_tokens"@ && r->Object_0@[1].1 == Json::Number(JsonNumber::PosInt(2048))
    &&& r->Object_0@[2].0@ == "thinking"@
    &&& r->Object_0@[2].1 matches Json::Object(t) && t@.len() == 1 && t@[0].0@ == "type"@ && as_str(t@[0].1) == Some(
        "adaptive"@,
    )
    &&& r->Object_0@[3].0@ == "system"@ && as_str(r->Object_0@[3].1) == Some(system)
    &&& r->Object_0@[4].0@ == "messages"@
    &&& r->Object_0@[4].1 matches Json::Array(ms) && ms@.len() == 1 && message_is(ms@[0], user)
}

/// The request body: the model, a budget of 2048 output tokens, adaptive
/// thinking, the system prompt and one user message.
pub fn explain_request(model: &str, system: &str, user: &str) -> (r: Json)
    ensures
        is_explain_request(r, model@, system@, user@),
{
    let mut thinking: Vec<(String, Json)> = Vec::new();
    thinking.push(member_of("type", text_json("adaptive")));
    let mut msg: Vec<(String, Json)> = Vec::new();
    msg.push(member_of("role", text_json("user")));
    msg.push(member_of("content", text_json(user)));
    let mut msgs: Vec<Json> = Vec::new();
    msgs.push(Json::Object(msg));
    let mut m: Vec<(String, Json)> = Vec::new();
    m.push(member_of("model", text_json(model)));
    m.push(member_of("max_tokens", Json::Number(JsonNumber::PosInt(2048))));
    m.push(member_of("thinking", Json::Object(thinking)));
    m.push(member_of("system", text_json(system)));
    m.push(member_of("messages", Json::Array(msgs)));
    Json::Object(m)
}

/// Whether `c` has Unicode's White_Space property (the 25 code points that
/// `char::is_whitespace` and `str::trim` treat as white space).
pub open spec fn is_white_space(c: char) -> bool {
    ||| ('\u{9}' <= c && c <= '\u{d}')
    ||| c == ' '
    ||| c == '\u{85}'
    ||| c == '\u{a0}'
    ||| c == '\u{1680}'
    ||| ('\u{2000}' <= c && c <= '\u{200a}')
    ||| c == '\u{2028}'
    ||| c == '\u{2029}'
    ||| c == '\u{202f}'
    ||| c == '\u{205f}'
    ||| c == '\u{3000}'
}

/// `s` without its leading white space.
pub open spec fn trim_start(s: Seq<char>) -> Seq<char>
    decreases s.len(),
{
    if s.len() > 0 && is_white_space(s[0]) {
        trim_start(s.drop_first())
    } else {
        s
    }
}

/// `s` without its trailing white space.
pub open spec fn trim_end(s: Seq<char>) -> Seq<char>
    decreases s.len(),
{
    if s.len() > 0 && is_white_space(s.last()) {
        trim_end(s.drop_last())
    } else {
        s
    }
}

/// `s` without its leading and trailing white space, as `str::trim` gives it.
pub open spec fn trimmed(s: Seq<char>) -> Seq<char> {
    trim_end(trim_start(s))
}

fn white_space(c: char) -> (r: bool)
    ensures
        r == is_white_space(c),
{
    ('\u{9}' <= c && c <= '\u{d}') || c == ' ' || c == '\u{85}' || c == '\u{a0}' || c == '\u{1680}' || ('\u{2000}'
        <= c && c <= '\u{200a}') || c == '\u{2028}' || c == '\u{2029}' || c == '\u{202f}' || c == '\u{205f}' || c
        == '\u{3000}'
}

/// `s` without leading and trailing white space.
fn trim_text(s: &str) -> (r: String)
    ensures
        r@ == trimmed(s@),
{
    let cs = chars_of(s);
    let n = cs.len();
    let mut i: usize = 0;
    proof {
        assert(cs@.subrange(0, n as int) =~= cs@);
    }
    while i < n && white_space(cs[i])
        invariant
            n == cs@.len(),
            cs@ == s@,
            i <= n,
            trim_start(s@) == trim_start(cs@.subrange(i as int, n as int)),
        decreases n - i,
    {
        proof {
            assert(cs@.subrange(i as int, n as int).drop_first() =~= cs@.subrange(i + 1, n as int));
        }
        i = i + 1;
    }
    let ghost start = cs@.subrange(i as int, n as int);
    proof {
        assert(trim_start(start) == start);
    }
    let mut j: usize = n;
    while j > i && white_space(cs[j - 1])
        invariant
            n == cs@.len(),
            i <= j <= n,
            start == cs@.subrange(i as int, n as int),
            trim_end(start) == trim_end(cs@.subrange(i as int, j as int)),
        decreases j - i,
    {
        proof {
            assert(cs@.subrange(i as int, j as int).drop_last() =~= cs@.subrange(i as int, j - 1));
        }
        j = j - 1;
    }
    proof {
        let rest = cs@.subrange(i as int, j as int);
        assert(trim_end(rest) == rest);
    }
    from_chars(vstd::slice::slice_subrange(cs.as_slice(), i, j))
}

/// The text of a content block of the answer, when it is a text block.
pub open spec fn block_text(b: Json) -> Seq<char> {
    if as_str(at(b, "type"@)) == Some("text"@) {
        match as_str(at(b, "text"@)) {
            Some(t) => t,
            None => Seq::empty(),
        }
    } else {
        Seq::empty()
    }
}

/// The text of the answer: its text blocks one after the other (thinking
/// and other blocks left out).
pub open spec fn answer_text(payload: Json) -> Seq<char> {
    match as_array(at(payload, "content"@)) {
        Some(blocks) => concat_all(blocks.map_values(|b: Json| block_text(b))),
        None => Seq::empty(),
    }
}

/// The explanation in an answer: its text, trimmed; `None` when nothing but
/// white space is left.
pub fn explanation_text(payload: &Json) -> (r: Option<String>)
    ensures
        trimmed(answer_text(*payload)).len() == 0 ==> r is None,
        trimmed(answer_text(*payload)).len() > 0 ==> (r matches Some(t) && t@ == trimmed(answer_text(*payload))),
{
    let mut text = owned("");
    proof {
        reveal_strlit("");
    }
    match items_of(member(payload, "content")) {
        Some(blocks) => {
            let ghost bv = blocks@;
            let mut i: usize = 0;
            proof {
                assert(bv.take(0).map_values(|b: Json| block_text(b)) =~= Seq::<Seq<char>>::empty());
            }
            while i < blocks.len()
                invariant
                    bv == blocks@,
                    i <= bv.len(),
                    text@ == concat_all(bv.take(i as int).map_values(|b: Json| block_text(b))),
                decreases bv.len() - i,
            {
                let b = &blocks[i];
                let is_text = match text_of(member(b, "type")) {
                    Some(t) => text_eq(t, "text"),
                    None => false,
                };
                let ghost before = text@;
                if is_text {
                    match text_of(member(b, "text")) {
                        Some(t) => append_str(&mut text, t),
                        None => {},
                    }
                }
                proof {
                    let now = bv.take(i + 1).map_values(|b: Json| block_text(b));
                    assert(now.drop_last() =~= bv.take(i as int).map_values(|b: Json| block_text(b)));
                    assert(now.last() == block_text(bv[i as int]));
                    assert(text@ =~= before + block_text(bv[i as int]));
                }
                i = i + 1;
            }
            assert(bv.take(bv.len() as int) =~= bv);
            assert(text@ == answer_text(*payload));
        },
        None => {
            assert(text@ =~= answer_text(*payload));
        },
    }
    let t = trim_text(text.as_str());
    if t.unicode_len() == 0 {
        None
    } else {
        Some(t)
    }
}

} // verus!
