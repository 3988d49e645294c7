use correlation_core::explain::{
    dry_run_text, explain_request, explain_mode, explain_source, explanation_text, user_prompt, ExplainMode, ExplainSource, EXPLAIN_SYSTEM,
};
use correlation_core::json::{Json, JsonNumber};

fn s(x: &str) -> Json {
    Json::String(x.to_string())
}

fn obj(members: Vec<(&str, Json)>) -> Json {
    Json::Object(members.into_iter().map(|(k, v)| (k.to_string(), v)).collect())
}

#[test]
fn saved_incident_wins_over_trace() {
    assert!(matches!(
        explain_source(Some("ic.json".into()), Some("t".into())),
        Ok(ExplainSource::Saved(p)) if p == "ic.json"
    ));
    assert!(matches!(explain_source(None, Some("t".into())), Ok(ExplainSource::Live(t)) if t == "t"));
    match explain_source(None, None) {
        Err(m) => assert_eq!(m, "corr explain needs --trace-id <id> or --incident <incident.json>"),
        Ok(_) => panic!("expected an error"),
    }
}

#[test]
fn prompts_wrap_the_document() {
    assert_eq!(user_prompt("{}"), "Incident context document:\n\n```json\n{}\n```");
    assert_eq!(dry_run_text("S", "U"), "# system\nS\n\n# user\nU");
    assert!(EXPLAIN_SYSTEM.starts_with("You are an SRE incident assistant."));
}

#[test]
fn request_body_has_model_budget_and_messages() {
    match explain_request("m1", "sys", "usr") {
        Json::Object(members) => {
            let keys: Vec<&str> = members.iter().map(|(k, _)| k.as_str()).collect();
            assert_eq!(keys, vec!["model", "max_tokens", "thinking", "system", "messages"]);
            assert!(matches!(&members[0].1, Json::String(x) if x == "m1"));
            assert!(matches!(&members[1].1, Json::Number(JsonNumber::PosInt(2048))));
            assert!(matches!(&members[3].1, Json::String(x) if x == "sys"));
            match &members[4].1 {
                Json::Array(ms) => match &ms[0] {
                    Json::Object(m) => {
                        assert!(matches!(&m[0].1, Json::String(x) if x == "user"));
                        assert!(matches!(&m[1].1, Json::String(x) if x == "usr"));
                    }
                    _ => panic!("expected a message object"),
                },
                _ => panic!("expected messages"),
            }
        }
        _ => panic!("expected an object"),
    }
}

#[test]
fn answer_text_joins_text_blocks_and_trims() {
    let payload = obj(vec![(
        "content",
        Json::Array(vec![
            obj(vec![("type", s("thinking")), ("thinking", s("hmm"))]),
            obj(vec![("type", s("text")), ("text", s("  Root cause: db.\n"))]),
            obj(vec![("type", s("text")), ("text", s("More.  "))]),
        ]),
    )]);
    assert_eq!(explanation_text(&payload), Some("Root cause: db.\nMore.".to_string()));
}

#[test]
fn answer_without_text_is_none() {
    assert_eq!(explanation_text(&obj(vec![])), None);
    let blank = obj(vec![("content", Json::Array(vec![obj(vec![("type", s("text")), ("text", s("  \n"))])]))]);
    assert_eq!(explanation_text(&blank), None);
}

#[test]
fn a_dry_run_when_asked_or_without_a_key() {
    assert!(matches!(explain_mode(true, Some("k".into())), ExplainMode::DryRun));
    assert!(matches!(explain_mode(false, None), ExplainMode::DryRun));
    assert!(matches!(explain_mode(false, Some("k".into())), ExplainMode::Call(k) if k == "k"));
}

#[test]
fn answer_text_is_trimmed_of_unicode_white_space() {
    let raw = "\u{3000}\u{85}\t x y\u{2029}\u{a0} ";
    let payload = obj(vec![("content", Json::Array(vec![obj(vec![("type", s("text")), ("text", s(raw))])]))]);
    assert_eq!(explanation_text(&payload), Some(raw.trim().to_string()));
    assert_eq!(raw.trim(), "x y");
}
