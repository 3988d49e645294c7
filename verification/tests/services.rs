use correlation_core::errors::ServiceError;
use correlation_core::failure::{inject_var, FailureModes};
use correlation_core::metrics::MetricsState;

#[test]
fn service_errors_become_http_answers() {
    let r = ServiceError::BadRequest("missing amount".into()).reply();
    assert_eq!((r.status, r.error.as_str(), r.detail), (400, "bad_request", Some("missing amount".to_string())));
    let r = ServiceError::NotFound.reply();
    assert_eq!((r.status, r.error.as_str(), r.detail), (404, "not_found", None));
    let r = ServiceError::Unauthorized.reply();
    assert_eq!((r.status, r.error.as_str()), (401, "unauthorized"));
    let r = ServiceError::from(anyhow::Error::msg("db down")).reply();
    assert_eq!((r.status, r.error.as_str(), r.detail), (500, "internal", None));
}

#[test]
fn failure_settings_are_read_from_their_variables() {
    assert_eq!(inject_var("AUTH", "LATENCY_MS"), "AUTH_INJECT_LATENCY_MS");
    let fm = FailureModes::from_settings(Some("50"), None, Some("x"));
    assert_eq!(fm.latency_ms(), Some(50));
    assert_eq!(fm.cold_start_first_n, None);
    assert_eq!(FailureModes::from_settings(Some("-5"), None, None).latency_ms(), None);
    assert_eq!(FailureModes::from_settings(Some("+7"), None, Some("3")).cold_start_first_n, Some(3));
}

#[test]
fn a_new_metrics_state_has_an_empty_registry() {
    let m = MetricsState::new();
    assert!(m.registry.gather().is_empty());
}
