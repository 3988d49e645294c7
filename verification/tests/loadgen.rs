use correlation_core::time::UtcInstant;
use correlation_core::loadgen::{classify_response, counts_line_text, parse_endpoint, request_interval_micros, Bucket, Outcome, Stats};

#[test]
fn endpoint_splits_at_the_first_space() {
    assert_eq!(parse_endpoint("POST http://x/y"), ("POST".to_string(), "http://x/y".to_string()));
    assert_eq!(parse_endpoint("http://x/y"), ("GET".to_string(), "http://x/y".to_string()));
    assert_eq!(parse_endpoint("PUT a b"), ("PUT".to_string(), "a b".to_string()));
    assert_eq!(parse_endpoint(" x"), ("".to_string(), "x".to_string()));
}

#[test]
fn interval_spreads_a_second_over_the_rate() {
    assert_eq!(request_interval_micros(50), 20_000);
    assert_eq!(request_interval_micros(0), 1_000_000);
    assert_eq!(request_interval_micros(3), 333_333);
}

#[test]
fn responses_are_classified_by_status() {
    assert_eq!(classify_response(Some(200)), Outcome::Success);
    assert_eq!(classify_response(Some(204)), Outcome::Success);
    assert_eq!(classify_response(Some(302)), Outcome::FourXx);
    assert_eq!(classify_response(Some(404)), Outcome::FourXx);
    assert_eq!(classify_response(Some(503)), Outcome::FiveXx);
    assert_eq!(classify_response(None), Outcome::Error);
}

#[test]
fn snapshot_line_writes_and_resets_the_counts() {
    let mut st = Stats::default();
    st.record(Outcome::Success);
    st.record(Outcome::Success);
    st.record(Outcome::FiveXx);
    st.record(Outcome::Error);
    let line = st.snapshot_line(UtcInstant::from_unix_nanos(1_716_465_600_000_000_000));
    assert_eq!(line, "2024-05-23T12:00:00+00:00,2,0,1,1,0\n");
    assert_eq!(st.snapshot_line(UtcInstant::from_unix_nanos(0)), "1970-01-01T00:00:00+00:00,0,0,0,0,0\n");
}

#[test]
fn counts_line_writes_the_instant_then_the_counts() {
    let b = Bucket { success: 3, four_xx: 1, five_xx: 0, error: 2, p99_ms: 40 };
    assert_eq!(counts_line_text("2300-01-01T00:00:00+00:00", &b), "2300-01-01T00:00:00+00:00,3,1,0,2,40\n");
}
