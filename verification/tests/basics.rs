use correlation_core::backend::{BackendError, RetryAction, RetryPolicy};
use correlation_core::config::{config_hash_label, CorrelationConfig};
use chrono::{DateTime, Utc};
use correlation_core::time::{Clock, TestClock, UtcInstant, WallClock, EARLIEST_NANOS, EARLIEST_SECS, LATEST_NANOS, LATEST_SECS};
use correlation_core::version::major_compatible;

#[test]
fn schema_major_version_decides_compatibility() {
    assert!(major_compatible("1.0.0"));
    assert!(major_compatible("1.7.3"));
    assert!(!major_compatible("2.0.0"));
    assert!(!major_compatible("10.0.0"));
}

#[test]
fn retry_pauses_between_attempts() {
    let p = RetryPolicy::default();
    assert_eq!(p.attempts, 3);
    assert_eq!(p.pause_after(0), Some(100));
    assert_eq!(p.pause_after(1), Some(400));
    assert_eq!(p.pause_after(2), None);
    let long = RetryPolicy { attempts: 5, backoffs_ms: vec![1] };
    assert_eq!(long.pause_after(3), Some(1000));
}

#[test]
fn config_defaults_and_label() {
    let c = CorrelationConfig::default();
    assert_eq!(c.window_expansion_sec, 30);
    assert_eq!(c.log_bucket_sec, 10);
    assert_eq!(f64::from_bits(c.anomaly_zscore_k), 3.0);
    assert_eq!(f64::from_bits(c.causal_propagation_beta), 0.5);
    assert_eq!(c.slow_span_self_ms, 200);
    assert_eq!(config_hash_label(0xab), "sha256:00000000000000ab");
    assert_eq!(config_hash_label(u64::MAX), "sha256:ffffffffffffffff");
}

#[test]
fn clocks() {
    assert_eq!(TestClock { now: UtcInstant::from_unix_nanos(42) }.now().nanos(), 42);
    assert!(WallClock.now().nanos() > 1_700_000_000_000_000_000);
    assert!(WallClock.now().nanos() >= 0);
}

#[test]
fn instants_cover_the_calendar_of_chrono() {
    assert_eq!(DateTime::<Utc>::MIN_UTC.timestamp(), EARLIEST_SECS);
    assert_eq!(DateTime::<Utc>::MAX_UTC.timestamp(), LATEST_SECS);
    assert_eq!(EARLIEST_NANOS, EARLIEST_SECS as i128 * 1_000_000_000);
    assert_eq!(LATEST_NANOS, LATEST_SECS as i128 * 1_000_000_000 + 999_999_999);
    assert!(UtcInstant::from_nanos(LATEST_NANOS).is_some());
    assert!(UtcInstant::from_nanos(LATEST_NANOS + 1).is_none());
    assert!(UtcInstant::from_nanos(EARLIEST_NANOS).is_some());
    assert!(UtcInstant::from_nanos(EARLIEST_NANOS - 1).is_none());
    assert_eq!(UtcInstant::from_nanos(LATEST_NANOS).unwrap().text(), DateTime::<Utc>::MAX_UTC.to_string());
    assert_eq!(UtcInstant::from_nanos(EARLIEST_NANOS).unwrap().text(), DateTime::<Utc>::MIN_UTC.to_string());
    assert_eq!(UtcInstant::from_unix_nanos(-1).parts(), (-1, 999_999_999));
    assert_eq!(UtcInstant::from_parts(5, 7).unwrap().nanos(), 5_000_000_007);
    assert!(UtcInstant::from_parts(5, 1_000_000_000).is_none());
    assert!(UtcInstant::from_parts(LATEST_SECS + 1, 0).is_none());
}

#[test]
fn instants_past_2262_are_written_as_chrono_writes_them() {
    // 2300-01-01 00:00:00 UTC, beyond the nanosecond range of an i64
    let t = UtcInstant::from_parts(10_413_792_000, 0).unwrap();
    assert_eq!(t.text(), "2300-01-01 00:00:00 UTC");
    assert_eq!(t.rfc3339(), "2300-01-01T00:00:00+00:00");
    assert_eq!(t.nanos(), 10_413_792_000_000_000_000);
}

#[test]
fn retry_steps_follow_the_policy() {
    let p = RetryPolicy::default();
    assert_eq!(p.next_action(0, true), RetryAction::Finish);
    assert_eq!(p.next_action(0, false), RetryAction::RetryAfter(100));
    assert_eq!(p.next_action(1, false), RetryAction::RetryAfter(400));
    assert_eq!(p.next_action(2, false), RetryAction::GiveUp);
    assert_eq!(p.next_action(2, true), RetryAction::Finish);
}

#[test]
fn a_retention_miss_names_its_instant() {
    let far = UtcInstant::from_parts(10_413_792_000, 0).unwrap();
    assert_eq!(BackendError::RetentionMiss(far).describe(), "retention miss before 2300-01-01 00:00:00 UTC");
}
