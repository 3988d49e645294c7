//! Failures a bank service injects into itself on request, configured
//! through its environment.
use vstd::prelude::*;
use crate::backend::F64Bits;
use crate::text::{append_str, concat, parse_u64, parse_u64_spec};

verus! {

/// The failures a service injects.
pub struct FailureModes {
    /// A delay added to every request, in milliseconds.
    pub latency_ms_env: Option<u64>,
    /// The share of requests that fail, as a binary64 bit pattern.
    pub error_rate_env: Option<F64Bits>,
    /// How many first requests are slow, as after a cold start.
    pub cold_start_first_n: Option<u64>,
}

/// The environment variable that configures failure `key` of the service
/// whose variables start with `prefix`.
pub open spec fn inject_var_spec(prefix: Seq<char>, key: Seq<char>) -> Seq<char> {
    prefix + "_INJECT_"@ + key
}

/// The environment variable that configures failure `key` of the service
/// whose variables start with `prefix`: `{prefix}_INJECT_{key}`.
pub fn inject_var(prefix: &str, key: &str) -> (r: String)
    ensures
        r@ == inject_var_spec(prefix@, key@),
{
    let mut r = concat(prefix, "_INJECT_");
    append_str(&mut r, key);
    r
}

/// A setting read as an unsigned integer; a missing or unreadable one is
/// no setting.
pub open spec fn setting_u64(v: Option<Seq<char>>) -> Option<u64> {
    match v {
        Some(t) => parse_u64_spec(t),
        None => None,
    }
}

fn read_u64(v: Option<&str>) -> (r: Option<u64>)
    ensures
        r == setting_u64(match v {
            Some(t) => Some(t@),
            None => None,
        }),
{
    match v {
        Some(t) => parse_u64(t),
        None => None,
    }
}

impl FailureModes {
    /// The failures that the settings of the `LATENCY_MS` and
    /// `COLD_START_FIRST_N` variables and the error rate ask for; an
    /// unreadable integer setting is no setting.
    pub fn from_settings(latency_ms: Option<&str>, error_rate: Option<F64Bits>, cold_start_first_n: Option<&str>) -> (m:
        FailureModes)
        ensures
            m.latency_ms_env == setting_u64(match latency_ms {
                Some(t) => Some(t@),
                None => None,
            }),
            m.error_rate_env == error_rate,
            m.cold_start_first_n == setting_u64(match cold_start_first_n {
                Some(t) => Some(t@),
                None => None,
            }),
    {
        FailureModes {
            latency_ms_env: read_u64(latency_ms),
            error_rate_env: error_rate,
            cold_start_first_n: read_u64(cold_start_first_n),
        }
    }

    /// The delay added to every request, if any.
    pub fn latency_ms(&self) -> (r: Option<u64>)
        ensures
            r == self.latency_ms_env,
    {
        self.latency_ms_env
    }
}

} // verus!
