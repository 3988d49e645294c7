//! Tuning parameters of the correlation engine.
use vstd::prelude::*;
use crate::backend::F64Bits;
use crate::text::push_char;

verus! {

/// Parameters of the correlation. The real-valued ones are kept as the bit
/// patterns of their binary64 values.
pub struct CorrelationConfig {
    /// Seconds added on both sides of the span interval of a trace.
    pub window_expansion_sec: i64,
    /// Width, in seconds, of the time buckets that group log lines.
    pub log_bucket_sec: i64,
    pub anomaly_zscore_k: F64Bits,
    pub anomaly_ewma_alpha: F64Bits,
    /// Factor by which blame shrinks at each step it propagates.
    pub causal_propagation_beta: F64Bits,
    /// How many `CausedBy` steps blame propagates.
    pub causal_propagation_max_depth: u8,
    pub min_baseline_sec: i64,
    /// Self-time, in milliseconds, above which a successful span counts as
    /// evidence that its service is slow.
    pub slow_span_self_ms: i64,
}

impl Default for CorrelationConfig {
    /// A 30 s window expansion, 10 s log buckets, k = 3.0, alpha = 0.3,
    /// beta = 0.5 over at most 3 steps, a 60 s baseline and a 200 ms
    /// slow-span threshold.
    fn default() -> (c: CorrelationConfig)
        ensures
            c.window_expansion_sec == 30,
            c.log_bucket_sec == 10,
            c.anomaly_zscore_k == 0x4008000000000000u64,
            c.anomaly_ewma_alpha == 0x3FD3333333333333u64,
            c.causal_propagation_beta == 0x3FE0000000000000u64,
            c.causal_propagation_max_depth == 3,
            c.min_baseline_sec == 60,
            c.slow_span_self_ms == 200,
    {
        CorrelationConfig {
            window_expansion_sec: 30,
            log_bucket_sec: 10,
            anomaly_zscore_k: 0x4008000000000000u64,
            anomaly_ewma_alpha: 0x3FD3333333333333u64,
            causal_propagation_beta: 0x3FE0000000000000u64,
            causal_propagation_max_depth: 3,
            min_baseline_sec: 60,
            slow_span_self_ms: 200,
        }
    }
}

/// The lower-case hexadecimal digit for `d < 16`.
pub open spec fn hex_digit(d: nat) -> char {
    if d < 10 {
        crate::text::digit_char(d)
    } else if d == 10 { 'a' }
    else if d == 11 { 'b' }
    else if d == 12 { 'c' }
    else if d == 13 { 'd' }
    else if d == 14 { 'e' }
    else { 'f' }
}

/// The 16 lower-case hexadecimal digits of `h`, most significant first
/// (what `{:016x}` prints for a `u64`).
pub open spec fn hex16(h: nat) -> Seq<char>
    decreases 16nat,
{
    Seq::new(16, |i: int| hex_digit(((h / pow16((15 - i) as nat)) % 16) as nat))
}

/// `16^e`.
pub open spec fn pow16(e: nat) -> nat
    decreases e,
{
    if e == 0 { 1 } else { 16 * pow16((e - 1) as nat) }
}

/// The label under which a configuration is recorded: `sha256:` followed by
/// the 16 hexadecimal digits of the hash of its serialized form.
pub open spec fn config_label(h: u64) -> Seq<char> {
    "sha256:"@ + hex16(h as nat)
}

fn hex_char(d: u64) -> (c: char)
    requires
        d < 16,
    ensures
        c == hex_digit(d as nat),
{
    if d < 10 {
        if d == 0 { '0' } else if d == 1 { '1' } else if d == 2 { '2' } else if d == 3 { '3' }
        else if d == 4 { '4' } else if d == 5 { '5' } else if d == 6 { '6' } else if d == 7 { '7' }
        else if d == 8 { '8' } else { '9' }
    } else if d == 10 { 'a' } else if d == 11 { 'b' } else if d == 12 { 'c' } else if d == 13 { 'd' }
    else if d == 14 { 'e' } else { 'f' }
}

proof fn lemma_pow16_positive(e: nat)
    ensures
        pow16(e) >= 1,
    decreases e,
{
    if e > 0 {
        lemma_pow16_positive((e - 1) as nat);
    }
}

/// The label of a configuration whose serialized form hashes to `h`.
pub fn config_hash_label(h: u64) -> (r: String)
    ensures
        r@ == config_label(h),
{
    let mut r = crate::text::owned("sha256:");
    let ghost prefix = r@;
    let mut i: usize = 0;
    let mut div: u64 = 0x1000000000000000u64;
    proof {
        reveal_with_fuel(pow16, 16);
        assert(pow16(15) == 0x1000000000000000u64);
    }
    while i < 16
        invariant
            i <= 16,
            prefix == "sha256:"@,
            r@ == prefix + hex16(h as nat).take(i as int),
            i < 16 ==> div as nat == pow16((15 - i) as nat),
        decreases 16 - i,
    {
        proof {
            lemma_pow16_positive((15 - i) as nat);
        }
        let d = (h / div) % 16;
        push_char(&mut r, hex_char(d));
        proof {
            assert(hex16(h as nat)[i as int] == hex_digit(((h as nat / pow16((15 - i) as nat)) % 16) as nat));
            assert(hex16(h as nat).take(i + 1) =~= hex16(h as nat).take(i as int).push(hex_digit(d as nat)));
            assert(r@ =~= prefix + hex16(h as nat).take(i + 1));
            if i < 15 {
                assert(pow16((15 - i) as nat) == 16 * pow16((15 - i - 1) as nat));
            }
        }
        div = div / 16;
        i = i + 1;
    }
    assert(hex16(h as nat).take(16) =~= hex16(h as nat));
    r
}

} // verus!
