//! The load generator's decisions: what a stage's endpoint names, how
//! often it fires, how each response is counted, and the line of counts it
//! writes each second.
use vstd::prelude::*;
use crate::text::{append_str, chars_of, dec, from_chars, owned, push_u64};
use crate::time::{UtcInstant, instant_rfc3339};

verus! {

/// The position of the first space in `s`.
pub open spec fn first_space(s: Seq<char>) -> Option<int> {
    if exists|i: int| 0 <= i < s.len() && s[i] == ' ' {
        Some(choose|i: int| 0 <= i < s.len() && s[i] == ' ' && forall|j: int| 0 <= j < i ==> s[j] != ' ')
    } else {
        None
    }
}

/// The method and URL an endpoint names: `METHOD URL`, split at the first
/// space; an endpoint without a space is a URL to `GET`.
pub open spec fn endpoint_spec(s: Seq<char>) -> (Seq<char>, Seq<char>) {
    match first_space(s) {
        Some(i) => (s.take(i), s.skip(i + 1)),
        None => ("GET"@, s),
    }
}

/// The method and URL an endpoint names: `METHOD URL`, split at the first
/// space; an endpoint without a space is a URL to `GET`.
pub fn parse_endpoint(s: &str) -> (r: (String, String))
    ensures
        (r.0@, r.1@) == endpoint_spec(s@),
{
    let cs = chars_of(s);
    let mut i: usize = 0;
    while i < cs.len() && cs[i] != ' '
        invariant
            cs@ == s@,
            i <= cs@.len(),
            forall|j: int| 0 <= j < i ==> cs@[j] != ' ',
        decreases cs@.len() - i,
    {
        i = i + 1;
    }
    if i < cs.len() {
        proof {
            let k = choose|k: int| 0 <= k < s@.len() && s@[k] == ' ' && forall|j: int| 0 <= j < k ==> s@[j] != ' ';
            assert(0 <= i < s@.len() && s@[i as int] == ' ' && forall|j: int| 0 <= j < i ==> s@[j] != ' ');
            if k < i {
            } else if k > i {
                assert(s@[i as int] != ' ');
            }
            assert(first_space(s@) == Some(i as int));
        }
        let method = from_chars(vstd::slice::slice_subrange(cs.as_slice(), 0, i));
        let url = from_chars(vstd::slice::slice_subrange(cs.as_slice(), i + 1, cs.len()));
        proof {
            assert(cs@.subrange(0, i as int) =~= s@.take(i as int));
            assert(cs@.subrange(i + 1, cs@.len() as int) =~= s@.skip(i + 1));
        }
        (method, url)
    } else {
        proof {
            reveal_strlit("GET");
            assert(first_space(s@) is None);
        }
        (owned("GET"), owned(s))
    }
}

/// The pause between two requests of a stage, in microseconds: a second
/// spread over the requests per second (at least one).
pub fn request_interval_micros(rps: u32) -> (r: u64)
    ensures
        r == 1_000_000int / (if rps == 0 { 1int } else { rps as int }),
{
    let n: u64 = if rps == 0 { 1 } else { rps as u64 };
    1_000_000 / n
}

/// How a request ended.
#[derive(PartialEq, Eq, Structural, Clone, Copy, Debug)]
pub enum Outcome {
    /// A 2xx answer.
    Success,
    /// Any other answer below 500.
    FourXx,
    /// An answer of 500 or above.
    FiveXx,
    /// No answer.
    Error,
}

/// How a request ended, from its status code (`None` when no answer came).
pub fn classify_response(status: Option<u16>) -> (o: Outcome)
    ensures
        o == match status {
            Some(c) => if 200 <= c <= 299 {
                Outcome::Success
            } else if c < 500 {
                Outcome::FourXx
            } else {
                Outcome::FiveXx
            },
            None => Outcome::Error,
        },
{
    match status {
        Some(c) => if 200 <= c && c <= 299 {
            Outcome::Success
        } else if c < 500 {
            Outcome::FourXx
        } else {
            Outcome::FiveXx
        },
        None => Outcome::Error,
    }
}

/// The counts of one second of load.
pub struct Bucket {
    pub success: u64,
    pub four_xx: u64,
    pub five_xx: u64,
    pub error: u64,
    pub p99_ms: u64,
}

impl Default for Bucket {
    /// All counts zero.
    fn default() -> (b: Bucket)
        ensures
            b.success == 0 && b.four_xx == 0 && b.five_xx == 0 && b.error == 0 && b.p99_ms == 0,
    {
        Bucket { success: 0, four_xx: 0, five_xx: 0, error: 0, p99_ms: 0 }
    }
}

/// The running counts of a load run.
pub struct Stats {
    pub current: Bucket,
}

impl Default for Stats {
    /// All counts zero.
    fn default() -> (s: Stats)
        ensures
            s.current.success == 0 && s.current.four_xx == 0 && s.current.five_xx == 0 && s.current.error == 0
                && s.current.p99_ms == 0,
    {
        Stats { current: Bucket::default() }
    }
}

/// A count after one more, wrapping around past the largest `u64` as an
/// atomic counter does.
pub open spec fn bumped(n: u64) -> u64 {
    if n == u64::MAX { 0 } else { (n + 1) as u64 }
}

/// The line of counts of a second with its instant written as `ts`: the
/// instant, then the successes, 4xx, 5xx, errors and p99 latency,
/// comma-separated.
pub open spec fn counts_line(ts: Seq<char>, b: Bucket) -> Seq<char> {
    ts + ","@ + dec(b.success as nat) + ","@ + dec(b.four_xx as nat) + ","@ + dec(b.five_xx as nat) + ","@ + dec(
        b.error as nat,
    ) + ","@ + dec(b.p99_ms as nat) + "\n"@
}

/// The line of counts of a second: the instant in RFC 3339 form, then the
/// counts.
pub open spec fn snapshot_spec(ts: UtcInstant, b: Bucket) -> Seq<char> {
    counts_line(instant_rfc3339(ts@), b)
}

/// The line of counts `b` with its instant written as `ts`.
pub fn counts_line_text(ts: &str, b: &Bucket) -> (r: String)
    ensures
        r@ == counts_line(ts@, *b),
{
    let mut r = owned(ts);
    append_str(&mut r, ",");
    push_u64(&mut r, b.success);
    append_str(&mut r, ",");
    push_u64(&mut r, b.four_xx);
    append_str(&mut r, ",");
    push_u64(&mut r, b.five_xx);
    append_str(&mut r, ",");
    push_u64(&mut r, b.error);
    append_str(&mut r, ",");
    push_u64(&mut r, b.p99_ms);
    append_str(&mut r, "\n");
    r
}

impl Stats {
    /// Counts one request by how it ended.
    pub fn record(&mut self, o: Outcome)
        ensures
            final(self).current.success == (if o == Outcome::Success {
                bumped(old(self).current.success)
            } else {
                old(self).current.success
            }),
            final(self).current.four_xx == (if o == Outcome::FourXx {
                bumped(old(self).current.four_xx)
            } else {
                old(self).current.four_xx
            }),
            final(self).current.five_xx == (if o == Outcome::FiveXx {
                bumped(old(self).current.five_xx)
            } else {
                old(self).current.five_xx
            }),
            final(self).current.error == (if o == Outcome::Error {
                bumped(old(self).current.error)
            } else {
                old(self).current.error
            }),
            final(self).current.p99_ms == old(self).current.p99_ms,
    {
        match o {
            Outcome::Success => {
                self.current.success = if self.current.success == u64::MAX { 0 } else { self.current.success + 1 };
            },
            Outcome::FourXx => {
                self.current.four_xx = if self.current.four_xx == u64::MAX { 0 } else { self.current.four_xx + 1 };
            },
            Outcome::FiveXx => {
                self.current.five_xx = if self.current.five_xx == u64::MAX { 0 } else { self.current.five_xx + 1 };
            },
            Outcome::Error => {
                self.current.error = if self.current.error == u64::MAX { 0 } else { self.current.error + 1 };
            },
        }
    }

    /// The line of counts at instant `ts`; the counts start again from zero.
    pub fn snapshot_line(&mut self, ts: UtcInstant) -> (r: String)
        ensures
            r@ == snapshot_spec(ts, old(self).current),
            final(self).current.success == 0,
            final(self).current.four_xx == 0,
            final(self).current.five_xx == 0,
            final(self).current.error == 0,
            final(self).current.p99_ms == 0,
    {
        let r = counts_line_text(ts.rfc3339().as_str(), &self.current);
        self.current = Bucket::default();
        r
    }
}

} // verus!
