//! Instants of the calendar, where the engine gets the current time from,
//! and how it writes instants.
use vstd::prelude::*;
use vstd::arithmetic::div_mod::lemma_fundamental_div_mod_converse;
use chrono::{DateTime, Utc};

verus! {

/// Nanoseconds in one second, as a wide integer.
pub const NANOS_PER_SECOND: i128 = 1_000_000_000;

/// The first second of the calendar that instants cover (the start of
/// January 1 of the year -262143, chrono's `DateTime::<Utc>::MIN_UTC`), in
/// seconds since the epoch.
pub const EARLIEST_SECS: i64 = -8_334_601_228_800;

/// The last second of the calendar that instants cover (the last second of
/// December 31 of the year 262142, chrono's `DateTime::<Utc>::MAX_UTC`), in
/// seconds since the epoch.
pub const LATEST_SECS: i64 = 8_210_266_876_799;

/// The first instant of the calendar, in nanoseconds since the epoch.
pub const EARLIEST_NANOS: i128 = -8_334_601_228_800_000_000_000;

/// The last instant of the calendar, in nanoseconds since the epoch.
pub const LATEST_NANOS: i128 = 8_210_266_876_799_999_999_999;

/// Whether `t` nanoseconds after the epoch lies in the calendar.
pub open spec fn in_calendar(t: int) -> bool {
    EARLIEST_NANOS <= t <= LATEST_NANOS
}

/// Whole seconds since the epoch, rounded down.
pub open spec fn secs_of(t: int) -> int {
    t / 1_000_000_000
}

/// The nanoseconds past the whole second.
pub open spec fn subsec_of(t: int) -> int {
    t % 1_000_000_000
}

/// An instant in UTC, to the nanosecond, anywhere in the calendar (the
/// range of chrono's `DateTime<Utc>`). Its view is the number of
/// nanoseconds since the Unix epoch.
#[derive(Clone, Copy, PartialEq, Eq, Structural, Debug)]
pub struct UtcInstant {
    nanos: i128,
}

impl View for UtcInstant {
    type V = int;

    closed spec fn view(&self) -> int {
        self.nanos as int
    }
}

impl UtcInstant {
    #[verifier::type_invariant]
    spec fn lies_in_calendar(self) -> bool {
        in_calendar(self.nanos as int)
    }

    /// The instant `n` nanoseconds after the epoch; every `i64` is one.
    pub fn from_unix_nanos(n: i64) -> (t: UtcInstant)
        ensures
            t@ == n as int,
    {
        UtcInstant { nanos: n as i128 }
    }

    /// The instant `n` nanoseconds after the epoch, where that lies in the
    /// calendar.
    pub fn from_nanos(n: i128) -> (r: Option<UtcInstant>)
        ensures
            r is Some <==> in_calendar(n as int),
            r matches Some(t) ==> t@ == n as int,
    {
        if EARLIEST_NANOS <= n && n <= LATEST_NANOS {
            Some(UtcInstant { nanos: n })
        } else {
            None
        }
    }

    /// The instant `nsecs` nanoseconds past the second `secs` after the
    /// epoch, where the second lies in the calendar and `nsecs` is less than
    /// a second.
    pub fn from_parts(secs: i64, nsecs: u32) -> (r: Option<UtcInstant>)
        ensures
            r is Some <==> (EARLIEST_SECS <= secs <= LATEST_SECS && nsecs < 1_000_000_000),
            r matches Some(t) ==> t@ == secs * 1_000_000_000 + nsecs,
    {
        if EARLIEST_SECS <= secs && secs <= LATEST_SECS && nsecs < 1_000_000_000 {
            let n: i128 = (secs as i128) * NANOS_PER_SECOND + (nsecs as i128);
            Some(UtcInstant { nanos: n })
        } else {
            None
        }
    }

    /// Nanoseconds since the epoch.
    pub fn nanos(&self) -> (r: i128)
        ensures
            r as int == self@,
            in_calendar(r as int),
    {
        proof {
            use_type_invariant(self);
        }
        self.nanos
    }

    /// Whole seconds since the epoch (rounded down) and the nanoseconds past
    /// them, as chrono's `timestamp` and `timestamp_subsec_nanos` give them.
    pub fn parts(&self) -> (r: (i64, u32))
        ensures
            r.0 as int == secs_of(self@),
            r.1 as int == subsec_of(self@),
            EARLIEST_SECS <= r.0 <= LATEST_SECS,
            r.1 < 1_000_000_000,
    {
        proof {
            use_type_invariant(self);
        }
        let shifted: i128 = self.nanos - EARLIEST_NANOS;
        let q: i128 = shifted / NANOS_PER_SECOND;
        let m: i128 = shifted % NANOS_PER_SECOND;
        proof {
            let t = self.nanos as int;
            let e = EARLIEST_SECS as int;
            let span = (LATEST_SECS - EARLIEST_SECS) as int;
            assert(shifted == q * 1_000_000_000 + m);
            assert(0 <= m < 1_000_000_000);
            assert(t == (q + e) * 1_000_000_000 + m) by (nonlinear_arith)
                requires
                    t == shifted + e * 1_000_000_000,
                    shifted == q * 1_000_000_000 + m,
            ;
            lemma_fundamental_div_mod_converse(t, 1_000_000_000, q + e, m as int);
            assert(0 <= q <= span) by (nonlinear_arith)
                requires
                    shifted == q * 1_000_000_000 + m,
                    0 <= m < 1_000_000_000,
                    0 <= shifted <= span * 1_000_000_000 + 999_999_999,
            ;
        }
        ((q + (EARLIEST_SECS as i128)) as i64, m as u32)
    }

    /// The instant as chrono's `Display` for `DateTime<Utc>` writes it.
    pub fn text(&self) -> (r: String)
        ensures
            r@ == instant_display(self@),
    {
        let (secs, nsecs) = self.parts();
        utc_text(secs, nsecs)
    }

    /// The instant as chrono's `DateTime::to_rfc3339` writes it.
    pub fn rfc3339(&self) -> (r: String)
        ensures
            r@ == instant_rfc3339(self@),
    {
        let (secs, nsecs) = self.parts();
        rfc3339_text(secs, nsecs)
    }
}

/// The instant `nsecs` nanoseconds past the second `secs`, written as
/// chrono's `Display` for `DateTime<Utc>` writes it (`2024-05-23 12:00:00
/// UTC`, with a fraction of a second when there is one).
pub uninterp spec fn utc_display(secs: i64, nsecs: u32) -> Seq<char>;

/// The instant `nsecs` nanoseconds past the second `secs`, written in RFC
/// 3339 form, as chrono's `to_rfc3339` writes it.
pub uninterp spec fn utc_rfc3339(secs: i64, nsecs: u32) -> Seq<char>;

/// The instant `t` nanoseconds after the epoch as chrono's `Display` writes
/// it.
pub open spec fn instant_display(t: int) -> Seq<char> {
    utc_display(secs_of(t) as i64, subsec_of(t) as u32)
}

/// The instant `t` nanoseconds after the epoch in RFC 3339 form.
pub open spec fn instant_rfc3339(t: int) -> Seq<char> {
    utc_rfc3339(secs_of(t) as i64, subsec_of(t) as u32)
}

/// The instant `nsecs` nanoseconds past the second `secs` as chrono's
/// `Display` for `DateTime<Utc>` writes it (`DateTime::from_timestamp`,
/// which gives an instant for every second of the calendar and every
/// `nsecs` below a second, then `to_string`). The contract names the text;
/// it does not spell it out.
#[verifier::external_body]
fn utc_text(secs: i64, nsecs: u32) -> (r: String)
    requires
        EARLIEST_SECS <= secs <= LATEST_SECS,
        nsecs < 1_000_000_000,
    ensures
        r@ == utc_display(secs, nsecs),
{
    DateTime::from_timestamp(secs, nsecs).expect("an instant of the calendar").to_string()
}

/// The instant `nsecs` nanoseconds past the second `secs` as chrono's
/// `DateTime::to_rfc3339` writes it. The contract names the text; it does
/// not spell it out.
#[verifier::external_body]
fn rfc3339_text(secs: i64, nsecs: u32) -> (r: String)
    requires
        EARLIEST_SECS <= secs <= LATEST_SECS,
        nsecs < 1_000_000_000,
    ensures
        r@ == utc_rfc3339(secs, nsecs),
{
    DateTime::from_timestamp(secs, nsecs).expect("an instant of the calendar").to_rfc3339()
}

/// The current time as chrono's `Utc::now` gives it: whole seconds since
/// the epoch and the nanoseconds past them. `Utc::now` measures the time
/// since the epoch and builds a `DateTime` from it (it stops the program on
/// a clock before 1970 or past the calendar), so the seconds are never
/// negative and lie in the calendar, and the nanoseconds, those of a
/// `Duration`, are below a second. Which instant it is, is the wall clock
/// and left unsaid.
#[verifier::external_body]
fn utc_now_reading() -> (r: (i64, u32))
    ensures
        0 <= r.0 <= LATEST_SECS,
        r.1 < 1_000_000_000,
{
    let now = Utc::now();
    (now.timestamp(), now.timestamp_subsec_nanos())
}

/// A source of the current time.
pub trait Clock {
    /// The current time.
    fn now(&self) -> UtcInstant;
}

/// The wall clock.
pub struct WallClock;

impl Clock for WallClock {
    /// The current time, never before the epoch.
    fn now(&self) -> (r: UtcInstant)
        ensures
            r@ >= 0,
    {
        let (secs, nsecs) = utc_now_reading();
        UtcInstant::from_parts(secs, nsecs).unwrap()
    }
}

/// A clock that always shows one instant.
pub struct TestClock {
    pub now: UtcInstant,
}

impl Clock for TestClock {
    fn now(&self) -> (r: UtcInstant)
        ensures
            r == self.now,
    {
        self.now
    }
}

} // verus!
