use vstd::prelude::*;

verus! {

/// A point in time in UTC: whole seconds since the Unix epoch and the nanoseconds
/// past that second (up to 1_999_999_999 during a leap second).
#[derive(Clone, Copy, Debug, PartialEq, Eq, Structural, PartialOrd, Ord, Hash)]
pub struct Timestamp {
    pub secs: i64,
    pub nanos: u32,
}

/// Nanoseconds per minute.
pub const NANOS_PER_MINUTE: i128 = 60_000_000_000;

/// `d / m` rounded toward zero, for a positive `m`.
pub open spec fn div_toward_zero(d: int, m: int) -> int {
    if d >= 0 {
        d / m
    } else {
        -((-d) / m)
    }
}

impl Timestamp {
    /// Strictly earlier, in the order of (seconds, nanoseconds).
    pub open spec fn spec_before(self, other: Timestamp) -> bool {
        self.secs < other.secs || (self.secs == other.secs && self.nanos < other.nanos)
    }

    /// Not later: earlier or the same instant.
    pub open spec fn spec_not_after(self, other: Timestamp) -> bool {
        !other.spec_before(self)
    }

    pub fn before(&self, other: &Timestamp) -> (r: bool)
        ensures
            r == self.spec_before(*other),
    {
        self.secs < other.secs || (self.secs == other.secs && self.nanos < other.nanos)
    }

    /// Whole minutes from `now` until this instant, rounded toward zero (negative when
    /// the instant has passed), as chrono's `TimeDelta::num_minutes` gives them for the
    /// difference of the two `DateTime<Utc>`.
    pub fn minutes_since(&self, now: Timestamp) -> (r: i64)
        ensures
            r as int == div_toward_zero(delta_nanos(*self, now), NANOS_PER_MINUTE as int),
    {
        let a = second_of_day(self.secs);
        let b = second_of_day(now.secs);
        let adj: i128 = if a > b && now.nanos >= 1_000_000_000 {
            1
        } else if a < b && self.nanos >= 1_000_000_000 {
            -1
        } else {
            0
        };
        let d: i128 = (self.secs as i128 - now.secs as i128 + adj) * 1_000_000_000i128
            + (self.nanos as i128 - now.nanos as i128);
        assert(-40_000_000_000_000_000_000_000_000_000 <= d <= 40_000_000_000_000_000_000_000_000_000)
            by (nonlinear_arith)
            requires
                d == (self.secs as int - now.secs as int + adj) * 1_000_000_000 + (self.nanos as int - now.nanos as int),
                -20_000_000_000_000_000_000 <= self.secs as int - now.secs as int + adj <= 20_000_000_000_000_000_000,
                -5_000_000_000 <= self.nanos as int - now.nanos as int <= 5_000_000_000,
        ;
        let e: i128 = if d >= 0 {
            d
        } else {
            -d
        };
        let q: i128 = e / NANOS_PER_MINUTE;
        assert(0 <= q <= 1_000_000_000_000_000_000) by (nonlinear_arith)
            requires
                0 <= e <= 40_000_000_000_000_000_000_000_000_000,
                q == e / 60_000_000_000,
        ;
        if d >= 0 {
            q as i64
        } else {
            -(q as i64)
        }
    }
}

/// Seconds of a day in a count of seconds since the epoch.
pub open spec fn spec_second_of_day(secs: int) -> int {
    secs % 86_400
}

/// Days added to a count of seconds to make it non-negative.
const DAY_SHIFT: i128 = 140_737_488_355_328;

fn second_of_day(secs: i64) -> (r: i128)
    ensures
        r as int == spec_second_of_day(secs as int),
{
    let shifted: i128 = secs as i128 + DAY_SHIFT * 86_400;
    proof {
        vstd::arithmetic::div_mod::lemma_mod_multiples_vanish(DAY_SHIFT as int, secs as int, 86_400);
        assert(86_400 * DAY_SHIFT as int + secs as int == shifted as int);
    }
    shifted % 86_400
}

/// The length in nanoseconds of the `TimeDelta` that chrono gives for `to - from`. A
/// leap second (nanoseconds of 1_000_000_000 or more) counts where the other instant
/// lies on a later second of the day than it.
pub open spec fn delta_nanos(to: Timestamp, from: Timestamp) -> int {
    let a = spec_second_of_day(to.secs as int);
    let b = spec_second_of_day(from.secs as int);
    let adj = if a > b && from.nanos >= 1_000_000_000 {
        1int
    } else if a < b && to.nanos >= 1_000_000_000 {
        -1int
    } else {
        0int
    };
    (to.secs - from.secs + adj) * 1_000_000_000 + (to.nanos - from.nanos)
}

/// The instant that chrono reads from a text (a `DateTime<Utc>` parsed from it), if it reads one.
pub uninterp spec fn parsed_utc(s: Seq<char>) -> Option<Timestamp>;

/// Relies on chrono's `FromStr` for `DateTime<Utc>` (a relaxed RFC 3339 date and time with
/// any offset, taken to UTC), read back through `DateTime::timestamp` and
/// `DateTime::timestamp_subsec_nanos`. Parsing depends on the text alone.
#[verifier::external_body]
pub(crate) fn parse_utc(s: &str) -> (r: Option<Timestamp>)
    ensures
        r == parsed_utc(s@),
{
    match s.parse::<chrono::DateTime<chrono::Utc>>() {
        Ok(t) => Some(Timestamp { secs: t.timestamp(), nanos: t.timestamp_subsec_nanos() }),
        Err(_) => None,
    }
}

/// Relies on chrono's `Utc::now`: the system clock, of which nothing is known.
#[verifier::external_body]
pub(crate) fn now() -> (r: Timestamp) {
    let t = chrono::Utc::now();
    Timestamp { secs: t.timestamp(), nanos: t.timestamp_subsec_nanos() }
}

} // verus!
