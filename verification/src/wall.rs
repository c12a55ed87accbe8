//! Wall-clock time, for what is shown and never for what is removed.

use crate::time::Duration;
use vstd::prelude::*;

verus! {

/// The first second of the calendar.
pub const MIN_SECS: i64 = -8_334_601_228_800;

/// The last second of the calendar.
pub const MAX_SECS: i64 = 8_210_266_876_799;

/// Seconds since 1970-01-01T00:00:00Z in the calendar's range, and the
/// nanoseconds on top of them; a second or more of those only in a leap second,
/// which comes after the last second of a minute.
pub open spec fn calendar_time(secs: i64, nanos: u32) -> bool {
    &&& MIN_SECS <= secs <= MAX_SECS
    &&& nanos < 2_000_000_000
    &&& nanos >= 1_000_000_000 ==> secs as int % 60 == 59
}

/// A point in time on the calendar.
#[derive(Clone, Copy, Debug, PartialEq, Eq, Structural)]
pub struct WallTime {
    secs: i64,
    nanos: u32,
}

/// The nanoseconds from `then` to `now`. Days count 86400 seconds; a leap second
/// counts where the later time of day lies behind the one it belongs to.
pub open spec fn nanos_between(now: (i64, u32), then: (i64, u32)) -> int {
    let day_now = now.0 as int % 86400;
    let day_then = then.0 as int % 86400;
    let leap: int = if day_now > day_then && then.1 >= 1_000_000_000 {
        1
    } else if day_now < day_then && now.1 >= 1_000_000_000 {
        -1
    } else {
        0
    };
    (now.0 - then.0 + leap) * 1_000_000_000 + now.1 - then.1
}

/// What `chrono::DateTime::parse_from_rfc3339` reads in a text: the seconds and
/// nanoseconds of the point in time, if the text is a valid one.
pub uninterp spec fn rfc3339(s: Seq<char>) -> Option<(i64, u32)>;

/// `chrono::DateTime::parse_from_rfc3339`: the point in time that a text in
/// RFC 3339 form denotes, as seconds and nanoseconds since 1970 in UTC. The result
/// is named by `rfc3339`; its year has four digits, so it is on the calendar.
#[verifier::external_body]
fn read_rfc3339(s: &str) -> (r: Option<(i64, u32)>)
    ensures
        r == rfc3339(s@),
        r matches Some(t) ==> calendar_time(t.0, t.1),
{
    let t = chrono::DateTime::parse_from_rfc3339(s).ok()?;
    Some((t.timestamp(), t.timestamp_subsec_nanos()))
}

/// `chrono::DateTime::signed_duration_since`: the time from `then` to `now` in
/// nanoseconds, nothing if `then` is the later one.
#[verifier::external_body]
fn positive_difference(now: (i64, u32), then: (i64, u32)) -> (r: Option<u128>)
    requires
        calendar_time(now.0, now.1),
        calendar_time(then.0, then.1),
    ensures
        match r {
            Some(n) => n == nanos_between(now, then),
            None => nanos_between(now, then) < 0,
        },
{
    let a = chrono::DateTime::from_timestamp(now.0, now.1)?;
    let b = chrono::DateTime::from_timestamp(then.0, then.1)?;
    Some(a.signed_duration_since(b).to_std().ok()?.as_nanos())
}

impl WallTime {
    #[verifier::type_invariant]
    spec fn valid(self) -> bool {
        calendar_time(self.secs, self.nanos)
    }

    /// Seconds and nanoseconds since 1970.
    pub closed spec fn reading(self) -> (i64, u32) {
        (self.secs, self.nanos)
    }

    /// A point in time, if it is on the calendar.
    pub fn new(secs: i64, nanos: u32) -> (r: Option<WallTime>)
        ensures
            r is Some <==> calendar_time(secs, nanos),
            r matches Some(t) ==> t.reading() == (secs, nanos),
    {
        if secs < MIN_SECS || secs > MAX_SECS || nanos >= 2_000_000_000 {
            return None;
        }
        // Shifted so that the remainder is taken of a number that is not negative.
        let in_minute: i64 = (secs + 8_334_601_228_800) % 60;
        assert(in_minute == secs as int % 60) by {
            assert(8_334_601_228_800 == 60 * 138_910_020_480);
        }
        if nanos >= 1_000_000_000 && in_minute != 59 {
            return None;
        }
        Some(WallTime { secs, nanos })
    }

    /// The age of a time stamp: the time from the stamp until now; nothing if the
    /// stamp is unreadable or lies ahead.
    pub open spec fn age_spec(self, stamp: Seq<char>) -> Option<Duration> {
        stamp_age(self.reading(), rfc3339(stamp))
    }

    /// The age of a time stamp.
    pub fn age(&self, stamp: &str) -> (r: Option<Duration>)
        ensures
            r == self.age_spec(stamp@),
    {
        proof {
            use_type_invariant(self);
        }
        match read_rfc3339(stamp) {
            Some((secs, nanos)) => age_since(self, secs, nanos),
            None => None,
        }
    }
}

/// The age at `now` of a stamp that was read as `then`.
pub open spec fn stamp_age(now: (i64, u32), then: Option<(i64, u32)>) -> Option<Duration> {
    match then {
        Some(t) => if nanos_between(now, t) >= 0 {
            Some(Duration { nanos: nanos_between(now, t) as u128 })
        } else {
            None
        },
        None => None,
    }
}

/// The age at `now` of a point in time; nothing if it lies ahead.
pub fn age_since(now: &WallTime, secs: i64, nanos: u32) -> (r: Option<Duration>)
    requires
        calendar_time(secs, nanos),
    ensures
        r == stamp_age(now.reading(), Some((secs, nanos))),
{
    proof {
        use_type_invariant(now);
    }
    match positive_difference((now.secs, now.nanos), (secs, nanos)) {
        Some(n) => Some(Duration { nanos: n }),
        None => None,
    }
}

/// Off leap seconds the time between two points is the difference of their readings, and
/// a stamp has an age exactly when it does not lie ahead.
pub proof fn law_how_old_a_stamp_is(now: (i64, u32), then: (i64, u32))
    requires
        now.1 < 1_000_000_000,
        then.1 < 1_000_000_000,
    ensures
        ({
            let d = (now.0 * 1_000_000_000 + now.1) - (then.0 * 1_000_000_000 + then.1);
            &&& stamp_age(now, Some(then)) is Some <==> d >= 0
            &&& stamp_age(now, Some(then)) matches Some(age) ==> age.nanos == d
            &&& stamp_age(now, None) is None
        }),
{
}

/// Which readings are on the calendar.
pub proof fn law_which_readings_are_times(secs: i64, nanos: u32)
    ensures
        nanos < 1_000_000_000 ==> (calendar_time(secs, nanos) <==> -8_334_601_228_800 <= secs
            <= 8_210_266_876_799),
        calendar_time(secs, nanos) && nanos >= 1_000_000_000 ==> secs as int % 60 == 59 && nanos
            < 2_000_000_000,
{
}

} // verus!
