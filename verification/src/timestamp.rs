//! Instants on the UTC timeline and the calendar arithmetic on them.

use vstd::prelude::*;

verus! {

/// Nanoseconds in one second.
pub const NANOS_PER_SEC: u32 = 1_000_000_000;

/// Seconds in one day.
pub const SECS_PER_DAY: i64 = 86_400;

/// Seconds in one week.
pub const SECS_PER_WEEK: i64 = 604_800;

/// The first second that calendar arithmetic covers: midnight of 1 January
/// of the year -262143, the first year of chrono's calendar.
pub const MIN_SECS: i64 = -8_334_601_228_800;

/// The last second that calendar arithmetic covers: the last second of
/// 31 December of the year 262142, the last year of chrono's calendar.
pub const MAX_SECS: i64 = 8_210_266_876_799;

/// An instant, as whole seconds since 1970-01-01T00:00:00Z plus a
/// nanosecond part.
///
/// The order on instants is the lexicographic one on `(secs, nanos)`. It is
/// defined on every pair of field values, also where the nanosecond part
/// amounts to a second or more, which is how a leap second is written.
#[derive(Clone, Copy, Debug, PartialEq, Eq, Structural)]
pub struct Timestamp {
    /// Whole seconds since the epoch; negative before it.
    pub secs: i64,
    /// Nanoseconds into the second.
    pub nanos: u32,
}

impl Timestamp {
    /// `self` lies strictly earlier than `other`.
    pub open spec fn precedes(self, other: Timestamp) -> bool {
        self.secs < other.secs || (self.secs == other.secs && self.nanos < other.nanos)
    }

    /// The nanosecond part is a proper fraction of a second.
    pub open spec fn is_normal(self) -> bool {
        self.nanos < NANOS_PER_SEC
    }

    /// The instant is one that calendar arithmetic can start from or
    /// arrive at.
    pub open spec fn representable(self) -> bool {
        self.is_normal() && MIN_SECS <= self.secs <= MAX_SECS
    }

    /// The instant `seconds` earlier, with the same nanosecond part. Meant
    /// for shifts that stay within `i64` seconds.
    pub open spec fn earlier_by(self, seconds: int) -> Timestamp {
        Timestamp { secs: (self.secs - seconds) as i64, nanos: self.nanos }
    }

    /// The instant `seconds` earlier, where both it and `self` are
    /// representable.
    pub open spec fn checked_earlier_by(self, seconds: int) -> Option<Timestamp> {
        if self.representable() && MIN_SECS <= self.secs - seconds <= MAX_SECS {
            Some(self.earlier_by(seconds))
        } else {
            None
        }
    }

    /// Nanoseconds since the epoch.
    pub open spec fn total_nanos(self) -> int {
        self.secs * (NANOS_PER_SEC as int) + self.nanos
    }

    /// Whether `self` lies strictly earlier than `other`.
    pub fn is_before(&self, other: &Timestamp) -> (r: bool)
        ensures
            r == self.precedes(*other),
    {
        self.secs < other.secs || (self.secs == other.secs && self.nanos < other.nanos)
    }
}

/// Reads the system clock through `chrono::Local::now` and takes the
/// reading apart with `DateTime::timestamp` and
/// `DateTime::timestamp_subsec_nanos`.
///
/// Trusted: the reading is a representable instant at or after the epoch.
/// chrono makes it from the time that has passed since the epoch, whole
/// seconds and a nanosecond part below one second, and gives no reading at
/// all where the system clock stands before the epoch or beyond its
/// calendar.
#[verifier::external_body]
pub(crate) fn clock_now() -> (t: Timestamp)
    ensures
        t.representable(),
        0 <= t.secs,
{
    let now = chrono::Local::now();
    Timestamp { secs: now.timestamp(), nanos: now.timestamp_subsec_nanos() }
}

/// Subtracts `seconds` from `t` with chrono's
/// `DateTime::checked_sub_signed`; the instant goes in through
/// `DateTime::from_timestamp`, the span through `TimeDelta::try_seconds`,
/// and the result comes out through `DateTime::timestamp` and
/// `DateTime::timestamp_subsec_nanos`.
///
/// Trusted: chrono takes a normal timestamp exactly when its second lies
/// within the years of its calendar, and subtracts exactly when the
/// resulting date does so too; the seconds then drop by `seconds` and the
/// nanosecond part stays as it is. A span too long for chrono leads out of
/// the calendar from any instant within it. Timestamps with a nanosecond
/// part of a second or more are left out: chrono reads them as leap
/// seconds and subtracts from them differently.
#[verifier::external_body]
pub(crate) fn seconds_before(t: Timestamp, seconds: i64) -> (r: Option<Timestamp>)
    requires
        t.is_normal(),
    ensures
        r == t.checked_earlier_by(seconds as int),
{
    let start = chrono::DateTime::from_timestamp(t.secs, t.nanos)?;
    let span = chrono::TimeDelta::try_seconds(seconds)?;
    let shifted = start.checked_sub_signed(span)?;
    Some(Timestamp { secs: shifted.timestamp(), nanos: shifted.timestamp_subsec_nanos() })
}

/// On normal timestamps the order is that of the nanoseconds since the epoch.
pub proof fn lemma_precedes_is_timeline_order(a: Timestamp, b: Timestamp)
    requires
        a.is_normal(),
        b.is_normal(),
    ensures
        a.precedes(b) <==> a.total_nanos() < b.total_nanos(),
{
    assert(a.secs < b.secs ==> a.secs * 1_000_000_000 + 1_000_000_000 <= b.secs * 1_000_000_000);
    assert(b.secs < a.secs ==> b.secs * 1_000_000_000 + 1_000_000_000 <= a.secs * 1_000_000_000);
}

} // verus!
