//! Instants and day arithmetic.

use vstd::prelude::*;

verus! {

/// An instant: whole seconds since the Unix epoch, and the nanoseconds past
/// that second. Instants are ordered by `secs`, then by `nanos`.
#[derive(Clone, Copy, Debug, PartialEq, Eq, PartialOrd, Ord, Hash, Structural)]
pub struct Timestamp {
    pub secs: i64,
    pub nanos: u32,
}

/// `x` brought into the range of `i64`.
pub open spec fn clamp_to_i64(x: int) -> int {
    if x > i64::MAX {
        i64::MAX as int
    } else if x < i64::MIN {
        i64::MIN as int
    } else {
        x
    }
}

impl Timestamp {
    /// `self` is `other` or earlier.
    pub open spec fn not_after(self, other: Timestamp) -> bool {
        self.secs < other.secs || (self.secs == other.secs && self.nanos <= other.nanos)
    }

    /// The instant `days` days of 86 400 seconds after `self` (before it, for
    /// negative `days`). The seconds stop at the ends of `i64`; the
    /// nanoseconds are kept.
    pub open spec fn plus_days(self, days: int) -> Timestamp {
        Timestamp {
            secs: clamp_to_i64(self.secs + days * 86_400) as i64,
            nanos: self.nanos,
        }
    }

    pub fn new(secs: i64, nanos: u32) -> (t: Timestamp)
        ensures
            t == (Timestamp { secs, nanos }),
    {
        Timestamp { secs, nanos }
    }

    /// Whether `self` is `other` or earlier.
    pub fn is_not_after(&self, other: &Timestamp) -> (r: bool)
        ensures
            r == self.not_after(*other),
    {
        self.secs < other.secs || (self.secs == other.secs && self.nanos <= other.nanos)
    }

    /// The instant `days` days after `self`, saturating at the first and last
    /// representable second.
    pub fn add_days(&self, days: i64) -> (t: Timestamp)
        ensures
            t == self.plus_days(days as int),
    {
        let span: i128 = (days as i128) * 86_400;
        let wide: i128 = (self.secs as i128) + span;
        let secs: i64 = if wide > i64::MAX as i128 {
            i64::MAX
        } else if wide < i64::MIN as i128 {
            i64::MIN
        } else {
            wide as i64
        };
        Timestamp { secs, nanos: self.nanos }
    }
}

/// Reads the system clock with `chrono::Utc::now` and returns the instant as
/// seconds and nanoseconds since the Unix epoch (`DateTime::timestamp`,
/// `DateTime::timestamp_subsec_nanos`). Nothing is claimed of the instant: two
/// readings may differ in any way. `Utc::now` panics where the system clock
/// stands before 1970.
#[verifier::external_body]
pub(crate) fn now() -> (t: Timestamp) {
    let t = chrono::Utc::now();
    Timestamp { secs: t.timestamp(), nanos: t.timestamp_subsec_nanos() }
}

} // verus!
