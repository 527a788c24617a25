use vstd::prelude::*;

verus! {

/// Extra days of grace beyond a month before a single payment stops counting.
pub const GRACE_PERIOD_DAYS: i64 = 0;

/// Length of a month of membership, in days.
pub const MONTH_DAYS: i64 = 31;

pub const SECONDS_PER_DAY: i64 = 86_400;

pub const NANOS_PER_SECOND: i64 = 1_000_000_000;

/// A point in time: whole seconds since the Unix epoch (UTC) and the
/// nanoseconds past that second.
#[derive(Clone, Copy, Debug, PartialEq, Eq, Structural)]
pub struct Timestamp {
    pub seconds: i64,
    pub nanos: u32,
}

impl Timestamp {
    /// The instant in nanoseconds since the epoch.
    pub open spec fn instant(self) -> int {
        self.seconds * NANOS_PER_SECOND + self.nanos
    }

    /// The start of a whole second.
    pub fn from_seconds(seconds: i64) -> (r: Timestamp)
        ensures
            r.seconds == seconds,
            r.nanos == 0,
    {
        Timestamp { seconds, nanos: 0 }
    }
}

/// How long a single payment keeps a donor active, in nanoseconds.
pub open spec fn active_window() -> int {
    (MONTH_DAYS + GRACE_PERIOD_DAYS) * SECONDS_PER_DAY * NANOS_PER_SECOND
}

/// Whether a payment made at `payment_time` no longer counts at `now`: more
/// than a month (plus the grace period) has passed.
pub fn is_past(now: Timestamp, payment_time: Timestamp) -> (r: bool)
    ensures
        r == (now.instant() - payment_time.instant() > active_window()),
{
    let secs: i128 = now.seconds as i128 - payment_time.seconds as i128;
    proof {
        assert(-0x1_0000_0000_0000_0000 <= secs <= 0x1_0000_0000_0000_0000);
        assert(-0x1_0000_0000_0000_0000 * 1_000_000_000 <= secs * 1_000_000_000
            <= 0x1_0000_0000_0000_0000 * 1_000_000_000) by (nonlinear_arith)
            requires
                -0x1_0000_0000_0000_0000 <= secs <= 0x1_0000_0000_0000_0000,
        ;
    }
    let elapsed: i128 = secs * (NANOS_PER_SECOND as i128) + (now.nanos as i128 - payment_time.nanos as i128);
    let window: i128 = (MONTH_DAYS as i128 + GRACE_PERIOD_DAYS as i128) * (SECONDS_PER_DAY as i128)
        * (NANOS_PER_SECOND as i128);
    proof {
        assert(elapsed == now.instant() - payment_time.instant()) by (nonlinear_arith)
            requires
                secs == now.seconds - payment_time.seconds,
                elapsed == secs * 1_000_000_000 + (now.nanos - payment_time.nanos),
        ;
    }
    elapsed > window
}

/// Recency for a source that knows about recurring donations: an active
/// recurring donation is never past; otherwise the last payment decides, and a
/// donor with no known payment date is past.
pub fn is_past_recurring(now: Timestamp, recurring_active: bool, last_payment: Option<Timestamp>) -> (r: bool)
    ensures
        r == (!recurring_active && match last_payment {
            Some(t) => now.instant() - t.instant() > active_window(),
            None => true,
        }),
{
    if recurring_active {
        false
    } else {
        match last_payment {
            Some(t) => is_past(now, t),
            None => true,
        }
    }
}

} // verus!
