//! Virtual time.
//!
//! The protocol core never reads a clock. The runtime owns real time and
//! passes logical time into every entry point; the core only does arithmetic
//! on these values. This is what makes deterministic replay possible.
use core::ops::{Add, AddAssign, Sub};
use vstd::prelude::*;
use vstd::std_specs::ops::{AddSpecImpl, SubSpecImpl};

verus! {

/// The largest value a microsecond counter can hold when `x` is asked for.
pub open spec fn saturate64(x: int) -> u64 {
    if x > u64::MAX {
        u64::MAX
    } else if x < 0 {
        0
    } else {
        x as u64
    }
}

/// A point in logical time, in microseconds since an arbitrary runtime epoch.
///
/// The epoch is owned by the runtime; the core only ever compares instants
/// and adds durations to them. Monotonicity is an explicit assumption: the
/// runtime must never hand the core an `Instant` earlier than one it has
/// already handed it.
#[derive(Debug, Clone, Copy, PartialEq, Eq, Structural, PartialOrd, Ord, Hash)]
pub struct Instant {
    pub micros: u64,
}

/// A span of logical time, in microseconds.
#[derive(Debug, Clone, Copy, PartialEq, Eq, Structural, PartialOrd, Ord, Hash)]
pub struct Duration {
    pub micros: u64,
}

impl Instant {
    /// The zero instant (the runtime epoch).
    pub fn zero() -> (r: Self)
        ensures
            r.micros == 0,
    {
        Instant { micros: 0 }
    }

    /// Construct from microseconds since the runtime epoch.
    #[inline]
    pub fn from_micros(micros: u64) -> (r: Self)
        ensures
            r.micros == micros,
    {
        Instant { micros }
    }

    /// Construct from milliseconds since the runtime epoch.
    #[inline]
    pub fn from_millis(millis: u64) -> (r: Self)
        requires
            millis * 1_000 <= u64::MAX,
        ensures
            r.micros == millis * 1_000,
    {
        Instant { micros: millis * 1_000 }
    }

    /// Construct from seconds since the runtime epoch.
    #[inline]
    pub fn from_secs(secs: u64) -> (r: Self)
        requires
            secs * 1_000_000 <= u64::MAX,
        ensures
            r.micros == secs * 1_000_000,
    {
        Instant { micros: secs * 1_000_000 }
    }

    /// Microseconds since the runtime epoch.
    #[inline]
    pub fn as_micros(self) -> (r: u64)
        ensures
            r == self.micros,
    {
        self.micros
    }

    /// The instant `rhs` after this one, saturating at the end of time.
    pub open spec fn spec_add(self, rhs: Duration) -> Instant {
        Instant { micros: saturate64(self.micros + rhs.micros) }
    }

    /// The time from `rhs` to this instant, zero if `rhs` is later.
    pub open spec fn spec_sub(self, rhs: Instant) -> Duration {
        Duration { micros: saturate64(self.micros - rhs.micros) }
    }

    /// Time elapsed since `earlier`, saturating to zero if `earlier` is later.
    #[inline]
    pub fn saturating_since(self, earlier: Instant) -> (r: Duration)
        ensures
            r == self - earlier,
    {
        Duration { micros: self.micros.saturating_sub(earlier.micros) }
    }
}

impl Duration {
    /// The zero-length duration.
    pub fn zero() -> (r: Self)
        ensures
            r.micros == 0,
    {
        Duration { micros: 0 }
    }

    /// Construct from microseconds.
    #[inline]
    pub fn from_micros(micros: u64) -> (r: Self)
        ensures
            r.micros == micros,
    {
        Duration { micros }
    }

    /// Construct from milliseconds.
    #[inline]
    pub fn from_millis(millis: u64) -> (r: Self)
        requires
            millis * 1_000 <= u64::MAX,
        ensures
            r.micros == millis * 1_000,
    {
        Duration { micros: millis * 1_000 }
    }

    /// Construct from seconds.
    #[inline]
    pub fn from_secs(secs: u64) -> (r: Self)
        requires
            secs * 1_000_000 <= u64::MAX,
        ensures
            r.micros == secs * 1_000_000,
    {
        Duration { micros: secs * 1_000_000 }
    }

    /// Total microseconds.
    #[inline]
    pub fn as_micros(self) -> (r: u64)
        ensures
            r == self.micros,
    {
        self.micros
    }

    /// Total whole milliseconds.
    #[inline]
    pub fn as_millis(self) -> (r: u64)
        ensures
            r == self.micros / 1_000,
    {
        self.micros / 1_000
    }

    /// The sum of two durations, saturating.
    pub open spec fn spec_add(self, rhs: Duration) -> Duration {
        Duration { micros: saturate64(self.micros + rhs.micros) }
    }

    /// The difference of two durations, zero if `rhs` is longer.
    pub open spec fn spec_sub(self, rhs: Duration) -> Duration {
        Duration { micros: saturate64(self.micros - rhs.micros) }
    }

    /// `rhs` times this duration, saturating.
    pub open spec fn spec_mul(self, rhs: nat) -> Duration {
        Duration { micros: saturate64(self.micros * rhs) }
    }

    /// The longer of two durations.
    pub open spec fn longer(self, rhs: Duration) -> Duration {
        if self.micros >= rhs.micros {
            self
        } else {
            rhs
        }
    }

    /// The shorter of two durations.
    pub open spec fn shorter(self, rhs: Duration) -> Duration {
        if self.micros <= rhs.micros {
            self
        } else {
            rhs
        }
    }

    /// Saturating multiplication by an integer factor.
    #[inline]
    pub fn saturating_mul(self, rhs: u32) -> (r: Duration)
        ensures
            r == self * (rhs as nat),
    {
        match self.micros.checked_mul(rhs as u64) {
            Some(micros) => Duration { micros },
            None => Duration { micros: u64::MAX },
        }
    }

    /// Integer division.
    #[inline]
    pub fn div(self, rhs: u32) -> (r: Duration)
        requires
            rhs != 0,
        ensures
            r.micros == self.micros / (rhs as u64),
    {
        Duration { micros: self.micros / rhs as u64 }
    }

    /// Saturating addition.
    #[inline]
    pub fn saturating_add(self, rhs: Duration) -> (r: Duration)
        ensures
            r == self + rhs,
    {
        Duration { micros: self.micros.saturating_add(rhs.micros) }
    }

    /// Saturating subtraction.
    #[inline]
    pub fn saturating_sub(self, rhs: Duration) -> (r: Duration)
        ensures
            r == self - rhs,
    {
        Duration { micros: self.micros.saturating_sub(rhs.micros) }
    }

    /// The larger of two durations.
    #[inline]
    pub fn max(self, rhs: Duration) -> (r: Duration)
        ensures
            r == self.longer(rhs),
    {
        if self.micros >= rhs.micros {
            self
        } else {
            rhs
        }
    }

    /// The smaller of two durations.
    #[inline]
    pub fn min(self, rhs: Duration) -> (r: Duration)
        ensures
            r == self.shorter(rhs),
    {
        if self.micros <= rhs.micros {
            self
        } else {
            rhs
        }
    }

    /// Clamp into `[lo, hi]`; an empty range gives `hi`.
    #[inline]
    pub fn clamp(self, lo: Duration, hi: Duration) -> (r: Duration)
        ensures
            r == self.longer(lo).shorter(hi),
    {
        self.max(lo).min(hi)
    }
}

impl AddSpecImpl<Duration> for Instant {
    open spec fn obeys_add_spec() -> bool {
        true
    }

    open spec fn add_req(self, rhs: Duration) -> bool {
        true
    }

    open spec fn add_spec(self, rhs: Duration) -> Instant {
        self + rhs
    }
}

impl Add<Duration> for Instant {
    type Output = Instant;

    #[inline]
    fn add(self, rhs: Duration) -> (r: Instant) {
        Instant { micros: self.micros.saturating_add(rhs.micros) }
    }
}

impl AddAssign<Duration> for Instant {
    #[inline]
    fn add_assign(&mut self, rhs: Duration)
        ensures
            *final(self) == *old(self) + rhs,
    {
        *self = *self + rhs;
    }
}

impl SubSpecImpl<Instant> for Instant {
    open spec fn obeys_sub_spec() -> bool {
        true
    }

    open spec fn sub_req(self, rhs: Instant) -> bool {
        true
    }

    open spec fn sub_spec(self, rhs: Instant) -> Duration {
        self - rhs
    }
}

impl Sub<Instant> for Instant {
    type Output = Duration;

    /// Saturating: the zero duration if `rhs` is later than `self`.
    #[inline]
    fn sub(self, rhs: Instant) -> (r: Duration) {
        self.saturating_since(rhs)
    }
}

impl AddSpecImpl<Duration> for Duration {
    open spec fn obeys_add_spec() -> bool {
        true
    }

    open spec fn add_req(self, rhs: Duration) -> bool {
        true
    }

    open spec fn add_spec(self, rhs: Duration) -> Duration {
        self + rhs
    }
}

impl Add<Duration> for Duration {
    type Output = Duration;

    #[inline]
    fn add(self, rhs: Duration) -> (r: Duration) {
        self.saturating_add(rhs)
    }
}

/// Clamping into a range that is not empty lands in that range, and leaves
/// a value that was already inside untouched.
pub proof fn clamp_lands_in_range(d: Duration, lo: Duration, hi: Duration)
    requires
        lo.micros <= hi.micros,
    ensures
        lo.micros <= d.longer(lo).shorter(hi).micros <= hi.micros,
        lo.micros <= d.micros <= hi.micros ==> d.longer(lo).shorter(hi) == d,
{
}

/// Subtraction undoes addition as long as the addition did not run into the
/// end of time.
pub proof fn since_undoes_add(t: Instant, d: Duration)
    requires
        t.micros + d.micros <= u64::MAX,
    ensures
        (t + d) - t == d,
{
}

/// Time adds up in microseconds as long as it does not run into its end, and
/// stops there. Time that would be negative is none.
pub proof fn time_adds_up(t: Instant, u: Instant, d: Duration, e: Duration, n: nat)
    ensures
        t.micros + d.micros <= u64::MAX ==> (t + d).micros == t.micros + d.micros,
        t.micros + d.micros >= u64::MAX ==> (t + d).micros == u64::MAX,
        d.micros + e.micros <= u64::MAX ==> (d + e).micros == d.micros + e.micros,
        t.micros >= u.micros ==> (t - u).micros == t.micros - u.micros,
        t.micros <= u.micros ==> (t - u).micros == 0,
        d.micros >= e.micros ==> (d - e).micros == d.micros - e.micros,
        d.micros * n <= u64::MAX ==> (d * n).micros == d.micros * n,
{
}

} // verus!
