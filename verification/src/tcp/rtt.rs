//! Round-trip time estimation and retransmission timeout (RFC 6298,
//! Jacobson/Karels).
//!
//! Karn's algorithm (RFC 6298 section 3) is enforced by the *caller*: samples
//! are only taken for segments that were transmitted exactly once. This module
//! owns the arithmetic.
use crate::time::Duration;
use vstd::prelude::*;

verus! {

/// Clock granularity G in microseconds (RFC 6298 section 2.4). The virtual
/// clock counts microseconds; 1 ms is a conservative granularity bound.
pub const GRANULARITY_MICROS: u64 = 1_000;

/// RTT estimator state.
#[derive(Debug, Clone, Copy, PartialEq, Eq, Structural)]
pub struct RttEstimator {
    /// Smoothed RTT; `None` until the first sample (RFC 6298 section 2).
    pub srtt: Option<Duration>,
    /// Mean deviation of the RTT.
    pub rttvar: Duration,
    /// Current retransmission timeout.
    pub rto: Duration,
    /// Lower bound on a computed timeout.
    pub rto_min: Duration,
    /// Upper bound on a computed or backed-off timeout.
    pub rto_max: Duration,
}

/// A quarter, an eighth, ... of a duration.
pub open spec fn part(d: Duration, n: u64) -> Duration {
    Duration { micros: d.micros / n }
}

/// Distance between two durations.
pub open spec fn deviation(a: Duration, b: Duration) -> Duration {
    if a.micros >= b.micros {
        a - b
    } else {
        b - a
    }
}

impl RttEstimator {
    /// RFC 6298 sections 2.2 and 2.3: the estimator after sample `r`.
    ///
    /// First sample: SRTT = R, RTTVAR = R/2. Later ones: RTTVAR = 3/4 RTTVAR +
    /// 1/4 |SRTT - R|, SRTT = 7/8 SRTT + 1/8 R. Then RTO = SRTT + max(G,
    /// 4 RTTVAR), clamped.
    pub open spec fn sampled(self, r: Duration) -> RttEstimator {
        let (srtt, rttvar) = match self.srtt {
            None => (r, part(r, 2)),
            Some(srtt) => (
                part(srtt * 7, 8) + part(r, 8),
                part(self.rttvar * 3, 4) + part(deviation(srtt, r), 4),
            ),
        };
        RttEstimator {
            srtt: Some(srtt),
            rttvar,
            rto: (srtt + (Duration { micros: GRANULARITY_MICROS }).longer(rttvar * 4)).longer(
                self.rto_min,
            ).shorter(self.rto_max),
            ..self
        }
    }

    /// RFC 6298 section 5.5: the estimator after a timeout.
    pub open spec fn backed_off(self) -> RttEstimator {
        RttEstimator { rto: (self.rto * 2).shorter(self.rto_max), ..self }
    }

    /// New estimator with the configured initial RTO and clamps.
    pub fn new(initial: Duration, rto_min: Duration, rto_max: Duration) -> (r: Self)
        ensures
            r == (RttEstimator {
                srtt: None,
                rttvar: Duration { micros: 0 },
                rto: initial,
                rto_min,
                rto_max,
            }),
    {
        RttEstimator { srtt: None, rttvar: Duration::zero(), rto: initial, rto_min, rto_max }
    }

    /// Current retransmission timeout.
    pub fn rto(&self) -> (r: Duration)
        ensures
            r == self.rto,
    {
        self.rto
    }

    /// Smoothed RTT, if at least one sample has been taken.
    pub fn srtt(&self) -> (r: Option<Duration>)
        ensures
            r == self.srtt,
    {
        self.srtt
    }

    /// Incorporate a measured RTT `r` (RFC 6298 sections 2.2 and 2.3).
    pub fn on_sample(&mut self, r: Duration)
        ensures
            *final(self) == old(self).sampled(r),
    {
        let srtt = match self.srtt {
            None => {
                self.rttvar = r.div(2);
                r
            },
            Some(srtt) => {
                let err = if srtt.as_micros() >= r.as_micros() {
                    srtt.saturating_sub(r)
                } else {
                    r.saturating_sub(srtt)
                };
                self.rttvar = self.rttvar.saturating_mul(3).div(4) + err.div(4);
                srtt.saturating_mul(7).div(8) + r.div(8)
            },
        };
        self.srtt = Some(srtt);
        let var_term = Duration::from_micros(GRANULARITY_MICROS).max(self.rttvar.saturating_mul(4));
        self.rto = (srtt + var_term).clamp(self.rto_min, self.rto_max);
    }

    /// Back off after a retransmission timeout: double the RTO, capped
    /// (RFC 6298 section 5.5).
    pub fn backoff(&mut self)
        ensures
            *final(self) == old(self).backed_off(),
    {
        self.rto = self.rto.saturating_mul(2).min(self.rto_max);
    }
}

/// After a sample the timeout lies between the configured bounds.
pub proof fn sampled_timeout_is_clamped(e: RttEstimator, r: Duration)
    requires
        e.rto_min.micros <= e.rto_max.micros,
    ensures
        e.rto_min.micros <= e.sampled(r).rto.micros <= e.rto_max.micros,
{
}

/// The estimator after `n` timeouts in a row.
pub open spec fn backed_off_times(e: RttEstimator, n: nat) -> RttEstimator
    decreases n,
{
    if n == 0 {
        e
    } else {
        backed_off_times(e, (n - 1) as nat).backed_off()
    }
}

/// Backing off never shortens a timeout that is within the cap, and never
/// exceeds the cap.
pub proof fn backoff_grows_up_to_the_cap(e: RttEstimator, n: nat)
    requires
        e.rto.micros <= e.rto_max.micros,
    ensures
        e.rto.micros <= backed_off_times(e, n).rto.micros <= e.rto_max.micros,
        backed_off_times(e, n).rto_max == e.rto_max,
        backed_off_times(e, n + 1).rto.micros >= backed_off_times(e, n).rto.micros,
    decreases n,
{
    if n > 0 {
        backoff_grows_up_to_the_cap(e, (n - 1) as nat);
    }
}

/// Machine arithmetic can hold what a sample is averaged with.
pub open spec fn averageable(e: RttEstimator) -> bool {
    &&& e.srtt matches Some(s) ==> 7 * s.micros <= u64::MAX
    &&& 4 * e.rttvar.micros <= u64::MAX
}

/// Distance of two numbers.
pub open spec fn gap(a: int, b: int) -> int {
    if a >= b {
        a - b
    } else {
        b - a
    }
}

/// The first sample is the estimate, and half of it its deviation.
pub proof fn first_sample_is_the_estimate(e: RttEstimator, r: Duration)
    requires
        e.srtt is None,
    ensures
        e.sampled(r).srtt == Some(r),
        r.micros - 1 <= 2 * e.sampled(r).rttvar.micros <= r.micros,
{
}

/// Every further sample pulls the estimate towards itself, from above as well
/// as from below, by an eighth of the way: eight times the new estimate is seven
/// times the old one and the sample, up to what division drops. It never
/// overshoots the sample, and moves strictly while the sample is at least 16
/// microseconds away.
pub proof fn samples_pull_the_estimate(e: RttEstimator, r: Duration)
    requires
        e.srtt is Some,
        averageable(e),
    ensures
        e.sampled(r).srtt is Some,
        ({
            let old = e.srtt->0.micros as int;
            let new = e.sampled(r).srtt->0.micros as int;
            &&& 7 * old + r.micros - 14 <= 8 * new <= 7 * old + r.micros
            &&& r.micros <= old ==> r.micros - 1 <= new <= old
            &&& r.micros >= old ==> old - 1 <= new <= r.micros
            &&& r.micros + 16 <= old ==> new < old
            &&& old + 16 <= r.micros ==> old < new
        }),
{
}

/// The deviation moves by a quarter of the way towards the distance of the
/// sample from the estimate as it was before the sample.
pub proof fn samples_pull_the_deviation(e: RttEstimator, r: Duration)
    requires
        e.srtt is Some,
        averageable(e),
    ensures
        ({
            let off = gap(e.srtt->0.micros as int, r.micros as int);
            let old = e.rttvar.micros as int;
            let new = e.sampled(r).rttvar.micros as int;
            &&& 3 * old + off - 6 <= 4 * new <= 3 * old + off
            &&& off <= old ==> new <= old
            &&& off >= old ==> new + 2 >= old
        }),
{
}

/// The timeout after a sample is the estimate and four deviations (at least a
/// clock tick of a millisecond), forced between the bounds, which stay.
pub proof fn timeout_covers_the_deviation(e: RttEstimator, r: Duration)
    requires
        e.rto_min.micros <= e.rto_max.micros,
        e.sampled(r).srtt matches Some(s) ==> s.micros + 4 * e.sampled(r).rttvar.micros + 1000
            <= u64::MAX,
    ensures
        ({
            let n = e.sampled(r);
            let spread = 4 * n.rttvar.micros;
            let margin = if spread > 1000 {
                spread
            } else {
                1000
            };
            let want = n.srtt->0.micros + margin;
            &&& n.srtt is Some
            &&& want <= e.rto_min.micros ==> n.rto == e.rto_min
            &&& want >= e.rto_max.micros ==> n.rto == e.rto_max
            &&& e.rto_min.micros <= want <= e.rto_max.micros ==> n.rto.micros == want
            &&& n.rto_min == e.rto_min && n.rto_max == e.rto_max
        }),
{
}

/// The estimator after `n` equal samples.
pub open spec fn sampled_times(e: RttEstimator, r: Duration, n: nat) -> RttEstimator
    decreases n,
{
    if n == 0 {
        e
    } else {
        sampled_times(e, r, (n - 1) as nat).sampled(r)
    }
}

/// Equal samples bring the estimate to themselves, from wherever it was: the
/// distance never grows but for what division drops, and after enough of them
/// it is within 15 microseconds.
pub proof fn equal_samples_bring_the_estimate_there(e: RttEstimator, r: Duration, n: nat)
    requires
        e.srtt is Some,
        averageable(e),
        averageable(RttEstimator { srtt: Some(r), ..e }),
    ensures
        ({
            let start = gap(e.srtt->0.micros as int, r.micros as int);
            let x = sampled_times(e, r, n);
            let end = gap(x.srtt->0.micros as int, r.micros as int);
            &&& x.srtt is Some
            &&& end <= 15 || end + n <= start
            &&& n >= start ==> end <= 15
        }),
    decreases n,
{
    if n > 0 {
        equal_samples_bring_the_estimate_there(e, r, (n - 1) as nat);
        let y = sampled_times(e, r, (n - 1) as nat);
        let a = RttEstimator { rttvar: e.rttvar, ..y };
        samples_pull_the_estimate(a, r);
        assert(y.sampled(r).srtt == a.sampled(r).srtt);
    }
}

/// The estimator after `n` timeouts waits twice as long for each of them, up
/// to the cap, and forgets nothing that was measured.
pub proof fn timeouts_double(e: RttEstimator, n: nat)
    requires
        e.rto.micros <= e.rto_max.micros,
        2 * e.rto_max.micros <= u64::MAX,
    ensures
        ({
            let a = backed_off_times(e, n);
            let b = backed_off_times(e, n + 1);
            &&& 2 * a.rto.micros <= e.rto_max.micros ==> b.rto.micros == 2 * a.rto.micros
            &&& 2 * a.rto.micros >= e.rto_max.micros ==> b.rto == e.rto_max
            &&& a.srtt == e.srtt && a.rttvar == e.rttvar
            &&& a.rto_min == e.rto_min && a.rto_max == e.rto_max
        }),
    decreases n,
{
    if n > 0 {
        timeouts_double(e, (n - 1) as nat);
    }
    backoff_grows_up_to_the_cap(e, n);
}

} // verus!
