//! Congestion control: Reno (RFC 5681) with NewReno fast-recovery window
//! accounting (RFC 6582) and the RFC 6675-style variant used when SACK is
//! available.
//!
//! This module owns the window arithmetic only; recovery *orchestration*
//! (duplicate-ACK counting, recovery point, retransmission selection) lives
//! in the connection, which calls these transitions at the RFC-mandated
//! moments.
use vstd::prelude::*;

verus! {

/// Hard ceiling on cwnd to keep state bounded (far above any window this
/// stack's fixed buffers can use).
pub const CWND_MAX: u32 = 0x100_0000;

/// Congestion-control state.
#[derive(Debug, Clone, Copy, PartialEq, Eq, Structural)]
pub struct CongestionControl {
    /// Congestion window in bytes.
    pub cwnd: u32,
    /// Slow-start threshold in bytes.
    pub ssthresh: u32,
    /// Sender MSS in bytes (tracks effective MSS, e.g. after PMTU drops).
    pub mss: u32,
    /// RFC 3465 (ABC) byte-counting accumulator for congestion avoidance:
    /// add one MSS to `cwnd` only after a full `cwnd`'s worth of bytes has
    /// been acknowledged. Without this, splitting one segment into N
    /// micro-ACKs grows `cwnd` N times faster (Savage et al. 1999).
    pub ca_bytes_acked: u32,
    /// Remaining MSS-units of NewReno window inflation this recovery
    /// episode may grant. Unbounded inflation lets a malicious receiver
    /// stream dup-ACKs to blow `cwnd` to `CWND_MAX`; the cap is the
    /// segments-outstanding at recovery entry.
    pub inflate_budget: u32,
}

/// The smaller of two numbers.
pub open spec fn lesser(a: int, b: int) -> int {
    if a <= b {
        a
    } else {
        b
    }
}

/// The larger of two numbers.
pub open spec fn greater(a: int, b: int) -> int {
    if a >= b {
        a
    } else {
        b
    }
}

/// A sender MSS forced into 1..=65535.
pub open spec fn sane_mss(mss: u32) -> u32 {
    lesser(greater(mss as int, 1), 0xffff) as u32
}

/// RFC 5681 equation 4: half of what is in flight, at least two segments.
pub open spec fn half_flight(flight: u32, mss: u32) -> u32 {
    greater((flight / 2) as int, 2 * mss) as u32
}

impl CongestionControl {
    /// The sender MSS is positive and 16-bit, and the windows stay where no
    /// addition of segments can overflow.
    pub open spec fn wf(self) -> bool {
        &&& 1 <= self.mss <= 0xffff
        &&& self.cwnd <= 0x8003_0000
        &&& self.ssthresh <= 0x8000_0000
    }

    /// RFC 3390 initial window: min(4*MSS, max(2*MSS, 4380 bytes)).
    pub open spec fn initial(mss: u32) -> CongestionControl {
        CongestionControl {
            cwnd: lesser(4 * sane_mss(mss), greater(2 * sane_mss(mss), 4380)) as u32,
            ssthresh: CWND_MAX,
            mss: sane_mss(mss),
            ca_bytes_acked: 0,
            inflate_budget: 0,
        }
    }

    /// After a cumulative ACK of `acked` bytes outside recovery. Slow start
    /// grows by what was acknowledged, at most one segment; congestion
    /// avoidance grows by one segment per window of bytes acknowledged.
    pub open spec fn acked(self, acked: u32) -> CongestionControl {
        if self.cwnd < self.ssthresh {
            CongestionControl {
                cwnd: lesser(
                    self.cwnd + lesser(acked as int, self.mss as int),
                    CWND_MAX as int,
                ) as u32,
                ..self
            }
        } else {
            let sum = lesser(self.ca_bytes_acked + acked, u32::MAX as int);
            if sum >= self.cwnd {
                CongestionControl {
                    cwnd: lesser(self.cwnd + self.mss, CWND_MAX as int) as u32,
                    ca_bytes_acked: (sum - self.cwnd) as u32,
                    ..self
                }
            } else {
                CongestionControl { ca_bytes_acked: sum as u32, ..self }
            }
        }
    }

    /// After a retransmission timeout with `flight` bytes outstanding.
    pub open spec fn timed_out(self, flight: u32) -> CongestionControl {
        CongestionControl {
            ssthresh: half_flight(flight, self.mss),
            cwnd: self.mss,
            ca_bytes_acked: 0,
            inflate_budget: 0,
            ..self
        }
    }

    /// On entry to NewReno fast recovery with `flight` bytes outstanding.
    pub open spec fn fast_recovery(self, flight: u32) -> CongestionControl {
        CongestionControl {
            ssthresh: half_flight(flight, self.mss),
            cwnd: (half_flight(flight, self.mss) + 3 * self.mss) as u32,
            inflate_budget: greater(flight / self.mss - 3, 0) as u32,
            ..self
        }
    }

    /// On entry to SACK-based recovery with `flight` bytes outstanding.
    pub open spec fn sack_recovery(self, flight: u32) -> CongestionControl {
        CongestionControl {
            ssthresh: half_flight(flight, self.mss),
            cwnd: half_flight(flight, self.mss),
            ..self
        }
    }

    /// After one more duplicate ACK in NewReno recovery.
    pub open spec fn inflated(self) -> CongestionControl {
        if self.inflate_budget > 0 {
            CongestionControl {
                inflate_budget: (self.inflate_budget - 1) as u32,
                cwnd: lesser(self.cwnd + self.mss, CWND_MAX as int) as u32,
                ..self
            }
        } else {
            self
        }
    }

    /// After a partial ACK of `acked` bytes in NewReno recovery.
    pub open spec fn partially_acked(self, acked: u32) -> CongestionControl {
        CongestionControl {
            cwnd: lesser(
                greater(self.cwnd - greater(acked as int, self.mss as int), self.mss as int)
                    + self.mss,
                CWND_MAX as int,
            ) as u32,
            ..self
        }
    }

    /// After recovery completed.
    pub open spec fn recovered(self) -> CongestionControl {
        CongestionControl {
            cwnd: greater(self.ssthresh as int, self.mss as int) as u32,
            inflate_budget: 0,
            ca_bytes_acked: 0,
            ..self
        }
    }

    /// With another effective MSS.
    pub open spec fn with_mss(self, mss: u32) -> CongestionControl {
        CongestionControl {
            mss: sane_mss(mss),
            cwnd: greater(self.cwnd as int, sane_mss(mss) as int) as u32,
            ..self
        }
    }

    /// Initial state: IW per RFC 3390 (as referenced by RFC 5681 section
    /// 3.1), ssthresh effectively unbounded.
    pub fn new(mss: u32) -> (r: Self)
        ensures
            r == Self::initial(mss),
            r.wf(),
    {
        let mss: u32 = Self::clamp_mss(mss);
        CongestionControl {
            cwnd: Self::initial_window(mss),
            ssthresh: CWND_MAX,
            mss,
            ca_bytes_acked: 0,
            inflate_budget: 0,
        }
    }

    fn clamp_mss(mss: u32) -> (r: u32)
        ensures
            r == sane_mss(mss),
    {
        if mss < 1 {
            1
        } else if mss > 0xffff {
            0xffff
        } else {
            mss
        }
    }

    /// RFC 3390: IW = min(4*MSS, max(2*MSS, 4380 bytes)).
    fn initial_window(mss: u32) -> (r: u32)
        requires
            mss <= 0xffff,
        ensures
            r == lesser(4 * mss, greater(2 * mss, 4380)),
    {
        let two: u32 = if 2 * mss > 4380 {
            2 * mss
        } else {
            4380
        };
        if 4 * mss < two {
            4 * mss
        } else {
            two
        }
    }

    /// True while in slow start (RFC 5681 section 3.1: cwnd < ssthresh).
    pub fn in_slow_start(&self) -> (r: bool)
        ensures
            r == (self.cwnd < self.ssthresh),
    {
        self.cwnd < self.ssthresh
    }

    /// One more segment of window, up to the ceiling.
    fn grow(&mut self, by: u32)
        requires
            old(self).wf(),
            by <= old(self).mss,
        ensures
            final(self).wf(),
            *final(self) == (CongestionControl {
                cwnd: lesser(old(self).cwnd + by, CWND_MAX as int) as u32,
                ..*old(self)
            }),
    {
        let cwnd: u32 = self.cwnd + by;
        self.cwnd = if cwnd < CWND_MAX {
            cwnd
        } else {
            CWND_MAX
        };
    }

    /// A new (cumulative) ACK of `acked` bytes arrived outside recovery.
    pub fn on_new_ack(&mut self, acked: u32)
        requires
            old(self).wf(),
        ensures
            final(self).wf(),
            *final(self) == old(self).acked(acked),
    {
        if self.in_slow_start() {
            let by: u32 = if acked < self.mss {
                acked
            } else {
                self.mss
            };
            self.grow(by);
        } else {
            self.ca_bytes_acked = self.ca_bytes_acked.saturating_add(acked);
            if self.ca_bytes_acked >= self.cwnd {
                self.ca_bytes_acked -= self.cwnd;
                let by: u32 = self.mss;
                self.grow(by);
            }
        }
    }

    fn halved(&self, flight: u32) -> (r: u32)
        requires
            self.wf(),
        ensures
            r == half_flight(flight, self.mss),
            r <= 0x7fff_ffff,
    {
        if flight / 2 > 2 * self.mss {
            flight / 2
        } else {
            2 * self.mss
        }
    }

    /// Retransmission timeout (RFC 5681 section 3.1 equation 4): ssthresh =
    /// max(FlightSize/2, 2*SMSS); cwnd = 1 "loss window" of one segment.
    pub fn on_rto(&mut self, flight: u32)
        requires
            old(self).wf(),
        ensures
            final(self).wf(),
            *final(self) == old(self).timed_out(flight),
    {
        self.ssthresh = self.halved(flight);
        self.cwnd = self.mss;
        self.ca_bytes_acked = 0;
        self.inflate_budget = 0;
    }

    /// Enter NewReno fast recovery (RFC 5681 section 3.2 steps 2-3): halve,
    /// then inflate by the three segments that left the network.
    pub fn enter_fast_recovery(&mut self, flight: u32)
        requires
            old(self).wf(),
        ensures
            final(self).wf(),
            *final(self) == old(self).fast_recovery(flight),
    {
        self.ssthresh = self.halved(flight);
        self.cwnd = self.ssthresh + 3 * self.mss;
        self.inflate_budget = (flight / self.mss).saturating_sub(3);
    }

    /// Enter SACK-based recovery (RFC 6675 section 5): halve; transmission is
    /// then gated by the pipe estimate, not by window inflation.
    pub fn enter_sack_recovery(&mut self, flight: u32)
        requires
            old(self).wf(),
        ensures
            final(self).wf(),
            *final(self) == old(self).sack_recovery(flight),
    {
        self.ssthresh = self.halved(flight);
        self.cwnd = self.ssthresh;
    }

    /// An additional duplicate ACK during NewReno recovery (RFC 5681 section
    /// 3.2 step 4): inflate by one SMSS, up to the per-episode budget set at
    /// recovery entry.
    pub fn inflate(&mut self)
        requires
            old(self).wf(),
        ensures
            final(self).wf(),
            *final(self) == old(self).inflated(),
    {
        if self.inflate_budget > 0 {
            self.inflate_budget -= 1;
            let by: u32 = self.mss;
            self.grow(by);
        }
    }

    /// Partial ACK during NewReno recovery (RFC 6582 section 3.2 step 5):
    /// deflate by the amount acknowledged, then add back one SMSS. The deflate
    /// term is floored at one SMSS so that a receiver splitting one segment's
    /// acknowledgment into N micro-ACKs cannot grow `cwnd`.
    pub fn on_partial_ack(&mut self, acked: u32)
        requires
            old(self).wf(),
        ensures
            final(self).wf(),
            *final(self) == old(self).partially_acked(acked),
    {
        let by: u32 = if acked > self.mss {
            acked
        } else {
            self.mss
        };
        let down: u32 = self.cwnd.saturating_sub(by);
        self.cwnd = if down > self.mss {
            down
        } else {
            self.mss
        };
        let up: u32 = self.mss;
        self.grow(up);
    }

    /// Recovery completed (RFC 6582 section 3.2 step 1 / RFC 6675 section
    /// 5.1): deflate to ssthresh.
    pub fn exit_recovery(&mut self)
        requires
            old(self).wf(),
        ensures
            final(self).wf(),
            *final(self) == old(self).recovered(),
    {
        self.cwnd = if self.ssthresh > self.mss {
            self.ssthresh
        } else {
            self.mss
        };
        self.inflate_budget = 0;
        self.ca_bytes_acked = 0;
    }

    /// Effective MSS changed (PMTU reduction or peer MSS learned).
    pub fn set_mss(&mut self, mss: u32)
        requires
            old(self).wf(),
        ensures
            final(self).wf(),
            *final(self) == old(self).with_mss(mss),
    {
        self.mss = Self::clamp_mss(mss);
        if self.cwnd < self.mss {
            self.cwnd = self.mss;
        }
    }
}

/// The state after the ACKs of `acks`, one after the other.
pub open spec fn acked_each(cc: CongestionControl, acks: Seq<u32>) -> CongestionControl
    decreases acks.len(),
{
    if acks.len() == 0 {
        cc
    } else {
        acked_each(cc, acks.drop_last()).acked(acks.last())
    }
}

/// Sum of a sequence of byte counts.
pub open spec fn total(acks: Seq<u32>) -> nat
    decreases acks.len(),
{
    if acks.len() == 0 {
        0
    } else {
        total(acks.drop_last()) + acks.last() as nat
    }
}

/// Slow start grows by at most the bytes acknowledged, however many ACKs they
/// are split into.
pub proof fn slow_start_growth_is_bounded_by_bytes(cc: CongestionControl, acks: Seq<u32>)
    requires
        cc.wf(),
        cc.cwnd + total(acks) < cc.ssthresh,
    ensures
        acked_each(cc, acks).cwnd <= cc.cwnd + total(acks),
        acked_each(cc, acks).wf(),
        acked_each(cc, acks).ssthresh == cc.ssthresh,
    decreases acks.len(),
{
    if acks.len() > 0 {
        slow_start_growth_is_bounded_by_bytes(cc, acks.drop_last());
    }
}

/// In congestion avoidance, splitting the acknowledgement of one window into
/// any number of ACKs gives the same state as one ACK for all of it.
pub proof fn ack_division_does_not_accelerate(cc: CongestionControl, acks: Seq<u32>)
    requires
        cc.wf(),
        cc.cwnd >= cc.ssthresh,
        cc.ca_bytes_acked + total(acks) < cc.cwnd,
    ensures
        acked_each(cc, acks) == cc.acked(total(acks) as u32),
        total(acks) <= u32::MAX,
    decreases acks.len(),
{
    if acks.len() > 0 {
        ack_division_does_not_accelerate(cc, acks.drop_last());
    }
}

/// The last ACK of a divided window brings the growth that one ACK for the
/// whole of it would have brought.
pub proof fn divided_window_grows_once(cc: CongestionControl, acks: Seq<u32>, last: u32)
    requires
        cc.wf(),
        cc.cwnd >= cc.ssthresh,
        cc.ca_bytes_acked + total(acks) < cc.cwnd,
        cc.ca_bytes_acked + total(acks) + last <= u32::MAX,
    ensures
        acked_each(cc, acks.push(last)) == cc.acked((total(acks) + last) as u32),
{
    ack_division_does_not_accelerate(cc, acks);
    assert(acks.push(last).drop_last() =~= acks);
}

/// The state after `n` more duplicate ACKs in recovery.
pub open spec fn inflated_times(cc: CongestionControl, n: nat) -> CongestionControl
    decreases n,
{
    if n == 0 {
        cc
    } else {
        inflated_times(cc, (n - 1) as nat).inflated()
    }
}

/// However many duplicate ACKs arrive, inflation adds at most one segment for
/// each of the budget granted on entry to recovery.
pub proof fn inflation_is_bounded_by_its_budget(cc: CongestionControl, n: nat)
    requires
        cc.wf(),
        cc.cwnd <= CWND_MAX,
    ensures
        ({
            let after = inflated_times(cc, n);
            &&& after.inflate_budget <= cc.inflate_budget
            &&& after.cwnd <= cc.cwnd + (cc.inflate_budget - after.inflate_budget) * cc.mss
            &&& after.cwnd <= cc.cwnd + cc.inflate_budget * cc.mss
            &&& after.cwnd <= CWND_MAX
            &&& after.mss == cc.mss
        }),
    decreases n,
{
    if n > 0 {
        inflation_is_bounded_by_its_budget(cc, (n - 1) as nat);
        let b = inflated_times(cc, (n - 1) as nat);
        let after = inflated_times(cc, n);
        let used = cc.inflate_budget - b.inflate_budget;
        assert((used + 1) * cc.mss == used * cc.mss + cc.mss) by (nonlinear_arith);
        assert(0 <= after.inflate_budget * cc.mss) by (nonlinear_arith);
        assert((cc.inflate_budget - after.inflate_budget) * cc.mss <= cc.inflate_budget * cc.mss)
            by (nonlinear_arith)
            requires
                0 <= after.inflate_budget,
                0 <= cc.mss,
        ;
    } else {
        assert(0 <= cc.inflate_budget * cc.mss) by (nonlinear_arith);
        assert((cc.inflate_budget - cc.inflate_budget) * cc.mss == 0) by (nonlinear_arith);
    }
}

/// A partial ACK never grows a window of at least two segments, whatever the
/// amount acknowledged.
pub proof fn partial_ack_never_grows_the_window(cc: CongestionControl, acked: u32)
    requires
        cc.wf(),
        cc.cwnd >= 2 * cc.mss,
    ensures
        cc.partially_acked(acked).cwnd <= cc.cwnd,
        cc.partially_acked(acked).cwnd >= lesser(2 * cc.mss, CWND_MAX as int),
        cc.partially_acked(acked).mss == cc.mss,
{
}

/// Growth in response to ACKs never takes the window above its ceiling.
pub proof fn window_stays_below_its_ceiling(cc: CongestionControl, n: u32)
    requires
        cc.wf(),
        cc.cwnd <= CWND_MAX,
    ensures
        cc.acked(n).cwnd <= CWND_MAX,
        cc.inflated().cwnd <= CWND_MAX,
        cc.partially_acked(n).cwnd <= CWND_MAX,
{
}

/// The first window is four segments, but no more than 4380 bytes, unless two
/// segments are more than that (RFC 3390).
pub proof fn first_window_is_a_few_segments(mss: u32)
    requires
        1 <= mss <= 0xffff,
    ensures
        ({
            let c = CongestionControl::initial(mss);
            &&& c.mss == mss
            &&& mss <= 1095 ==> c.cwnd == 4 * mss
            &&& 1095 <= mss <= 2190 ==> c.cwnd == 4380
            &&& mss >= 2190 ==> c.cwnd == 2 * mss
            &&& c.cwnd < c.ssthresh
        }),
{
}

/// Slow start: each ACK opens the window by the bytes it acknowledges, one
/// segment at most. So a window's worth of ACKs of full segments doubles it.
pub proof fn slow_start_opens_by_what_is_acked(cc: CongestionControl, n: u32)
    requires
        cc.wf(),
        cc.cwnd < cc.ssthresh,
        cc.cwnd + cc.mss <= 0x100_0000,
    ensures
        n <= cc.mss ==> cc.acked(n).cwnd == cc.cwnd + n,
        n >= cc.mss ==> cc.acked(n).cwnd == cc.cwnd + cc.mss,
        cc.acked(n).ssthresh == cc.ssthresh,
        cc.acked(n).mss == cc.mss,
        cc.acked(n).ca_bytes_acked == cc.ca_bytes_acked,
{
}

/// Congestion avoidance: an ACK opens the window by one segment if it completes
/// a window of acknowledged bytes, and otherwise not at all. No acknowledged
/// byte counts twice or is lost: the window that was completed is paid with as
/// many bytes.
pub proof fn avoidance_opens_by_one_segment_per_window(cc: CongestionControl, n: u32)
    requires
        cc.wf(),
        cc.cwnd >= cc.ssthresh,
        cc.cwnd + cc.mss <= 0x100_0000,
        cc.ca_bytes_acked + n <= u32::MAX,
    ensures
        ({
            let after = cc.acked(n);
            let credit = cc.ca_bytes_acked + n;
            &&& credit < cc.cwnd ==> after.cwnd == cc.cwnd && after.ca_bytes_acked == credit
            &&& credit >= cc.cwnd ==> after.cwnd == cc.cwnd + cc.mss && after.ca_bytes_acked
                + cc.cwnd == credit
            &&& after.ssthresh == cc.ssthresh && after.mss == cc.mss
        }),
{
}

/// Over any run of ACKs congestion avoidance is linear: the window opens by at
/// most one segment for each window of bytes acknowledged, counted in windows as
/// large as the first.
pub proof fn avoidance_is_linear(cc: CongestionControl, acks: Seq<u32>)
    requires
        cc.wf(),
        cc.ssthresh <= cc.cwnd <= 0x100_0000,
        cc.ca_bytes_acked + total(acks) <= u32::MAX,
    ensures
        ({
            let after = acked_each(cc, acks);
            &&& cc.cwnd <= after.cwnd <= 0x100_0000
            &&& (after.cwnd - cc.cwnd) * cc.cwnd <= cc.mss * (cc.ca_bytes_acked + total(acks))
        }),
{
    lemma_avoidance_is_paid(cc, acks);
    let after = acked_each(cc, acks);
    assert(0 <= cc.mss * after.ca_bytes_acked) by (nonlinear_arith)
        requires
            0 <= cc.mss,
            0 <= after.ca_bytes_acked,
    ;
}

proof fn lemma_avoidance_is_paid(cc: CongestionControl, acks: Seq<u32>)
    requires
        cc.wf(),
        cc.ssthresh <= cc.cwnd <= CWND_MAX,
        cc.ca_bytes_acked + total(acks) <= u32::MAX,
    ensures
        ({
            let after = acked_each(cc, acks);
            &&& cc.cwnd <= after.cwnd <= CWND_MAX
            &&& after.mss == cc.mss
            &&& after.ssthresh == cc.ssthresh
            &&& after.ca_bytes_acked <= cc.ca_bytes_acked + total(acks)
            &&& (after.cwnd - cc.cwnd) * cc.cwnd + cc.mss * after.ca_bytes_acked <= cc.mss * (
            cc.ca_bytes_acked + total(acks))
        }),
    decreases acks.len(),
{
    if acks.len() == 0 {
        assert((cc.cwnd - cc.cwnd) * cc.cwnd == 0) by (nonlinear_arith);
    } else {
        let init = acks.drop_last();
        let n = acks.last();
        lemma_avoidance_is_paid(cc, init);
        let b = acked_each(cc, init);
        let after = b.acked(n);
        let w = cc.cwnd as int;
        let mss = cc.mss as int;
        let t = cc.ca_bytes_acked + total(init);
        let grown = after.cwnd - b.cwnd;
        let paid = b.ca_bytes_acked + n - after.ca_bytes_acked;
        assert(0 <= grown <= mss);
        assert(grown > 0 ==> paid >= w);
        assert(paid >= 0);
        assert(grown * w <= mss * paid) by (nonlinear_arith)
            requires
                0 <= grown <= mss,
                grown > 0 ==> paid >= w,
                paid >= 0,
                w >= 0,
        ;
        assert((after.cwnd - cc.cwnd) * w == (b.cwnd - cc.cwnd) * w + grown * w) by (nonlinear_arith)
            requires
                grown == after.cwnd - b.cwnd,
                w == cc.cwnd,
        ;
        assert(mss * paid == mss * b.ca_bytes_acked + mss * n - mss * after.ca_bytes_acked)
            by (nonlinear_arith)
            requires
                paid == b.ca_bytes_acked + n - after.ca_bytes_acked,
        ;
        assert(mss * (t + n) == mss * t + mss * n) by (nonlinear_arith);
    }
}

/// Any loss halves: the threshold after a timeout, and on entry to either kind
/// of recovery, is half of what was in flight, but at least two segments.
pub proof fn losses_halve_the_threshold(cc: CongestionControl, flight: u32)
    requires
        cc.wf(),
    ensures
        ({
            let t = cc.timed_out(flight).ssthresh as int;
            &&& flight >= 4 * cc.mss ==> 2 * t <= flight < 2 * t + 2
            &&& flight <= 4 * cc.mss ==> t == 2 * cc.mss
            &&& cc.fast_recovery(flight).ssthresh == t
            &&& cc.sack_recovery(flight).ssthresh == t
        }),
{
}

/// A timeout leaves one segment of window, whatever it was before, and slow
/// start from there; growth credit and inflation are forfeited.
pub proof fn timeout_leaves_one_segment(cc: CongestionControl, flight: u32)
    requires
        cc.wf(),
    ensures
        ({
            let after = cc.timed_out(flight);
            &&& after.cwnd == cc.mss
            &&& after.cwnd < after.ssthresh
            &&& after.mss == cc.mss
            &&& after.ca_bytes_acked == 0 && after.inflate_budget == 0
        }),
{
}

/// Fast recovery starts from the threshold and the three segments that left the
/// network; each further duplicate ACK opens one more segment, for each of the
/// other segments in flight at most. With SACK it starts from the threshold.
/// Either ends at the threshold.
pub proof fn recovery_starts_and_ends_at_the_threshold(cc: CongestionControl, flight: u32)
    requires
        cc.wf(),
    ensures
        ({
            let r = cc.fast_recovery(flight);
            let s = cc.sack_recovery(flight);
            &&& r.cwnd == r.ssthresh + 3 * cc.mss
            &&& (r.inflate_budget + 3) * cc.mss <= flight || r.inflate_budget == 0
            &&& flight < (r.inflate_budget + 4) * cc.mss
            &&& s.cwnd == s.ssthresh
            &&& r.mss == cc.mss && s.mss == cc.mss
            &&& r.recovered().cwnd == r.ssthresh
            &&& s.recovered().cwnd == s.ssthresh
            &&& r.recovered().ssthresh == r.ssthresh && s.recovered().ssthresh == s.ssthresh
            &&& r.recovered().inflate_budget == 0
            &&& r.recovered().ca_bytes_acked == 0
        }),
{
    let k = (flight / cc.mss) as int;
    assert(k * cc.mss <= flight < (k + 1) * cc.mss) by (nonlinear_arith)
        requires
            k == flight / cc.mss,
            cc.mss > 0,
    ;
    let r = cc.fast_recovery(flight);
    if k >= 3 {
        assert(r.inflate_budget + 3 == k);
    } else {
        assert(r.inflate_budget == 0);
        assert((k + 1) * cc.mss <= 4 * cc.mss) by (nonlinear_arith)
            requires
                k < 3,
                cc.mss > 0,
        ;
    }
}

/// While the budget lasts a duplicate ACK opens the window by one segment and
/// costs one of the budget; after that it does nothing.
pub proof fn inflation_is_paid_from_the_budget(cc: CongestionControl)
    requires
        cc.wf(),
        cc.cwnd + cc.mss <= 0x100_0000,
    ensures
        cc.inflate_budget > 0 ==> {
            let after = cc.inflated();
            &&& after.cwnd == cc.cwnd + cc.mss
            &&& after.inflate_budget + 1 == cc.inflate_budget
            &&& after.ssthresh == cc.ssthresh && after.mss == cc.mss
        },
        cc.inflate_budget == 0 ==> cc.inflated() == cc,
{
}

/// A partial ACK of at least one segment takes what it acknowledged out of the
/// window and puts one segment back; a smaller one leaves the window as it is.
/// Either way at least two segments are left.
pub proof fn partial_acks_deflate(cc: CongestionControl, n: u32)
    requires
        cc.wf(),
        cc.cwnd <= 0x100_0000,
        2 * cc.mss <= cc.cwnd,
    ensures
        ({
            let after = cc.partially_acked(n);
            &&& n >= cc.mss && n + cc.mss <= cc.cwnd ==> after.cwnd == cc.cwnd - n + cc.mss
            &&& n <= cc.mss ==> after.cwnd == cc.cwnd
            &&& n + cc.mss >= cc.cwnd ==> after.cwnd == 2 * cc.mss
            &&& after.ssthresh == cc.ssthresh && after.mss == cc.mss
            &&& after.inflate_budget == cc.inflate_budget
        }),
{
}

/// Another segment size is taken over, and the window holds at least one
/// segment of it; the window does not change otherwise.
pub proof fn new_segment_size_is_taken_over(cc: CongestionControl, mss: u32)
    requires
        cc.wf(),
        1 <= mss <= 0xffff,
    ensures
        cc.with_mss(mss).mss == mss,
        mss <= cc.cwnd ==> cc.with_mss(mss).cwnd == cc.cwnd,
        mss >= cc.cwnd ==> cc.with_mss(mss).cwnd == mss,
        cc.with_mss(mss).ssthresh == cc.ssthresh,
{
}

} // verus!
