//! Model of a connection: the control block, the two byte streams and the
//! SACK scoreboard as mathematical values, with the invariant that every
//! transition keeps.
use super::{AckState, ConnConfig, ConnEvent, ConnParams, ResetReply};
use crate::config::Config;
use crate::tcp::cc::{greater, lesser, CongestionControl};
use crate::tcp::recvbuf::RecvModel;
use crate::tcp::rtt::RttEstimator;
use crate::tcp::sack::board_valid;
use crate::tcp::seq::SeqNr;
use crate::tcp::State;
use crate::time::{Duration, Instant};
use crate::types::{CloseReason, SocketAddr, TimerKind};
use vstd::prelude::*;

verus! {

/// The largest window that a 16-bit field with the largest scale can express.
pub const MAX_WND: u32 = 0x3fff_c000;

/// The largest buffer capacity a connection may have.
pub const MAX_CAPACITY: usize = 0x4000_0000;

/// Desired absolute deadlines of a connection's timers, reconciled by the
/// stack.
#[derive(Debug, Clone, Copy, PartialEq, Eq, Structural)]
pub struct Timers {
    /// Retransmission.
    pub rexmit: Option<Instant>,
    /// Zero-window probing.
    pub persist: Option<Instant>,
    /// Delayed ACK.
    pub del_ack: Option<Instant>,
    /// TIME-WAIT and FIN-WAIT-2.
    pub wait: Option<Instant>,
}

impl Timers {
    /// No timer wanted.
    pub open spec fn idle() -> Timers {
        Timers { rexmit: None, persist: None, del_ack: None, wait: None }
    }

    /// No timer wanted.
    pub fn none() -> (r: Timers)
        ensures
            r == Timers::idle(),
    {
        Timers { rexmit: None, persist: None, del_ack: None, wait: None }
    }

    /// With one of the timers not running.
    pub open spec fn without(self, kind: TimerKind) -> Timers {
        match kind {
            TimerKind::Rexmit => Timers { rexmit: None, ..self },
            TimerKind::Persist => Timers { persist: None, ..self },
            TimerKind::DelAck => Timers { del_ack: None, ..self },
            TimerKind::Wait => Timers { wait: None, ..self },
        }
    }

    /// The deadline of one timer.
    #[verifier::allow_in_spec]
    pub fn get(self, kind: TimerKind) -> Option<Instant>
        returns
            match kind {
                TimerKind::Rexmit => self.rexmit,
                TimerKind::Persist => self.persist,
                TimerKind::DelAck => self.del_ack,
                TimerKind::Wait => self.wait,
            },
    {
        match kind {
            TimerKind::Rexmit => self.rexmit,
            TimerKind::Persist => self.persist,
            TimerKind::DelAck => self.del_ack,
            TimerKind::Wait => self.wait,
        }
    }
}

/// Transmission control block: everything about a connection but its buffers
/// and its scoreboard.
#[derive(Debug, Clone, Copy)]
pub struct Tcb {
    /// Connection state.
    pub state: State,
    /// Local endpoint.
    pub local: SocketAddr,
    /// Remote endpoint.
    pub remote: SocketAddr,
    /// Initial send sequence number.
    pub iss: SeqNr,
    /// Oldest unacknowledged sequence number.
    pub snd_una: SeqNr,
    /// Next sequence number to send.
    pub snd_nxt: SeqNr,
    /// Send window.
    pub snd_wnd: u32,
    /// Segment sequence number used for the last window update.
    pub snd_wl1: SeqNr,
    /// Segment acknowledgment number used for the last window update.
    pub snd_wl2: SeqNr,
    /// Largest window the peer ever advertised (RFC 5961 section 5).
    pub snd_max_wnd: u32,
    /// Our SYN was acknowledged. Until then it occupies SND.UNA. (Where the
    /// SYN stands cannot be told from sequence numbers: they wrap.)
    pub syn_acked: bool,
    /// Initial receive sequence number.
    pub irs: SeqNr,
    /// Next sequence number expected.
    pub rcv_nxt: SeqNr,
    /// Parameters fixed at creation.
    pub params: ConnParams,
    /// MSS that the peer announced.
    pub peer_mss: u16,
    /// Shift applied to windows the peer sends (their offer), once enabled.
    pub snd_scale: u8,
    /// Shift applied to windows we advertise (our offer), once enabled.
    pub rcv_scale: u8,
    /// Both sides sent the window-scale option (RFC 7323 section 2.2).
    pub wscale_on: bool,
    /// Both sides sent SACK-permitted.
    pub sack_enabled: bool,
    /// Application requested close; FIN pending or in flight.
    pub fin_queued: bool,
    /// Sequence number our FIN occupies once first transmitted.
    pub fin_seq: Option<SeqNr>,
    /// Peer FIN sequence number once seen (consumed when in order).
    pub peer_fin: Option<SeqNr>,
    /// Why the connection closed.
    pub close_reason: Option<CloseReason>,
    /// A SYN or SYN-ACK is to be sent.
    pub syn_pending: bool,
    /// ACK transmission urgency.
    pub ack_state: AckState,
    /// In-order data segments received since the last ACK we sent (RFC 1122:
    /// ACK at least every second full segment).
    pub segs_since_ack: u8,
    /// The head of the outstanding data is to be retransmitted.
    pub rexmit_now: bool,
    /// A zero-window probe is to be sent.
    pub probe_pending: bool,
    /// Window advertised in the last segment we emitted.
    pub last_wnd_advertised: u32,
    /// The application hit a full send buffer (Writable edge trigger).
    pub app_blocked: bool,
    /// Desired timers.
    pub timers: Timers,
    /// RTT estimator (RFC 6298).
    pub rtt: RttEstimator,
    /// `(end_seq, sent_at)` of the segment being timed; invalidated by any
    /// retransmission (Karn's algorithm).
    pub rtt_sample: Option<(SeqNr, Instant)>,
    /// Retransmissions in a row.
    pub rexmit_count: u8,
    /// Unanswered zero-window probes in a row.
    pub persist_count: u8,
    /// Congestion control.
    pub cc: CongestionControl,
    /// Duplicate ACKs in a row.
    pub dupacks: u8,
    /// Recovery point: SND.NXT when loss recovery was entered.
    pub recovery: Option<SeqNr>,
    /// Highest sequence retransmitted during the current SACK recovery.
    pub sack_cursor: SeqNr,
    /// MSS that the path toward the peer allows.
    pub pmtu_mss: u16,
    /// When a lowered path MSS is given up again.
    pub pmtu_expires: Option<Instant>,
    /// Accepted by a listener.
    pub passive: bool,
    /// Port of that listener.
    pub listener_port: u16,
    /// `Connected` has been delivered to the application. A passive
    /// connection that dies before this is torn down silently (the
    /// application never knew it existed).
    pub reported: bool,
    /// Configuration snapshot.
    pub cfg: ConnConfig,
}

/// Model of the effects of one input.
pub struct FxModel {
    /// Application events, in order.
    pub events: Seq<ConnEvent>,
    /// RST the stack should send.
    pub reset_reply: Option<ResetReply>,
    /// A challenge ACK is wanted.
    pub wants_challenge: bool,
}

impl FxModel {
    /// No effects.
    pub open spec fn empty() -> FxModel {
        FxModel { events: Seq::empty(), reset_reply: None, wants_challenge: false }
    }

    /// With one more event, if there is room for it.
    pub open spec fn with_event(self, ev: ConnEvent) -> FxModel {
        FxModel {
            events: if self.events.len() < 4 {
                self.events.push(ev)
            } else {
                self.events
            },
            ..self
        }
    }

    /// With a reset to send.
    pub open spec fn with_reset(self, r: ResetReply) -> FxModel {
        FxModel { reset_reply: Some(r), ..self }
    }

    /// With a challenge ACK wanted.
    pub open spec fn with_challenge(self) -> FxModel {
        FxModel { wants_challenge: true, ..self }
    }
}

/// Model of a connection.
pub struct ConnModel {
    /// Control block.
    pub tcb: Tcb,
    /// Bytes from SND.UNA (or the byte behind an unacknowledged SYN) to the
    /// last one the application wrote.
    pub snd: Seq<u8>,
    /// Receive buffer.
    pub rcv: RecvModel,
    /// Ranges that the peer acknowledged selectively.
    pub board: Seq<(SeqNr, SeqNr)>,
}

/// Two to the power of a window-scale shift.
pub open spec fn scale_factor(shift: u8) -> u32 {
    if shift == 0 {
        1
    } else if shift == 1 {
        2
    } else if shift == 2 {
        4
    } else if shift == 3 {
        8
    } else if shift == 4 {
        16
    } else if shift == 5 {
        32
    } else if shift == 6 {
        64
    } else if shift == 7 {
        128
    } else if shift == 8 {
        256
    } else if shift == 9 {
        512
    } else if shift == 10 {
        1024
    } else if shift == 11 {
        2048
    } else if shift == 12 {
        4096
    } else if shift == 13 {
        8192
    } else {
        16384
    }
}

/// Two to the power of a window-scale shift.
#[verifier::when_used_as_spec(scale_factor)]
pub fn scale_factor_of(shift: u8) -> (r: u32)
    ensures
        r == scale_factor(shift),
        1 <= r <= 16384,
{
    let mut f: u32 = 1;
    let mut i: u8 = 0;
    while i < shift && i < 14
        invariant
            i <= 14,
            i <= shift,
            f == scale_factor(i),
        decreases 14 - i,
    {
        f = f * 2;
        i += 1;
    }
    f
}

/// The difference of two 32-bit numbers, zero if it would be negative.
pub open spec fn minus32(a: u32, b: u32) -> u32 {
    if a >= b {
        (a - b) as u32
    } else {
        0
    }
}

impl Tcb {
    /// Sequence numbers outstanding between SND.UNA and SND.NXT.
    pub open spec fn flight(self) -> int {
        self.snd_una.distance_to(self.snd_nxt)
    }

    /// Sequence numbers outstanding that carry no data: our SYN until it is
    /// acknowledged, and our FIN while it is in flight.
    pub open spec fn control_units(self) -> int {
        (if self.syn_acked {
            0int
        } else {
            1
        }) + (if self.fin_seq matches Some(f) && self.snd_una.distance_to(f) < self.flight() {
            1int
        } else {
            0
        })
    }

    /// Data bytes sent and not acknowledged (FlightSize of RFC 5681).
    pub open spec fn data_sent(self) -> u32 {
        greater(self.flight() - self.control_units(), 0) as u32
    }

    /// Our FIN was sent and is not acknowledged.
    pub open spec fn fin_in_flight(self) -> bool {
        self.fin_seq matches Some(f) && self.snd_una.le(f)
    }

    /// Effective send MSS: the peer's, bounded by the path, never below 64.
    pub open spec fn eff_mss(self) -> u16 {
        greater(lesser(self.peer_mss as int, self.pmtu_mss as int), 64) as u16
    }

    /// An immediate ACK is owed.
    pub open spec fn ack_now(self) -> Tcb {
        if self.ack_state is Now {
            self
        } else {
            Tcb {
                ack_state: AckState::Now,
                timers: Timers { del_ack: None, ..self.timers },
                ..self
            }
        }
    }

    /// An ACK is owed, delayed if delaying is configured.
    pub open spec fn ack_later(self, now: Instant) -> Tcb {
        match self.cfg.delayed_ack {
            Some(timeout) => if self.ack_state is Idle {
                Tcb {
                    ack_state: AckState::Delayed,
                    timers: Timers { del_ack: Some(now + timeout), ..self.timers },
                    ..self
                }
            } else {
                self
            },
            None => self.ack_now(),
        }
    }

    /// Time between zero-window probes: the RTO, doubled for each unanswered
    /// one up to six times, at most a minute.
    pub open spec fn persist_interval(self) -> Duration {
        let n = if self.persist_count < 6 {
            self.persist_count
        } else {
            6
        };
        (self.rtt.rto * (scale_factor(n) as nat)).longer(self.rtt.rto).shorter(
            Duration { micros: 60_000_000 },
        )
    }

    /// With the persist timer running.
    pub open spec fn persist_armed(self, now: Instant) -> Tcb {
        Tcb {
            timers: Timers { persist: Some(now + self.persist_interval()), ..self.timers },
            ..self
        }
    }

    /// With the retransmission timer restarted.
    pub open spec fn rexmit_restarted(self, now: Instant) -> Tcb {
        Tcb { timers: Timers { rexmit: Some(now + self.rtt.rto), ..self.timers }, ..self }
    }

    /// With the retransmission timer running, started now if it was not.
    pub open spec fn rexmit_started(self, now: Instant) -> Tcb {
        if self.timers.rexmit is None {
            self.rexmit_restarted(now)
        } else {
            self
        }
    }

    /// In TIME-WAIT: only the 2*MSL timer runs.
    pub open spec fn time_wait(self, now: Instant) -> Tcb {
        Tcb {
            state: State::TimeWait,
            timers: Timers { wait: Some(now + self.cfg.msl * 2), ..Timers::idle() },
            ..self
        }
    }

    /// With the RTT sample taken, if `ack` covers the timed segment (it is
    /// never one that was retransmitted: Karn's algorithm).
    pub open spec fn rtt_sampled(self, now: Instant, ack: SeqNr) -> Tcb {
        match self.rtt_sample {
            Some((end, sent_at)) => if ack.ge(end) {
                Tcb { rtt: self.rtt.sampled(now - sent_at), rtt_sample: None, ..self }
            } else {
                self
            },
            None => self,
        }
    }

    /// With the options of the peer's SYN applied (RFC 9293 section 3.7.1,
    /// RFC 7323 section 2.2, RFC 2018 section 2): window scaling is on only
    /// if both sides offered it, SACK likewise, and hostile MSS values are
    /// floored.
    pub open spec fn syn_options(
        self,
        mss: Option<u16>,
        wscale: Option<u8>,
        sack_permitted: bool,
    ) -> Tcb {
        let scaled = self.params.offer_wscale is Some && wscale is Some;
        let t = Tcb {
            peer_mss: match mss {
                Some(m) => greater(m as int, 64) as u16,
                None => self.peer_mss,
            },
            rcv_scale: if scaled {
                self.params.offer_wscale->0
            } else {
                0
            },
            snd_scale: if scaled {
                wscale->0
            } else {
                0
            },
            wscale_on: scaled,
            sack_enabled: self.params.offer_sack && sack_permitted,
            ..self
        };
        Tcb { cc: CongestionControl::initial(t.eff_mss() as u32), ..t }
    }

    /// A control block before anything happened: the SYN occupies `iss`.
    pub open spec fn fresh(
        cfg: Config,
        params: ConnParams,
        local: SocketAddr,
        remote: SocketAddr,
        iss: SeqNr,
    ) -> Tcb {
        Tcb {
            state: State::Closed,
            local,
            remote,
            iss,
            snd_una: iss,
            snd_nxt: iss.add(1),
            snd_wnd: 0,
            snd_wl1: SeqNr(0),
            snd_wl2: SeqNr(0),
            snd_max_wnd: 0,
            syn_acked: false,
            irs: SeqNr(0),
            rcv_nxt: SeqNr(0),
            params,
            peer_mss: if remote.ip is V4 {
                536
            } else {
                1220
            },
            snd_scale: 0,
            rcv_scale: 0,
            wscale_on: false,
            sack_enabled: false,
            fin_queued: false,
            fin_seq: None,
            peer_fin: None,
            close_reason: None,
            syn_pending: true,
            ack_state: AckState::Idle,
            segs_since_ack: 0,
            rexmit_now: false,
            probe_pending: false,
            last_wnd_advertised: 0,
            app_blocked: false,
            timers: Timers::idle(),
            rtt: RttEstimator {
                srtt: None,
                rttvar: Duration { micros: 0 },
                rto: cfg.rto_initial,
                rto_min: cfg.rto_min,
                rto_max: cfg.rto_max,
            },
            rtt_sample: None,
            rexmit_count: 0,
            persist_count: 0,
            cc: CongestionControl::initial(536),
            dupacks: 0,
            recovery: None,
            sack_cursor: iss,
            pmtu_mss: params.pmtu_mss,
            pmtu_expires: None,
            passive: false,
            listener_port: 0,
            reported: false,
            cfg: ConnConfig {
                msl: cfg.msl,
                max_syn_retries: cfg.max_syn_retries,
                max_data_retries: cfg.max_data_retries,
                max_persist_retries: cfg.max_persist_retries,
                delayed_ack: if cfg.delayed_ack {
                    Some(cfg.delayed_ack_timeout)
                } else {
                    None
                },
                nagle: cfg.nagle,
                fin_wait2_timeout: cfg.fin_wait2_timeout,
            },
        }
    }

    /// Window scales are legal ones.
    pub open spec fn scales_ok(self) -> bool {
        &&& self.snd_scale <= 14
        &&& self.rcv_scale <= 14
        &&& self.params.offer_wscale matches Some(s) ==> s <= 14
    }

    /// The FIN, once sent, is the last thing sent, and was asked for.
    pub open spec fn fin_ok(self) -> bool {
        self.fin_seq matches Some(f) ==> self.fin_queued && f.add(1) == self.snd_nxt
    }

    /// What the state says about the sequence space and the FIN: before the
    /// handshake only the SYN is out, and our FIN is queued in the states that
    /// follow a close.
    pub open spec fn state_ok(self) -> bool {
        &&& self.state is SynSent || self.state is SynReceived ==> {
            &&& !self.syn_acked
            &&& self.flight() == 1
            &&& self.fin_seq is None
            &&& !self.fin_queued
        }
        &&& self.state is SynSent ==> self.recovery is None && self.sack_cursor == self.iss
        &&& self.state is FinWait1 || self.state is Closing || self.state is LastAck
            || self.state is FinWait2 || self.state is TimeWait ==> self.fin_queued
        &&& self.state is Established || self.state is CloseWait ==> !self.fin_queued
            && self.syn_acked
        &&& self.state is FinWait2 || self.state is TimeWait ==> self.fin_seq is Some
            && self.flight() == 0
    }

    /// The control block's part of the invariant: SND.NXT is never behind
    /// SND.UNA and less than a window of sequence numbers ahead of it.
    pub open spec fn inv(self) -> bool {
        &&& self.cc.wf()
        &&& self.scales_ok()
        &&& self.snd_wnd <= MAX_WND
        &&& self.snd_max_wnd <= MAX_WND
        &&& self.flight() <= MAX_WND + if self.fin_seq is Some {
            1int
        } else {
            0
        }
        &&& self.control_units() <= self.flight()
        &&& !self.syn_acked ==> self.snd_una == self.iss
        &&& self.fin_ok()
        &&& self.state_ok()
        &&& self.recovery matches Some(r) ==> self.snd_una.distance_to(r) <= self.flight()
        &&& self.snd_una.sub(1).distance_to(self.sack_cursor) <= self.flight() + 1
        &&& (self.timers.persist is Some || self.probe_pending) ==> self.syn_acked
    }
}

/// A noted FIN of the peer is not behind RCV.NXT, less than a window ahead of
/// it, and nothing is held beyond it: text can never carry RCV.NXT past it.
#[verifier::opaque]
pub open spec fn fin_bounds_text(rcv: RecvModel, rcv_nxt: SeqNr, peer_fin: Option<SeqNr>) -> bool {
    peer_fin matches Some(f) ==> {
        &&& rcv_nxt.distance_to(f) <= MAX_CAPACITY
        &&& forall|i: int|
            0 <= i < rcv.ranges.len() ==> (#[trigger] rcv.ranges[i]).end <= rcv.readable
                + rcv_nxt.distance_to(f)
    }
}

impl ConnModel {
    /// Bytes of the send buffer that were never sent.
    pub open spec fn unsent(self) -> u32 {
        greater(self.snd.len() - self.tcb.data_sent(), 0) as u32
    }

    /// The invariant: what is outstanding is backed by the send buffer (all of
    /// it, once the FIN is out), the scoreboard lies between SND.UNA and
    /// SND.NXT, the receive buffer keeps its own invariant, nothing is received
    /// before the peer's SYN, and a noted FIN of the peer bounds its text.
    #[verifier::opaque]
    pub open spec fn inv(self) -> bool {
        &&& self.tcb.inv()
        &&& self.snd.len() <= MAX_CAPACITY
        &&& self.tcb.data_sent() <= self.snd.len()
        &&& self.tcb.fin_seq is Some ==> self.tcb.data_sent() == self.snd.len()
        &&& board_valid(self.board, self.tcb.snd_una, self.tcb.snd_nxt)
        &&& self.tcb.state is SynSent ==> {
            &&& self.board.len() == 0
            &&& self.rcv.readable == 0
            &&& self.rcv.ranges.len() == 0
            &&& self.tcb.peer_fin is None
        }
        &&& fin_bounds_text(self.rcv, self.tcb.rcv_nxt, self.tcb.peer_fin)
        &&& self.rcv.wf()
        &&& self.rcv.window.len() <= MAX_CAPACITY
    }

    /// With another control block.
    pub open spec fn with(self, tcb: Tcb) -> ConnModel {
        ConnModel { tcb, ..self }
    }

    /// Closed for `reason`; the application hears of it, unless it never knew
    /// the connection.
    pub open spec fn closed(self, reason: CloseReason, fx: FxModel) -> (ConnModel, FxModel) {
        if self.tcb.state is Closed {
            (self, fx)
        } else {
            (
                self.with(
                    Tcb {
                        state: State::Closed,
                        close_reason: Some(reason),
                        timers: Timers::idle(),
                        ..self.tcb
                    },
                ),
                if self.tcb.reported || !self.tcb.passive {
                    fx.with_event(ConnEvent::Closed(reason))
                } else {
                    fx
                },
            )
        }
    }

    /// With the demand for the retransmission and persist timers recomputed,
    /// as after every input and every segment sent.
    pub open spec fn timers_updated(self, now: Instant) -> ConnModel {
        self.with(self.tcb.rexmit_settled(now).persist_settled(now, self.snd.len() > 0))
    }
}

impl Tcb {
    /// Whether an outstanding probe must be handed over to the retransmission
    /// timer: the window reopened while it was in flight.
    pub open spec fn probe_stranded(self) -> bool {
        &&& self.syn_acked
        &&& self.flight() > 0
        &&& self.snd_wnd > 0
        &&& self.timers.rexmit is None
        &&& !(self.state is Closed)
    }

    /// With the demand for the retransmission timer recomputed: none when
    /// nothing is outstanding.
    #[verifier::opaque]
    pub open spec fn rexmit_settled(self, now: Instant) -> Tcb {
        if self.flight() == 0 {
            Tcb { timers: Timers { rexmit: None, ..self.timers }, rexmit_count: 0, ..self }
        } else if self.probe_stranded() {
            Tcb { rexmit_now: true, ..self.rexmit_restarted(now) }
        } else {
            self
        }
    }

    /// Whether zero-window probing is called for: something is waiting to get
    /// into a window of size zero, and no retransmission timer takes care of
    /// it.
    pub open spec fn wants_persist(self, has_data: bool) -> bool {
        &&& self.syn_acked
        &&& self.snd_wnd == 0
        &&& has_data
        &&& self.flight() == 0 || self.timers.rexmit is None
        &&& !(self.state is Closed)
    }

    /// With the demand for the persist timer recomputed.
    #[verifier::opaque]
    pub open spec fn persist_settled(self, now: Instant, has_data: bool) -> Tcb {
        if self.wants_persist(has_data) {
            if self.timers.persist is None {
                self.persist_armed(now)
            } else {
                self
            }
        } else if self.timers.persist is Some {
            Tcb {
                timers: Timers { persist: None, ..self.timers },
                persist_count: 0,
                probe_pending: false,
                ..self
            }
        } else {
            self
        }
    }
}

impl Tcb {
    /// The fields that the invariant's statements about sequence numbers rest
    /// on are those of `t`.
    pub open spec fn same_sequence(self, t: Tcb) -> bool {
        &&& self.same_sending(t)
        &&& self.rcv_nxt == t.rcv_nxt
        &&& self.peer_fin == t.peer_fin
    }

    /// Those of the sending side are.
    pub open spec fn same_sending(self, t: Tcb) -> bool {
        &&& self.iss == t.iss
        &&& self.snd_una == t.snd_una
        &&& self.snd_nxt == t.snd_nxt
        &&& self.syn_acked == t.syn_acked
        &&& self.fin_queued == t.fin_queued
        &&& self.fin_seq == t.fin_seq
        &&& self.recovery == t.recovery || self.recovery is None
        &&& self.sack_cursor == t.sack_cursor
    }

    /// The remaining fields that the invariant speaks of are legal.
    pub open spec fn scalars_ok(self) -> bool {
        &&& self.cc.wf()
        &&& self.scales_ok()
        &&& self.snd_wnd <= MAX_WND
        &&& self.snd_max_wnd <= MAX_WND
        &&& (self.timers.persist is Some || self.probe_pending) ==> self.syn_acked
    }
}

/// A step that leaves the sequence space, the state and the buffers alone
/// keeps the invariant.
pub proof fn lemma_inv_frame(a: ConnModel, b: ConnModel)
    requires
        a.inv(),
        b.tcb.same_sequence(a.tcb),
        b.tcb.scalars_ok(),
        b.tcb.state == a.tcb.state || b.tcb.state is Closed,
        b.snd == a.snd,
        b.board == a.board || b.board.len() == 0,
        b.rcv == a.rcv,
    ensures
        b.inv(),
{
    reveal(ConnModel::inv);
}

/// What the invariant says of single fields.
pub proof fn lemma_inv_scalars(m: ConnModel)
    requires
        m.inv(),
    ensures
        m.tcb.scalars_ok(),
        m.rcv.wf(),
        m.rcv.window.len() <= MAX_CAPACITY,
        m.snd.len() <= MAX_CAPACITY,
        m.tcb.data_sent() <= m.snd.len(),
        board_valid(m.board, m.tcb.snd_una, m.tcb.snd_nxt),
{
    reveal(ConnModel::inv);
}

/// Closing keeps the invariant.
pub proof fn lemma_closed_inv(m: ConnModel, reason: CloseReason, fx: FxModel)
    requires
        m.inv(),
    ensures
        m.closed(reason, fx).0.inv(),
{
    assert(m.tcb.scalars_ok()) by {
        lemma_inv_scalars(m);
    }
    lemma_inv_frame(m, m.closed(reason, fx).0);
}

proof fn lemma_settled_frame(t: Tcb, now: Instant, has_data: bool)
    requires
        t.scalars_ok(),
    ensures
        ({
            let u = t.rexmit_settled(now).persist_settled(now, has_data);
            &&& u.scalars_ok()
            &&& u.state == t.state
            &&& u.same_sequence(t)
        }),
{
    reveal(Tcb::rexmit_settled);
    reveal(Tcb::persist_settled);
}

/// Recomputing the timers keeps the invariant.
pub proof fn lemma_timers_updated_inv(m: ConnModel, now: Instant)
    requires
        m.inv(),
    ensures
        m.timers_updated(now).inv(),
{
    assert(m.tcb.scalars_ok()) by {
        lemma_inv_scalars(m);
    }
    lemma_settled_frame(m.tcb, now, m.snd.len() > 0);
    lemma_inv_frame(m, m.timers_updated(now));
}

} // verus!
