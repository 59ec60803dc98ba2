//! One TCP connection as a deterministic state machine.
//!
//! A `Connection` never performs I/O and never sees a wall clock: inputs are
//! parsed segments, virtual-timer expirations and API calls (each taking
//! `now`); outputs are [`Effects`] (application events, reset replies) and
//! [`SegmentPlan`]s pulled by the stack's `poll_action`.
//!
//! Layout: `model` holds the control block and the mathematical model of a
//! connection; this file holds construction, the application API and timer
//! handling; `input` implements RFC 9293 section 3.10.7 segment arrival with
//! the RFC 5961 mitigations; `output` implements the segment planner. What
//! holds over any number of steps is proved in `laws` (resets and ends),
//! `receiving` and `sending` (the byte streams, step by step), `runs` and
//! `reading` (the byte streams over the life of a connection), `progress`
//! (timers and termination), `silence` (a silent peer is given up) and
//! `identity` (what no step changes). What each kind of step is for is stated in
//! `handshake` (opening), `transmission` (what is sent, and when), `arrival`
//! (what arrives, and how connections end) and `recovery` (acknowledgments,
//! loss and timeouts).
pub mod arrival;
pub mod handshake;
pub mod identity;
pub mod input;
pub mod laws;
pub mod model;
pub mod output;
pub mod progress;
pub mod reading;
pub mod recovery;
pub mod receiving;
pub mod runs;
pub mod sending;
pub mod silence;
pub mod transmission;

pub use model::{fin_bounds_text, ConnModel, FxModel, Tcb, Timers};

use super::cc::CongestionControl;
use super::recvbuf::{consume_keeps_invariant, RecvBuffer, RecvModel};
use super::rtt::RttEstimator;
use super::sack::{board_high, SackScoreboard};
use super::sendbuf::SendBuffer;
use super::seq::SeqNr;
use super::State;
use crate::config::Config;
use crate::ip::pmtu::pmtu_ttl;
use crate::time::{Duration, Instant};
use crate::types::{CloseReason, Error, SocketAddr, TimerKind};
use crate::util::BoundedVec;
use model::{
    lemma_closed_inv, lemma_inv_frame, lemma_inv_scalars, lemma_timers_updated_inv, minus32,
    scale_factor_of, MAX_CAPACITY,
};
use vstd::prelude::*;

verus! {

/// Application-facing notifications produced by connection transitions
/// (the stack attaches the [`crate::SocketId`] and forwards them).
#[derive(Debug, Clone, Copy, PartialEq, Eq, Structural)]
pub enum ConnEvent {
    /// Placeholder for `BoundedVec` initialization; never emitted.
    Nothing,
    /// Reached ESTABLISHED.
    Connected,
    /// New in-order data available.
    Readable,
    /// Send-buffer space available again after the app saw backpressure.
    Writable,
    /// Peer's FIN consumed (EOF after buffered data).
    PeerFin,
    /// Connection destroyed.
    Closed(CloseReason),
}

impl Default for ConnEvent {
    fn default() -> (r: Self)
        ensures
            r is Nothing,
    {
        ConnEvent::Nothing
    }
}

/// A reset the stack must send in reply to an offending segment (RFC 9293
/// section 3.10.7.3 / SYN-RECEIVED unacceptable ACK).
#[derive(Debug, Clone, Copy, PartialEq, Eq, Structural)]
pub struct ResetReply {
    /// Sequence number for the RST.
    pub seq: SeqNr,
    /// ACK value (RST|ACK form) if any.
    pub ack: Option<SeqNr>,
}

/// Side effects of feeding one input to a connection.
#[derive(Debug, Clone, Copy)]
pub struct Effects {
    /// Application events, in order.
    pub events: BoundedVec<ConnEvent, 4>,
    /// RST the stack should emit for this (invalid) segment.
    pub reset_reply: Option<ResetReply>,
    /// The connection wants a challenge ACK (RFC 5961); the stack grants it
    /// from the rate-limit budget by calling [`Connection::grant_challenge`].
    pub wants_challenge: bool,
}

impl View for Effects {
    type V = FxModel;

    open spec fn view(&self) -> FxModel {
        FxModel {
            events: self.events@,
            reset_reply: self.reset_reply,
            wants_challenge: self.wants_challenge,
        }
    }
}

impl Default for Effects {
    fn default() -> (r: Self)
        ensures
            r.wf(),
            r@ == FxModel::empty(),
    {
        Effects { events: BoundedVec::new(), reset_reply: None, wants_challenge: false }
    }
}

impl Effects {
    /// Well-formedness of the event list.
    pub open spec fn wf(&self) -> bool {
        self.events.wf()
    }

    /// Record an event. Never more than four come from one input; should
    /// there be more, the excess is dropped.
    pub fn event(&mut self, ev: ConnEvent)
        requires
            old(self).wf(),
        ensures
            final(self)@ == old(self)@.with_event(ev),
            final(self).wf(),
    {
        let _ = self.events.push(ev);
    }
}

/// ACK transmission urgency.
#[derive(Debug, Clone, Copy, PartialEq, Eq, Structural)]
pub enum AckState {
    /// No ACK owed.
    Idle,
    /// Delayed ACK armed (RFC 1122 section 4.2.3.2).
    Delayed,
    /// Send an ACK at the next poll.
    Now,
}

/// Parameters fixed at connection creation by the stack.
#[derive(Debug, Clone, Copy, PartialEq, Eq, Structural)]
pub struct ConnParams {
    /// MSS we advertise (derived from local MTU or `Config::mss_override`).
    pub local_mss: u16,
    /// Window-scale shift to offer, `None` to omit the option.
    pub offer_wscale: Option<u8>,
    /// Offer SACK-permitted.
    pub offer_sack: bool,
    /// Initial MSS bound from the path MTU toward the peer.
    pub pmtu_mss: u16,
}

/// Configuration snapshot that keeps a connection self-contained.
#[derive(Debug, Clone, Copy, PartialEq, Eq, Structural)]
pub struct ConnConfig {
    /// Maximum segment lifetime.
    pub msl: Duration,
    /// Retransmissions of a SYN before giving up.
    pub max_syn_retries: u8,
    /// Retransmissions of data or FIN before giving up.
    pub max_data_retries: u8,
    /// Unanswered zero-window probes before giving up.
    pub max_persist_retries: u8,
    /// Delayed-ACK timeout, if ACKs are delayed.
    pub delayed_ack: Option<Duration>,
    /// Nagle's algorithm.
    pub nagle: bool,
    /// FIN-WAIT-2 idle timeout, zero for none.
    pub fin_wait2_timeout: Duration,
}

/// TCP connection state machine.
///
/// Generic over the send/receive buffer capacities `SND`/`RCV` (bytes), so a
/// deployment fixes its per-connection memory at compile time. The
/// [`crate::Stack`] threads these through.
#[derive(Clone, Copy)]
pub struct Connection<const SND: usize, const RCV: usize> {
    /// Control block.
    pub tcb: Tcb,
    /// Send buffer.
    pub send_buf: SendBuffer<SND>,
    /// Receive buffer.
    pub recv_buf: RecvBuffer<RCV>,
    /// Ranges that the peer acknowledged selectively.
    pub scoreboard: SackScoreboard,
}

impl<const SND: usize, const RCV: usize> View for Connection<SND, RCV> {
    type V = ConnModel;

    open spec fn view(&self) -> ConnModel {
        ConnModel {
            tcb: self.tcb,
            snd: self.send_buf@,
            rcv: self.recv_buf@,
            board: self.scoreboard@,
        }
    }
}

impl Tcb {
    /// A control block before anything happened.
    fn new(
        cfg: &Config,
        params: ConnParams,
        local: SocketAddr,
        remote: SocketAddr,
        iss: SeqNr,
    ) -> (r: Self)
        ensures
            r == Tcb::fresh(*cfg, params, local, remote, iss),
    {
        Tcb {
            state: State::Closed,
            local,
            remote,
            iss,
            snd_una: iss,
            snd_nxt: iss.add(1),
            snd_wnd: 0,
            snd_wl1: SeqNr(0),
            snd_wl2: SeqNr(0),
            snd_max_wnd: 0,
            syn_acked: false,
            irs: SeqNr(0),
            rcv_nxt: SeqNr(0),
            params,
            peer_mss: if remote.ip.is_v4() {
                536
            } else {
                1220
            },
            snd_scale: 0,
            rcv_scale: 0,
            wscale_on: false,
            sack_enabled: false,
            fin_queued: false,
            fin_seq: None,
            peer_fin: None,
            close_reason: None,
            syn_pending: true,
            ack_state: AckState::Idle,
            segs_since_ack: 0,
            rexmit_now: false,
            probe_pending: false,
            last_wnd_advertised: 0,
            app_blocked: false,
            timers: Timers::none(),
            rtt: RttEstimator::new(cfg.rto_initial, cfg.rto_min, cfg.rto_max),
            rtt_sample: None,
            rexmit_count: 0,
            persist_count: 0,
            cc: CongestionControl::new(536),
            dupacks: 0,
            recovery: None,
            sack_cursor: iss,
            pmtu_mss: params.pmtu_mss,
            pmtu_expires: None,
            passive: false,
            listener_port: 0,
            reported: false,
            cfg: ConnConfig {
                msl: cfg.msl,
                max_syn_retries: cfg.max_syn_retries,
                max_data_retries: cfg.max_data_retries,
                max_persist_retries: cfg.max_persist_retries,
                delayed_ack: if cfg.delayed_ack {
                    Some(cfg.delayed_ack_timeout)
                } else {
                    None
                },
                nagle: cfg.nagle,
                fin_wait2_timeout: cfg.fin_wait2_timeout,
            },
        }
    }

    /// Record the peer's SYN options and fix the negotiated parameters
    /// (RFC 9293 section 3.7.1, RFC 7323 section 2.2, RFC 2018 section 2).
    pub(crate) fn apply_syn_options(
        self,
        mss: Option<u16>,
        wscale: Option<u8>,
        sack_permitted: bool,
    ) -> (r: Tcb)
        ensures
            r == self.syn_options(mss, wscale, sack_permitted),
    {
        // Floor guards against absurd/hostile values.
        let peer_mss: u16 = match mss {
            Some(m) => if m > 64 {
                m
            } else {
                64
            },
            None => self.peer_mss,
        };
        let (rcv_scale, snd_scale, wscale_on): (u8, u8, bool) = match (
            self.params.offer_wscale,
            wscale,
        ) {
            (Some(ours), Some(theirs)) => (ours, theirs, true),
            _ => (0, 0, false),
        };
        let t = Tcb {
            peer_mss,
            rcv_scale,
            snd_scale,
            wscale_on,
            sack_enabled: self.params.offer_sack && sack_permitted,
            ..self
        };
        Tcb { cc: CongestionControl::new(t.eff_send_mss() as u32), ..t }
    }

    /// Effective send MSS: peer's advertised MSS bounded by the path MTU.
    pub fn eff_send_mss(&self) -> (r: u16)
        ensures
            r == self.eff_mss(),
            r >= 64,
    {
        let m: u16 = if self.peer_mss < self.pmtu_mss {
            self.peer_mss
        } else {
            self.pmtu_mss
        };
        if m > 64 {
            m
        } else {
            64
        }
    }

    /// Sequence numbers outstanding.
    pub(crate) fn outstanding(&self) -> (r: u32)
        ensures
            r == self.flight(),
    {
        self.snd_nxt.since(self.snd_una)
    }

    /// Count the control bits (SYN, FIN) among what is outstanding.
    fn control_units_outstanding(&self) -> (r: u32)
        ensures
            r == self.control_units(),
    {
        let span: u32 = self.outstanding();
        let syn: u32 = if self.syn_acked {
            0
        } else {
            1
        };
        let fin: u32 = match self.fin_seq {
            Some(f) => if f.since(self.snd_una) < span {
                1
            } else {
                0
            },
            None => 0,
        };
        syn + fin
    }

    /// Data bytes occupying sequence space between SND.UNA and SND.NXT
    /// (FlightSize per RFC 5681, excluding SYN/FIN control units). This is
    /// also the offset of SND.NXT within the send buffer.
    pub fn bytes_in_flight(&self) -> (r: u32)
        ensures
            r == self.data_sent(),
    {
        self.outstanding().saturating_sub(self.control_units_outstanding())
    }

    pub(crate) fn fin_outstanding(&self) -> (r: bool)
        ensures
            r == self.fin_in_flight(),
    {
        match self.fin_seq {
            Some(f) => self.snd_una.le(f),
            None => false,
        }
    }

    /// Owe an immediate ACK.
    pub(crate) fn owe_ack_now(self) -> (r: Tcb)
        ensures
            r == self.ack_now(),
    {
        if self.ack_state == AckState::Now {
            self
        } else {
            Tcb {
                ack_state: AckState::Now,
                timers: Timers { del_ack: None, ..self.timers },
                ..self
            }
        }
    }

    /// Arm the delayed-ACK timer if delayed acking is configured; otherwise
    /// escalate to an immediate ACK.
    pub(crate) fn owe_ack_later(self, now: Instant) -> (r: Tcb)
        ensures
            r == self.ack_later(now),
    {
        match self.cfg.delayed_ack {
            Some(timeout) => {
                if self.ack_state == AckState::Idle {
                    Tcb {
                        ack_state: AckState::Delayed,
                        timers: Timers { del_ack: Some(now + timeout), ..self.timers },
                        ..self
                    }
                } else {
                    self
                }
            },
            None => self.owe_ack_now(),
        }
    }

    pub(crate) fn arm_persist(self, now: Instant) -> (r: Tcb)
        ensures
            r == self.persist_armed(now),
    {
        let n: u8 = if self.persist_count < 6 {
            self.persist_count
        } else {
            6
        };
        let interval = self.rtt.rto().saturating_mul(scale_factor_of(n)).clamp(
            self.rtt.rto(),
            Duration::from_secs(60),
        );
        Tcb { timers: Timers { persist: Some(now + interval), ..self.timers }, ..self }
    }

    fn clear_timer(self, kind: TimerKind) -> (r: Tcb)
        ensures
            r == (Tcb { timers: self.timers.without(kind), ..self }),
    {
        let ts = self.timers;
        let timers = match kind {
            TimerKind::Rexmit => Timers { rexmit: None, ..ts },
            TimerKind::Persist => Timers { persist: None, ..ts },
            TimerKind::DelAck => Timers { del_ack: None, ..ts },
            TimerKind::Wait => Timers { wait: None, ..ts },
        };
        Tcb { timers, ..self }
    }

    pub(crate) fn restart_rexmit(self, now: Instant) -> (r: Tcb)
        ensures
            r == self.rexmit_restarted(now),
    {
        Tcb { timers: Timers { rexmit: Some(now + self.rtt.rto()), ..self.timers }, ..self }
    }

    pub(crate) fn start_rexmit(self, now: Instant) -> (r: Tcb)
        ensures
            r == self.rexmit_started(now),
    {
        if self.timers.rexmit.is_none() {
            self.restart_rexmit(now)
        } else {
            self
        }
    }

    /// Recompute the demand for the retransmission timer.
    fn settle_rexmit(self, now: Instant) -> (r: Tcb)
        ensures
            r == self.rexmit_settled(now),
    {
        proof {
            reveal(Tcb::rexmit_settled);
        }
        if self.outstanding() == 0 {
            Tcb { timers: Timers { rexmit: None, ..self.timers }, rexmit_count: 0, ..self }
        } else if self.syn_acked && self.snd_wnd > 0 && self.timers.rexmit.is_none() && self.state
            != State::Closed {
            Tcb { rexmit_now: true, ..self.restart_rexmit(now) }
        } else {
            self
        }
    }

    /// Recompute the demand for the persist timer.
    fn settle_persist(self, now: Instant, has_data: bool) -> (r: Tcb)
        ensures
            r == self.persist_settled(now, has_data),
    {
        proof {
            reveal(Tcb::persist_settled);
        }
        let wanted = self.syn_acked && self.snd_wnd == 0 && has_data && (self.outstanding() == 0
            || self.timers.rexmit.is_none()) && self.state != State::Closed;
        match (wanted, self.timers.persist) {
            (true, None) => self.arm_persist(now),
            (false, Some(_)) => Tcb {
                timers: Timers { persist: None, ..self.timers },
                persist_count: 0,
                probe_pending: false,
                ..self
            },
            _ => self,
        }
    }

    /// Transition to TIME-WAIT: only the 2*MSL timer stays armed.
    pub(crate) fn enter_time_wait(self, now: Instant) -> (r: Tcb)
        ensures
            r == self.time_wait(now),
    {
        let wait = Some(now + self.cfg.msl.saturating_mul(2));
        Tcb { state: State::TimeWait, timers: Timers { wait, ..Timers::none() }, ..self }
    }

    /// Take an RTT sample if the timed segment is covered and was never
    /// retransmitted (Karn's algorithm, RFC 6298 section 3).
    pub(crate) fn take_rtt_sample(self, now: Instant, ack: SeqNr) -> (r: Tcb)
        ensures
            r == self.rtt_sampled(now, ack),
    {
        match self.rtt_sample {
            Some((end, sent_at)) => {
                if ack.ge(end) {
                    let mut rtt = self.rtt;
                    rtt.on_sample(now.saturating_since(sent_at));
                    Tcb { rtt, rtt_sample: None, ..self }
                } else {
                    self
                }
            },
            None => self,
        }
    }
}

impl ConnModel {
    /// An actively opened connection.
    pub open spec fn opened(
        cfg: Config,
        params: ConnParams,
        local: SocketAddr,
        remote: SocketAddr,
        iss: SeqNr,
        rcv_cap: nat,
    ) -> ConnModel {
        let t = Tcb::fresh(cfg, params, local, remote, iss);
        ConnModel {
            tcb: Tcb {
                state: State::SynSent,
                cc: CongestionControl::initial(t.eff_mss() as u32),
                ..t
            },
            snd: Seq::empty(),
            rcv: RecvModel::empty(rcv_cap),
            board: Seq::empty(),
        }
    }

    /// A connection opened by a received SYN.
    pub open spec fn accepted(
        cfg: Config,
        params: ConnParams,
        local: SocketAddr,
        remote: SocketAddr,
        iss: SeqNr,
        syn: PeerSyn,
        rcv_cap: nat,
    ) -> ConnModel {
        let t = Tcb {
            state: State::SynReceived,
            passive: true,
            listener_port: local.port,
            irs: syn.seq,
            rcv_nxt: syn.seq.add(1),
            snd_wnd: syn.window as u32,
            snd_max_wnd: syn.window as u32,
            snd_wl1: syn.seq,
            snd_wl2: iss,
            ..Tcb::fresh(cfg, params, local, remote, iss)
        };
        ConnModel {
            tcb: t.syn_options(syn.mss, syn.wscale, syn.sack_permitted),
            snd: Seq::empty(),
            rcv: RecvModel::empty(rcv_cap),
            board: Seq::empty(),
        }
    }

    /// After the application offered `data` to a send buffer of `cap` bytes:
    /// as much as fits is queued. An error if the application may not send
    /// (any more).
    pub open spec fn written(self, data: Seq<u8>, cap: int) -> (ConnModel, Result<usize, Error>) {
        if !self.tcb.state.may_send() || self.tcb.fin_queued {
            (
                self,
                Err(
                    if self.tcb.state is Closed {
                        Error::ConnectionGone
                    } else {
                        Error::InvalidState
                    },
                ),
            )
        } else {
            let n = if data.len() <= cap - self.snd.len() {
                data.len() as int
            } else {
                cap - self.snd.len()
            };
            (
                ConnModel {
                    snd: self.snd + data.take(n),
                    tcb: Tcb { app_blocked: self.tcb.app_blocked || n < data.len(), ..self.tcb },
                    ..self
                },
                Ok(n as usize),
            )
        }
    }

    /// How many bytes a read into a buffer of `len` bytes takes.
    pub open spec fn readable_into(self, len: int) -> int {
        if len <= self.rcv.readable {
            len
        } else {
            self.rcv.readable as int
        }
    }

    /// After the application took `n` bytes. Receiver-side SWS avoidance (RFC
    /// 9293 section 3.8.6.2.2): the larger window is announced only once it
    /// has grown by a full MSS or half the buffer.
    pub open spec fn taken(self, n: int) -> ConnModel {
        let m = ConnModel { rcv: self.rcv.consume(n), ..self };
        let cap = m.rcv.window.len() as u32;
        let grown = minus32((cap - m.rcv.readable) as u32, m.tcb.last_wnd_advertised);
        let mss = m.tcb.params.local_mss as u32;
        let threshold = if mss < cap / 2 {
            mss
        } else {
            cap / 2
        };
        if n > 0 && grown >= threshold && m.tcb.state.synchronized() {
            m.with(m.tcb.ack_now())
        } else {
            m
        }
    }

    /// After a graceful close (RFC 9293 section 3.10.4).
    pub open spec fn shut(self, fx: FxModel) -> (ConnModel, FxModel, Result<(), Error>) {
        match self.tcb.state {
            State::SynSent => {
                let (m, f) = self.closed(CloseReason::Normal, fx);
                (m, f, Ok(()))
            },
            State::SynReceived | State::Established => (
                self.with(Tcb { fin_queued: true, state: State::FinWait1, ..self.tcb }),
                fx,
                Ok(()),
            ),
            State::CloseWait => (
                self.with(Tcb { fin_queued: true, state: State::LastAck, ..self.tcb }),
                fx,
                Ok(()),
            ),
            State::Closed => (self, fx, Err(Error::ConnectionGone)),
            _ => (self, fx, Err(Error::InvalidState)),
        }
    }

    /// The reset that an abort owes the peer (RFC 9293 section 3.10.5).
    pub open spec fn abort_reset(self) -> Option<ResetReply> {
        match self.tcb.state {
            State::SynSent | State::TimeWait | State::Closed => None,
            _ => Some(ResetReply { seq: self.tcb.snd_nxt, ack: Some(self.tcb.rcv_nxt) }),
        }
    }

    /// After the retransmission timer fired.
    #[verifier::opaque]
    pub open spec fn rexmit_fired(self, now: Instant, fx: FxModel) -> (ConnModel, FxModel) {
        let t = self.tcb;
        if t.state is SynSent || t.state is SynReceived {
            if t.rexmit_count >= t.cfg.max_syn_retries {
                self.closed(CloseReason::TimedOut, fx)
            } else {
                (
                    self.with(
                        Tcb {
                            rexmit_count: (t.rexmit_count + 1) as u8,
                            rtt: t.rtt.backed_off(),
                            syn_pending: true,
                            rtt_sample: None,
                            ..t
                        }.rexmit_restarted(now),
                    ),
                    fx,
                )
            }
        } else if t.data_sent() > 0 || t.fin_in_flight() {
            if t.rexmit_count >= t.cfg.max_data_retries {
                self.closed(CloseReason::TimedOut, fx)
            } else {
                (
                    ConnModel {
                        tcb: Tcb {
                            rexmit_count: (t.rexmit_count + 1) as u8,
                            rtt: t.rtt.backed_off(),
                            rtt_sample: None,
                            cc: t.cc.timed_out(t.data_sent()),
                            recovery: None,
                            dupacks: 0,
                            rexmit_now: true,
                            ..t
                        }.rexmit_restarted(now),
                        board: Seq::empty(),
                        ..self
                    },
                    fx,
                )
            }
        } else {
            (self, fx)
        }
    }

    /// After the persist timer fired: probe once more, unless the peer was
    /// silent for too long.
    #[verifier::opaque]
    pub open spec fn persist_fired(self, now: Instant, fx: FxModel) -> (ConnModel, FxModel) {
        let t = self.tcb;
        if t.persist_count >= t.cfg.max_persist_retries {
            self.closed(CloseReason::TimedOut, fx)
        } else {
            (
                self.with(
                    Tcb {
                        probe_pending: true,
                        persist_count: (t.persist_count + 1) as u8,
                        ..t
                    }.persist_armed(now),
                ),
                fx,
            )
        }
    }

    /// After the delayed-ACK timer fired.
    #[verifier::opaque]
    pub open spec fn del_ack_fired(self) -> ConnModel {
        if self.tcb.ack_state is Delayed {
            self.with(Tcb { ack_state: AckState::Now, ..self.tcb })
        } else {
            self
        }
    }

    /// After the connection-lifetime timer fired: TIME-WAIT is over (RFC 9293
    /// section 3.10.7.4), or an orphan in FIN-WAIT-2 is given up.
    #[verifier::opaque]
    pub open spec fn wait_fired(self, fx: FxModel) -> (ConnModel, FxModel) {
        if self.tcb.state is TimeWait {
            self.closed(CloseReason::Normal, fx)
        } else if self.tcb.state is FinWait2 {
            self.closed(CloseReason::TimedOut, fx)
        } else {
            (self, fx)
        }
    }

    /// With one timer not running any more.
    pub open spec fn timer_cleared(self, kind: TimerKind) -> ConnModel {
        self.with(Tcb { timers: self.tcb.timers.without(kind), ..self.tcb })
    }

    /// Whether a fire of this timer is a real one: a timer that is not wanted
    /// (any more), or not yet due, fired stale.
    pub open spec fn timer_due(self, now: Instant, kind: TimerKind) -> bool {
        self.tcb.timers.get(kind) matches Some(d) && d.micros <= now.micros
    }

    /// After a virtual timer fired.
    pub open spec fn fired(self, now: Instant, kind: TimerKind, fx: FxModel) -> (
        ConnModel,
        FxModel,
    ) {
        if !self.timer_due(now, kind) {
            (self, fx)
        } else {
            self.timer_cleared(kind).fire_handled(now, kind, fx)
        }
    }

    /// After a real fire of a timer was handled.
    #[verifier::opaque]
    pub open spec fn fire_handled(self, now: Instant, kind: TimerKind, fx: FxModel) -> (
        ConnModel,
        FxModel,
    ) {
        match kind {
            TimerKind::Rexmit => self.rexmit_fired(now, fx),
            TimerKind::Persist => self.persist_fired(now, fx),
            TimerKind::DelAck => (self.del_ack_fired(), fx),
            TimerKind::Wait => self.wait_fired(fx),
        }
    }

    /// After a report that the path MSS is `mss`. Only a shrink counts; it
    /// makes outstanding data be resent in smaller segments (RFC 1191
    /// section 3), without counting as a loss.
    pub open spec fn path_shrunk(self, now: Instant, mss: u16) -> ConnModel {
        if mss < self.tcb.pmtu_mss {
            let t = Tcb {
                pmtu_mss: mss,
                pmtu_expires: Some(now + pmtu_ttl()),
                ..self.tcb
            };
            let c = Tcb { cc: t.cc.with_mss(t.eff_mss() as u32), ..t };
            self.with(
                if c.data_sent() > 0 {
                    Tcb { rexmit_now: true, rtt_sample: None, ..c }
                } else {
                    c
                },
            )
        } else {
            self
        }
    }

    /// After checking whether a lowered path MSS has aged out.
    pub open spec fn path_aged(self, now: Instant) -> ConnModel {
        match self.tcb.pmtu_expires {
            Some(at) => if at.micros <= now.micros {
                let t = Tcb {
                    pmtu_mss: self.tcb.params.pmtu_mss,
                    pmtu_expires: None,
                    ..self.tcb
                };
                self.with(Tcb { cc: t.cc.with_mss(t.eff_mss() as u32), ..t })
            } else {
                self
            },
            None => self,
        }
    }

    /// After an ICMP hard error (RFC 1122 section 4.2.3.9): it ends a
    /// handshake; afterwards it is only advisory (RFC 5927 section 4).
    pub open spec fn unreachable(self, fx: FxModel) -> (ConnModel, FxModel) {
        if self.tcb.state is SynSent || self.tcb.state is SynReceived {
            self.closed(CloseReason::Unreachable, fx)
        } else {
            (self, fx)
        }
    }

    /// Whether a `Connected` that could not be delivered must be offered again.
    pub open spec fn connected_unreported(self) -> bool {
        !self.tcb.reported && (self.tcb.state is Established || self.tcb.state is CloseWait)
    }

    /// Whether a quoted sequence number could currently be in flight.
    pub open spec fn quote_plausible(self, seq: SeqNr) -> bool {
        self.tcb.snd_una.distance_to(seq) < if self.tcb.flight() > 1 {
            self.tcb.flight()
        } else {
            1
        }
    }
}

impl ConnModel {
    /// What can be checked of a connection at run time: SND.NXT is less than
    /// a window ahead of SND.UNA, what is outstanding is in the send buffer,
    /// neither the scoreboard nor the recovery point exceeds SND.NXT, a FIN
    /// is queued in the states that follow a close, and the window scales
    /// are legal.
    pub open spec fn consistent(self) -> bool {
        let t = self.tcb;
        &&& t.flight() < 0x4000_0000
        &&& t.data_sent() <= self.snd.len()
        &&& board_high(self.board) matches Some(h) ==> h.le(t.snd_nxt)
        &&& t.recovery matches Some(p) ==> p.le(t.snd_nxt)
        &&& t.state is FinWait1 || t.state is Closing || t.state is LastAck ==> t.fin_queued
        &&& t.snd_scale <= 14
        &&& t.rcv_scale <= 14
    }
}

/// The invariant implies everything that can be checked.
pub proof fn invariant_implies_consistency(m: ConnModel)
    requires
        m.inv(),
    ensures
        m.consistent(),
{
    reveal(ConnModel::inv);
}

/// A connection starts out with the invariant.
pub proof fn open_establishes_invariant(
    cfg: Config,
    params: ConnParams,
    local: SocketAddr,
    remote: SocketAddr,
    iss: SeqNr,
    syn: PeerSyn,
    rcv_cap: nat,
)
    requires
        rcv_cap <= MAX_CAPACITY,
        params.offer_wscale matches Some(s) ==> s <= 14,
        syn.wscale matches Some(s) ==> s <= 14,
    ensures
        ConnModel::opened(cfg, params, local, remote, iss, rcv_cap).inv(),
        ConnModel::accepted(cfg, params, local, remote, iss, syn, rcv_cap).inv(),
{
    reveal(ConnModel::inv);
    reveal(fin_bounds_text);
}

proof fn lemma_opened_inv(
    cfg: Config,
    params: ConnParams,
    local: SocketAddr,
    remote: SocketAddr,
    iss: SeqNr,
    rcv_cap: nat,
)
    requires
        rcv_cap <= MAX_CAPACITY,
        params.offer_wscale matches Some(s) ==> s <= 14,
    ensures
        ConnModel::opened(cfg, params, local, remote, iss, rcv_cap).inv(),
{
    let syn = PeerSyn { seq: iss, window: 0, mss: None, wscale: None, sack_permitted: false };
    open_establishes_invariant(cfg, params, local, remote, iss, syn, rcv_cap);
}

proof fn lemma_accepted_inv(
    cfg: Config,
    params: ConnParams,
    local: SocketAddr,
    remote: SocketAddr,
    iss: SeqNr,
    syn: PeerSyn,
    rcv_cap: nat,
)
    requires
        rcv_cap <= MAX_CAPACITY,
        params.offer_wscale matches Some(s) ==> s <= 14,
        syn.wscale matches Some(s) ==> s <= 14,
    ensures
        ConnModel::accepted(cfg, params, local, remote, iss, syn, rcv_cap).inv(),
{
    open_establishes_invariant(cfg, params, local, remote, iss, syn, rcv_cap);
}

proof fn lemma_written_inv(m: ConnModel, data: Seq<u8>, cap: int)
    requires
        m.inv(),
        m.snd.len() <= cap <= MAX_CAPACITY,
    ensures
        m.written(data, cap).0.inv(),
{
    reveal(ConnModel::inv);
}

proof fn lemma_taken_inv(m: ConnModel, n: int)
    requires
        m.inv(),
        0 <= n <= m.rcv.readable,
    ensures
        m.taken(n).inv(),
        m.rcv.consume(n).window.len() == m.rcv.window.len(),
{
    reveal(ConnModel::inv);
    reveal(fin_bounds_text);
    consume_keeps_invariant(m.rcv, n);
}

proof fn lemma_shut_inv(m: ConnModel, fx: FxModel)
    requires
        m.inv(),
    ensures
        m.shut(fx).0.inv(),
{
    lemma_closed_inv(m, CloseReason::Normal, fx);
    reveal(ConnModel::inv);
}

/// Every application call keeps the invariant.
pub proof fn calls_keep_invariant(m: ConnModel, data: Seq<u8>, cap: int, n: int, fx: FxModel)
    requires
        m.inv(),
        m.snd.len() <= cap <= MAX_CAPACITY,
        0 <= n <= m.rcv.readable,
    ensures
        m.written(data, cap).0.inv(),
        m.taken(n).inv(),
        m.shut(fx).0.inv(),
        m.closed(CloseReason::Aborted, fx).0.inv(),
{
    lemma_written_inv(m, data, cap);
    lemma_taken_inv(m, n);
    lemma_shut_inv(m, fx);
    lemma_closed_inv(m, CloseReason::Aborted, fx);
}

proof fn lemma_rexmit_fired_inv(m: ConnModel, now: Instant, fx: FxModel)
    requires
        m.inv(),
    ensures
        m.rexmit_fired(now, fx).0.inv(),
{
    reveal(ConnModel::rexmit_fired);
    assert(m.tcb.scalars_ok()) by {
        lemma_inv_scalars(m);
    }
    lemma_closed_inv(m, CloseReason::TimedOut, fx);
    let f = m.rexmit_fired(now, fx).0;
    if !(f.tcb.state is Closed) {
        lemma_inv_frame(m, f);
    } else if m.tcb.state is Closed {
        lemma_inv_frame(m, f);
    }
}

/// Every timer expiry keeps the invariant.
pub proof fn timers_keep_invariant(m: ConnModel, now: Instant, kind: TimerKind, fx: FxModel)
    requires
        m.inv(),
    ensures
        m.fired(now, kind, fx).0.inv(),
{
    assert(m.tcb.scalars_ok()) by {
        lemma_inv_scalars(m);
    }
    let c = m.timer_cleared(kind);
    lemma_inv_frame(m, c);
    reveal(ConnModel::fire_handled);
    match kind {
        TimerKind::Rexmit => {
            lemma_rexmit_fired_inv(c, now, fx);
        },
        TimerKind::Persist => {
            reveal(ConnModel::persist_fired);
            lemma_closed_inv(c, CloseReason::TimedOut, fx);
            let p = c.persist_fired(now, fx).0;
            if m.timer_due(now, kind) && c.tcb.persist_count < c.tcb.cfg.max_persist_retries {
                lemma_inv_frame(c, p);
            }
        },
        TimerKind::DelAck => {
            reveal(ConnModel::del_ack_fired);
            lemma_inv_frame(c, c.del_ack_fired());
        },
        TimerKind::Wait => {
            reveal(ConnModel::wait_fired);
            lemma_closed_inv(c, CloseReason::TimedOut, fx);
            lemma_closed_inv(c, CloseReason::Normal, fx);
        },
    }
}

proof fn lemma_cc_wf(m: ConnModel)
    requires
        m.inv(),
    ensures
        m.tcb.cc.wf(),
{
    lemma_inv_scalars(m);
}

proof fn lemma_path_shrunk_inv(m: ConnModel, now: Instant, mss: u16)
    requires
        m.inv(),
    ensures
        m.path_shrunk(now, mss).inv(),
{
    assert(m.tcb.scalars_ok()) by {
        lemma_inv_scalars(m);
    }
    lemma_inv_frame(m, m.path_shrunk(now, mss));
}

proof fn lemma_path_aged_inv(m: ConnModel, now: Instant)
    requires
        m.inv(),
    ensures
        m.path_aged(now).inv(),
{
    assert(m.tcb.scalars_ok()) by {
        lemma_inv_scalars(m);
    }
    lemma_inv_frame(m, m.path_aged(now));
}

/// Path-MTU changes and ICMP errors keep the invariant.
pub proof fn path_signals_keep_invariant(m: ConnModel, now: Instant, mss: u16, fx: FxModel)
    requires
        m.inv(),
    ensures
        m.path_shrunk(now, mss).inv(),
        m.path_aged(now).inv(),
        m.unreachable(fx).0.inv(),
{
    lemma_path_shrunk_inv(m, now, mss);
    lemma_path_aged_inv(m, now);
    lemma_closed_inv(m, CloseReason::Unreachable, fx);
}

pub proof fn lemma_soft_change_inv(a: ConnModel, b: ConnModel)
    requires
        a.inv(),
        b == a.with(b.tcb),
        b.tcb == (Tcb {
            ack_state: b.tcb.ack_state,
            timers: Timers { persist: a.tcb.timers.persist, ..b.tcb.timers },
            reported: b.tcb.reported,
            ..a.tcb
        }),
    ensures
        b.inv(),
{
    assert(a.tcb.scalars_ok()) by {
        lemma_inv_scalars(a);
    }
    lemma_inv_frame(a, b);
}

/// Fields and options of a SYN that opens a connection passively.
#[derive(Debug, Clone, Copy, PartialEq, Eq, Structural)]
pub struct PeerSyn {
    /// Its sequence number.
    pub seq: SeqNr,
    /// Its window field.
    pub window: u16,
    /// MSS option.
    pub mss: Option<u16>,
    /// Window-scale option.
    pub wscale: Option<u8>,
    /// SACK-permitted option.
    pub sack_permitted: bool,
}

impl<const SND: usize, const RCV: usize> Connection<SND, RCV> {
    /// Well-formedness: the buffers' own, capacities within bounds, and the
    /// invariant of the model.
    pub open spec fn wf(&self) -> bool {
        &&& self.parts_wf()
        &&& self@.inv()
    }

    /// Well-formedness of the buffers and the scoreboard.
    pub open spec fn parts_wf(&self) -> bool {
        &&& self.send_buf.wf()
        &&& self.recv_buf.wf()
        &&& self.scoreboard.wf()
        &&& SND <= MAX_CAPACITY
        &&& RCV <= MAX_CAPACITY
    }

    /// Active open (RFC 9293 section 3.10.1): a SYN will be emitted at next
    /// poll.
    pub fn client(
        cfg: &Config,
        params: ConnParams,
        local: SocketAddr,
        remote: SocketAddr,
        iss: SeqNr,
    ) -> (r: Self)
        requires
            SND <= MAX_CAPACITY,
            RCV <= MAX_CAPACITY,
            params.offer_wscale matches Some(s) ==> s <= 14,
        ensures
            r.wf(),
            r@ == ConnModel::opened(*cfg, params, local, remote, iss, RCV as nat),
    {
        proof {
            lemma_opened_inv(*cfg, params, local, remote, iss, RCV as nat);
        }
        let t = Tcb::new(cfg, params, local, remote, iss);
        let tcb = Tcb {
            state: State::SynSent,
            cc: CongestionControl::new(t.eff_send_mss() as u32),
            ..t
        };
        Connection {
            tcb,
            send_buf: SendBuffer::new(),
            recv_buf: RecvBuffer::new(),
            scoreboard: SackScoreboard::new(),
        }
    }

    /// Passive open from a received SYN (stack/listener already validated
    /// addressing).
    pub fn server(
        cfg: &Config,
        params: ConnParams,
        local: SocketAddr,
        remote: SocketAddr,
        iss: SeqNr,
        syn: PeerSyn,
    ) -> (r: Self)
        requires
            SND <= MAX_CAPACITY,
            RCV <= MAX_CAPACITY,
            params.offer_wscale matches Some(s) ==> s <= 14,
            syn.wscale matches Some(s) ==> s <= 14,
        ensures
            r.wf(),
            r@ == ConnModel::accepted(*cfg, params, local, remote, iss, syn, RCV as nat),
    {
        proof {
            lemma_accepted_inv(*cfg, params, local, remote, iss, syn, RCV as nat);
        }
        // RFC 7323 section 2.2: window fields in SYN segments are never
        // scaled.
        let t = Tcb {
            state: State::SynReceived,
            passive: true,
            listener_port: local.port,
            irs: syn.seq,
            rcv_nxt: syn.seq.add(1),
            snd_wnd: syn.window as u32,
            snd_max_wnd: syn.window as u32,
            snd_wl1: syn.seq,
            snd_wl2: iss,
            ..Tcb::new(cfg, params, local, remote, iss)
        };
        let tcb = t.apply_syn_options(syn.mss, syn.wscale, syn.sack_permitted);
        Connection {
            tcb,
            send_buf: SendBuffer::new(),
            recv_buf: RecvBuffer::new(),
            scoreboard: SackScoreboard::new(),
        }
    }

    // ----- Introspection used by the stack -----

    /// Current state.
    pub fn state(&self) -> (r: State)
        ensures
            r == self@.tcb.state,
    {
        self.tcb.state
    }

    /// Local endpoint.
    pub fn local(&self) -> (r: SocketAddr)
        ensures
            r == self@.tcb.local,
    {
        self.tcb.local
    }

    /// Remote endpoint.
    pub fn remote(&self) -> (r: SocketAddr)
        ensures
            r == self@.tcb.remote,
    {
        self.tcb.remote
    }

    /// True once the connection has fully terminated and the slot can be
    /// reclaimed.
    pub fn is_closed(&self) -> (r: bool)
        ensures
            r == (self@.tcb.state is Closed),
    {
        self.tcb.state == State::Closed
    }

    /// Was this connection accepted via a listener?
    pub fn accepted_on(&self) -> (r: Option<u16>)
        ensures
            r == if self@.tcb.passive {
                Some(self@.tcb.listener_port)
            } else {
                None
            },
    {
        if self.tcb.passive {
            Some(self.tcb.listener_port)
        } else {
            None
        }
    }

    /// Desired deadline for each timer kind (stack reconciliation).
    pub fn timer_deadline(&self, kind: TimerKind) -> (r: Option<Instant>)
        ensures
            r == self@.tcb.timers.get(kind),
    {
        self.tcb.timers.get(kind)
    }

    /// Send-sequence variables `(SND.UNA, SND.NXT, SND.WND)`: test/diag aid.
    pub fn snd_state(&self) -> (r: (u32, u32, u32))
        ensures
            r == (self@.tcb.snd_una.0, self@.tcb.snd_nxt.0, self@.tcb.snd_wnd),
    {
        (self.tcb.snd_una.0, self.tcb.snd_nxt.0, self.tcb.snd_wnd)
    }

    /// Receive-sequence variable RCV.NXT: test/diag aid.
    pub fn rcv_nxt(&self) -> (r: u32)
        ensures
            r == self@.tcb.rcv_nxt.0,
    {
        self.tcb.rcv_nxt.0
    }

    /// Negotiated options `(peer_mss, snd_scale, rcv_scale, sack)`: diag aid.
    pub fn negotiated(&self) -> (r: (u16, u8, u8, bool))
        ensures
            r == (
                self@.tcb.peer_mss,
                self@.tcb.snd_scale,
                self@.tcb.rcv_scale,
                self@.tcb.sack_enabled,
            ),
    {
        (self.tcb.peer_mss, self.tcb.snd_scale, self.tcb.rcv_scale, self.tcb.sack_enabled)
    }

    // ----- Application API (call events) -----

    /// Queue application data; returns bytes accepted (0 means backpressure,
    /// a [`ConnEvent::Writable`] will follow when space frees).
    pub fn send(&mut self, data: &[u8]) -> (r: Result<usize, Error>)
        requires
            old(self).wf(),
        ensures
            (final(self)@, r) == old(self)@.written(data@, SND as int),
            final(self).wf(),
    {
        proof {
            self.send_buf.lemma_len_bounded();
            lemma_written_inv(self@, data@, SND as int);
        }
        if !self.tcb.state.may_send() || self.tcb.fin_queued {
            return Err(
                if self.tcb.state == State::Closed {
                    Error::ConnectionGone
                } else {
                    Error::InvalidState
                },
            );
        }
        let n: usize = self.send_buf.write(data);
        let app_blocked = self.tcb.app_blocked || n < data.len();
        self.tcb = Tcb { app_blocked, ..self.tcb };
        Ok(n)
    }

    /// Read received data; `Ok(0)` means no data *currently* (or EOF if the
    /// peer FIN was delivered: the caller distinguishes via
    /// [`ConnEvent::PeerFin`]).
    pub fn recv(&mut self, out: &mut [u8]) -> (r: Result<usize, Error>)
        requires
            old(self).wf(),
        ensures
            ({
                let n = old(self)@.readable_into(old(out)@.len() as int);
                &&& r == Ok::<usize, Error>(n as usize)
                &&& final(out)@ == old(self)@.rcv.pending().take(n) + old(out)@.skip(n)
                &&& final(self)@ == old(self)@.taken(n)
            }),
            final(self).wf(),
    {
        let ghost n0 = self@.readable_into(out@.len() as int);
        proof {
            self.recv_buf.lemma_model_wf();
        }
        proof {
            lemma_taken_inv(self@, n0);
        }
        let n: usize = self.recv_buf.read(out);
        if n > 0 {
            let grown: u32 = self.recv_buf.window().saturating_sub(self.tcb.last_wnd_advertised);
            let mss: u32 = self.tcb.params.local_mss as u32;
            let half: u32 = RCV as u32 / 2;
            let threshold: u32 = if mss < half {
                mss
            } else {
                half
            };
            if grown >= threshold && self.tcb.state.synchronized() {
                self.tcb = self.tcb.owe_ack_now();
            }
        }
        Ok(n)
    }

    /// Graceful close (RFC 9293 section 3.10.4): no more sends; FIN after
    /// queued data drains. Receiving continues until the peer's FIN.
    pub fn close(&mut self, fx: &mut Effects) -> (r: Result<(), Error>)
        requires
            old(self).wf(),
            old(fx).wf(),
        ensures
            (final(self)@, final(fx)@, r) == old(self)@.shut(old(fx)@),
            final(self).wf(),
            final(fx).wf(),
    {
        proof {
            lemma_shut_inv(self@, fx@);
        }
        match self.tcb.state {
            State::SynSent => {
                // Nothing on the wire the peer accepted: just delete.
                self.enter_closed(CloseReason::Normal, fx);
                Ok(())
            },
            State::SynReceived | State::Established => {
                self.tcb = Tcb { fin_queued: true, state: State::FinWait1, ..self.tcb };
                Ok(())
            },
            State::CloseWait => {
                self.tcb = Tcb { fin_queued: true, state: State::LastAck, ..self.tcb };
                Ok(())
            },
            State::Closed => Err(Error::ConnectionGone),
            _ => Err(Error::InvalidState),
        }
    }

    /// Abort (RFC 9293 section 3.10.5): RST to the peer, everything
    /// discarded. The stack emits the RST that is returned.
    pub fn abort(&mut self, fx: &mut Effects) -> (r: Option<ResetReply>)
        requires
            old(self).wf(),
            old(fx).wf(),
        ensures
            (final(self)@, final(fx)@) == old(self)@.closed(CloseReason::Aborted, old(fx)@),
            r == old(self)@.abort_reset(),
            final(self).wf(),
            final(fx).wf(),
    {
        proof {
            lemma_closed_inv(self@, CloseReason::Aborted, fx@);
        }
        let rst = match self.tcb.state {
            State::SynSent | State::TimeWait | State::Closed => None,
            _ => Some(ResetReply { seq: self.tcb.snd_nxt, ack: Some(self.tcb.rcv_nxt) }),
        };
        self.enter_closed(CloseReason::Aborted, fx);
        rst
    }

    /// Close for `reason`. A passive connection that never reached the
    /// application (e.g. RST while SYN-RECEIVED, RFC 9293 section 3.10.7.4:
    /// "return to LISTEN") dies silently: the app never saw a handle for it.
    pub(crate) fn enter_closed(&mut self, reason: CloseReason, fx: &mut Effects)
        requires
            old(self).parts_wf(),
            old(fx).wf(),
        ensures
            (final(self)@, final(fx)@) == old(self)@.closed(reason, old(fx)@),
            final(self).parts_wf(),
            final(fx).wf(),
    {
        if self.tcb.state != State::Closed {
            self.tcb = Tcb {
                state: State::Closed,
                close_reason: Some(reason),
                timers: Timers::none(),
                ..self.tcb
            };
            if self.tcb.reported || !self.tcb.passive {
                fx.event(ConnEvent::Closed(reason));
            }
        }
    }

    // ----- Timer expirations -----

    /// Handle a virtual-timer expiry. A stale fire (of a timer that is not
    /// wanted any more, or that was since rescheduled to later) is ignored.
    pub fn on_timer(&mut self, now: Instant, kind: TimerKind, fx: &mut Effects)
        requires
            old(self).wf(),
            old(fx).wf(),
        ensures
            (final(self)@, final(fx)@) == old(self)@.fired(now, kind, old(fx)@),
            final(self).wf(),
            final(fx).wf(),
    {
        proof {
            timers_keep_invariant(self@, now, kind, fx@);
            lemma_cc_wf(self@);
        }
        let due = match self.tcb.timers.get(kind) {
            None => false,
            Some(d) => d.micros <= now.micros,
        };
        if due {
            self.tcb = self.tcb.clear_timer(kind);
            self.handle_fire(now, kind, fx);
        }
    }

    fn handle_fire(&mut self, now: Instant, kind: TimerKind, fx: &mut Effects)
        requires
            old(self).parts_wf(),
            old(self)@.tcb.cc.wf(),
            old(fx).wf(),
        ensures
            (final(self)@, final(fx)@) == old(self)@.fire_handled(now, kind, old(fx)@),
            final(self).parts_wf(),
            final(fx).wf(),
    {
        proof {
            reveal(ConnModel::fire_handled);
        }
        match kind {
            TimerKind::Rexmit => self.on_rexmit_timer(now, fx),
            TimerKind::Persist => self.on_persist_timer(now, fx),
            TimerKind::DelAck => self.on_del_ack_timer(),
            TimerKind::Wait => self.on_wait_timer(fx),
        }
    }

    fn on_del_ack_timer(&mut self)
        requires
            old(self).parts_wf(),
        ensures
            final(self)@ == old(self)@.del_ack_fired(),
            final(self).parts_wf(),
    {
        proof {
            reveal(ConnModel::del_ack_fired);
        }
        if self.tcb.ack_state == AckState::Delayed {
            self.tcb = Tcb { ack_state: AckState::Now, ..self.tcb };
        }
    }

    fn on_wait_timer(&mut self, fx: &mut Effects)
        requires
            old(self).parts_wf(),
            old(fx).wf(),
        ensures
            (final(self)@, final(fx)@) == old(self)@.wait_fired(old(fx)@),
            final(self).parts_wf(),
            final(fx).wf(),
    {
        proof {
            reveal(ConnModel::wait_fired);
        }
        if self.tcb.state == State::TimeWait {
            self.enter_closed(CloseReason::Normal, fx);
        } else if self.tcb.state == State::FinWait2 {
            self.enter_closed(CloseReason::TimedOut, fx);
        }
    }

    fn on_rexmit_timer(&mut self, now: Instant, fx: &mut Effects)
        requires
            old(self).parts_wf(),
            old(self)@.tcb.cc.wf(),
            old(fx).wf(),
        ensures
            (final(self)@, final(fx)@) == old(self)@.rexmit_fired(now, old(fx)@),
            final(self).parts_wf(),
            final(fx).wf(),
    {
        proof {
            reveal(ConnModel::rexmit_fired);
        }
        let handshake = self.tcb.state == State::SynSent || self.tcb.state == State::SynReceived;
        let flight: u32 = self.tcb.bytes_in_flight();
        if !handshake && flight == 0 && !self.tcb.fin_outstanding() {
            return;
        }
        let budget: u8 = if handshake {
            self.tcb.cfg.max_syn_retries
        } else {
            self.tcb.cfg.max_data_retries
        };
        if self.tcb.rexmit_count >= budget {
            self.enter_closed(CloseReason::TimedOut, fx);
            return;
        }
        let mut rtt = self.tcb.rtt;
        rtt.backoff();
        if handshake {
            self.tcb = Tcb {
                rexmit_count: self.tcb.rexmit_count + 1,
                rtt,
                syn_pending: true,
                rtt_sample: None,
                ..self.tcb
            };
        } else {
            // RFC 6298 sections 5.4-5.7: back off, retransmit the earliest
            // unacknowledged segment, restart the timer. RFC 2018 section 8:
            // the scoreboard may be stale if the receiver reneged; forget it.
            let mut cc = self.tcb.cc;
            cc.on_rto(flight);
            self.scoreboard.clear();
            self.tcb = Tcb {
                rexmit_count: self.tcb.rexmit_count + 1,
                rtt,
                rtt_sample: None,
                cc,
                recovery: None,
                dupacks: 0,
                rexmit_now: true,
                ..self.tcb
            };
        }
        self.tcb = self.tcb.restart_rexmit(now);
    }

    fn on_persist_timer(&mut self, now: Instant, fx: &mut Effects)
        requires
            old(self).parts_wf(),
            old(fx).wf(),
        ensures
            (final(self)@, final(fx)@) == old(self)@.persist_fired(now, old(fx)@),
            final(self).parts_wf(),
            final(fx).wf(),
    {
        proof {
            reveal(ConnModel::persist_fired);
        }
        if self.tcb.persist_count >= self.tcb.cfg.max_persist_retries {
            self.enter_closed(CloseReason::TimedOut, fx);
            return;
        }
        let t = Tcb {
            probe_pending: true,
            persist_count: self.tcb.persist_count + 1,
            ..self.tcb
        };
        self.tcb = t.arm_persist(now);
    }

    /// Recompute retransmission and persist timer demand after any state
    /// change. Called at the end of every input and every planned segment.
    pub fn update_send_timers(&mut self, now: Instant)
        requires
            old(self).wf(),
        ensures
            final(self)@ == old(self)@.timers_updated(now),
            final(self).wf(),
    {
        proof {
            lemma_timers_updated_inv(self@, now);
        }
        let has_data = !self.send_buf.is_empty();
        self.tcb = self.tcb.settle_rexmit(now).settle_persist(now, has_data);
    }

    // ----- Path MTU and ICMP -----

    /// Path MTU changed (stack plumbs ICMP signals here). A shrink triggers
    /// an immediate retransmission sized to the new MSS (RFC 1191 section 3);
    /// it does not count against the retry budget and does not collapse cwnd,
    /// since nothing was lost to congestion. A larger report is ignored:
    /// estimates recover only by aging out.
    pub fn on_pmtu_change(&mut self, now: Instant, pmtu_mss: u16)
        requires
            old(self).wf(),
        ensures
            final(self)@ == old(self)@.path_shrunk(now, pmtu_mss),
            final(self).wf(),
    {
        proof {
            lemma_path_shrunk_inv(self@, now, pmtu_mss);
            lemma_cc_wf(self@);
        }
        if pmtu_mss < self.tcb.pmtu_mss {
            let t = Tcb { pmtu_mss, pmtu_expires: Some(now + pmtu_ttl()), ..self.tcb };
            let mut cc = t.cc;
            cc.set_mss(t.eff_send_mss() as u32);
            let c = Tcb { cc, ..t };
            self.tcb = if c.bytes_in_flight() > 0 {
                Tcb { rexmit_now: true, rtt_sample: None, ..c }
            } else {
                c
            };
        }
    }

    /// Return to the path MSS known at creation once a lowered one has aged
    /// out (RFC 1191 section 6.3).
    pub fn maybe_age_pmtu(&mut self, now: Instant)
        requires
            old(self).wf(),
        ensures
            final(self)@ == old(self)@.path_aged(now),
            final(self).wf(),
    {
        proof {
            lemma_path_aged_inv(self@, now);
            lemma_cc_wf(self@);
        }
        if let Some(at) = self.tcb.pmtu_expires {
            if at.micros <= now.micros {
                let t = Tcb {
                    pmtu_mss: self.tcb.params.pmtu_mss,
                    pmtu_expires: None,
                    ..self.tcb
                };
                let mut cc = t.cc;
                cc.set_mss(t.eff_send_mss() as u32);
                self.tcb = Tcb { cc, ..t };
            }
        }
    }

    /// RFC 5927 section 4 mitigation: an ICMP error quoting one of our
    /// segments is only honored if the quoted sequence number could currently
    /// be in flight.
    pub fn icmp_quote_plausible(&self, seq: SeqNr) -> (r: bool)
        ensures
            r == self@.quote_plausible(seq),
    {
        let span: u32 = self.tcb.outstanding();
        seq.in_window(
            self.tcb.snd_una,
            if span > 1 {
                span
            } else {
                1
            },
        )
    }

    /// An ICMP hard error (port/protocol unreachable) for this connection.
    /// RFC 1122 section 4.2.3.9: abort in SYN-SENT/SYN-RECEIVED; for
    /// synchronized states it is advisory (resilience against ICMP spoofing,
    /// RFC 5927 section 4).
    pub fn on_icmp_unreachable(&mut self, fx: &mut Effects)
        requires
            old(self).wf(),
            old(fx).wf(),
        ensures
            (final(self)@, final(fx)@) == old(self)@.unreachable(old(fx)@),
            final(self).wf(),
            final(fx).wf(),
    {
        proof {
            lemma_closed_inv(self@, CloseReason::Unreachable, fx@);
        }
        if self.tcb.state == State::SynSent || self.tcb.state == State::SynReceived {
            self.enter_closed(CloseReason::Unreachable, fx);
        }
    }

    /// Whether a `Connected` that could not be delivered must be offered
    /// again.
    pub fn needs_connected_event(&self) -> (r: bool)
        ensures
            r == self@.connected_unreported(),
    {
        !self.tcb.reported && (self.tcb.state == State::Established || self.tcb.state
            == State::CloseWait)
    }

    /// Record whether the application knows of the connection.
    pub fn set_reported(&mut self, reported: bool)
        requires
            old(self).wf(),
        ensures
            final(self)@ == old(self)@.with(Tcb { reported, ..old(self)@.tcb }),
            final(self).wf(),
    {
        self.tcb = Tcb { reported, ..self.tcb };
        proof {
            lemma_soft_change_inv(old(self)@, self@);
        }
    }

    /// Internal-consistency checks, as a diagnostic; they hold of every
    /// well-formed connection.
    pub fn check_invariants(&self) -> (r: bool)
        requires
            self.parts_wf(),
        ensures
            r == self@.consistent(),
            self.wf() ==> r,
    {
        proof {
            if self.wf() {
                invariant_implies_consistency(self@);
            }
        }
        let t = &self.tcb;
        // SND.UNA <= SND.NXT, less than a window apart.
        let window_ok = t.outstanding() < 0x4000_0000;
        // What is outstanding is backed by the buffer and control bits.
        let backed = t.bytes_in_flight() as usize <= self.send_buf.len();
        // The scoreboard and the recovery point never exceed SND.NXT.
        let board_ok = match self.scoreboard.high_sacked() {
            Some(h) => h.le(t.snd_nxt),
            None => true,
        };
        let recovery_ok = match t.recovery {
            Some(p) => p.le(t.snd_nxt),
            None => true,
        };
        // A FIN is queued in the states that follow a close.
        let fin_ok = t.fin_queued || !matches!(
            t.state,
            State::FinWait1 | State::Closing | State::LastAck
        );
        window_ok && backed && board_ok && recovery_ok && fin_ok && t.snd_scale <= 14
            && t.rcv_scale <= 14
    }

    /// The stack granted a rate-limited challenge ACK (RFC 5961 section 10).
    pub fn grant_challenge(&mut self)
        requires
            old(self).wf(),
        ensures
            final(self)@ == old(self)@.with(old(self)@.tcb.ack_now()),
            final(self).wf(),
    {
        self.tcb = self.tcb.owe_ack_now();
        proof {
            lemma_soft_change_inv(old(self)@, self@);
        }
    }
}

} // verus!
