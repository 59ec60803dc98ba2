//! Segment planning: decide what (single) segment to emit next.
//!
//! `next_segment` is called repeatedly by the stack's `poll_action`; each
//! call commits to one segment (state such as SND.NXT advances here), which
//! the stack serializes and transmits immediately. Priority order: head
//! retransmission, SACK-hole retransmission, new data, FIN, zero-window
//! probe, pure ACK.
use super::model::{
    lemma_inv_frame, lemma_inv_scalars, lemma_timers_updated_inv, scale_factor, scale_factor_of,
    MAX_WND,
};
use super::{AckState, ConnModel, Connection, Tcb, Timers};
use crate::tcp::cc::{greater, lesser};
use crate::tcp::sack::{
    board_next_hole, board_total, holes_lie_between_ranges, sacked_bytes_are_outstanding,
};
use crate::tcp::seq::SeqNr;
use crate::tcp::State;
use crate::time::Instant;
use crate::util::BoundedVec;
use crate::wire::tcp::TcpFlags;
use vstd::prelude::*;

verus! {

/// Options carried only on SYN / SYN-ACK segments.
#[derive(Debug, Clone, Copy, PartialEq, Eq, Structural)]
pub struct SynOpts {
    /// MSS we advertise (RFC 9293 section 3.7.1).
    pub mss: u16,
    /// Window-scale shift to send (RFC 7323 section 2.2).
    pub wscale: Option<u8>,
    /// SACK-permitted (RFC 2018 section 2).
    pub sack_permitted: bool,
}

/// One planned segment. `payload_off` is relative to SND.UNA at plan time;
/// the stack serializes immediately, so the offset cannot go stale.
#[derive(Debug, Clone, Copy)]
pub struct SegmentPlan {
    /// Sequence number.
    pub seq: SeqNr,
    /// Acknowledgment number (sets the ACK flag when present).
    pub ack: Option<SeqNr>,
    /// SYN/FIN/PSH flags (ACK implied by `ack`).
    pub flags: TcpFlags,
    /// Window field value, already scaled down.
    pub window: u16,
    /// Payload offset from SND.UNA in the send buffer.
    pub payload_off: u32,
    /// Payload length.
    pub payload_len: u32,
    /// SYN options, present on SYN/SYN-ACK only.
    pub syn_opts: Option<SynOpts>,
    /// SACK blocks (absolute sequence numbers) to advertise (RFC 2018
    /// section 4).
    pub sack_blocks: BoundedVec<(u32, u32), 4>,
}

/// Model of a planned segment.
pub struct PlanModel {
    /// Sequence number.
    pub seq: SeqNr,
    /// Acknowledgment number.
    pub ack: Option<SeqNr>,
    /// SYN/FIN/PSH flags.
    pub flags: TcpFlags,
    /// Window field.
    pub window: u16,
    /// Offset of the text in the send buffer.
    pub payload_off: u32,
    /// Length of the text.
    pub payload_len: u32,
    /// SYN options.
    pub syn_opts: Option<SynOpts>,
    /// SACK blocks.
    pub sack_blocks: Seq<(u32, u32)>,
}

impl View for SegmentPlan {
    type V = PlanModel;

    open spec fn view(&self) -> PlanModel {
        PlanModel {
            seq: self.seq,
            ack: self.ack,
            flags: self.flags,
            window: self.window,
            payload_off: self.payload_off,
            payload_len: self.payload_len,
            syn_opts: self.syn_opts,
            sack_blocks: self.sack_blocks@,
        }
    }
}

/// A plan, with the control block after it, as model values.
pub open spec fn planned(r: Option<(Tcb, SegmentPlan)>) -> Option<(Tcb, PlanModel)> {
    match r {
        Some((t, p)) => Some((t, p@)),
        None => None,
    }
}

/// Bytes of TCP-option area that `n` SACK blocks take on the wire: two NOPs,
/// kind, length, and eight per block.
pub open spec fn sack_option_len(n: int) -> int {
    if n == 0 {
        0
    } else {
        4 + 8 * n
    }
}

impl PlanModel {
    /// A segment that carries our ACK, a window field and SACK blocks.
    pub open spec fn acking(
        t: Tcb,
        seq: SeqNr,
        flags: TcpFlags,
        wnd: u32,
        off: u32,
        len: u32,
        blocks: Seq<(u32, u32)>,
    ) -> PlanModel {
        PlanModel {
            seq,
            ack: Some(t.rcv_nxt),
            flags,
            window: t.window_field(wnd),
            payload_off: off,
            payload_len: len,
            syn_opts: None,
            sack_blocks: blocks,
        }
    }
}

impl Tcb {
    /// The field that announces a window of `wnd` bytes (RFC 7323 section
    /// 2.3: shifted right by our scale).
    pub open spec fn window_field(self, wnd: u32) -> u16 {
        lesser((wnd / scale_factor(self.rcv_scale)) as int, 0xffff) as u16
    }

    /// After a segment with our ACK and a window of `wnd` bytes was sent:
    /// nothing is owed, and what the peer perceives is known.
    #[verifier::opaque]
    pub open spec fn ack_sent(self, wnd: u32) -> Tcb {
        let seen = (self.window_field(wnd) * scale_factor(self.rcv_scale)) as u32;
        Tcb {
            last_wnd_advertised: seen,
            ack_state: AckState::Idle,
            segs_since_ack: 0,
            timers: Timers { del_ack: None, ..self.timers },
            ..self
        }
    }

    /// Plan a SYN (active) or SYN-ACK (passive, simultaneous open). The
    /// window field in a SYN segment is not scaled; a SYN-ACK echoes only
    /// what the peer's SYN enabled (RFC 7323 section 2.2, RFC 2018 section
    /// 2). The handshake is timed, unless it is a retransmission.
    #[verifier::opaque]
    pub open spec fn syn_planned(self, now: Instant, with_ack: bool, wnd: u32) -> Option<
        (Tcb, PlanModel),
    > {
        if !self.syn_pending {
            None
        } else {
            let window = lesser(wnd as int, 0xffff) as u16;
            let t = self.rexmit_started(now);
            Some(
                (
                    Tcb {
                        syn_pending: false,
                        rtt_sample: if self.rexmit_count == 0 {
                            Some((self.snd_nxt, now))
                        } else {
                            self.rtt_sample
                        },
                        last_wnd_advertised: window as u32,
                        ack_state: AckState::Idle,
                        segs_since_ack: 0,
                        timers: Timers { del_ack: None, ..t.timers },
                        ..t
                    },
                    PlanModel {
                        seq: self.iss,
                        ack: if with_ack {
                            Some(self.rcv_nxt)
                        } else {
                            None
                        },
                        flags: TcpFlags(0x02),
                        window,
                        payload_off: 0,
                        payload_len: 0,
                        syn_opts: Some(
                            SynOpts {
                                mss: self.params.local_mss,
                                wscale: if !with_ack {
                                    self.params.offer_wscale
                                } else if self.wscale_on {
                                    Some(self.rcv_scale)
                                } else {
                                    None
                                },
                                sack_permitted: if with_ack {
                                    self.sack_enabled
                                } else {
                                    self.params.offer_sack
                                },
                            },
                        ),
                        sack_blocks: Seq::empty(),
                    },
                ),
            )
        }
    }

    /// After the head of the outstanding data was sent again, `len` bytes of
    /// it. Nothing that covers it can be timed (Karn), and the SACK recovery
    /// goes on behind it.
    #[verifier::opaque]
    pub open spec fn head_resent(self, now: Instant, len: u32) -> Tcb {
        let end = self.snd_una.add(greater(len as int, 1) as u32);
        Tcb {
            rtt_sample: None,
            sack_cursor: if self.sack_enabled && self.sack_cursor.lt(end) {
                end
            } else {
                self.sack_cursor
            },
            ..self.rexmit_started(now)
        }
    }

    /// After `len` bytes of new data were sent, with the FIN if it ends the
    /// stream.
    #[verifier::opaque]
    pub open spec fn data_sent_on(self, now: Instant, len: u32, fin: bool) -> Tcb {
        let end = self.snd_nxt.add(len);
        let nxt = if fin {
            end.add(1)
        } else {
            end
        };
        Tcb {
            snd_nxt: nxt,
            fin_seq: if fin {
                Some(end)
            } else {
                self.fin_seq
            },
            rtt_sample: if self.rtt_sample is None && self.recovery is None {
                Some((nxt, now))
            } else {
                self.rtt_sample
            },
            ..self.rexmit_started(now)
        }
    }

    /// Whether data may leave: wherever the local side may still send, or is
    /// draining what was queued ahead of a FIN (RFC 9293 section 3.10.4).
    pub open spec fn drains(self) -> bool {
        self.state is Established || self.state is CloseWait || self.state is FinWait1
            || self.state is Closing || self.state is LastAck
    }

    /// Whether SACK recovery fills holes: not before our SYN is acknowledged,
    /// as the peer cannot hold anything behind it before.
    pub open spec fn fills_holes(self) -> bool {
        self.syn_acked && self.recovery is Some && self.sack_enabled
    }

    /// How many more sequence numbers the peer's window and the congestion
    /// window allow.
    pub open spec fn usable_window(self) -> u32 {
        greater(lesser(self.snd_wnd as int, self.cc.cwnd as int) - self.flight(), 0) as u32
    }
}

impl ConnModel {
    /// SACK blocks describing our out-of-order queue (RFC 2018 section 4).
    #[verifier::opaque]
    pub open spec fn blocks_out(self) -> Seq<(u32, u32)> {
        if self.tcb.sack_enabled {
            self.rcv.sack_ranges(4).map_values(
                |r: (u32, u32)| (self.tcb.rcv_nxt.add(r.0).0, self.tcb.rcv_nxt.add(r.1).0),
            )
        } else {
            Seq::empty()
        }
    }

    /// How much text fits a segment next to our SACK blocks (RFC 6691: the
    /// MSS covers the options).
    pub open spec fn text_mss(self) -> u32 {
        greater(self.tcb.eff_mss() - sack_option_len(self.blocks_out().len() as int), 1) as u32
    }

    /// Plan to send the earliest unacknowledged segment again: the SYN as
    /// long as that is unacknowledged; otherwise data and, right behind it,
    /// the FIN.
    #[verifier::opaque]
    pub open spec fn head_rexmit(self, now: Instant) -> Option<(Tcb, PlanModel)> {
        let t = self.tcb;
        let wnd = self.open_window();
        if !t.syn_acked {
            Tcb { syn_pending: true, ..t }.syn_planned(now, !(t.state is SynSent), wnd)
        } else {
            let len = lesser(t.data_sent() as int, self.text_mss() as int) as u32;
            let fin = t.fin_seq matches Some(f) && f == t.snd_una.add(len) && f.lt(t.snd_nxt);
            if len == 0 && !fin {
                None
            } else {
                Some(
                    (
                        t.head_resent(now, len).ack_sent(wnd),
                        PlanModel::acking(
                            t,
                            t.snd_una,
                            TcpFlags(
                                if fin && len > 0 {
                                    0x09
                                } else if fin {
                                    0x01
                                } else {
                                    0x08
                                },
                            ),
                            wnd,
                            0,
                            len,
                            self.blocks_out(),
                        ),
                    ),
                )
            }
        }
    }

    /// Where the next hole for SACK-based recovery is looked for.
    pub open spec fn hole_from(self) -> SeqNr {
        if self.tcb.sack_cursor.lt(self.tcb.snd_una) {
            self.tcb.snd_una
        } else {
            self.tcb.sack_cursor
        }
    }

    /// How much of a hole a segment fills: what is data, as far as the MSS
    /// allows.
    pub open spec fn hole_len(self, start: SeqNr, hole: u32) -> u32 {
        let data_end = self.tcb.snd_una.add(self.tcb.data_sent());
        if start.ge(data_end) {
            0
        } else {
            lesser(
                lesser(hole as int, start.distance_to(data_end)),
                self.text_mss() as int,
            ) as u32
        }
    }

    /// Plan to fill the hole at `start`. A hole behind the data is our FIN.
    #[verifier::opaque]
    pub open spec fn hole_filled(self, now: Instant, start: SeqNr, hole: u32) -> Option<
        (Tcb, PlanModel),
    > {
        let t = self.tcb;
        let fin = start.ge(t.snd_una.add(t.data_sent()));
        if fin && t.fin_seq is None {
            None
        } else {
            let len = self.hole_len(start, hole);
            let wnd = self.open_window();
            Some(
                (
                    Tcb {
                        sack_cursor: start.add(greater(len as int, 1) as u32),
                        rtt_sample: None,
                        ..t.rexmit_started(now)
                    }.ack_sent(wnd),
                    PlanModel::acking(
                        t,
                        start,
                        TcpFlags(
                            if fin {
                                0x01
                            } else {
                                0x08
                            },
                        ),
                        wnd,
                        start.since(t.snd_una),
                        len,
                        self.blocks_out(),
                    ),
                ),
            )
        }
    }

    /// Plan to fill the next hole below the highest selectively acknowledged
    /// number, while the pipe has room (RFC 6675 sections 4 and 5).
    #[verifier::opaque]
    pub open spec fn hole_rexmit(self, now: Instant) -> Option<(Tcb, PlanModel)> {
        if greater(self.tcb.data_sent() - board_total(self.board), 0) >= self.tcb.cc.cwnd {
            None
        } else {
            match board_next_hole(self.board, self.hole_from()) {
                None => None,
                Some((start, hole)) => self.hole_filled(now, start, hole),
            }
        }
    }

    /// How much new data the next segment would carry.
    pub open spec fn next_len(self) -> u32 {
        lesser(
            lesser(self.unsent() as int, self.tcb.usable_window() as int),
            self.text_mss() as int,
        ) as u32
    }

    /// Whether a segment of `len` bytes of new data is held back: by Nagle's
    /// algorithm (RFC 9293 section 3.7.4) unless it ends the stream, or by
    /// sender-side SWS avoidance (section 3.8.6.2.1) unless it empties the
    /// buffer; either only for a segment that is not full, while data is in
    /// flight.
    pub open spec fn held_back(self, len: u32) -> bool {
        let t = self.tcb;
        &&& len < self.text_mss()
        &&& t.data_sent() > 0
        &&& {
            ||| t.cfg.nagle && !(t.fin_queued && len == self.unsent())
            ||| len < t.snd_max_wnd / 2 && len < self.unsent()
        }
    }

    /// Plan to send new data. The FIN rides along with the last of it.
    #[verifier::opaque]
    pub open spec fn new_data(self, now: Instant) -> Option<(Tcb, PlanModel)> {
        let t = self.tcb;
        let len = self.next_len();
        if !t.drains() || t.fin_seq is Some || len == 0 || self.held_back(len) {
            None
        } else {
            let fin = t.fin_queued && len == self.unsent();
            let wnd = self.open_window();
            Some(
                (
                    t.data_sent_on(now, len, fin).ack_sent(wnd),
                    PlanModel::acking(
                        t,
                        t.snd_nxt,
                        TcpFlags(
                            if fin {
                                0x09
                            } else {
                                0x08
                            },
                        ),
                        wnd,
                        t.data_sent(),
                        len,
                        self.blocks_out(),
                    ),
                ),
            )
        }
    }

    /// Plan a FIN of its own, once all data is out.
    #[verifier::opaque]
    pub open spec fn lone_fin(self, now: Instant) -> Option<(Tcb, PlanModel)> {
        let t = self.tcb;
        if !t.fin_queued || t.fin_seq is Some || self.unsent() != 0 || !(t.state is FinWait1
            || t.state is Closing || t.state is LastAck) {
            None
        } else {
            let wnd = self.open_window();
            Some(
                (
                    Tcb {
                        fin_seq: Some(t.snd_nxt),
                        snd_nxt: t.snd_nxt.add(1),
                        ..t.rexmit_started(now)
                    }.ack_sent(wnd),
                    PlanModel::acking(t, t.snd_nxt, TcpFlags(0x01), wnd, 0, 0, Seq::empty()),
                ),
            )
        }
    }

    /// Plan a zero-window probe (RFC 9293 section 3.8.6.1): the byte at
    /// SND.UNA. The first probe advances SND.NXT over it, so that an ACK of
    /// it is honored.
    #[verifier::opaque]
    pub open spec fn probe(self) -> Option<(Tcb, PlanModel)> {
        let t = self.tcb;
        if t.snd_wnd > 0 || self.snd.len() == 0 {
            None
        } else {
            let wnd = self.open_window();
            Some(
                (
                    Tcb {
                        snd_nxt: if t.snd_nxt == t.snd_una {
                            t.snd_nxt.add(1)
                        } else {
                            t.snd_nxt
                        },
                        ..t
                    }.ack_sent(wnd),
                    PlanModel::acking(t, t.snd_una, TcpFlags(0), wnd, 0, 1, Seq::empty()),
                ),
            )
        }
    }

    /// Plan a pure ACK: window update, delayed or forced ACK, challenge ACK,
    /// duplicate ACK.
    #[verifier::opaque]
    pub open spec fn pure_ack(self) -> (Tcb, PlanModel) {
        let wnd = self.open_window();
        (
            self.tcb.ack_sent(wnd),
            PlanModel::acking(
                self.tcb,
                self.tcb.snd_nxt,
                TcpFlags(0),
                wnd,
                0,
                0,
                self.blocks_out(),
            ),
        )
    }

    /// With a plan carried out.
    pub open spec fn having(self, p: Option<(Tcb, PlanModel)>) -> (ConnModel, Option<PlanModel>) {
        match p {
            Some((t, plan)) => (self.with(t), Some(plan)),
            None => (self, None),
        }
    }

    /// A probe if one is pending, else a pure ACK if one is owed.
    #[verifier::opaque]
    pub open spec fn probe_or_ack(self, pending: bool) -> (ConnModel, Option<PlanModel>) {
        if pending && self.probe() is Some {
            self.having(self.probe())
        } else if self.tcb.ack_state is Now {
            self.having(Some(self.pure_ack()))
        } else {
            (self, None)
        }
    }

    /// The last choices: a probe, then a pure ACK.
    pub open spec fn leftovers(self) -> (ConnModel, Option<PlanModel>) {
        self.with(Tcb { probe_pending: false, ..self.tcb }).probe_or_ack(self.tcb.probe_pending)
    }

    /// The choices behind a retransmission of the head.
    pub open spec fn fresh_choices(self, now: Instant) -> (ConnModel, Option<PlanModel>) {
        if self.tcb.fills_holes() && self.hole_rexmit(now) is Some {
            self.having(self.hole_rexmit(now))
        } else if self.new_data(now) is Some {
            self.having(self.new_data(now))
        } else if self.lone_fin(now) is Some {
            self.having(self.lone_fin(now))
        } else {
            self.leftovers()
        }
    }

    /// The next segment of a connection whose SYN need not be sent, by
    /// priority.
    #[verifier::opaque]
    pub open spec fn sync_planned(self, now: Instant) -> (ConnModel, Option<PlanModel>) {
        let a = self.with(Tcb { rexmit_now: false, ..self.tcb });
        if self.tcb.rexmit_now && a.head_rexmit(now) is Some {
            a.having(a.head_rexmit(now))
        } else {
            a.fresh_choices(now)
        }
    }

    /// The next segment, by state.
    pub open spec fn chosen(self, now: Instant) -> (ConnModel, Option<PlanModel>) {
        let wnd = self.open_window();
        match self.tcb.state {
            State::Closed => (self, None),
            State::SynSent => self.having(self.tcb.syn_planned(now, false, wnd)),
            State::SynReceived => if self.tcb.syn_pending {
                self.having(self.tcb.syn_planned(now, true, wnd))
            } else {
                self.sync_planned(now)
            },
            _ => self.sync_planned(now),
        }
    }

    /// The connection after the next segment was planned, and that segment.
    pub open spec fn next_planned(self, now: Instant) -> (ConnModel, Option<PlanModel>) {
        let (m, p) = self.chosen(now);
        if p is Some {
            (m.timers_updated(now), p)
        } else {
            (m, p)
        }
    }
}

/// What the planned segment fits: its text is in the send buffer, and with its
/// options it is no larger than the effective MSS. It sets no control
/// bit from ACK upwards itself.
pub open spec fn plan_fits(m: ConnModel, p: PlanModel) -> bool {
    &&& p.payload_len > 0 ==> p.payload_off + p.payload_len <= m.snd.len()
    &&& p.sack_blocks.len() <= 4
    &&& p.payload_len + sack_option_len(p.sack_blocks.len() as int) <= m.tcb.eff_mss()
    &&& p.syn_opts is Some ==> p.payload_len == 0 && p.sack_blocks.len() == 0
    &&& p.syn_opts matches Some(o) ==> (o.wscale matches Some(s) ==> s <= 14)
    &&& p.flags.0 < 16
}

proof fn lemma_ack_sent_frame(t: Tcb, wnd: u32)
    requires
        t.scalars_ok(),
    ensures
        t.ack_sent(wnd).scalars_ok(),
        t.ack_sent(wnd).state == t.state,
        t.ack_sent(wnd).same_sequence(t),
        t.ack_sent(wnd).recovery == t.recovery,
{
    reveal(Tcb::ack_sent);
}

/// Sending an ACK along keeps the invariant.
proof fn lemma_ack_sent_inv(m: ConnModel, wnd: u32)
    requires
        m.inv(),
    ensures
        m.with(m.tcb.ack_sent(wnd)).inv(),
{
    lemma_inv_scalars(m);
    lemma_ack_sent_frame(m.tcb, wnd);
    lemma_inv_frame(m, m.with(m.tcb.ack_sent(wnd)));
}

pub(crate) proof fn lemma_blocks_out(m: ConnModel)
    ensures
        m.blocks_out().len() <= 4,
        28 <= m.text_mss() <= m.tcb.eff_mss() - sack_option_len(m.blocks_out().len() as int),
{
    reveal(ConnModel::blocks_out);
}

proof fn lemma_syn_planned_inv(m: ConnModel, t: Tcb, now: Instant, with_ack: bool, wnd: u32)
    requires
        m.inv(),
        t == m.tcb || t == (Tcb { syn_pending: true, ..m.tcb }),
    ensures
        t.syn_planned(now, with_ack, wnd) matches Some((u, p)) ==> m.with(u).inv() && plan_fits(
            m,
            p,
        ),
{
    reveal(Tcb::syn_planned);
    assert(m.tcb.scalars_ok()) by {
        lemma_inv_scalars(m);
    }
    if let Some((u, p)) = t.syn_planned(now, with_ack, wnd) {
        lemma_inv_frame(m, m.with(u));
    }
}

proof fn lemma_head_resent_inv(m: ConnModel, now: Instant, len: u32)
    requires
        m.inv(),
        m.tcb.syn_acked,
        greater(len as int, 1) <= m.tcb.flight(),
    ensures
        m.with(m.tcb.head_resent(now, len)).inv(),
{
    reveal(Tcb::head_resent);
    reveal(ConnModel::inv);
}

proof fn lemma_head_rexmit_inv(m: ConnModel, now: Instant)
    requires
        m.inv(),
    ensures
        m.head_rexmit(now) matches Some((u, p)) ==> m.with(u).inv() && plan_fits(m, p),
{
    reveal(ConnModel::head_rexmit);
    lemma_syn_planned_inv(
        m,
        Tcb { syn_pending: true, ..m.tcb },
        now,
        !(m.tcb.state is SynSent),
        m.open_window(),
    );
    lemma_inv_scalars(m);
    lemma_blocks_out(m);
    if m.tcb.syn_acked && m.head_rexmit(now) is Some {
        let len = lesser(m.tcb.data_sent() as int, m.text_mss() as int) as u32;
        lemma_head_resent_inv(m, now, len);
        lemma_ack_sent_inv(m.with(m.tcb.head_resent(now, len)), m.open_window());
    }
}

/// The hole that recovery would fill lies in what is outstanding.
pub(crate) proof fn lemma_hole_outstanding(m: ConnModel)
    requires
        m.inv(),
    ensures
        board_total(m.board) <= m.tcb.flight(),
        board_next_hole(m.board, m.hole_from()) matches Some((start, hole)) ==> hole > 0
            && m.tcb.snd_una.distance_to(start) + hole <= m.tcb.flight(),
{
    reveal(ConnModel::inv);
    sacked_bytes_are_outstanding(m.board, m.tcb.snd_una, m.tcb.snd_nxt);
    if board_next_hole(m.board, m.hole_from()) is Some {
        holes_lie_between_ranges(m.board, m.hole_from(), m.tcb.snd_una, m.tcb.snd_nxt);
    }
}

proof fn lemma_cursor_moved_inv(m: ConnModel, now: Instant, cursor: SeqNr)
    requires
        m.inv(),
        !(m.tcb.state is SynSent),
        m.tcb.snd_una.distance_to(cursor) <= m.tcb.flight(),
    ensures
        m.with(
            Tcb { sack_cursor: cursor, rtt_sample: None, ..m.tcb.rexmit_started(now) },
        ).inv(),
{
    reveal(ConnModel::inv);
}

proof fn lemma_flight_small(m: ConnModel)
    requires
        m.inv(),
    ensures
        m.tcb.data_sent() <= m.tcb.flight() <= MAX_WND + 1,
{
    reveal(ConnModel::inv);
}

pub(crate) proof fn lemma_hole_rexmit_inv(m: ConnModel, now: Instant)
    requires
        m.inv(),
        !(m.tcb.state is SynSent),
    ensures
        m.hole_rexmit(now) matches Some((u, p)) ==> m.with(u).inv() && plan_fits(m, p),
{
    reveal(ConnModel::hole_rexmit);
    reveal(ConnModel::hole_filled);
    lemma_hole_outstanding(m);
    lemma_inv_scalars(m);
    lemma_blocks_out(m);
    lemma_flight_small(m);
    if let Some((u, p)) = m.hole_rexmit(now) {
        let (start, hole) = board_next_hole(m.board, m.hole_from())->0;
        let cursor = start.add(greater(p.payload_len as int, 1) as u32);
        lemma_cursor_moved_inv(m, now, cursor);
        lemma_ack_sent_inv(
            m.with(Tcb { sack_cursor: cursor, rtt_sample: None, ..m.tcb.rexmit_started(now) }),
            m.open_window(),
        );
    }
}

proof fn lemma_data_sent_on_inv(m: ConnModel, now: Instant, len: u32, fin: bool)
    requires
        m.inv(),
        m.tcb.drains(),
        m.tcb.fin_seq is None,
        len <= m.unsent(),
        len <= m.tcb.usable_window(),
        len > 0,
        fin ==> m.tcb.fin_queued && len == m.unsent(),
    ensures
        m.with(m.tcb.data_sent_on(now, len, fin)).inv(),
{
    reveal(Tcb::data_sent_on);
    reveal(ConnModel::inv);
}

proof fn lemma_new_data_inv(m: ConnModel, now: Instant)
    requires
        m.inv(),
    ensures
        m.new_data(now) matches Some((u, p)) ==> m.with(u).inv() && plan_fits(m, p),
{
    reveal(ConnModel::new_data);
    lemma_inv_scalars(m);
    lemma_blocks_out(m);
    if m.new_data(now) is Some {
        let len = m.next_len();
        let fin = m.tcb.fin_queued && len == m.unsent();
        lemma_data_sent_on_inv(m, now, len, fin);
        lemma_ack_sent_inv(m.with(m.tcb.data_sent_on(now, len, fin)), m.open_window());
    }
}

proof fn lemma_fin_sent_inv(m: ConnModel, now: Instant)
    requires
        m.inv(),
        m.tcb.fin_queued,
        m.tcb.fin_seq is None,
        m.unsent() == 0,
        m.tcb.state is FinWait1 || m.tcb.state is Closing || m.tcb.state is LastAck,
    ensures
        m.with(
            Tcb {
                fin_seq: Some(m.tcb.snd_nxt),
                snd_nxt: m.tcb.snd_nxt.add(1),
                ..m.tcb.rexmit_started(now)
            },
        ).inv(),
{
    reveal(ConnModel::inv);
}

proof fn lemma_lone_fin_inv(m: ConnModel, now: Instant)
    requires
        m.inv(),
    ensures
        m.lone_fin(now) matches Some((u, p)) ==> m.with(u).inv() && plan_fits(m, p),
{
    reveal(ConnModel::lone_fin);
    if m.lone_fin(now) is Some {
        lemma_fin_sent_inv(m, now);
        lemma_ack_sent_inv(
            m.with(
                Tcb {
                    fin_seq: Some(m.tcb.snd_nxt),
                    snd_nxt: m.tcb.snd_nxt.add(1),
                    ..m.tcb.rexmit_started(now)
                },
            ),
            m.open_window(),
        );
    }
}

proof fn lemma_probed_inv(m: ConnModel)
    requires
        m.inv(),
        m.tcb.syn_acked,
        m.snd.len() > 0,
        m.tcb.snd_nxt == m.tcb.snd_una,
    ensures
        m.with(Tcb { snd_nxt: m.tcb.snd_nxt.add(1), ..m.tcb }).inv(),
{
    reveal(ConnModel::inv);
}

proof fn lemma_probe_inv(m: ConnModel)
    requires
        m.inv(),
        m.tcb.syn_acked,
    ensures
        m.probe() matches Some((u, p)) ==> m.with(u).inv() && plan_fits(m, p),
{
    reveal(ConnModel::probe);
    if m.probe() is Some {
        if m.tcb.snd_nxt == m.tcb.snd_una {
            lemma_probed_inv(m);
            lemma_ack_sent_inv(
                m.with(Tcb { snd_nxt: m.tcb.snd_nxt.add(1), ..m.tcb }),
                m.open_window(),
            );
        } else {
            lemma_ack_sent_inv(m, m.open_window());
        }
    }
}

/// A step that drops a pending flag keeps the invariant, and what fits.
pub(crate) proof fn lemma_flag_dropped(m: ConnModel, b: ConnModel)
    requires
        m.inv(),
        b == m.with(Tcb { rexmit_now: false, ..m.tcb }) || b == m.with(
            Tcb { probe_pending: false, ..m.tcb },
        ),
    ensures
        b.inv(),
        b.tcb.state == m.tcb.state,
        forall|p: PlanModel| #[trigger] plan_fits(b, p) ==> plan_fits(m, p),
{
    lemma_inv_scalars(m);
    lemma_inv_frame(m, b);
}

#[verifier::rlimit(30)]
proof fn lemma_leftovers_inv(m: ConnModel)
    requires
        m.inv(),
    ensures
        m.leftovers().0.inv(),
        m.leftovers().1 matches Some(p) ==> plan_fits(m, p),
{
    let c = m.with(Tcb { probe_pending: false, ..m.tcb });
    reveal(ConnModel::pure_ack);
    reveal(ConnModel::probe_or_ack);
    lemma_flag_dropped(m, c);
    lemma_ack_sent_inv(c, c.open_window());
    lemma_blocks_out(c);
    if m.tcb.probe_pending {
        assert(m.tcb.scalars_ok()) by {
            lemma_inv_scalars(m);
        }
        lemma_probe_inv(c);
    }
}

proof fn lemma_fresh_choices_inv(m: ConnModel, now: Instant)
    requires
        m.inv(),
        !(m.tcb.state is SynSent),
    ensures
        m.fresh_choices(now).0.inv(),
        m.fresh_choices(now).1 matches Some(p) ==> plan_fits(m, p),
{
    lemma_hole_rexmit_inv(m, now);
    lemma_new_data_inv(m, now);
    lemma_lone_fin_inv(m, now);
    lemma_leftovers_inv(m);
}

proof fn lemma_sync_planned_inv(m: ConnModel, now: Instant)
    requires
        m.inv(),
        !(m.tcb.state is SynSent),
    ensures
        m.sync_planned(now).0.inv(),
        m.sync_planned(now).1 matches Some(p) ==> plan_fits(m, p),
{
    reveal(ConnModel::sync_planned);
    let a = m.with(Tcb { rexmit_now: false, ..m.tcb });
    lemma_flag_dropped(m, a);
    lemma_head_rexmit_inv(a, now);
    lemma_fresh_choices_inv(a, now);
}

pub(crate) proof fn lemma_chosen_inv(m: ConnModel, now: Instant)
    requires
        m.inv(),
    ensures
        m.chosen(now).0.inv(),
        m.chosen(now).1 matches Some(p) ==> plan_fits(m, p),
{
    lemma_syn_planned_inv(m, m.tcb, now, m.tcb.state is SynReceived, m.open_window());
    if !(m.tcb.state is SynSent) {
        lemma_sync_planned_inv(m, now);
    }
}

/// Planning a segment keeps the invariant. The text of the segment is in the
/// send buffer, and with its options it fits the effective MSS.
pub proof fn plans_keep_invariant(m: ConnModel, now: Instant)
    requires
        m.inv(),
    ensures
        m.next_planned(now).0.inv(),
        m.next_planned(now).1 matches Some(p) ==> plan_fits(m, p),
{
    lemma_chosen_inv(m, now);
    lemma_timers_updated_inv(m.chosen(now).0, now);
}

impl Tcb {
    /// Window field for a window of `wnd` bytes.
    fn advertise_window(&self, wnd: u32) -> (r: u16)
        ensures
            r == self.window_field(wnd),
            r * scale_factor(self.rcv_scale) <= wnd,
    {
        let f: u32 = scale_factor_of(self.rcv_scale);
        let field: u32 = wnd / f;
        proof {
            let q = lesser(field as int, 0xffff);
            assert(0 <= q * f <= wnd) by (nonlinear_arith)
                requires
                    f > 0,
                    field == wnd / f,
                    0 <= q <= field,
            ;
        }
        if field < 0xffff {
            field as u16
        } else {
            0xffff
        }
    }

    /// Every segment sent in a synchronized state carries an ACK: clear
    /// pending-ACK bookkeeping, and track what the peer will perceive.
    fn mark_ack_sent(self, wnd: u32) -> (r: Tcb)
        ensures
            r == self.ack_sent(wnd),
    {
        proof {
            reveal(Tcb::ack_sent);
        }
        let field: u16 = self.advertise_window(wnd);
        let seen: u32 = field as u32 * scale_factor_of(self.rcv_scale);
        Tcb {
            last_wnd_advertised: seen,
            ack_state: AckState::Idle,
            segs_since_ack: 0,
            timers: Timers { del_ack: None, ..self.timers },
            ..self
        }
    }

    /// SYN (active) or SYN-ACK (passive / simultaneous open).
    fn plan_syn(self, now: Instant, with_ack: bool, wnd: u32) -> (r: Option<(Tcb, SegmentPlan)>)
        ensures
            planned(r) == self.syn_planned(now, with_ack, wnd),
            r matches Some((_, p)) ==> p.sack_blocks.wf(),
    {
        proof {
            reveal(Tcb::syn_planned);
        }
        if !self.syn_pending {
            return None;
        }
        let window: u16 = if wnd < 0xffff {
            wnd as u16
        } else {
            0xffff
        };
        let rtt_sample = if self.rexmit_count == 0 {
            Some((self.snd_nxt, now))
        } else {
            self.rtt_sample
        };
        let t = self.start_rexmit(now);
        let wscale = if !with_ack {
            self.params.offer_wscale
        } else if self.wscale_on {
            Some(self.rcv_scale)
        } else {
            None
        };
        let sack_permitted = if with_ack {
            self.sack_enabled
        } else {
            self.params.offer_sack
        };
        let next = Tcb {
            syn_pending: false,
            rtt_sample,
            last_wnd_advertised: window as u32,
            ack_state: AckState::Idle,
            segs_since_ack: 0,
            timers: Timers { del_ack: None, ..t.timers },
            ..t
        };
        let plan = SegmentPlan {
            seq: self.iss,
            ack: if with_ack {
                Some(self.rcv_nxt)
            } else {
                None
            },
            flags: TcpFlags(TcpFlags::SYN),
            window,
            payload_off: 0,
            payload_len: 0,
            syn_opts: Some(SynOpts { mss: self.params.local_mss, wscale, sack_permitted }),
            sack_blocks: BoundedVec::new(),
        };
        Some((next, plan))
    }

    fn resend_head(self, now: Instant, len: u32) -> (r: Tcb)
        ensures
            r == self.head_resent(now, len),
    {
        proof {
            reveal(Tcb::head_resent);
        }
        let end = self.snd_una.add(
            if len > 1 {
                len
            } else {
                1
            },
        );
        let sack_cursor = if self.sack_enabled && self.sack_cursor.lt(end) {
            end
        } else {
            self.sack_cursor
        };
        Tcb { rtt_sample: None, sack_cursor, ..self.start_rexmit(now) }
    }

    fn advance_nxt(self, now: Instant, len: u32, fin: bool) -> (r: Tcb)
        ensures
            r == self.data_sent_on(now, len, fin),
    {
        proof {
            reveal(Tcb::data_sent_on);
        }
        let end = self.snd_nxt.add(len);
        let (snd_nxt, fin_seq) = if fin {
            (end.add(1), Some(end))
        } else {
            (end, self.fin_seq)
        };
        let rtt_sample = if self.rtt_sample.is_none() && self.recovery.is_none() {
            Some((snd_nxt, now))
        } else {
            self.rtt_sample
        };
        Tcb { snd_nxt, fin_seq, rtt_sample, ..self.start_rexmit(now) }
    }

    fn may_drain(&self) -> (r: bool)
        ensures
            r == self.drains(),
    {
        matches!(
            self.state,
            State::Established
            | State::CloseWait
            | State::FinWait1
            | State::Closing
            | State::LastAck
        )
    }

    fn usable(&self) -> (r: u32)
        ensures
            r == self.usable_window(),
    {
        let w: u32 = if self.snd_wnd < self.cc.cwnd {
            self.snd_wnd
        } else {
            self.cc.cwnd
        };
        w.saturating_sub(self.outstanding())
    }
}

/// A segment that carries our ACK.
fn acking_plan(
    t: &Tcb,
    seq: SeqNr,
    flags: u8,
    wnd: u32,
    payload_off: u32,
    payload_len: u32,
    sack_blocks: BoundedVec<(u32, u32), 4>,
) -> (r: SegmentPlan)
    requires
        sack_blocks.wf(),
    ensures
        r@ == PlanModel::acking(
            *t,
            seq,
            TcpFlags(flags),
            wnd,
            payload_off,
            payload_len,
            sack_blocks@,
        ),
        r.sack_blocks.wf(),
{
    SegmentPlan {
        seq,
        ack: Some(t.rcv_nxt),
        flags: TcpFlags(flags),
        window: t.advertise_window(wnd),
        payload_off,
        payload_len,
        syn_opts: None,
        sack_blocks,
    }
}

impl<const SND: usize, const RCV: usize> Connection<SND, RCV> {
    /// Plan the next segment to transmit, if any.
    pub fn next_segment(&mut self, now: Instant) -> (r: Option<SegmentPlan>)
        requires
            old(self).wf(),
        ensures
            match r {
                Some(p) => (final(self)@, Some(p@)) == old(self)@.next_planned(now),
                None => (final(self)@, None::<PlanModel>) == old(self)@.next_planned(now),
            },
            r matches Some(p) ==> p.sack_blocks.wf() && plan_fits(old(self)@, p@),
            final(self).wf(),
    {
        proof {
            plans_keep_invariant(self@, now);
            lemma_chosen_inv(self@, now);
            self.recv_buf.lemma_model_wf();
        }
        let wnd: u32 = self.recv_buf.window();
        let plan = match self.tcb.state {
            State::Closed => None,
            State::SynSent => {
                let p = self.tcb.plan_syn(now, false, wnd);
                self.commit(p)
            },
            State::SynReceived => {
                if self.tcb.syn_pending {
                    let p = self.tcb.plan_syn(now, true, wnd);
                    self.commit(p)
                } else {
                    self.plan_sync(now)
                }
            },
            _ => self.plan_sync(now),
        };
        if plan.is_some() {
            self.update_send_timers(now);
        }
        plan
    }

    /// Carry out a plan.
    fn commit(&mut self, p: Option<(Tcb, SegmentPlan)>) -> (r: Option<SegmentPlan>)
        requires
            old(self).parts_wf(),
            p matches Some((_, plan)) ==> plan.sack_blocks.wf(),
        ensures
            r is Some == p is Some,
            match r {
                Some(q) => (final(self)@, Some(q@)) == old(self)@.having(planned(p)),
                None => (final(self)@, None::<PlanModel>) == old(self)@.having(planned(p)),
            },
            r matches Some(q) ==> q.sack_blocks.wf(),
            final(self).parts_wf(),
    {
        match p {
            Some((t, plan)) => {
                self.tcb = t;
                Some(plan)
            },
            None => None,
        }
    }

    fn plan_sync(&mut self, now: Instant) -> (r: Option<SegmentPlan>)
        requires
            old(self).wf(),
            !(old(self)@.tcb.state is SynSent),
        ensures
            match r {
                Some(q) => (final(self)@, Some(q@)) == old(self)@.sync_planned(now),
                None => (final(self)@, None::<PlanModel>) == old(self)@.sync_planned(now),
            },
            r matches Some(q) ==> q.sack_blocks.wf(),
            final(self).parts_wf(),
    {
        proof {
            reveal(ConnModel::sync_planned);
            lemma_flag_dropped(self@, self@.with(Tcb { rexmit_now: false, ..self@.tcb }));
        }
        let resend = self.tcb.rexmit_now;
        self.tcb = Tcb { rexmit_now: false, ..self.tcb };
        if resend {
            let p = self.plan_head_rexmit(now);
            if p.is_some() {
                return self.commit(p);
            }
        }
        self.plan_fresh(now)
    }

    fn plan_fresh(&mut self, now: Instant) -> (r: Option<SegmentPlan>)
        requires
            old(self).wf(),
        ensures
            match r {
                Some(q) => (final(self)@, Some(q@)) == old(self)@.fresh_choices(now),
                None => (final(self)@, None::<PlanModel>) == old(self)@.fresh_choices(now),
            },
            r matches Some(q) ==> q.sack_blocks.wf(),
            final(self).parts_wf(),
    {
        // The SYN must be out of the way: offsets count from the first byte.
        if self.tcb.syn_acked && self.tcb.recovery.is_some() && self.tcb.sack_enabled {
            let p = self.plan_sack_rexmit(now);
            if p.is_some() {
                return self.commit(p);
            }
        }
        let p = self.plan_data(now);
        if p.is_some() {
            return self.commit(p);
        }
        let p = self.plan_fin(now);
        if p.is_some() {
            return self.commit(p);
        }
        self.plan_leftovers()
    }

    fn plan_leftovers(&mut self) -> (r: Option<SegmentPlan>)
        requires
            old(self).parts_wf(),
        ensures
            match r {
                Some(q) => (final(self)@, Some(q@)) == old(self)@.leftovers(),
                None => (final(self)@, None::<PlanModel>) == old(self)@.leftovers(),
            },
            r matches Some(q) ==> q.sack_blocks.wf(),
            final(self).parts_wf(),
    {
        let pending = self.tcb.probe_pending;
        self.tcb = Tcb { probe_pending: false, ..self.tcb };
        self.plan_probe_or_ack(pending)
    }

    fn plan_probe_or_ack(&mut self, pending: bool) -> (r: Option<SegmentPlan>)
        requires
            old(self).parts_wf(),
        ensures
            match r {
                Some(q) => (final(self)@, Some(q@)) == old(self)@.probe_or_ack(pending),
                None => (final(self)@, None::<PlanModel>) == old(self)@.probe_or_ack(pending),
            },
            r matches Some(q) ==> q.sack_blocks.wf(),
            final(self).parts_wf(),
    {
        proof {
            reveal(ConnModel::probe_or_ack);
        }
        if pending {
            let p = self.plan_probe();
            if p.is_some() {
                return self.commit(p);
            }
        }
        if self.tcb.ack_state == AckState::Now {
            let p = self.plan_pure_ack();
            return self.commit(Some(p));
        }
        None
    }

    /// Retransmit the earliest unacknowledged segment (RTO, fast retransmit,
    /// NewReno partial ACK, or PMTU shrink). While the SYN is unacknowledged
    /// the head segment is the SYN or SYN-ACK regardless of state: close()
    /// may have moved us out of SYN-RECEIVED before.
    fn plan_head_rexmit(&self, now: Instant) -> (r: Option<(Tcb, SegmentPlan)>)
        requires
            self.parts_wf(),
        ensures
            planned(r) == self@.head_rexmit(now),
            r matches Some((_, p)) ==> p.sack_blocks.wf(),
    {
        proof {
            reveal(ConnModel::head_rexmit);
            self.recv_buf.lemma_model_wf();
        }
        let t = self.tcb;
        let wnd: u32 = self.recv_buf.window();
        if !t.syn_acked {
            return Tcb { syn_pending: true, ..t }.plan_syn(now, t.state != State::SynSent, wnd);
        }
        let sack_blocks = self.recv_sack_blocks();
        let mss: u32 = self.mss_beside(&sack_blocks);
        let sent: u32 = t.bytes_in_flight();
        let len: u32 = if sent < mss {
            sent
        } else {
            mss
        };
        let fin = match t.fin_seq {
            Some(f) => f == t.snd_una.add(len) && f.lt(t.snd_nxt),
            None => false,
        };
        if len == 0 && !fin {
            return None;
        }
        let flags: u8 = flag_bits(fin, len > 0);
        let plan = acking_plan(&t, t.snd_una, flags, wnd, 0, len, sack_blocks);
        Some((t.resend_head(now, len).mark_ack_sent(wnd), plan))
    }

    /// SACK-based recovery (RFC 6675-lite): retransmit the next hole below
    /// the highest SACKed sequence while the pipe has room.
    fn plan_sack_rexmit(&self, now: Instant) -> (r: Option<(Tcb, SegmentPlan)>)
        requires
            self.wf(),
        ensures
            planned(r) == self@.hole_rexmit(now),
            r matches Some((_, p)) ==> p.sack_blocks.wf(),
    {
        proof {
            reveal(ConnModel::hole_rexmit);
            self.recv_buf.lemma_model_wf();
            lemma_hole_outstanding(self@);
            lemma_flight_small(self@);
        }
        let t = self.tcb;
        let pipe: u32 = t.bytes_in_flight().saturating_sub(self.scoreboard.sacked_bytes());
        if pipe >= t.cc.cwnd {
            return None;
        }
        let from = if t.sack_cursor.lt(t.snd_una) {
            t.snd_una
        } else {
            t.sack_cursor
        };
        match self.scoreboard.next_hole(from) {
            None => None,
            Some((start, hole)) => self.plan_hole(now, start, hole),
        }
    }

    /// How much of a hole a segment fills.
    fn hole_text(&self, start: SeqNr, hole: u32, mss: u32) -> (r: u32)
        requires
            self.parts_wf(),
            mss == self@.text_mss(),
        ensures
            r == self@.hole_len(start, hole),
    {
        let data_end = self.tcb.snd_una.add(self.tcb.bytes_in_flight());
        if start.ge(data_end) {
            0
        } else {
            least(hole, data_end.since(start), mss)
        }
    }

    /// Fill one hole. It may be our FIN's sequence slot; data lives below.
    #[verifier::rlimit(30)]
    fn plan_hole(&self, now: Instant, start: SeqNr, hole: u32) -> (r: Option<(Tcb, SegmentPlan)>)
        requires
            self.parts_wf(),
        ensures
            planned(r) == self@.hole_filled(now, start, hole),
            r matches Some((_, p)) ==> p.sack_blocks.wf(),
    {
        proof {
            self.recv_buf.lemma_model_wf();
        }
        let t = self.tcb;
        let data_end = t.snd_una.add(t.bytes_in_flight());
        let fin = start.ge(data_end);
        if fin && t.fin_seq.is_none() {
            proof {
                reveal(ConnModel::hole_filled);
            }
            return None;
        }
        let sack_blocks = self.recv_sack_blocks();
        let mss: u32 = self.mss_beside(&sack_blocks);
        let len: u32 = self.hole_text(start, hole, mss);
        let wnd: u32 = self.recv_buf.window();
        let flags: u8 = flag_bits(fin, !fin);
        let off: u32 = start.since(t.snd_una);
        let plan = acking_plan(&t, start, flags, wnd, off, len, sack_blocks);
        let sack_cursor = start.add(
            if len > 1 {
                len
            } else {
                1
            },
        );
        let next = Tcb { sack_cursor, rtt_sample: None, ..t.start_rexmit(now) };
        proof {
            reveal(ConnModel::hole_filled);
        }
        Some((next.mark_ack_sent(wnd), plan))
    }

    /// New data within min(SND.WND, cwnd), MSS-sized, Nagle-respecting.
    fn plan_data(&self, now: Instant) -> (r: Option<(Tcb, SegmentPlan)>)
        requires
            self.parts_wf(),
        ensures
            planned(r) == self@.new_data(now),
            r matches Some((_, p)) ==> p.sack_blocks.wf(),
    {
        proof {
            reveal(ConnModel::new_data);
            self.recv_buf.lemma_model_wf();
        }
        let t = self.tcb;
        if !t.may_drain() || t.fin_seq.is_some() {
            return None;
        }
        let sack_blocks = self.recv_sack_blocks();
        let mss: u32 = self.mss_beside(&sack_blocks);
        let unsent: u32 = self.unsent_bytes();
        let len: u32 = least(unsent, t.usable(), mss);
        if len == 0 {
            return None;
        }
        let fin = t.fin_queued && len == unsent;
        if len < mss && t.bytes_in_flight() > 0 {
            // Nagle: hold small segments while data is in flight, unless this
            // one finishes the stream.
            if t.cfg.nagle && !fin {
                return None;
            }
            // Sender-side SWS avoidance: no tiny segment into a tiny peer
            // window, unless it empties our buffer.
            if len < t.snd_max_wnd / 2 && len < unsent {
                return None;
            }
        }
        let wnd: u32 = self.recv_buf.window();
        let flags: u8 = flag_bits(fin, true);
        let off: u32 = t.bytes_in_flight();
        let plan = acking_plan(&t, t.snd_nxt, flags, wnd, off, len, sack_blocks);
        Some((t.advance_nxt(now, len, fin).mark_ack_sent(wnd), plan))
    }

    /// A FIN of its own once all data is out (close, or peer-close reply).
    fn plan_fin(&self, now: Instant) -> (r: Option<(Tcb, SegmentPlan)>)
        requires
            self.parts_wf(),
        ensures
            planned(r) == self@.lone_fin(now),
            r matches Some((_, p)) ==> p.sack_blocks.wf(),
    {
        proof {
            reveal(ConnModel::lone_fin);
            self.recv_buf.lemma_model_wf();
        }
        let t = self.tcb;
        if !t.fin_queued || t.fin_seq.is_some() || self.unsent_bytes() != 0 || !matches!(
            t.state,
            State::FinWait1 | State::Closing | State::LastAck
        ) {
            return None;
        }
        let wnd: u32 = self.recv_buf.window();
        let plan = acking_plan(&t, t.snd_nxt, TcpFlags::FIN, wnd, 0, 0, BoundedVec::new());
        let next = Tcb {
            fin_seq: Some(t.snd_nxt),
            snd_nxt: t.snd_nxt.add(1),
            ..t.start_rexmit(now)
        };
        Some((next.mark_ack_sent(wnd), plan))
    }

    /// Zero-window probe. The persist timer drives its retransmission, so a
    /// peer that keeps ACKing with window 0 (alive but full) does not march
    /// toward the retry limit.
    fn plan_probe(&self) -> (r: Option<(Tcb, SegmentPlan)>)
        requires
            self.parts_wf(),
        ensures
            planned(r) == self@.probe(),
            r matches Some((_, p)) ==> p.sack_blocks.wf(),
    {
        proof {
            reveal(ConnModel::probe);
            self.recv_buf.lemma_model_wf();
        }
        let t = self.tcb;
        if t.snd_wnd > 0 || self.send_buf.is_empty() {
            return None;
        }
        let wnd: u32 = self.recv_buf.window();
        let plan = acking_plan(&t, t.snd_una, 0, wnd, 0, 1, BoundedVec::new());
        let snd_nxt = if t.snd_nxt == t.snd_una {
            t.snd_nxt.add(1)
        } else {
            t.snd_nxt
        };
        Some((Tcb { snd_nxt, ..t }.mark_ack_sent(wnd), plan))
    }

    /// Pure ACK: window update, delayed/forced ACK, challenge ACK, dup ACK.
    fn plan_pure_ack(&self) -> (r: (Tcb, SegmentPlan))
        requires
            self.parts_wf(),
        ensures
            (r.0, r.1@) == self@.pure_ack(),
            r.1.sack_blocks.wf(),
    {
        proof {
            reveal(ConnModel::pure_ack);
            self.recv_buf.lemma_model_wf();
        }
        let t = self.tcb;
        let wnd: u32 = self.recv_buf.window();
        let plan = acking_plan(&t, t.snd_nxt, 0, wnd, 0, 0, self.recv_sack_blocks());
        (t.mark_ack_sent(wnd), plan)
    }

    /// Unsent bytes sitting in the send buffer.
    fn unsent_bytes(&self) -> (r: u32)
        requires
            self.parts_wf(),
        ensures
            r == self@.unsent(),
    {
        (self.send_buf.len() as u32).saturating_sub(self.tcb.bytes_in_flight())
    }

    /// SACK blocks describing our out-of-order queue (RFC 2018 section 4).
    fn recv_sack_blocks(&self) -> (out: BoundedVec<(u32, u32), 4>)
        requires
            self.parts_wf(),
        ensures
            out.wf(),
            out@ == self@.blocks_out(),
    {
        proof {
            reveal(ConnModel::blocks_out);
        }
        let mut out: BoundedVec<(u32, u32), 4> = BoundedVec::new();
        if self.tcb.sack_enabled {
            let mut rel: BoundedVec<(u32, u32), 4> = BoundedVec::new();
            self.recv_buf.sack_ranges(&mut rel);
            proof {
                rel.lemma_len_bounded();
            }
            let mut i: usize = 0;
            while i < rel.len()
                invariant
                    i <= rel@.len() <= 4,
                    rel.wf(),
                    out.wf(),
                    out@.len() == i,
                    forall|j: int|
                        0 <= j < i ==> #[trigger] out@[j] == (
                            self.tcb.rcv_nxt.add(rel@[j].0).0,
                            self.tcb.rcv_nxt.add(rel@[j].1).0,
                        ),
                decreases rel@.len() - i,
            {
                let (s, e) = rel.get(i);
                let _ = out.push((self.tcb.rcv_nxt.add(s).0, self.tcb.rcv_nxt.add(e).0));
                i += 1;
            }
        }
        assert(out@ =~= self@.blocks_out());
        out
    }

    /// How much text fits a segment next to these SACK blocks (RFC 6691, RFC
    /// 9293 section 3.7.1: the segment must fit the path with its options).
    fn mss_beside(&self, blocks: &BoundedVec<(u32, u32), 4>) -> (r: u32)
        requires
            blocks.wf(),
            blocks@ == self@.blocks_out(),
        ensures
            r == self@.text_mss(),
    {
        proof {
            lemma_blocks_out(self@);
        }
        let n: usize = blocks.len();
        let opts: u32 = if n == 0 {
            0
        } else {
            4 + 8 * n as u32
        };
        self.tcb.eff_send_mss() as u32 - opts
    }
}

/// The least of three numbers.
fn least(a: u32, b: u32, c: u32) -> (r: u32)
    ensures
        r == lesser(lesser(a as int, b as int), c as int),
{
    let m: u32 = if a < b {
        a
    } else {
        b
    };
    if m < c {
        m
    } else {
        c
    }
}

/// FIN and PSH as flag bits.
fn flag_bits(fin: bool, psh: bool) -> (r: u8)
    ensures
        r == (if fin && psh {
            0x09u8
        } else if fin {
            0x01
        } else if psh {
            0x08
        } else {
            0
        }),
{
    proof {
        assert(0x01u8 | 0x08u8 == 0x09u8) by (bit_vector);
    }
    match (fin, psh) {
        (true, true) => TcpFlags::FIN | TcpFlags::PSH,
        (true, false) => TcpFlags::FIN,
        (false, true) => TcpFlags::PSH,
        (false, false) => 0,
    }
}

} // verus!
