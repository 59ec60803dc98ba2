//! Segment arrival processing: RFC 9293 section 3.10.7 ("SEGMENT ARRIVES")
//! with the RFC 5961 blind-attack mitigations and RFC 2018/7323 option
//! handling.
//!
//! The steps follow RFC 9293 section 3.10.7.4 ("Other States"): sequence
//! number acceptability, RST, SYN, ACK, text, FIN. (Security/compartment and
//! URG are intentionally vacuous.)
use super::model::{
    fin_bounds_text,
    lemma_closed_inv,
    lemma_inv_frame,
    lemma_inv_scalars,
    lemma_timers_updated_inv,
    scale_factor,
    scale_factor_of,
    MAX_CAPACITY,
    MAX_WND,
};
use super::{
    lemma_soft_change_inv, ConnEvent, ConnModel, Connection, Effects, FxModel, ResetReply, Tcb,
    Timers,
};
use crate::tcp::cc::{greater, lesser};
use crate::tcp::recvbuf::{cut_keeps_invariant, insert_ends_below, insert_keeps_invariant};
use crate::tcp::sack::{
    board_ingest, board_next_hole, board_trim, board_valid, ingest_keeps_board_valid,
    trim_keeps_board_valid,
};
use crate::tcp::seq::SeqNr;
use crate::tcp::State;
use crate::time::Instant;
use crate::types::CloseReason;
use crate::wire::tcp::{OptionsModel, TcpFlags, TcpHeader, TcpOptions};
use vstd::prelude::*;

verus! {

/// What the state machine looks at in a received segment.
pub struct Segment {
    /// Sequence number.
    pub seq: SeqNr,
    /// Acknowledgment number.
    pub ack: SeqNr,
    /// Control flags.
    pub flags: TcpFlags,
    /// Window field as received.
    pub window: u16,
    /// Options.
    pub opts: OptionsModel,
    /// Text.
    pub payload: Seq<u8>,
}

impl Segment {
    /// The segment with this header, these options and this text.
    pub open spec fn of(h: TcpHeader, opts: OptionsModel, payload: Seq<u8>) -> Segment {
        Segment {
            seq: SeqNr(h.seq),
            ack: SeqNr(h.ack),
            flags: h.flags,
            window: h.window,
            opts,
            payload,
        }
    }

    /// Sequence numbers that the segment takes: its text, and one for each of
    /// SYN and FIN.
    pub open spec fn len(self) -> int {
        self.payload.len() + (if self.flags.syn() {
            1int
        } else {
            0
        }) + (if self.flags.fin() {
            1int
        } else {
            0
        })
    }

    /// A machine can hold its length, and its window scale is a legal one.
    pub open spec fn legal(self) -> bool {
        &&& self.payload.len() + 2 <= u32::MAX
        &&& self.opts.window_scale matches Some(s) ==> s <= 14
    }
}

/// The window that a window field stands for (RFC 7323 section 2.3).
pub open spec fn window_scaled(field: u16, shift: u8) -> u32 {
    (field * scale_factor(shift)) as u32
}

/// No window field stands for more than the largest window.
pub proof fn lemma_window_scaled(field: u16, shift: u8)
    ensures
        0 <= field * scale_factor(shift) <= MAX_WND,
        window_scaled(field, shift) == field * scale_factor(shift),
{
    let f = scale_factor(shift);
    assert(0 <= field * f <= 65535 * 16384) by (nonlinear_arith)
        requires
            1 <= f <= 16384,
            0 <= field <= 65535,
    ;
}

/// The window that a window field stands for.
fn scaled_window(field: u16, shift: u8) -> (r: u32)
    ensures
        r == window_scaled(field, shift),
        r <= MAX_WND,
{
    proof {
        lemma_window_scaled(field, shift);
    }
    field as u32 * scale_factor_of(shift)
}

/// RFC 9293 section 3.10.7.4 first check: is any part of the segment inside
/// the receive window? An empty segment counts as its sequence number; into a
/// closed window only an empty one at RCV.NXT fits.
pub open spec fn acceptable(rcv_nxt: SeqNr, wnd: u32, seq: SeqNr, seg_len: int) -> bool {
    if seg_len == 0 {
        if wnd == 0 {
            seq == rcv_nxt
        } else {
            seq.in_window(rcv_nxt, wnd)
        }
    } else {
        wnd > 0 && (seq.in_window(rcv_nxt, wnd) || seq.add((seg_len - 1) as u32).in_window(
            rcv_nxt,
            wnd,
        ))
    }
}

/// RFC 9293 section 3.10.7.4 first check: is any part of the segment inside
/// the receive window?
fn seq_acceptable(rcv_nxt: SeqNr, wnd: u32, seq: SeqNr, seg_len: u32) -> (r: bool)
    ensures
        r == acceptable(rcv_nxt, wnd, seq, seg_len as int),
{
    match (seg_len == 0, wnd == 0) {
        (true, true) => seq == rcv_nxt,
        (true, false) => seq.in_window(rcv_nxt, wnd),
        (false, true) => false,
        (false, false) => {
            seq.in_window(rcv_nxt, wnd) || seq.add(seg_len - 1).in_window(rcv_nxt, wnd)
        },
    }
}

impl Tcb {
    /// SEG.ACK is neither above SND.NXT nor further below SND.UNA than the
    /// largest window the peer ever offered (RFC 5961 section 5.2).
    pub open spec fn ack_in_range(self, ack: SeqNr) -> bool {
        !ack.gt(self.snd_nxt) && !ack.lt(
            self.snd_una.sub(greater(self.snd_max_wnd as int, 1) as u32),
        )
    }

    /// After a SYN arrived in SYN-SENT: its options, its sequence number, and
    /// its window, which is never scaled (RFC 7323 section 2.2).
    #[verifier::opaque]
    pub open spec fn syn_seen(self, seg: Segment) -> Tcb {
        let t = Tcb { irs: seg.seq, rcv_nxt: seg.seq.add(1), ..self }.syn_options(
            seg.opts.mss,
            seg.opts.window_scale,
            seg.opts.sack_permitted,
        );
        Tcb {
            snd_wnd: seg.window as u32,
            snd_max_wnd: greater(self.snd_max_wnd as int, seg.window as int) as u32,
            snd_wl1: seg.seq,
            snd_wl2: self.snd_una,
            ..t
        }
    }

    /// Our SYN is acknowledged by the peer's: the connection is established,
    /// and the third leg of the handshake is owed.
    #[verifier::opaque]
    pub open spec fn handshake_done(self, now: Instant, ack: SeqNr) -> Tcb {
        let t = self.rtt_sampled(now, ack);
        Tcb {
            syn_acked: true,
            snd_una: ack,
            snd_wl2: ack,
            rexmit_count: 0,
            timers: Timers { rexmit: None, ..t.timers },
            state: State::Established,
            reported: true,
            ..t
        }.ack_now()
    }

    /// Both sides opened at once (RFC 9293 section 3.10.7.3): our SYN-ACK
    /// reuses ISS.
    pub open spec fn opened_both_ways(self) -> Tcb {
        Tcb {
            state: State::SynReceived,
            syn_pending: true,
            timers: Timers { rexmit: None, ..self.timers },
            ..self
        }
    }

    /// Whether an ACK covers our FIN.
    pub open spec fn fin_acked_by(self, ack: SeqNr) -> bool {
        self.fin_seq matches Some(f) && ack.gt(f)
    }

    /// How many data bytes an advance of SND.UNA to `ack` covers.
    pub open spec fn data_acked_by(self, ack: SeqNr) -> int {
        self.snd_una.distance_to(ack) - (if self.syn_acked {
            0int
        } else {
            1
        }) - (if self.fin_acked_by(ack) {
            1int
        } else {
            0
        })
    }

    /// With SND.UNA advanced, and the cursor of the SACK recovery not behind
    /// it.
    pub open spec fn una_advanced(self, ack: SeqNr) -> Tcb {
        Tcb {
            syn_acked: true,
            snd_una: ack,
            sack_cursor: if self.sack_cursor.lt(ack) {
                ack
            } else {
                self.sack_cursor
            },
            ..self
        }
    }

    /// With the round trip timed, and the retransmission timer restarted if
    /// something is still outstanding (RFC 6298 section 5.3).
    #[verifier::opaque]
    pub open spec fn ack_timed(self, now: Instant, ack: SeqNr) -> Tcb {
        let t = Tcb { rexmit_count: 0, ..self.rtt_sampled(now, ack) };
        if t.flight() > 0 {
            t.rexmit_restarted(now)
        } else {
            t
        }
    }

    /// Congestion control and loss recovery on new data acknowledged. A full
    /// ACK ends recovery (RFC 6582 section 3.2 step 1). A partial one resends
    /// the head and deflates (step 5); with SACK the planner does the work,
    /// unless the scoreboard shows no hole.
    #[verifier::opaque]
    pub open spec fn recovery_acked(self, ack: SeqNr, total: u32, no_hole: bool) -> Tcb {
        match self.recovery {
            Some(point) => if ack.ge(point) {
                Tcb { cc: self.cc.recovered(), recovery: None, dupacks: 0, ..self }
            } else if !self.sack_enabled {
                Tcb { rexmit_now: true, cc: self.cc.partially_acked(total), ..self }
            } else if no_hole {
                Tcb { rexmit_now: true, ..self }
            } else {
                self
            },
            None => Tcb { dupacks: 0, cc: self.cc.acked(total), ..self },
        }
    }

    /// After a duplicate ACK (RFC 5681 sections 2 and 3.2): the third one
    /// starts recovery and resends the presumed-lost head; further ones
    /// inflate the window, unless SACK paces the recovery.
    #[verifier::opaque]
    pub open spec fn dupacked(self) -> Tcb {
        if self.recovery is Some {
            if self.sack_enabled {
                self
            } else {
                Tcb { cc: self.cc.inflated(), ..self }
            }
        } else {
            let n = lesser(self.dupacks + 1, u8::MAX as int) as u8;
            if n == 3 {
                let flight = self.data_sent();
                let t = Tcb {
                    dupacks: n,
                    recovery: Some(self.snd_nxt),
                    rtt_sample: None,
                    rexmit_now: true,
                    ..self
                };
                if self.sack_enabled {
                    Tcb {
                        cc: self.cc.sack_recovery(flight),
                        sack_cursor: self.snd_una,
                        ..t
                    }
                } else {
                    Tcb { cc: self.cc.fast_recovery(flight), ..t }
                }
            } else {
                Tcb { dupacks: n, ..self }
            }
        }
    }

    /// With the send window updated, if the segment is not older than the one
    /// that updated it last (RFC 9293 section 3.10.7.4 step 5). An ACK that
    /// updates it proves the peer alive, so the count of unanswered probes
    /// starts over (RFC 1122 section 4.2.2.17).
    #[verifier::opaque]
    pub open spec fn window_updated(self, seg: Segment, old_una: SeqNr) -> Tcb {
        if seg.ack.ge(old_una) && seg.ack.le(self.snd_nxt) && (self.snd_wl1.lt(seg.seq) || (
        self.snd_wl1 == seg.seq && self.snd_wl2.le(seg.ack))) {
            let w = window_scaled(seg.window, self.snd_scale);
            Tcb {
                snd_wnd: w,
                snd_max_wnd: greater(self.snd_max_wnd as int, w as int) as u32,
                snd_wl1: seg.seq,
                snd_wl2: seg.ack,
                persist_count: 0,
                probe_pending: self.probe_pending && w == 0,
                ..self
            }
        } else {
            self
        }
    }

    /// Whether the peer's FIN is still to come.
    pub open spec fn awaits_fin(self) -> bool {
        self.state is SynReceived || self.state is Established || self.state is FinWait1
            || self.state is FinWait2
    }

    /// With the segment's FIN noted, if it is inside or exactly at the window
    /// that was open when the segment arrived. A noted FIN never moves
    /// backward: an earlier one would truncate the stream.
    #[verifier::opaque]
    pub open spec fn fin_noted(self, seg: Segment, wnd: u32) -> Tcb {
        let f = seg.seq.add(seg.payload.len() as u32);
        if seg.flags.fin() && self.awaits_fin() && (f == self.rcv_nxt || f.in_window(
            self.rcv_nxt,
            greater(wnd as int, 1) as u32,
        )) && (self.peer_fin matches Some(p) ==> f.ge(p)) {
            Tcb { peer_fin: Some(f), ..self }
        } else {
            self
        }
    }

    /// With the peer's FIN taken from the sequence space.
    #[verifier::opaque]
    pub open spec fn fin_taken(self) -> Tcb {
        Tcb { peer_fin: None, rcv_nxt: self.rcv_nxt.add(1), ..self }.ack_now()
    }

    /// In the state that follows the peer's FIN.
    #[verifier::opaque]
    pub open spec fn past_fin(self, now: Instant) -> Tcb {
        match self.state {
            State::SynReceived | State::Established => Tcb { state: State::CloseWait, ..self },
            State::FinWait1 => Tcb { state: State::Closing, ..self },
            State::FinWait2 => self.time_wait(now),
            _ => self,
        }
    }

    /// With the peer's FIN consumed, once everything before it arrived.
    pub open spec fn fin_consumed(self, now: Instant) -> Tcb {
        self.fin_taken().past_fin(now)
    }

    /// With RCV.NXT advanced over text in order. It is acknowledged at the
    /// latest with every second segment (RFC 1122 section 4.2.3.2), at once
    /// if some of it was cut off. It also shows that the peer is alive, which
    /// puts off the FIN-WAIT-2 timeout.
    #[verifier::opaque]
    pub open spec fn text_accepted(self, now: Instant, advance: u32, cut: bool) -> Tcb {
        let segs = lesser(self.segs_since_ack + 1, u8::MAX as int) as u8;
        let t = Tcb {
            rcv_nxt: self.rcv_nxt.add(advance),
            segs_since_ack: segs,
            timers: Timers {
                wait: if self.state is FinWait2 && self.cfg.fin_wait2_timeout.micros > 0 {
                    Some(now + self.cfg.fin_wait2_timeout)
                } else {
                    self.timers.wait
                },
                ..self.timers
            },
            ..self
        };
        if segs >= 2 || cut {
            t.ack_now()
        } else {
            t.ack_later(now)
        }
    }

    /// Whether the peer's FIN is next in order.
    pub open spec fn fin_in_order(self) -> bool {
        self.awaits_fin() && self.peer_fin == Some(self.rcv_nxt)
    }
}

impl ConnModel {
    /// The window as it is, unscaled.
    pub open spec fn open_window(self) -> u32 {
        (self.rcv.window.len() - self.rcv.readable) as u32
    }

    /// A segment arrived in SYN-SENT (RFC 9293 section 3.10.7.3). An ACK of
    /// something we did not send is answered by a reset; a reset is believed
    /// only next to an acceptable ACK (RFC 5961 section 3); a SYN leads on,
    /// and nothing else does.
    #[verifier::opaque]
    pub open spec fn syn_sent_arrived(self, now: Instant, seg: Segment, fx: FxModel) -> (
        ConnModel,
        FxModel,
    ) {
        let t = self.tcb;
        if seg.flags.ack() && (seg.ack.le(t.iss) || seg.ack.gt(t.snd_nxt)) {
            if seg.flags.rst() {
                (self, fx)
            } else {
                (self, fx.with_reset(ResetReply { seq: seg.ack, ack: None }))
            }
        } else if seg.flags.rst() {
            if seg.flags.ack() {
                self.closed(CloseReason::Refused, fx)
            } else {
                (self, fx)
            }
        } else if seg.flags.syn() {
            if seg.flags.ack() {
                (
                    self.with(t.syn_seen(seg).handshake_done(now, seg.ack)),
                    fx.with_event(ConnEvent::Connected),
                )
            } else {
                (self.with(t.syn_seen(seg).opened_both_ways()), fx)
            }
        } else {
            (self, fx)
        }
    }

    /// A reset at exactly RCV.NXT arrived (RFC 9293 section 3.10.7.4 step 2).
    /// It refuses a handshake of ours, and resets a connection unless both
    /// sides were done with it.
    #[verifier::opaque]
    pub open spec fn reset_by_peer(self, fx: FxModel) -> (ConnModel, FxModel) {
        match self.tcb.state {
            State::SynReceived => self.closed(
                if self.tcb.passive {
                    CloseReason::Reset
                } else {
                    CloseReason::Refused
                },
                fx,
            ),
            State::Established | State::FinWait1 | State::FinWait2 | State::CloseWait => {
                self.closed(CloseReason::Reset, fx)
            },
            _ => self.closed(CloseReason::Normal, fx),
        }
    }

    /// An acceptable segment with RST arrived (RFC 5961 section 3.2): ignored
    /// in TIME-WAIT (RFC 1337), believed at exactly RCV.NXT, and challenged
    /// anywhere else in the window.
    pub open spec fn reset_arrived(self, seq: SeqNr, fx: FxModel) -> (ConnModel, FxModel) {
        if self.tcb.state is TimeWait {
            (self, fx)
        } else if seq == self.tcb.rcv_nxt {
            self.reset_by_peer(fx)
        } else {
            (self, fx.with_challenge())
        }
    }

    /// With SND.UNA advanced to `ack`: what it covers leaves the send buffer
    /// and the scoreboard.
    #[verifier::opaque]
    pub open spec fn ack_advanced(self, ack: SeqNr) -> ConnModel {
        ConnModel {
            tcb: self.tcb.una_advanced(ack),
            snd: self.snd.skip(self.tcb.data_acked_by(ack)),
            board: board_trim(self.board, ack),
            ..self
        }
    }

    /// With the application told that it can write again, if it was blocked
    /// and the buffer of `cap` bytes has space.
    #[verifier::opaque]
    pub open spec fn unblocked(self, cap: int, fx: FxModel) -> (ConnModel, FxModel) {
        if self.tcb.app_blocked && self.snd.len() < cap {
            (
                self.with(Tcb { app_blocked: false, ..self.tcb }),
                fx.with_event(ConnEvent::Writable),
            )
        } else {
            (self, fx)
        }
    }

    /// Our FIN is acknowledged: the closing handshake goes on.
    #[verifier::opaque]
    pub open spec fn fin_acknowledged(self, now: Instant, fx: FxModel) -> (ConnModel, FxModel) {
        let t = self.tcb;
        match t.state {
            State::FinWait1 => (
                self.with(
                    Tcb {
                        state: State::FinWait2,
                        timers: Timers {
                            wait: if t.cfg.fin_wait2_timeout.micros > 0 {
                                Some(now + t.cfg.fin_wait2_timeout)
                            } else {
                                t.timers.wait
                            },
                            ..t.timers
                        },
                        ..t
                    },
                ),
                fx,
            ),
            State::Closing => (self.with(t.time_wait(now)), fx),
            State::LastAck => self.closed(CloseReason::Normal, fx),
            _ => (self, fx),
        }
    }

    /// SND.UNA advanced to `ack`, with the timers and the congestion control
    /// adjusted.
    #[verifier::opaque]
    pub open spec fn ack_absorbed(self, now: Instant, ack: SeqNr) -> ConnModel {
        let a = self.ack_advanced(ack);
        a.with(
            a.tcb.ack_timed(now, ack).recovery_acked(
                ack,
                ack.since(self.tcb.snd_una),
                board_next_hole(a.board, ack) is None,
            ),
        )
    }

    /// SND.UNA < SEG.ACK <= SND.NXT: something new is acknowledged.
    #[verifier::opaque]
    pub open spec fn newly_acked(self, now: Instant, ack: SeqNr, cap: int, fx: FxModel) -> (
        ConnModel,
        FxModel,
    ) {
        let (m, f) = self.ack_absorbed(now, ack).unblocked(cap, fx);
        if self.tcb.fin_acked_by(ack) {
            m.fin_acknowledged(now, f)
        } else {
            (m, f)
        }
    }

    /// Whether the ACK of an unacceptable segment still counts: in a
    /// synchronized state short of TIME-WAIT, if it is in range. (RFC 9293
    /// section 3.10.7.4 step 1: special allowance is made to accept valid
    /// ACKs while our window is zero.)
    pub open spec fn ack_salvaged(self, seg: Segment) -> bool {
        &&& seg.flags.ack()
        &&& self.tcb.state is Established || self.tcb.state is FinWait1 || self.tcb.state is FinWait2
            || self.tcb.state is CloseWait || self.tcb.state is Closing
            || self.tcb.state is LastAck
        &&& self.tcb.ack_in_range(seg.ack)
    }

    /// A segment entirely outside the window arrived. A reset is dropped
    /// silently (RFC 5961 section 3.2). Anything else is acknowledged, and
    /// the genuine retransmitted FIN (only it) restarts the TIME-WAIT timer.
    #[verifier::opaque]
    pub open spec fn unacceptable_arrived(
        self,
        now: Instant,
        seg: Segment,
        cap: int,
        fx: FxModel,
    ) -> (ConnModel, FxModel) {
        if seg.flags.rst() {
            (self, fx)
        } else if self.ack_salvaged(seg) {
            let (m, f) = if self.tcb.snd_una.lt(seg.ack) {
                self.newly_acked(now, seg.ack, cap, fx)
            } else {
                (self, fx)
            };
            (m.with(Tcb { persist_count: 0, ..m.tcb }.ack_now()), f)
        } else if self.tcb.state is TimeWait && seg.flags.fin() && seg.seq.add(seg.len() as u32)
            == self.tcb.rcv_nxt {
            (self.with(self.tcb.time_wait(now).ack_now()), fx)
        } else {
            (self.with(self.tcb.ack_now()), fx)
        }
    }

    /// With the SACK blocks of a segment ingested, and whether they told
    /// anything new.
    pub open spec fn sacked(self, blocks: Seq<(u32, u32)>) -> (ConnModel, bool) {
        if self.tcb.sack_enabled && blocks.len() > 0 {
            let (b, learned) = board_ingest(
                self.board,
                blocks,
                self.tcb.snd_una,
                self.tcb.snd_nxt,
            );
            (ConnModel { board: b, ..self }, learned)
        } else {
            (self, false)
        }
    }

    /// Whether a segment that acknowledges nothing new is a duplicate ACK
    /// (RFC 5681 section 2; RFC 6675 section 2 for the SACK part). The answer
    /// to a zero-window probe is none: the persist timer takes care of that.
    pub open spec fn is_dupack(self, seg: Segment, learned: bool) -> bool {
        &&& seg.ack == self.tcb.snd_una
        &&& seg.len() == 0
        &&& self.tcb.flight() > 0
        &&& window_scaled(seg.window, self.tcb.snd_scale) == self.tcb.snd_wnd || learned
        &&& self.tcb.snd_wnd > 0 || self.tcb.timers.rexmit is Some
    }

    /// With the segment's acknowledgment processed.
    #[verifier::opaque]
    pub open spec fn ack_processed(
        self,
        now: Instant,
        seg: Segment,
        learned: bool,
        cap: int,
        fx: FxModel,
    ) -> (ConnModel, FxModel) {
        if self.tcb.snd_una.lt(seg.ack) {
            self.newly_acked(now, seg.ack, cap, fx)
        } else if self.is_dupack(seg, learned) {
            (self.with(self.tcb.dupacked()), fx)
        } else {
            (self, fx)
        }
    }

    /// How many bytes of text there is room for at `off` behind RCV.NXT: as
    /// far as the window, and the peer's FIN if it was seen, reach.
    pub open spec fn text_room(self, off: int) -> int {
        let room = greater(self.open_window() - off, 0);
        match self.tcb.peer_fin {
            Some(f) => lesser(room, greater(self.tcb.rcv_nxt.distance_to(f) - off, 0)),
            None => room,
        }
    }

    /// With `data` stored at `off` behind RCV.NXT. Data out of order is
    /// acknowledged at once (RFC 5681 section 3.2).
    #[verifier::opaque]
    pub open spec fn text_stored(
        self,
        now: Instant,
        off: u32,
        data: Seq<u8>,
        cut: bool,
        fx: FxModel,
    ) -> (ConnModel, FxModel) {
        let (rcv, ins) = self.rcv.insert((self.rcv.readable + off) as u32, data);
        let m = ConnModel { rcv, ..self };
        if !ins.stored || ins.advance == 0 {
            (m.with(m.tcb.ack_now()), fx)
        } else {
            (
                m.with(m.tcb.text_accepted(now, ins.advance, cut)),
                if self.rcv.readable == 0 {
                    fx.with_event(ConnEvent::Readable)
                } else {
                    fx
                },
            )
        }
    }

    /// With the segment's text processed (RFC 9293 section 3.10.7.4 step 7):
    /// what was received before is cut off on the left, what exceeds the
    /// window or the peer's FIN on the right. Once the peer's FIN was
    /// consumed, text is ignored.
    #[verifier::opaque]
    pub open spec fn text_arrived(
        self,
        now: Instant,
        seq: SeqNr,
        payload: Seq<u8>,
        fx: FxModel,
    ) -> (ConnModel, FxModel) {
        let t = self.tcb;
        if payload.len() == 0 || !(t.state is Established || t.state is FinWait1 || t.state
            is FinWait2) {
            (self, fx)
        } else {
            let old = seq.lt(t.rcv_nxt);
            let skip = if old {
                seq.distance_to(t.rcv_nxt)
            } else {
                0
            };
            let off = if old {
                0
            } else {
                t.rcv_nxt.distance_to(seq)
            };
            let len = lesser(payload.len() - skip, self.text_room(off));
            if len <= 0 {
                (self.with(t.ack_now()), fx)
            } else {
                self.text_stored(
                    now,
                    off as u32,
                    payload.subrange(skip, skip + len),
                    len < payload.len() - skip,
                    fx,
                )
            }
        }
    }

    /// Without what is held beyond the peer's FIN, if that was seen: nothing
    /// comes behind it.
    #[verifier::opaque]
    pub open spec fn cut_at_fin(self) -> ConnModel {
        match self.tcb.peer_fin {
            Some(f) => ConnModel {
                rcv: self.rcv.cut_at((self.rcv.readable + self.tcb.rcv_nxt.distance_to(f)) as u32),
                ..self
            },
            None => self,
        }
    }

    /// With the segment's FIN noted, and nothing held beyond it.
    pub open spec fn fin_recorded(self, seg: Segment, wnd: u32) -> ConnModel {
        self.with(self.tcb.fin_noted(seg, wnd)).cut_at_fin()
    }

    /// With the peer's FIN consumed, if it is next in order.
    #[verifier::opaque]
    pub open spec fn fin_arrived(self, now: Instant, fx: FxModel) -> (ConnModel, FxModel) {
        if self.tcb.fin_in_order() {
            (self.with(self.tcb.fin_consumed(now)), fx.with_event(ConnEvent::PeerFin))
        } else {
            (self, fx)
        }
    }

    /// The part of a segment behind its acknowledgment: window, text, FIN.
    pub open spec fn contents_arrived(
        self,
        now: Instant,
        seg: Segment,
        old_una: SeqNr,
        wnd: u32,
        fx: FxModel,
    ) -> (ConnModel, FxModel) {
        let w = self.with(self.tcb.window_updated(seg, old_una));
        let (x, f) = w.text_arrived(now, seg.seq, seg.payload, fx);
        x.fin_recorded(seg, wnd).fin_arrived(now, f)
    }

    /// An acceptable segment with ACK arrived in a synchronized state.
    #[verifier::opaque]
    pub open spec fn ack_arrived(self, now: Instant, seg: Segment, cap: int, fx: FxModel) -> (
        ConnModel,
        FxModel,
    ) {
        if !self.tcb.ack_in_range(seg.ack) {
            (self.with(self.tcb.ack_now()), fx)
        } else {
            let (s, learned) = self.sacked(seg.opts.sack_blocks);
            let (a, f) = s.ack_processed(now, seg, learned, cap, fx);
            a.contents_arrived(now, seg, self.tcb.snd_una, self.open_window(), f)
        }
    }

    /// Whether an ACK completes the handshake of SYN-RECEIVED.
    pub open spec fn handshake_acked(self, ack: SeqNr) -> bool {
        self.tcb.snd_una.lt(ack) && ack.le(self.tcb.snd_nxt)
    }

    /// Out of SYN-RECEIVED.
    pub open spec fn established(self) -> ConnModel {
        self.with(Tcb { state: State::Established, reported: true, ..self.tcb })
    }

    /// A segment arrived in SYN-RECEIVED or a synchronized state (RFC 9293
    /// section 3.10.7.4). A SYN asks for a challenge ACK whatever its
    /// sequence number (RFC 5961 section 4.2).
    #[verifier::opaque]
    pub open spec fn sync_arrived(self, now: Instant, seg: Segment, cap: int, fx: FxModel) -> (
        ConnModel,
        FxModel,
    ) {
        if seg.flags.syn() && !seg.flags.rst() {
            (self, fx.with_challenge())
        } else if !acceptable(self.tcb.rcv_nxt, self.open_window(), seg.seq, seg.len()) {
            self.unacceptable_arrived(now, seg, cap, fx)
        } else if seg.flags.rst() {
            self.reset_arrived(seg.seq, fx)
        } else if !seg.flags.ack() {
            (self, fx)
        } else if !(self.tcb.state is SynReceived) {
            self.ack_arrived(now, seg, cap, fx)
        } else if self.handshake_acked(seg.ack) {
            self.established().ack_arrived(now, seg, cap, fx.with_event(ConnEvent::Connected))
        } else {
            (self, fx.with_reset(ResetReply { seq: seg.ack, ack: None }))
        }
    }

    /// A segment arrived (RFC 9293 section 3.10.7), at a connection with a
    /// send buffer of `cap` bytes.
    pub open spec fn arrived(self, now: Instant, seg: Segment, cap: int, fx: FxModel) -> (
        ConnModel,
        FxModel,
    ) {
        let (m, f) = match self.tcb.state {
            State::Closed => (self, fx),
            State::SynSent => self.syn_sent_arrived(now, seg, fx),
            _ => self.sync_arrived(now, seg, cap, fx),
        };
        (m.timers_updated(now), f)
    }
}

impl ConnModel {
    /// Whether the ACK of a segment may be processed: the invariant holds, or
    /// does but for an ACK of our SYN, which is being processed.
    pub open spec fn takes_ack(self, ack: SeqNr) -> bool {
        if self.tcb.state is Established && !self.tcb.syn_acked {
            &&& self.with(Tcb { state: State::SynReceived, ..self.tcb }).inv()
            &&& self.handshake_acked(ack)
        } else {
            &&& self.inv()
            &&& !(self.tcb.state is SynSent)
            &&& !(self.tcb.state is SynReceived)
        }
    }
}

/// Nothing changes in SYN-SENT that would break the invariant.
proof fn lemma_syn_sent_inv(m: ConnModel, now: Instant, seg: Segment, fx: FxModel)
    requires
        m.inv(),
        m.tcb.state is SynSent,
        seg.legal(),
    ensures
        m.syn_sent_arrived(now, seg, fx).0.inv(),
{
    reveal(ConnModel::syn_sent_arrived);
    reveal(Tcb::syn_seen);
    reveal(Tcb::handshake_done);
    lemma_closed_inv(m, CloseReason::Refused, fx);
    reveal(ConnModel::inv);
    reveal(fin_bounds_text);
}

proof fn lemma_reset_inv(m: ConnModel, fx: FxModel)
    requires
        m.inv(),
    ensures
        m.reset_by_peer(fx).0.inv(),
{
    reveal(ConnModel::reset_by_peer);
    lemma_closed_inv(m, CloseReason::Reset, fx);
    lemma_closed_inv(m, CloseReason::Refused, fx);
    lemma_closed_inv(m, CloseReason::Normal, fx);
}

/// What an acceptable ACK covers was sent and is in the buffer.
pub(crate) proof fn lemma_ack_covers(m: ConnModel, ack: SeqNr)
    requires
        m.takes_ack(ack),
        m.tcb.snd_una.lt(ack),
        ack.le(m.tcb.snd_nxt),
    ensures
        0 < m.tcb.snd_una.distance_to(ack) <= m.tcb.flight(),
        ack.distance_to(m.tcb.snd_nxt) == m.tcb.flight() - m.tcb.snd_una.distance_to(ack),
        0 <= m.tcb.data_acked_by(ack) <= m.snd.len(),
        m.tcb.cc.wf(),
        board_valid(m.board, m.tcb.snd_una, m.tcb.snd_nxt),
{
    reveal(ConnModel::inv);
}

/// The step of SND.UNA, with any change of the fields that no statement about
/// sequence numbers speaks of, keeps the invariant.
proof fn lemma_ack_advanced_inv(m: ConnModel, ack: SeqNr, t: Tcb)
    requires
        m.takes_ack(ack),
        m.tcb.snd_una.lt(ack),
        ack.le(m.tcb.snd_nxt),
        t.scalars_ok(),
        t.state == m.tcb.state,
        t.iss == m.tcb.iss,
        t.snd_una == ack,
        t.snd_nxt == m.tcb.snd_nxt,
        t.syn_acked,
        t.fin_queued == m.tcb.fin_queued,
        t.fin_seq == m.tcb.fin_seq,
        t.sack_cursor == m.tcb.una_advanced(ack).sack_cursor,
        t.recovery is None || (t.recovery == m.tcb.recovery && !ack.ge(t.recovery->0)),
        t.rcv_nxt == m.tcb.rcv_nxt,
        t.peer_fin == m.tcb.peer_fin,
    ensures
        m.ack_advanced(ack).with(t).inv(),
        m.tcb.fin_acked_by(ack) ==> t.fin_seq is Some && t.flight() == 0,
{
    lemma_ack_covers(m, ack);
    trim_keeps_board_valid(m.board, m.tcb.snd_una, ack, m.tcb.snd_nxt);
    reveal(ConnModel::ack_advanced);
    reveal(ConnModel::inv);
}

proof fn lemma_cc_steps_wf(t: Tcb, ack: SeqNr, total: u32, no_hole: bool)
    requires
        t.cc.wf(),
    ensures
        t.recovery_acked(ack, total, no_hole).cc.wf(),
        t.dupacked().cc.wf(),
{
    reveal(Tcb::recovery_acked);
    reveal(Tcb::dupacked);
}

proof fn lemma_ack_timed_frame(t: Tcb, now: Instant, ack: SeqNr)
    requires
        t.scalars_ok(),
    ensures
        t.ack_timed(now, ack).scalars_ok(),
        t.ack_timed(now, ack).state == t.state,
        t.ack_timed(now, ack).same_sequence(t),
        t.ack_timed(now, ack).recovery == t.recovery,
{
    reveal(Tcb::ack_timed);
}

proof fn lemma_recovery_acked_frame(t: Tcb, ack: SeqNr, total: u32, no_hole: bool)
    requires
        t.scalars_ok(),
    ensures
        t.recovery_acked(ack, total, no_hole).scalars_ok(),
        t.recovery_acked(ack, total, no_hole).state == t.state,
        t.recovery_acked(ack, total, no_hole).same_sequence(t),
        t.recovery_acked(ack, total, no_hole).recovery matches Some(p) ==> t.recovery == Some(p)
            && !ack.ge(p),
{
    lemma_cc_steps_wf(t, ack, total, no_hole);
    reveal(Tcb::recovery_acked);
}

proof fn lemma_ack_advanced_parts(m: ConnModel, ack: SeqNr)
    requires
        m.takes_ack(ack),
    ensures
        m.ack_advanced(ack).tcb == m.tcb.una_advanced(ack),
        m.tcb.una_advanced(ack).scalars_ok(),
{
    reveal(ConnModel::ack_advanced);
    reveal(ConnModel::inv);
}

proof fn lemma_ack_absorbed_inv(m: ConnModel, now: Instant, ack: SeqNr)
    requires
        m.takes_ack(ack),
        m.tcb.snd_una.lt(ack),
        ack.le(m.tcb.snd_nxt),
    ensures
        m.ack_absorbed(now, ack).inv(),
        m.ack_absorbed(now, ack).tcb.state == m.tcb.state,
        m.tcb.fin_acked_by(ack) ==> m.ack_absorbed(now, ack).tcb.fin_seq is Some && m.ack_absorbed(
            now,
            ack,
        ).tcb.flight() == 0,
{
    reveal(ConnModel::ack_absorbed);
    lemma_ack_advanced_parts(m, ack);
    let a = m.ack_advanced(ack);
    let total = ack.since(m.tcb.snd_una);
    let no_hole = board_next_hole(a.board, ack) is None;
    lemma_ack_timed_frame(a.tcb, now, ack);
    let b = a.tcb.ack_timed(now, ack);
    lemma_recovery_acked_frame(b, ack, total, no_hole);
    let t = b.recovery_acked(ack, total, no_hole);
    assert(m.ack_absorbed(now, ack) == a.with(t));
    lemma_absorbed_at(m, ack, b, t);
}

/// The step of SND.UNA followed by changes that leave sequence numbers alone.
proof fn lemma_absorbed_at(m: ConnModel, ack: SeqNr, b: Tcb, t: Tcb)
    requires
        m.takes_ack(ack),
        m.tcb.snd_una.lt(ack),
        ack.le(m.tcb.snd_nxt),
        b.same_sequence(m.tcb.una_advanced(ack)),
        b.recovery == m.tcb.recovery,
        t.same_sequence(b),
        t.recovery matches Some(p) ==> b.recovery == Some(p) && !ack.ge(p),
        t.scalars_ok(),
        t.state == m.tcb.state,
    ensures
        m.ack_advanced(ack).with(t).inv(),
        m.tcb.fin_acked_by(ack) ==> t.fin_seq is Some && t.flight() == 0,
{
    lemma_ack_advanced_inv(m, ack, t);
}

proof fn lemma_unblocked_inv(m: ConnModel, cap: int, fx: FxModel)
    requires
        m.inv(),
    ensures
        m.unblocked(cap, fx).0.inv(),
        m.unblocked(cap, fx).0.tcb.same_sequence(m.tcb),
        m.unblocked(cap, fx).0.tcb.state == m.tcb.state,
{
    assert(m.tcb.scalars_ok()) by {
        lemma_inv_scalars(m);
    }
    reveal(ConnModel::unblocked);
    lemma_inv_frame(m, m.unblocked(cap, fx).0);
}

proof fn lemma_fin_acknowledged_inv(m: ConnModel, now: Instant, fx: FxModel)
    requires
        m.inv(),
        m.tcb.fin_seq is Some,
        m.tcb.flight() == 0,
    ensures
        m.fin_acknowledged(now, fx).0.inv(),
        !(m.fin_acknowledged(now, fx).0.tcb.state is SynReceived) || m.tcb.state is SynReceived,
{
    reveal(ConnModel::fin_acknowledged);
    lemma_closed_inv(m, CloseReason::Normal, fx);
    if !(m.tcb.state is LastAck) {
        reveal(ConnModel::inv);
    }
}

proof fn lemma_newly_acked_inv(m: ConnModel, now: Instant, ack: SeqNr, cap: int, fx: FxModel)
    requires
        m.takes_ack(ack),
        m.tcb.snd_una.lt(ack),
        ack.le(m.tcb.snd_nxt),
    ensures
        m.newly_acked(now, ack, cap, fx).0.inv(),
        !(m.newly_acked(now, ack, cap, fx).0.tcb.state is SynReceived),
{
    reveal(ConnModel::newly_acked);
    lemma_ack_absorbed_inv(m, now, ack);
    let a = m.ack_absorbed(now, ack);
    lemma_unblocked_inv(a, cap, fx);
    let (u, f) = a.unblocked(cap, fx);
    if m.tcb.fin_acked_by(ack) {
        lemma_fin_acknowledged_inv(u, now, f);
    }
}

proof fn lemma_dupacked_inv(m: ConnModel)
    requires
        m.inv(),
        !(m.tcb.state is SynSent),
    ensures
        m.with(m.tcb.dupacked()).inv(),
        m.tcb.dupacked().state == m.tcb.state,
{
    lemma_inv_scalars(m);
    lemma_cc_steps_wf(m.tcb, m.tcb.iss, 0, false);
    reveal(Tcb::dupacked);
    reveal(ConnModel::inv);
}

/// An ACK that completes the handshake, or one out of range, changes nothing
/// that the range test would miss.
proof fn lemma_takes_ack_in_range(m: ConnModel, ack: SeqNr)
    requires
        m.takes_ack(ack),
    ensures
        m.tcb.state is Established && !m.tcb.syn_acked ==> m.tcb.ack_in_range(ack),
{
    reveal(ConnModel::inv);
}

pub(crate) proof fn lemma_sacked_takes_ack(m: ConnModel, ack: SeqNr, blocks: Seq<(u32, u32)>)
    requires
        m.takes_ack(ack),
    ensures
        board_valid(m.board, m.tcb.snd_una, m.tcb.snd_nxt),
        m.sacked(blocks).0.takes_ack(ack),
{
    reveal(ConnModel::inv);
    ingest_keeps_board_valid(m.board, blocks, m.tcb.snd_una, m.tcb.snd_nxt);
}

pub(crate) proof fn lemma_ack_processed_inv(
    m: ConnModel,
    now: Instant,
    seg: Segment,
    learned: bool,
    cap: int,
    fx: FxModel,
)
    requires
        m.takes_ack(seg.ack),
        m.tcb.ack_in_range(seg.ack),
    ensures
        m.ack_processed(now, seg, learned, cap, fx).0.inv(),
        !(m.ack_processed(now, seg, learned, cap, fx).0.tcb.state is SynReceived),
{
    reveal(ConnModel::ack_processed);
    if m.tcb.snd_una.lt(seg.ack) {
        lemma_newly_acked_inv(m, now, seg.ack, cap, fx);
    } else {
        lemma_dupacked_inv(m);
    }
}

proof fn lemma_unacceptable_inv(m: ConnModel, now: Instant, seg: Segment, cap: int, fx: FxModel)
    requires
        m.inv(),
    ensures
        m.unacceptable_arrived(now, seg, cap, fx).0.inv(),
{
    reveal(ConnModel::unacceptable_arrived);
    assert(m.tcb.scalars_ok()) by {
        lemma_inv_scalars(m);
    }
    let r = m.unacceptable_arrived(now, seg, cap, fx).0;
    if seg.flags.rst() {
    } else if m.ack_salvaged(seg) {
        assert(m.tcb.state is Established ==> m.tcb.syn_acked) by {
            reveal(ConnModel::inv);
        }
        let n = if m.tcb.snd_una.lt(seg.ack) {
            lemma_newly_acked_inv(m, now, seg.ack, cap, fx);
            m.newly_acked(now, seg.ack, cap, fx).0
        } else {
            m
        };
        assert(n.tcb.scalars_ok()) by {
            lemma_inv_scalars(n);
        }
        lemma_inv_frame(n, r);
    } else {
        lemma_inv_frame(m, r);
    }
}

pub(crate) proof fn lemma_window_updated_inv(m: ConnModel, seg: Segment, old_una: SeqNr)
    requires
        m.inv(),
    ensures
        m.with(m.tcb.window_updated(seg, old_una)).inv(),
        m.tcb.window_updated(seg, old_una).state == m.tcb.state,
{
    assert(m.tcb.scalars_ok()) by {
        lemma_inv_scalars(m);
    }
    reveal(Tcb::window_updated);
    lemma_window_scaled(seg.window, m.tcb.snd_scale);
    lemma_inv_frame(m, m.with(m.tcb.window_updated(seg, old_una)));
}

/// A step that touches only the receiving side keeps the invariant, if the
/// receive buffer does.
proof fn lemma_receiving_frame(a: ConnModel, b: ConnModel)
    requires
        a.inv(),
        b.tcb.same_sending(a.tcb),
        b.tcb.scalars_ok(),
        b.tcb.state == a.tcb.state,
        !(a.tcb.state is SynSent),
        b.snd == a.snd,
        b.board == a.board,
        b.rcv.wf(),
        b.rcv.window.len() == a.rcv.window.len(),
        fin_bounds_text(b.rcv, b.tcb.rcv_nxt, b.tcb.peer_fin),
    ensures
        b.inv(),
{
    reveal(ConnModel::inv);
}

proof fn lemma_text_stored_inv(
    m: ConnModel,
    now: Instant,
    off: u32,
    data: Seq<u8>,
    cut: bool,
    fx: FxModel,
)
    requires
        m.inv(),
        !(m.tcb.state is SynSent),
        off <= m.open_window(),
        m.tcb.peer_fin matches Some(f) ==> off + data.len() <= m.tcb.rcv_nxt.distance_to(f),
    ensures
        m.text_stored(now, off, data, cut, fx).0.inv(),
        m.text_stored(now, off, data, cut, fx).0.tcb.state == m.tcb.state,
{
    assert(m.tcb.scalars_ok() && m.rcv.wf()) by {
        lemma_inv_scalars(m);
    }
    insert_keeps_invariant(m.rcv, (m.rcv.readable + off) as u32, data);
    lemma_text_stored_bounded(m, now, off, data, cut, fx);
    reveal(ConnModel::text_stored);
    reveal(Tcb::text_accepted);
    lemma_receiving_frame(m, m.text_stored(now, off, data, cut, fx).0);
}

/// Text that ends at or before a noted FIN does not carry RCV.NXT past it, and
/// leaves nothing beyond it.
proof fn lemma_text_stored_bounded(
    m: ConnModel,
    now: Instant,
    off: u32,
    data: Seq<u8>,
    cut: bool,
    fx: FxModel,
)
    requires
        m.inv(),
        off <= m.open_window(),
        m.tcb.peer_fin matches Some(f) ==> off + data.len() <= m.tcb.rcv_nxt.distance_to(f),
    ensures
        ({
            let n = m.text_stored(now, off, data, cut, fx).0;
            fin_bounds_text(n.rcv, n.tcb.rcv_nxt, n.tcb.peer_fin)
        }),
{
    assert(m.rcv.wf() && m.rcv.window.len() <= MAX_CAPACITY && fin_bounds_text(
        m.rcv,
        m.tcb.rcv_nxt,
        m.tcb.peer_fin,
    )) by {
        reveal(ConnModel::inv);
    }
    let at = (m.rcv.readable + off) as u32;
    let n = m.text_stored(now, off, data, cut, fx).0;
    let (r, ins) = m.rcv.insert(at, data);
    insert_keeps_invariant(m.rcv, at, data);
    assert(n.rcv == r && n.tcb.peer_fin == m.tcb.peer_fin && n.tcb.rcv_nxt == m.tcb.rcv_nxt.add(
        ins.advance,
    )) by {
        reveal(ConnModel::text_stored);
        reveal(Tcb::text_accepted);
    }
    reveal(fin_bounds_text);
    if let Some(f) = m.tcb.peer_fin {
        let d = m.tcb.rcv_nxt.distance_to(f);
        insert_ends_below(m.rcv, at, data, m.rcv.readable + d);
        assert(n.tcb.rcv_nxt.distance_to(f) == d - ins.advance);
    }
}

pub(crate) proof fn lemma_text_arrived_inv(
    m: ConnModel,
    now: Instant,
    seq: SeqNr,
    payload: Seq<u8>,
    fx: FxModel,
)
    requires
        m.inv(),
    ensures
        m.text_arrived(now, seq, payload, fx).0.inv(),
        m.text_arrived(now, seq, payload, fx).0.tcb.state == m.tcb.state,
{
    assert(m.tcb.scalars_ok() && m.rcv.wf()) by {
        lemma_inv_scalars(m);
    }
    reveal(ConnModel::text_arrived);
    let old = seq.lt(m.tcb.rcv_nxt);
    let skip = if old {
        seq.distance_to(m.tcb.rcv_nxt)
    } else {
        0
    };
    let off = if old {
        0
    } else {
        m.tcb.rcv_nxt.distance_to(seq)
    };
    let len = lesser(payload.len() - skip, m.text_room(off));
    if len > 0 && (m.tcb.state is Established || m.tcb.state is FinWait1 || m.tcb.state
        is FinWait2) {
        lemma_text_stored_inv(
            m,
            now,
            off as u32,
            payload.subrange(skip, skip + len),
            len < payload.len() - skip,
            fx,
        );
    } else {
        lemma_inv_frame(m, m.with(m.tcb.ack_now()));
    }
}

/// Where a noted FIN is: not behind RCV.NXT, and not beyond the window.
pub(crate) proof fn lemma_fin_noted(m: ConnModel, seg: Segment, wnd: u32)
    requires
        m.inv(),
        wnd <= MAX_CAPACITY,
    ensures
        m.tcb.fin_noted(seg, wnd) == (Tcb {
            peer_fin: m.tcb.fin_noted(seg, wnd).peer_fin,
            ..m.tcb
        }),
        m.tcb.fin_noted(seg, wnd).peer_fin matches Some(f) ==> m.tcb.rcv_nxt.distance_to(f)
            <= MAX_CAPACITY,
        m.tcb.state is SynSent ==> m.tcb.fin_noted(seg, wnd).peer_fin is None,
{
    assert(fin_bounds_text(m.rcv, m.tcb.rcv_nxt, m.tcb.peer_fin) && (m.tcb.state is SynSent
        ==> m.tcb.peer_fin is None)) by {
        reveal(ConnModel::inv);
    }
    reveal(fin_bounds_text);
    reveal(Tcb::fin_noted);
}

pub(crate) proof fn lemma_fin_recorded_inv(m: ConnModel, seg: Segment, wnd: u32)
    requires
        m.inv(),
        wnd <= MAX_CAPACITY,
    ensures
        m.fin_recorded(seg, wnd).inv(),
        m.fin_recorded(seg, wnd).tcb == m.tcb.fin_noted(seg, wnd),
        m.fin_recorded(seg, wnd).tcb.state == m.tcb.state,
{
    assert(m.tcb.scalars_ok() && m.rcv.wf() && m.rcv.window.len() <= MAX_CAPACITY) by {
        lemma_inv_scalars(m);
    }
    lemma_fin_noted(m, seg, wnd);
    let t = m.tcb.fin_noted(seg, wnd);
    let n = m.fin_recorded(seg, wnd);
    reveal(ConnModel::cut_at_fin);
    if let Some(f) = t.peer_fin {
        let limit = (m.rcv.readable + m.tcb.rcv_nxt.distance_to(f)) as u32;
        cut_keeps_invariant(m.rcv, limit);
        assert(fin_bounds_text(n.rcv, n.tcb.rcv_nxt, n.tcb.peer_fin)) by {
            reveal(fin_bounds_text);
        }
        lemma_receiving_frame(m, n);
    } else {
        assert(fin_bounds_text(n.rcv, n.tcb.rcv_nxt, n.tcb.peer_fin)) by {
            reveal(fin_bounds_text);
        }
        reveal(ConnModel::inv);
    }
}

proof fn lemma_fin_arrived_inv(m: ConnModel, now: Instant, fx: FxModel)
    requires
        m.inv(),
        !(m.tcb.state is SynReceived),
    ensures
        m.fin_arrived(now, fx).0.inv(),
{
    reveal(ConnModel::fin_arrived);
    reveal(Tcb::fin_taken);
    reveal(Tcb::past_fin);
    reveal(ConnModel::inv);
    reveal(fin_bounds_text);
}

proof fn lemma_contents_inv(
    m: ConnModel,
    now: Instant,
    seg: Segment,
    old_una: SeqNr,
    wnd: u32,
    fx: FxModel,
)
    requires
        m.inv(),
        !(m.tcb.state is SynReceived),
        wnd <= MAX_CAPACITY,
    ensures
        m.contents_arrived(now, seg, old_una, wnd, fx).0.inv(),
{
    lemma_window_updated_inv(m, seg, old_una);
    let w = m.with(m.tcb.window_updated(seg, old_una));
    lemma_text_arrived_inv(w, now, seg.seq, seg.payload, fx);
    let (x, f) = w.text_arrived(now, seg.seq, seg.payload, fx);
    lemma_fin_recorded_inv(x, seg, wnd);
    lemma_fin_arrived_inv(x.fin_recorded(seg, wnd), now, f);
}

pub(crate) proof fn lemma_window_bounded(m: ConnModel, ack: SeqNr)
    requires
        m.takes_ack(ack),
    ensures
        m.open_window() <= MAX_CAPACITY,
{
    reveal(ConnModel::inv);
}

proof fn lemma_ack_arrived_inv(m: ConnModel, now: Instant, seg: Segment, cap: int, fx: FxModel)
    requires
        m.takes_ack(seg.ack),
    ensures
        m.ack_arrived(now, seg, cap, fx).0.inv(),
{
    reveal(ConnModel::ack_arrived);
    lemma_takes_ack_in_range(m, seg.ack);
    assert(m.open_window() <= MAX_CAPACITY) by {
        lemma_window_bounded(m, seg.ack);
    }
    if m.tcb.ack_in_range(seg.ack) {
        lemma_sacked_takes_ack(m, seg.ack, seg.opts.sack_blocks);
        let (s, learned) = m.sacked(seg.opts.sack_blocks);
        lemma_ack_processed_inv(s, now, seg, learned, cap, fx);
        let (a, f) = s.ack_processed(now, seg, learned, cap, fx);
        lemma_contents_inv(a, now, seg, m.tcb.snd_una, m.open_window(), f);
    } else {
        lemma_soft_change_inv(m, m.with(m.tcb.ack_now()));
    }
}

/// What a connection outside SYN-RECEIVED and SYN-SENT, or one whose
/// handshake completes, can take.
pub(crate) proof fn lemma_takes_ack(m: ConnModel, ack: SeqNr)
    requires
        m.inv(),
        !(m.tcb.state is SynSent),
    ensures
        !(m.tcb.state is SynReceived) ==> m.takes_ack(ack),
        m.tcb.state is SynReceived && m.handshake_acked(ack) ==> m.established().takes_ack(ack),
{
    assert(m.tcb.state is Established ==> m.tcb.syn_acked) by {
        reveal(ConnModel::inv);
    }
    if m.tcb.state is SynReceived && m.handshake_acked(ack) {
        let e = m.established();
        let b = e.with(Tcb { state: State::SynReceived, ..e.tcb });
        lemma_soft_change_inv(m, b);
        assert(!m.tcb.syn_acked) by {
            reveal(ConnModel::inv);
        }
    }
}

proof fn lemma_sync_inv(m: ConnModel, now: Instant, seg: Segment, cap: int, fx: FxModel)
    requires
        m.inv(),
        !(m.tcb.state is SynSent),
    ensures
        m.sync_arrived(now, seg, cap, fx).0.inv(),
{
    reveal(ConnModel::sync_arrived);
    lemma_unacceptable_inv(m, now, seg, cap, fx);
    lemma_reset_inv(m, fx);
    lemma_takes_ack(m, seg.ack);
    if m.tcb.state is SynReceived && m.handshake_acked(seg.ack) {
        lemma_ack_arrived_inv(
            m.established(),
            now,
            seg,
            cap,
            fx.with_event(ConnEvent::Connected),
        );
    } else if !(m.tcb.state is SynReceived) {
        lemma_ack_arrived_inv(m, now, seg, cap, fx);
    }
}

/// Whatever segment arrives, the invariant is kept.
pub proof fn segments_keep_invariant(
    m: ConnModel,
    now: Instant,
    seg: Segment,
    cap: int,
    fx: FxModel,
)
    requires
        m.inv(),
        seg.legal(),
    ensures
        m.arrived(now, seg, cap, fx).0.inv(),
{
    if m.tcb.state is SynSent {
        lemma_syn_sent_inv(m, now, seg, fx);
        lemma_timers_updated_inv(m.syn_sent_arrived(now, seg, fx).0, now);
    } else if m.tcb.state is Closed {
        lemma_timers_updated_inv(m, now);
    } else {
        lemma_sync_inv(m, now, seg, cap, fx);
        lemma_timers_updated_inv(m.sync_arrived(now, seg, cap, fx).0, now);
    }
}

impl Tcb {
    /// Enter ESTABLISHED or SYN-RECEIVED on the peer's SYN.
    fn on_peer_syn(self, h: &TcpHeader, opts: &TcpOptions) -> (r: Tcb)
        ensures
            forall|payload: Seq<u8>| r == self.syn_seen(#[trigger] Segment::of(*h, opts@, payload)),
    {
        proof {
            reveal(Tcb::syn_seen);
        }
        let seq = SeqNr(h.seq);
        let t = Tcb { irs: seq, rcv_nxt: seq.add(1), ..self }.apply_syn_options(
            opts.mss,
            opts.window_scale,
            opts.sack_permitted,
        );
        let snd_wnd: u32 = h.window as u32;
        let snd_max_wnd: u32 = if self.snd_max_wnd > snd_wnd {
            self.snd_max_wnd
        } else {
            snd_wnd
        };
        Tcb { snd_wnd, snd_max_wnd, snd_wl1: seq, snd_wl2: self.snd_una, ..t }
    }

    fn complete_handshake(self, now: Instant, ack: SeqNr) -> (r: Tcb)
        ensures
            r == self.handshake_done(now, ack),
    {
        proof {
            reveal(Tcb::handshake_done);
        }
        let t = self.take_rtt_sample(now, ack);
        Tcb {
            syn_acked: true,
            snd_una: ack,
            snd_wl2: ack,
            rexmit_count: 0,
            timers: Timers { rexmit: None, ..t.timers },
            state: State::Established,
            reported: true,
            ..t
        }.owe_ack_now()
    }

    fn open_both_ways(self) -> (r: Tcb)
        ensures
            r == self.opened_both_ways(),
    {
        Tcb {
            state: State::SynReceived,
            syn_pending: true,
            timers: Timers { rexmit: None, ..self.timers },
            ..self
        }
    }

    /// RFC 5961 section 5.2 ACK acceptability:
    /// SND.UNA - MAX.SND.WND <= SEG.ACK <= SND.NXT.
    fn ack_acceptable(&self, ack: SeqNr) -> (r: bool)
        ensures
            r == self.ack_in_range(ack),
    {
        let back: u32 = if self.snd_max_wnd > 1 {
            self.snd_max_wnd
        } else {
            1
        };
        !ack.gt(self.snd_nxt) && !ack.lt(self.snd_una.sub(back))
    }

    fn time_ack(self, now: Instant, ack: SeqNr) -> (r: Tcb)
        ensures
            r == self.ack_timed(now, ack),
    {
        proof {
            reveal(Tcb::ack_timed);
        }
        let t = Tcb { rexmit_count: 0, ..self.take_rtt_sample(now, ack) };
        if t.outstanding() > 0 {
            t.restart_rexmit(now)
        } else {
            t
        }
    }

    /// Congestion control and loss recovery on new data acknowledged.
    fn recover(self, ack: SeqNr, total: u32, no_hole: bool) -> (r: Tcb)
        requires
            self.cc.wf(),
        ensures
            r == self.recovery_acked(ack, total, no_hole),
    {
        proof {
            reveal(Tcb::recovery_acked);
        }
        let mut cc = self.cc;
        match self.recovery {
            Some(point) => {
                if ack.ge(point) {
                    cc.exit_recovery();
                    Tcb { cc, recovery: None, dupacks: 0, ..self }
                } else if !self.sack_enabled {
                    cc.on_partial_ack(total);
                    Tcb { rexmit_now: true, cc, ..self }
                } else if no_hole {
                    // The scoreboard is degenerate: fall back to resending
                    // the head, so that progress is bounded by the RTT.
                    Tcb { rexmit_now: true, ..self }
                } else {
                    self
                }
            },
            None => {
                cc.on_new_ack(total);
                Tcb { dupacks: 0, cc, ..self }
            },
        }
    }

    /// RFC 5681 section 2: duplicate-ACK accounting; section 3.2: fast
    /// retransmit on the third, with SACK-based recovery (RFC 6675) when
    /// negotiated.
    fn on_dupack(self) -> (r: Tcb)
        requires
            self.cc.wf(),
        ensures
            r == self.dupacked(),
    {
        proof {
            reveal(Tcb::dupacked);
        }
        let mut cc = self.cc;
        if self.recovery.is_some() {
            if self.sack_enabled {
                return self;
            }
            cc.inflate();
            return Tcb { cc, ..self };
        }
        let dupacks: u8 = self.dupacks.saturating_add(1);
        if dupacks != 3 {
            return Tcb { dupacks, ..self };
        }
        let flight: u32 = self.bytes_in_flight();
        let sack_cursor = if self.sack_enabled {
            cc.enter_sack_recovery(flight);
            self.snd_una
        } else {
            cc.enter_fast_recovery(flight);
            self.sack_cursor
        };
        Tcb {
            dupacks,
            recovery: Some(self.snd_nxt),
            // Karn: retransmissions follow.
            rtt_sample: None,
            rexmit_now: true,
            cc,
            sack_cursor,
            ..self
        }
    }

    /// Send-window update (RFC 9293 section 3.10.7.4 step 5, second half).
    fn update_window(self, h: &TcpHeader, old_una: SeqNr) -> (r: Tcb)
        ensures
            forall|opts: OptionsModel, payload: Seq<u8>|
                r == self.window_updated(#[trigger] Segment::of(*h, opts, payload), old_una),
    {
        proof {
            reveal(Tcb::window_updated);
        }
        let seq = SeqNr(h.seq);
        let ack = SeqNr(h.ack);
        if ack.ge(old_una) && ack.le(self.snd_nxt) && (self.snd_wl1.lt(seq) || (self.snd_wl1 == seq
            && self.snd_wl2.le(ack))) {
            let w: u32 = scaled_window(h.window, self.snd_scale);
            let snd_max_wnd: u32 = if self.snd_max_wnd > w {
                self.snd_max_wnd
            } else {
                w
            };
            Tcb {
                snd_wnd: w,
                snd_max_wnd,
                snd_wl1: seq,
                snd_wl2: ack,
                persist_count: 0,
                probe_pending: self.probe_pending && w == 0,
                ..self
            }
        } else {
            self
        }
    }

    fn expects_fin(&self) -> (r: bool)
        ensures
            r == self.awaits_fin(),
    {
        matches!(
            self.state,
            State::SynReceived | State::Established | State::FinWait1 | State::FinWait2
        )
    }

    /// Note the FIN of a segment with `len` bytes of text.
    fn note_fin(self, h: &TcpHeader, len: u32, wnd: u32) -> (r: Tcb)
        ensures
            forall|opts: OptionsModel, payload: Seq<u8>|
                payload.len() == len ==> r == self.fin_noted(
                    #[trigger] Segment::of(*h, opts, payload),
                    wnd,
                ),
    {
        proof {
            reveal(Tcb::fin_noted);
        }
        if !h.flags.fin() || !self.expects_fin() {
            return self;
        }
        let f = SeqNr(h.seq).add(len);
        let reach: u32 = if wnd > 1 {
            wnd
        } else {
            1
        };
        let not_earlier = match self.peer_fin {
            Some(p) => f.ge(p),
            None => true,
        };
        if (f == self.rcv_nxt || f.in_window(self.rcv_nxt, reach)) && not_earlier {
            Tcb { peer_fin: Some(f), ..self }
        } else {
            self
        }
    }

    fn consume_fin(self, now: Instant) -> (r: Tcb)
        ensures
            r == self.fin_consumed(now),
    {
        self.take_fin().move_past_fin(now)
    }

    fn take_fin(self) -> (r: Tcb)
        ensures
            r == self.fin_taken(),
    {
        proof {
            reveal(Tcb::fin_taken);
        }
        Tcb { peer_fin: None, rcv_nxt: self.rcv_nxt.add(1), ..self }.owe_ack_now()
    }

    fn move_past_fin(self, now: Instant) -> (r: Tcb)
        ensures
            r == self.past_fin(now),
    {
        proof {
            reveal(Tcb::past_fin);
        }
        match self.state {
            State::SynReceived | State::Established => Tcb { state: State::CloseWait, ..self },
            State::FinWait1 => Tcb { state: State::Closing, ..self },
            // If the same segment also acked our FIN, that already moved us
            // here.
            State::FinWait2 => self.enter_time_wait(now),
            _ => self,
        }
    }
}

impl<const SND: usize, const RCV: usize> Connection<SND, RCV> {
    /// Feed one validated, addressed-to-this-connection segment.
    pub fn on_segment(
        &mut self,
        now: Instant,
        h: &TcpHeader,
        opts: &TcpOptions,
        payload: &[u8],
        fx: &mut Effects,
    )
        requires
            old(self).wf(),
            old(fx).wf(),
            opts.sack_blocks.wf(),
            Segment::of(*h, opts@, payload@).legal(),
        ensures
            (final(self)@, final(fx)@) == old(self)@.arrived(
                now,
                Segment::of(*h, opts@, payload@),
                SND as int,
                old(fx)@,
            ),
            final(self).wf(),
            final(fx).wf(),
    {
        match self.tcb.state {
            State::Closed => {},
            State::SynSent => self.on_segment_syn_sent(now, h, opts, Ghost(payload@), fx),
            _ => self.on_segment_sync(now, h, opts, payload, fx),
        }
        self.update_send_timers(now);
    }

    /// RFC 9293 section 3.10.7.3: SYN-SENT. Data riding on a SYN-ACK is legal
    /// but rare; it is not queued (the peer retransmits it after the
    /// handshake).
    fn on_segment_syn_sent(
        &mut self,
        now: Instant,
        h: &TcpHeader,
        opts: &TcpOptions,
        payload: Ghost<Seq<u8>>,
        fx: &mut Effects,
    )
        requires
            old(self).wf(),
            old(self)@.tcb.state is SynSent,
            old(fx).wf(),
            Segment::of(*h, opts@, payload@).legal(),
        ensures
            (final(self)@, final(fx)@) == old(self)@.syn_sent_arrived(
                now,
                Segment::of(*h, opts@, payload@),
                old(fx)@,
            ),
            final(self).wf(),
            final(fx).wf(),
    {
        proof {
            lemma_syn_sent_inv(self@, now, Segment::of(*h, opts@, payload@), fx@);
            reveal(ConnModel::syn_sent_arrived);
        }
        let ack = SeqNr(h.ack);
        // First: ACK check.
        if h.flags.ack() && (ack.le(self.tcb.iss) || ack.gt(self.tcb.snd_nxt)) {
            // "send a reset (unless the RST bit is set)" then drop.
            if !h.flags.rst() {
                fx.reset_reply = Some(ResetReply { seq: ack, ack: None });
            }
            return;
        }
        // Second: RST. Acceptable only alongside an acceptable ACK (RFC 5961
        // section 3).
        if h.flags.rst() {
            if h.flags.ack() {
                self.enter_closed(CloseReason::Refused, fx);
            }
            return;
        }
        // Fourth: SYN.
        if h.flags.syn() {
            let t = self.tcb.on_peer_syn(h, opts);
            if h.flags.ack() {
                self.tcb = t.complete_handshake(now, ack);
                fx.event(ConnEvent::Connected);
            } else {
                self.tcb = t.open_both_ways();
            }
        }
        // Fifth: neither SYN nor RST, drop.
    }

    /// RFC 9293 section 3.10.7.4: SYN-RECEIVED and all synchronized states.
    fn on_segment_sync(
        &mut self,
        now: Instant,
        h: &TcpHeader,
        opts: &TcpOptions,
        payload: &[u8],
        fx: &mut Effects,
    )
        requires
            old(self).wf(),
            !(old(self)@.tcb.state is SynSent),
            old(fx).wf(),
            opts.sack_blocks.wf(),
            Segment::of(*h, opts@, payload@).legal(),
        ensures
            (final(self)@, final(fx)@) == old(self)@.sync_arrived(
                now,
                Segment::of(*h, opts@, payload@),
                SND as int,
                old(fx)@,
            ),
            final(self).wf(),
            final(fx).wf(),
    {
        let ghost seg = Segment::of(*h, opts@, payload@);
        proof {
            self.recv_buf.lemma_model_wf();
            lemma_sync_inv(self@, now, seg, SND as int, fx@);
            lemma_takes_ack(self@, seg.ack);
            reveal(ConnModel::sync_arrived);
        }
        let seq = SeqNr(h.seq);
        let ack = SeqNr(h.ack);
        let seg_len: u32 = segment_len(h, payload.len() as u32);
        // RFC 5961 section 4.2: a SYN elicits a challenge ACK irrespective of
        // its sequence number; answering out-of-window ones in another way
        // would be an oracle for off-path attackers.
        if h.flags.syn() && !h.flags.rst() {
            fx.wants_challenge = true;
            return;
        }
        if !seq_acceptable(self.tcb.rcv_nxt, self.recv_buf.window(), seq, seg_len) {
            self.on_unacceptable(now, h, opts, payload, seg_len, fx);
            return;
        }
        if h.flags.rst() {
            self.on_rst(seq, fx);
            return;
        }
        // "if the ACK bit is off, drop the segment"
        if !h.flags.ack() {
            return;
        }
        if self.tcb.state == State::SynReceived {
            if self.tcb.snd_una.lt(ack) && ack.le(self.tcb.snd_nxt) {
                // The same segment may carry window, data and FIN.
                self.tcb = Tcb { state: State::Established, reported: true, ..self.tcb };
                fx.event(ConnEvent::Connected);
            } else {
                // "<SEQ=SEG.ACK><CTL=RST>" for an unacceptable ACK.
                fx.reset_reply = Some(ResetReply { seq: ack, ack: None });
                return;
            }
        }
        self.on_ack(now, h, opts, payload, fx);
    }

    /// A segment entirely outside the window.
    fn on_unacceptable(
        &mut self,
        now: Instant,
        h: &TcpHeader,
        opts: &TcpOptions,
        payload: &[u8],
        seg_len: u32,
        fx: &mut Effects,
    )
        requires
            old(self).wf(),
            old(fx).wf(),
            seg_len == Segment::of(*h, opts@, payload@).len(),
        ensures
            (final(self)@, final(fx)@) == old(self)@.unacceptable_arrived(
                now,
                Segment::of(*h, opts@, payload@),
                SND as int,
                old(fx)@,
            ),
            final(self).wf(),
            final(fx).wf(),
    {
        let ghost seg = Segment::of(*h, opts@, payload@);
        proof {
            lemma_unacceptable_inv(self@, now, seg, SND as int, fx@);
            reveal(ConnModel::unacceptable_arrived);
        }
        let ack = SeqNr(h.ack);
        if h.flags.rst() {
            return;
        }
        let salvage = h.flags.ack() && matches!(
            self.tcb.state,
            State::Established
            | State::FinWait1
            | State::FinWait2
            | State::CloseWait
            | State::Closing
            | State::LastAck
        ) && self.tcb.ack_acceptable(ack);
        if salvage {
            if self.tcb.snd_una.lt(ack) {
                proof {
                    lemma_takes_ack(self@, ack);
                }
                self.process_new_ack(now, ack, fx);
            }
            self.tcb = Tcb { persist_count: 0, ..self.tcb };
        } else if self.tcb.state == State::TimeWait && h.flags.fin() && SeqNr(h.seq).add(seg_len)
            == self.tcb.rcv_nxt {
            self.tcb = self.tcb.enter_time_wait(now);
        }
        // "send an acknowledgment: <SEQ=SND.NXT><ACK=RCV.NXT>"; this is also
        // the reply that answers zero-window probes.
        self.tcb = self.tcb.owe_ack_now();
    }

    /// An acceptable segment with RST (RFC 5961 section 3.2).
    fn on_rst(&mut self, seq: SeqNr, fx: &mut Effects)
        requires
            old(self).wf(),
            old(fx).wf(),
        ensures
            (final(self)@, final(fx)@) == old(self)@.reset_arrived(seq, old(fx)@),
            final(self).wf(),
            final(fx).wf(),
    {
        if self.tcb.state == State::TimeWait {
            return;
        }
        if seq == self.tcb.rcv_nxt {
            self.process_rst(fx);
        } else {
            fx.wants_challenge = true;
        }
    }

    /// RFC 9293 section 3.10.7.4 step 2 reset processing, per state group.
    fn process_rst(&mut self, fx: &mut Effects)
        requires
            old(self).wf(),
            old(fx).wf(),
        ensures
            (final(self)@, final(fx)@) == old(self)@.reset_by_peer(old(fx)@),
            final(self).wf(),
            final(fx).wf(),
    {
        proof {
            lemma_reset_inv(self@, fx@);
            reveal(ConnModel::reset_by_peer);
        }
        let reason = match self.tcb.state {
            State::SynReceived => if self.tcb.passive {
                CloseReason::Reset
            } else {
                CloseReason::Refused
            },
            State::Established | State::FinWait1 | State::FinWait2 | State::CloseWait => {
                CloseReason::Reset
            },
            _ => CloseReason::Normal,
        };
        self.enter_closed(reason, fx);
    }

    /// SND.UNA < SEG.ACK <= SND.NXT: new data acknowledged.
    fn process_new_ack(&mut self, now: Instant, ack: SeqNr, fx: &mut Effects)
        requires
            old(self).parts_wf(),
            old(self)@.takes_ack(ack),
            old(self)@.tcb.snd_una.lt(ack),
            ack.le(old(self)@.tcb.snd_nxt),
            old(fx).wf(),
        ensures
            (final(self)@, final(fx)@) == old(self)@.newly_acked(
                now,
                ack,
                SND as int,
                old(fx)@,
            ),
            final(self).wf(),
            final(fx).wf(),
    {
        proof {
            lemma_newly_acked_inv(self@, now, ack, SND as int, fx@);
            reveal(ConnModel::newly_acked);
        }
        let fin_acked = match self.tcb.fin_seq {
            Some(f) => ack.gt(f),
            None => false,
        };
        self.absorb_ack(now, ack, fin_acked);
        self.unblock_app(fx);
        if fin_acked {
            self.on_fin_acked(now, fx);
        }
    }

    fn absorb_ack(&mut self, now: Instant, ack: SeqNr, fin_acked: bool)
        requires
            old(self).parts_wf(),
            old(self)@.takes_ack(ack),
            old(self)@.tcb.snd_una.lt(ack),
            ack.le(old(self)@.tcb.snd_nxt),
            fin_acked == old(self)@.tcb.fin_acked_by(ack),
        ensures
            final(self)@ == old(self)@.ack_absorbed(now, ack),
            final(self).parts_wf(),
    {
        proof {
            lemma_ack_covers(self@, ack);
            lemma_ack_advanced_parts(self@, ack);
            lemma_ack_timed_frame(self@.tcb.una_advanced(ack), now, ack);
            reveal(ConnModel::ack_absorbed);
        }
        let total: u32 = ack.since(self.tcb.snd_una);
        self.advance_una(ack, fin_acked);
        let no_hole = self.scoreboard.next_hole(ack).is_none();
        self.tcb = self.tcb.time_ack(now, ack).recover(ack, total, no_hole);
    }

    #[verifier::rlimit(30)]
    fn advance_una(&mut self, ack: SeqNr, fin_acked: bool)
        requires
            old(self).parts_wf(),
            0 <= old(self)@.tcb.data_acked_by(ack) <= old(self)@.snd.len(),
            fin_acked == old(self)@.tcb.fin_acked_by(ack),
        ensures
            final(self)@ == old(self)@.ack_advanced(ack),
            final(self).parts_wf(),
    {
        proof {
            reveal(ConnModel::ack_advanced);
        }
        let mut acked: u32 = ack.since(self.tcb.snd_una);
        if !self.tcb.syn_acked {
            acked -= 1;
        }
        if fin_acked {
            acked -= 1;
        }
        self.send_buf.ack(acked as usize);
        self.scoreboard.on_ack_advance(ack);
        let sack_cursor = if self.tcb.sack_cursor.lt(ack) {
            ack
        } else {
            self.tcb.sack_cursor
        };
        self.tcb = Tcb { syn_acked: true, snd_una: ack, sack_cursor, ..self.tcb };
    }

    /// Writable edge: the app saw a full buffer at some point.
    fn unblock_app(&mut self, fx: &mut Effects)
        requires
            old(self).parts_wf(),
            old(fx).wf(),
        ensures
            (final(self)@, final(fx)@) == old(self)@.unblocked(SND as int, old(fx)@),
            final(self).parts_wf(),
            final(fx).wf(),
    {
        proof {
            reveal(ConnModel::unblocked);
        }
        if self.tcb.app_blocked && self.send_buf.space() > 0 {
            self.tcb = Tcb { app_blocked: false, ..self.tcb };
            fx.event(ConnEvent::Writable);
        }
    }

    fn on_fin_acked(&mut self, now: Instant, fx: &mut Effects)
        requires
            old(self).parts_wf(),
            old(fx).wf(),
        ensures
            (final(self)@, final(fx)@) == old(self)@.fin_acknowledged(now, old(fx)@),
            final(self).parts_wf(),
            final(fx).wf(),
    {
        proof {
            reveal(ConnModel::fin_acknowledged);
        }
        match self.tcb.state {
            State::FinWait1 => {
                let timeout = self.tcb.cfg.fin_wait2_timeout;
                let wait = if timeout.micros > 0 {
                    Some(now + timeout)
                } else {
                    self.tcb.timers.wait
                };
                self.tcb = Tcb {
                    state: State::FinWait2,
                    timers: Timers { wait, ..self.tcb.timers },
                    ..self.tcb
                };
            },
            State::Closing => {
                self.tcb = self.tcb.enter_time_wait(now);
            },
            State::LastAck => self.enter_closed(CloseReason::Normal, fx),
            _ => {},
        }
    }
}

/// Sequence numbers that a segment with `len` bytes of text takes.
pub fn segment_len(h: &TcpHeader, len: u32) -> (r: u32)
    requires
        len + 2 <= u32::MAX,
    ensures
        forall|opts: OptionsModel, payload: Seq<u8>|
            payload.len() == len ==> r == (#[trigger] Segment::of(*h, opts, payload)).len(),
{
    let mut n: u32 = len;
    if h.flags.syn() {
        n += 1;
    }
    if h.flags.fin() {
        n += 1;
    }
    n
}

impl<const SND: usize, const RCV: usize> Connection<SND, RCV> {
    /// An acceptable segment with ACK in a synchronized state.
    fn on_ack(
        &mut self,
        now: Instant,
        h: &TcpHeader,
        opts: &TcpOptions,
        payload: &[u8],
        fx: &mut Effects,
    )
        requires
            old(self).parts_wf(),
            old(self)@.takes_ack(SeqNr(h.ack)),
            old(fx).wf(),
            opts.sack_blocks.wf(),
            Segment::of(*h, opts@, payload@).legal(),
        ensures
            (final(self)@, final(fx)@) == old(self)@.ack_arrived(
                now,
                Segment::of(*h, opts@, payload@),
                SND as int,
                old(fx)@,
            ),
            final(self).wf(),
            final(fx).wf(),
    {
        let ghost seg = Segment::of(*h, opts@, payload@);
        proof {
            self.recv_buf.lemma_model_wf();
            lemma_ack_arrived_inv(self@, now, seg, SND as int, fx@);
            lemma_sacked_takes_ack(self@, seg.ack, seg.opts.sack_blocks);
            reveal(ConnModel::ack_arrived);
        }
        if !self.tcb.ack_acceptable(SeqNr(h.ack)) {
            self.tcb = self.tcb.owe_ack_now();
            return;
        }
        let wnd: u32 = self.recv_buf.window();
        let old_una = self.tcb.snd_una;
        // SACK blocks inform the scoreboard before any dup-ack accounting
        // (RFC 6675 section 2 DupAck definition).
        let learned = self.ingest_sack(opts);
        self.process_ack(now, h, opts, payload, learned, fx);
        self.process_contents(now, h, opts, payload, old_una, wnd, fx);
    }

    fn ingest_sack(&mut self, opts: &TcpOptions) -> (learned: bool)
        requires
            old(self).parts_wf(),
            board_valid(old(self)@.board, old(self)@.tcb.snd_una, old(self)@.tcb.snd_nxt),
            opts.sack_blocks.wf(),
        ensures
            (final(self)@, learned) == old(self)@.sacked(opts@.sack_blocks),
            final(self).parts_wf(),
    {
        if self.tcb.sack_enabled && !opts.sack_blocks.is_empty() {
            self.scoreboard.ingest(
                opts.sack_blocks.as_slice(),
                self.tcb.snd_una,
                self.tcb.snd_nxt,
            )
        } else {
            false
        }
    }

    /// The acknowledgment of a segment: new, duplicate, or neither.
    fn process_ack(
        &mut self,
        now: Instant,
        h: &TcpHeader,
        opts: &TcpOptions,
        payload: &[u8],
        learned: bool,
        fx: &mut Effects,
    )
        requires
            old(self).parts_wf(),
            old(self)@.takes_ack(SeqNr(h.ack)),
            old(self)@.tcb.ack_in_range(SeqNr(h.ack)),
            old(fx).wf(),
            Segment::of(*h, opts@, payload@).legal(),
        ensures
            (final(self)@, final(fx)@) == old(self)@.ack_processed(
                now,
                Segment::of(*h, opts@, payload@),
                learned,
                SND as int,
                old(fx)@,
            ),
            final(self).wf(),
            !(final(self)@.tcb.state is SynReceived),
            final(fx).wf(),
    {
        let ghost seg = Segment::of(*h, opts@, payload@);
        proof {
            lemma_ack_processed_inv(self@, now, seg, learned, SND as int, fx@);
            reveal(ConnModel::ack_processed);
        }
        let ack = SeqNr(h.ack);
        if self.tcb.snd_una.lt(ack) {
            self.process_new_ack(now, ack, fx);
            return;
        }
        // SEG.ACK <= SND.UNA: possibly a duplicate ACK (RFC 5681 section 2).
        let pure = segment_len(h, payload.len() as u32) == 0;
        let window_unchanged = scaled_window(h.window, self.tcb.snd_scale) == self.tcb.snd_wnd;
        let probing = self.tcb.snd_wnd == 0 && self.tcb.timers.rexmit.is_none();
        if ack == self.tcb.snd_una && pure && self.tcb.outstanding() > 0 && (window_unchanged
            || learned) && !probing {
            proof {
                lemma_inv_scalars(self@);
            }
            self.tcb = self.tcb.on_dupack();
        }
    }

    /// What follows the acknowledgment: window, text, FIN.
    fn process_contents(
        &mut self,
        now: Instant,
        h: &TcpHeader,
        opts: &TcpOptions,
        payload: &[u8],
        old_una: SeqNr,
        wnd: u32,
        fx: &mut Effects,
    )
        requires
            old(self).wf(),
            !(old(self)@.tcb.state is SynReceived),
            wnd <= MAX_CAPACITY,
            old(fx).wf(),
            Segment::of(*h, opts@, payload@).legal(),
        ensures
            (final(self)@, final(fx)@) == old(self)@.contents_arrived(
                now,
                Segment::of(*h, opts@, payload@),
                old_una,
                wnd,
                old(fx)@,
            ),
            final(self).wf(),
            final(fx).wf(),
    {
        let ghost seg = Segment::of(*h, opts@, payload@);
        proof {
            lemma_window_updated_inv(self@, seg, old_una);
        }
        self.tcb = self.tcb.update_window(h, old_una);
        self.process_text(now, SeqNr(h.seq), payload, fx);
        self.record_fin(h, opts, payload, wnd);
        self.try_consume_fin(now, fx);
    }

    /// Note the FIN of a segment, and forget what is held beyond it, so that
    /// RCV.NXT can never step past the FIN (which would then never be
    /// consumed).
    fn record_fin(&mut self, h: &TcpHeader, opts: &TcpOptions, payload: &[u8], wnd: u32)
        requires
            old(self).wf(),
            wnd <= MAX_CAPACITY,
            Segment::of(*h, opts@, payload@).legal(),
        ensures
            final(self)@ == old(self)@.fin_recorded(Segment::of(*h, opts@, payload@), wnd),
            final(self).wf(),
            final(self)@.tcb.state == old(self)@.tcb.state,
    {
        let ghost seg = Segment::of(*h, opts@, payload@);
        proof {
            self.recv_buf.lemma_model_wf();
            lemma_fin_noted(self@, seg, wnd);
            lemma_fin_recorded_inv(self@, seg, wnd);
            reveal(ConnModel::cut_at_fin);
        }
        self.tcb = self.tcb.note_fin(h, payload.len() as u32, wnd);
        if let Some(f) = self.tcb.peer_fin {
            let limit: u32 = self.recv_buf.readable() as u32 + f.since(self.tcb.rcv_nxt);
            self.recv_buf.cut_at(limit);
        }
    }

    /// RFC 9293 section 3.10.7.4 step 7: deliver segment text.
    fn process_text(&mut self, now: Instant, seq: SeqNr, payload: &[u8], fx: &mut Effects)
        requires
            old(self).wf(),
            old(fx).wf(),
            payload@.len() <= u32::MAX,
        ensures
            (final(self)@, final(fx)@) == old(self)@.text_arrived(now, seq, payload@, old(fx)@),
            final(self).wf(),
            final(self)@.tcb.state == old(self)@.tcb.state,
            final(fx).wf(),
    {
        proof {
            self.recv_buf.lemma_model_wf();
            lemma_text_arrived_inv(self@, now, seq, payload@, fx@);
            reveal(ConnModel::text_arrived);
        }
        if payload.len() == 0 || !matches!(
            self.tcb.state,
            State::Established | State::FinWait1 | State::FinWait2
        ) {
            return;
        }
        // Left-trim anything before RCV.NXT (old duplicate bytes).
        let old_data = seq.lt(self.tcb.rcv_nxt);
        let skip: usize = if old_data {
            self.tcb.rcv_nxt.since(seq) as usize
        } else {
            0
        };
        let off: u32 = if old_data {
            0
        } else {
            seq.since(self.tcb.rcv_nxt)
        };
        if skip >= payload.len() {
            // Entirely duplicate: immediate ACK (RFC 5681 section 4.2).
            self.tcb = self.tcb.owe_ack_now();
            return;
        }
        let len: usize = payload.len() - skip;
        let room: u32 = self.room_for_text(off);
        let take: usize = if len as u32 <= room {
            len
        } else {
            room as usize
        };
        if take == 0 {
            self.tcb = self.tcb.owe_ack_now();
            return;
        }
        let data: &[u8] = &payload[skip..skip + take];
        self.store_text(now, off, data, take < len, fx);
    }

    /// Right-trim to the window, and to the peer's FIN if one is recorded:
    /// nothing comes behind that.
    fn room_for_text(&self, off: u32) -> (r: u32)
        requires
            self.parts_wf(),
        ensures
            r == self@.text_room(off as int),
    {
        proof {
            self.recv_buf.lemma_model_wf();
        }
        let room: u32 = self.recv_buf.window().saturating_sub(off);
        match self.tcb.peer_fin {
            Some(f) => {
                let to_fin: u32 = f.since(self.tcb.rcv_nxt).saturating_sub(off);
                if room <= to_fin {
                    room
                } else {
                    to_fin
                }
            },
            None => room,
        }
    }

    fn store_text(&mut self, now: Instant, off: u32, data: &[u8], cut: bool, fx: &mut Effects)
        requires
            old(self).parts_wf(),
            off <= old(self)@.open_window(),
            old(fx).wf(),
        ensures
            (final(self)@, final(fx)@) == old(self)@.text_stored(now, off, data@, cut, old(fx)@),
            final(self).parts_wf(),
            final(fx).wf(),
    {
        proof {
            self.recv_buf.lemma_model_wf();
            reveal(ConnModel::text_stored);
        }
        let was_readable = self.recv_buf.readable() > 0;
        let at: u32 = self.recv_buf.readable() as u32 + off;
        let ins = self.recv_buf.insert(at, data);
        if !ins.stored || ins.advance == 0 {
            // Out of order, or the budget for that is exhausted: an immediate
            // duplicate ACK, so that the sender retransmits (RFC 5681 section
            // 3.2).
            self.tcb = self.tcb.owe_ack_now();
            return;
        }
        if !was_readable {
            fx.event(ConnEvent::Readable);
        }
        self.tcb = self.tcb.text_in_order(now, ins.advance, cut);
    }

    /// RFC 9293 section 3.10.7.4 step 8, deferred until the FIN is in order.
    fn try_consume_fin(&mut self, now: Instant, fx: &mut Effects)
        requires
            old(self).wf(),
            !(old(self)@.tcb.state is SynReceived),
            old(fx).wf(),
        ensures
            (final(self)@, final(fx)@) == old(self)@.fin_arrived(now, old(fx)@),
            final(self).wf(),
            final(fx).wf(),
    {
        proof {
            lemma_fin_arrived_inv(self@, now, fx@);
            reveal(ConnModel::fin_arrived);
        }
        if let Some(f) = self.tcb.peer_fin {
            if self.tcb.expects_fin() && f == self.tcb.rcv_nxt {
                self.tcb = self.tcb.consume_fin(now);
                fx.event(ConnEvent::PeerFin);
            }
        }
    }
}

impl Tcb {
    /// Bookkeeping for text that advanced RCV.NXT.
    fn text_in_order(self, now: Instant, advance: u32, cut: bool) -> (r: Tcb)
        ensures
            r == self.text_accepted(now, advance, cut),
    {
        proof {
            reveal(Tcb::text_accepted);
        }
        let timeout = self.cfg.fin_wait2_timeout;
        let wait = if self.state == State::FinWait2 && timeout.micros > 0 {
            Some(now + timeout)
        } else {
            self.timers.wait
        };
        let segs_since_ack: u8 = self.segs_since_ack.saturating_add(1);
        let t = Tcb {
            rcv_nxt: self.rcv_nxt.add(advance),
            segs_since_ack,
            timers: Timers { wait, ..self.timers },
            ..self
        };
        if segs_since_ack >= 2 || cut {
            t.owe_ack_now()
        } else {
            t.owe_ack_later(now)
        }
    }
}

} // verus!
