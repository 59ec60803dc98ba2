//! The sending side of a connection and the application's byte stream.
use super::input::{lemma_ack_covers, lemma_sacked_takes_ack, lemma_takes_ack, Segment};
use super::model::lemma_inv_scalars;
use super::output::{lemma_flag_dropped, lemma_hole_outstanding, PlanModel};
use super::receiving::segments_of_a_stream_agree;
use super::{ConnEvent, ConnModel, FxModel, Tcb};
use crate::tcp::cc::lesser;
use crate::tcp::seq::{lemma_seq_at, seq_at, SeqNr};
use crate::time::Instant;
use crate::wire::tcp::{OptionsModel, TcpFlags};
use vstd::prelude::*;

verus! {

impl ConnModel {
    /// Our FIN was sent and acknowledged.
    pub open spec fn fin_done(self) -> bool {
        self.tcb.fin_seq is Some && self.tcb.flight() == 0
    }

    /// Whether the send buffer holds the rest of the stream `s`, whose first
    /// byte travels right behind our SYN, if `acked` bytes of it were
    /// acknowledged: SND.UNA is the number of the first byte in the buffer
    /// (before that, of the SYN; at last, the one behind the FIN).
    pub open spec fn sends(self, s: Seq<u8>, acked: int) -> bool {
        &&& 0 <= acked <= s.len()
        &&& self.snd == s.skip(acked)
        &&& !self.tcb.syn_acked ==> acked == 0
        &&& self.tcb.snd_una == seq_at(
            self.tcb.iss,
            if !self.tcb.syn_acked {
                0
            } else if self.fin_done() {
                acked + 2
            } else {
                acked + 1
            },
        )
    }

    /// The sending side is that of `m`.
    pub open spec fn same_sender(self, m: ConnModel) -> bool {
        &&& self.snd == m.snd
        &&& self.tcb.iss == m.tcb.iss
        &&& self.tcb.snd_una == m.tcb.snd_una
        &&& self.tcb.syn_acked == m.tcb.syn_acked
        &&& self.fin_done() == m.fin_done()
    }

    /// Whether a planned segment carries the bytes of the stream `s` that
    /// belong at its sequence number, and its FIN stands right behind the
    /// last byte of the stream.
    pub open spec fn carries_stream(self, p: PlanModel, s: Seq<u8>, acked: int) -> bool {
        &&& p.payload_len > 0 ==> {
            &&& p.seq == seq_at(self.tcb.iss, 1 + acked + p.payload_off)
            &&& acked + p.payload_off + p.payload_len <= s.len()
            &&& self.snd.subrange(p.payload_off as int, p.payload_off + p.payload_len)
                == s.subrange(
                acked + p.payload_off,
                acked + p.payload_off + p.payload_len,
            )
        }
        &&& p.flags.fin() ==> p.seq.add(p.payload_len) == seq_at(self.tcb.iss, 1 + s.len() as int)
    }
}

/// What the application writes extends the stream.
pub proof fn writes_extend_the_stream(m: ConnModel, data: Seq<u8>, cap: int, s: Seq<u8>, acked: int)
    requires
        m.sends(s, acked),
        m.snd.len() <= cap,
    ensures
        m.written(data, cap).1 matches Ok(n) ==> m.written(data, cap).0.sends(
            s + data.take(lesser(data.len() as int, cap - m.snd.len())),
            acked,
        ),
        m.written(data, cap).1 is Err ==> m.written(data, cap).0.sends(s, acked),
{
    let n = lesser(data.len() as int, cap - m.snd.len());
    assert(m.snd + data.take(n) =~= (s + data.take(n)).skip(acked));
}

proof fn lemma_fin_bits()
    ensures
        TcpFlags(0x01).fin(),
        TcpFlags(0x09).fin(),
        !TcpFlags(0x08).fin(),
        !TcpFlags(0x02).fin(),
        !TcpFlags(0).fin(),
{
    assert(0x01u8 & 0x01 == 0x01 && 0x09u8 & 0x01 == 0x01 && 0x08u8 & 0x01 != 0x01 && 0x02u8
        & 0x01 != 0x01 && 0u8 & 0x01 != 0x01) by (bit_vector);
}

/// Where SND.NXT and the FIN stand in the stream.
proof fn lemma_sender_places(m: ConnModel, s: Seq<u8>, acked: int)
    requires
        m.inv(),
        m.sends(s, acked),
    ensures
        m.tcb.data_sent() <= m.snd.len() == s.len() - acked,
        m.snd.len() <= 0x4000_0000,
        m.tcb.flight() < 0x4000_0000,
        m.tcb.fin_seq is None ==> m.tcb.snd_nxt == seq_at(
            m.tcb.iss,
            1 + acked + m.tcb.data_sent(),
        ),
        m.tcb.fin_seq matches Some(f) ==> f.add(1) == m.tcb.snd_nxt,
        m.tcb.fin_seq is Some && !m.fin_done() ==> m.tcb.fin_seq->0 == seq_at(
            m.tcb.iss,
            1 + s.len() as int,
        ),
        m.tcb.syn_acked && (m.tcb.data_sent() > 0 || m.tcb.fin_seq is None) ==> m.tcb.snd_una
            == seq_at(m.tcb.iss, 1 + acked),
        m.tcb.fin_seq is Some ==> m.tcb.data_sent() == m.snd.len(),
        m.tcb.syn_acked && m.tcb.fin_seq is Some && !m.fin_done() ==> m.tcb.flight()
            == m.tcb.data_sent() + 1 && m.tcb.snd_una == seq_at(m.tcb.iss, 1 + acked),
        m.tcb.syn_acked && m.tcb.fin_seq is None ==> m.tcb.flight() == m.tcb.data_sent(),
{
    reveal(ConnModel::inv);
    let base = if m.tcb.syn_acked {
        acked + 1
    } else {
        0
    };
    lemma_seq_at(m.tcb.iss, base, base + m.tcb.flight());
    lemma_seq_at(m.tcb.iss, base + m.tcb.flight() - 1, base + m.tcb.flight());
}

proof fn lemma_text_in_place(m: ConnModel, p: PlanModel, s: Seq<u8>, acked: int)
    requires
        m.sends(s, acked),
        p.payload_off + p.payload_len <= m.snd.len(),
    ensures
        acked + p.payload_off + p.payload_len <= s.len(),
        m.snd.subrange(p.payload_off as int, p.payload_off + p.payload_len) == s.subrange(
            acked + p.payload_off,
            acked + p.payload_off + p.payload_len,
        ),
{
    assert(m.snd.subrange(p.payload_off as int, p.payload_off + p.payload_len) =~= s.subrange(
        acked + p.payload_off,
        acked + p.payload_off + p.payload_len,
    ));
}

proof fn lemma_head_stream(m: ConnModel, now: Instant, s: Seq<u8>, acked: int)
    requires
        m.inv(),
        m.sends(s, acked),
    ensures
        m.head_rexmit(now) matches Some((t, p)) ==> m.with(t).same_sender(m) && m.carries_stream(
            p,
            s,
            acked,
        ),
{
    lemma_sender_places(m, s, acked);
    lemma_fin_bits();
    if let Some((t, p)) = m.head_rexmit(now) {
        assert(m.with(t).same_sender(m)) by {
            reveal(ConnModel::head_rexmit);
            reveal(Tcb::syn_planned);
            reveal(Tcb::head_resent);
            reveal(Tcb::ack_sent);
        }
        if m.tcb.syn_acked {
            reveal(ConnModel::head_rexmit);
            lemma_text_in_place(m, p, s, acked);
        } else {
            assert(p.payload_len == 0 && p.flags == TcpFlags(0x02)) by {
                reveal(ConnModel::head_rexmit);
                reveal(Tcb::syn_planned);
            }
        }
    }
}

proof fn lemma_hole_stream(m: ConnModel, now: Instant, s: Seq<u8>, acked: int)
    requires
        m.inv(),
        m.sends(s, acked),
        m.tcb.syn_acked,
    ensures
        m.hole_rexmit(now) matches Some((t, p)) ==> m.with(t).same_sender(m) && m.carries_stream(
            p,
            s,
            acked,
        ),
{
    lemma_sender_places(m, s, acked);
    lemma_fin_bits();
    lemma_hole_outstanding(m);
    if let Some((t, p)) = m.hole_rexmit(now) {
        reveal(ConnModel::hole_rexmit);
        assert(m.with(t).same_sender(m)) by {
            reveal(ConnModel::hole_filled);
            reveal(Tcb::ack_sent);
        }
        reveal(ConnModel::hole_filled);
        lemma_seq_at(m.tcb.iss, 1 + acked, 1 + acked + p.payload_off);
        lemma_seq_at(m.tcb.iss, 1 + acked, 1 + s.len() as int);
        if p.payload_len > 0 {
            lemma_text_in_place(m, p, s, acked);
        }
    }
}

proof fn lemma_new_data_stream(m: ConnModel, now: Instant, s: Seq<u8>, acked: int)
    requires
        m.inv(),
        m.sends(s, acked),
    ensures
        m.new_data(now) matches Some((t, p)) ==> m.with(t).same_sender(m) && m.carries_stream(
            p,
            s,
            acked,
        ),
{
    lemma_sender_places(m, s, acked);
    lemma_fin_bits();
    if let Some((t, p)) = m.new_data(now) {
        reveal(ConnModel::new_data);
        assert(m.with(t).same_sender(m)) by {
            assert(m.tcb.cc.wf()) by {
                lemma_inv_scalars(m);
            }
            reveal(Tcb::data_sent_on);
            reveal(Tcb::ack_sent);
        }
        lemma_text_in_place(m, p, s, acked);
        lemma_seq_at(
            m.tcb.iss,
            1 + acked + m.tcb.data_sent(),
            1 + acked + m.tcb.data_sent() + p.payload_len,
        );
    }
}

proof fn lemma_lone_fin_stream(m: ConnModel, now: Instant, s: Seq<u8>, acked: int)
    requires
        m.inv(),
        m.sends(s, acked),
    ensures
        m.lone_fin(now) matches Some((t, p)) ==> m.with(t).same_sender(m) && m.carries_stream(
            p,
            s,
            acked,
        ),
{
    lemma_sender_places(m, s, acked);
    lemma_fin_bits();
    reveal(ConnModel::lone_fin);
    reveal(Tcb::ack_sent);
}

proof fn lemma_leftovers_stream(m: ConnModel, s: Seq<u8>, acked: int)
    requires
        m.inv(),
        m.sends(s, acked),
    ensures
        m.leftovers().0.same_sender(m),
        m.leftovers().1 matches Some(p) ==> m.carries_stream(p, s, acked),
{
    lemma_sender_places(m, s, acked);
    lemma_fin_bits();
    assert(m.tcb.probe_pending ==> m.tcb.syn_acked) by {
        reveal(ConnModel::inv);
    }
    reveal(ConnModel::probe_or_ack);
    reveal(ConnModel::probe);
    reveal(ConnModel::pure_ack);
    reveal(Tcb::ack_sent);
    if let Some(p) = m.leftovers().1 {
        if p.payload_len > 0 {
            lemma_text_in_place(m, p, s, acked);
        }
    }
}

proof fn lemma_fresh_choices_stream(m: ConnModel, now: Instant, s: Seq<u8>, acked: int)
    requires
        m.inv(),
        m.sends(s, acked),
    ensures
        m.fresh_choices(now).0.same_sender(m),
        m.fresh_choices(now).1 matches Some(p) ==> m.carries_stream(p, s, acked),
{
    if m.tcb.fills_holes() {
        lemma_hole_stream(m, now, s, acked);
    }
    lemma_new_data_stream(m, now, s, acked);
    lemma_lone_fin_stream(m, now, s, acked);
    lemma_leftovers_stream(m, s, acked);
}

#[verifier::rlimit(30)]
proof fn lemma_sync_planned_stream(m: ConnModel, now: Instant, s: Seq<u8>, acked: int)
    requires
        m.inv(),
        m.sends(s, acked),
    ensures
        m.sync_planned(now).0.same_sender(m),
        m.sync_planned(now).1 matches Some(p) ==> m.carries_stream(p, s, acked),
{
    let a = m.with(Tcb { rexmit_now: false, ..m.tcb });
    lemma_flag_dropped(m, a);
    lemma_head_stream(a, now, s, acked);
    lemma_fresh_choices_stream(a, now, s, acked);
    reveal(ConnModel::sync_planned);
}

pub(crate) proof fn lemma_timers_updated_sender(m: ConnModel, now: Instant)
    ensures
        m.timers_updated(now).same_sender(m),
{
    reveal(Tcb::rexmit_settled);
    reveal(Tcb::persist_settled);
}

/// Every segment sent carries the bytes of the application's stream that
/// belong at its sequence number, whether it is new, a retransmission or a
/// probe; a FIN stands right behind the last byte.
pub proof fn segments_carry_the_stream(m: ConnModel, now: Instant, s: Seq<u8>, acked: int)
    requires
        m.inv(),
        m.sends(s, acked),
    ensures
        m.next_planned(now).1 matches Some(p) ==> m.carries_stream(p, s, acked),
        m.next_planned(now).0.sends(s, acked),
{
    let (n, p) = m.chosen(now);
    lemma_fin_bits();
    if m.tcb.state is Closed {
    } else if m.tcb.state is SynSent || (m.tcb.state is SynReceived && m.tcb.syn_pending) {
        reveal(Tcb::syn_planned);
    } else {
        lemma_sync_planned_stream(m, now, s, acked);
    }
    lemma_timers_updated_sender(n, now);
}

/// An advance of SND.UNA takes from the stream what it covers.
proof fn lemma_newly_acked_stream(
    m: ConnModel,
    now: Instant,
    ack: SeqNr,
    cap: int,
    fx: FxModel,
    s: Seq<u8>,
    acked: int,
)
    requires
        m.takes_ack(ack),
        m.tcb.snd_una.lt(ack),
        ack.le(m.tcb.snd_nxt),
        m.sends(s, acked),
    ensures
        m.newly_acked(now, ack, cap, fx).0.sends(s, acked + m.tcb.data_acked_by(ack)),
        m.tcb.data_acked_by(ack) >= 0,
{
    lemma_ack_covers(m, ack);
    let d = m.tcb.data_acked_by(ack);
    reveal(ConnModel::newly_acked);
    let a = m.ack_absorbed(now, ack);
    assert(a.snd == m.snd.skip(d) && a.tcb.snd_una == ack && a.tcb.iss == m.tcb.iss
        && a.tcb.syn_acked && a.tcb.fin_seq == m.tcb.fin_seq && a.tcb.snd_nxt == m.tcb.snd_nxt) by {
        reveal(ConnModel::ack_absorbed);
        reveal(ConnModel::ack_advanced);
        reveal(Tcb::ack_timed);
        reveal(Tcb::recovery_acked);
    }
    assert(m.snd.skip(d) =~= s.skip(acked + d));
    assert(m.tcb.fin_seq matches Some(f) ==> f.add(1) == m.tcb.snd_nxt) by {
        reveal(ConnModel::inv);
    }
    assert(a.fin_done() == m.tcb.fin_acked_by(ack)) by {
        assert(m.tcb.flight() < 0x4000_0002) by {
            reveal(ConnModel::inv);
        }
    }
    let base = if m.tcb.syn_acked {
        acked + 1
    } else {
        0
    };
    lemma_seq_at(m.tcb.iss, base, base + m.tcb.snd_una.distance_to(ack));
    assert(a.sends(s, acked + d));
    let (u, f) = a.unblocked(cap, fx);
    assert(u.same_sender(a)) by {
        reveal(ConnModel::unblocked);
    }
    assert(u.fin_acknowledged(now, f).0.same_sender(u)) by {
        reveal(ConnModel::fin_acknowledged);
    }
}

proof fn lemma_text_accepted_sender(m: ConnModel, now: Instant, advance: u32, cut: bool)
    ensures
        m.with(m.tcb.text_accepted(now, advance, cut)).same_sender(m),
{
    reveal(Tcb::text_accepted);
}

proof fn lemma_text_stored_sender(
    m: ConnModel,
    now: Instant,
    off: u32,
    data: Seq<u8>,
    cut: bool,
    fx: FxModel,
)
    ensures
        m.text_stored(now, off, data, cut, fx).0.same_sender(m),
{
    reveal(ConnModel::text_stored);
    let (rcv, ins) = m.rcv.insert((m.rcv.readable + off) as u32, data);
    let n = ConnModel { rcv, ..m };
    lemma_text_accepted_sender(n, now, ins.advance, cut);
}

proof fn lemma_text_sender(m: ConnModel, now: Instant, seq: SeqNr, payload: Seq<u8>, fx: FxModel)
    ensures
        m.text_arrived(now, seq, payload, fx).0.same_sender(m),
{
    let t = m.tcb;
    let old = seq.lt(t.rcv_nxt);
    let skip = if old {
        seq.distance_to(t.rcv_nxt)
    } else {
        0
    };
    let off = if old {
        0
    } else {
        t.rcv_nxt.distance_to(seq)
    };
    let len = lesser(payload.len() - skip, m.text_room(off));
    let data = payload.subrange(skip, skip + len);
    lemma_text_stored_sender(m, now, off as u32, data, len < payload.len() - skip, fx);
    reveal(ConnModel::text_arrived);
}

proof fn lemma_window_sender(m: ConnModel, seg: Segment, old_una: SeqNr)
    ensures
        m.with(m.tcb.window_updated(seg, old_una)).same_sender(m),
{
    reveal(Tcb::window_updated);
}

proof fn lemma_fin_sender(m: ConnModel, now: Instant, seg: Segment, wnd: u32, fx: FxModel)
    ensures
        m.fin_recorded(seg, wnd).same_sender(m),
        m.fin_arrived(now, fx).0.same_sender(m),
{
    reveal(Tcb::fin_noted);
    reveal(ConnModel::cut_at_fin);
    reveal(ConnModel::fin_arrived);
    reveal(Tcb::fin_taken);
    reveal(Tcb::past_fin);
}

proof fn lemma_contents_sender(
    m: ConnModel,
    now: Instant,
    seg: Segment,
    old_una: SeqNr,
    wnd: u32,
    fx: FxModel,
)
    ensures
        m.contents_arrived(now, seg, old_una, wnd, fx).0.same_sender(m),
{
    let w = m.with(m.tcb.window_updated(seg, old_una));
    lemma_window_sender(m, seg, old_una);
    let (x, f) = w.text_arrived(now, seg.seq, seg.payload, fx);
    lemma_text_sender(w, now, seg.seq, seg.payload, fx);
    let n = x.fin_recorded(seg, wnd);
    lemma_fin_sender(x, now, seg, wnd, f);
    lemma_fin_sender(n, now, seg, wnd, f);
}

/// How many bytes of the stream are acknowledged after a segment, if `acked`
/// were before: an advance of SND.UNA adds those it covers.
pub open spec fn acked_after(before: ConnModel, after: ConnModel, acked: int) -> int {
    if after.tcb.snd_una == before.tcb.snd_una {
        acked
    } else {
        acked + before.tcb.data_acked_by(after.tcb.snd_una)
    }
}

proof fn lemma_ack_arrived_sender(
    m: ConnModel,
    now: Instant,
    seg: Segment,
    cap: int,
    fx: FxModel,
    s: Seq<u8>,
    acked: int,
)
    requires
        m.takes_ack(seg.ack),
        m.sends(s, acked),
    ensures
        ({
            let n = m.ack_arrived(now, seg, cap, fx).0;
            &&& n.sends(s, acked_after(m, n, acked))
            &&& acked <= acked_after(m, n, acked)
        }),
{
    reveal(ConnModel::ack_arrived);
    if m.tcb.ack_in_range(seg.ack) {
        lemma_sacked_takes_ack(m, seg.ack, seg.opts.sack_blocks);
        let (t, learned) = m.sacked(seg.opts.sack_blocks);
        let (a, f) = t.ack_processed(now, seg, learned, cap, fx);
        lemma_contents_sender(a, now, seg, m.tcb.snd_una, m.open_window(), f);
        reveal(ConnModel::ack_processed);
        if m.tcb.snd_una.lt(seg.ack) {
            lemma_newly_acked_stream(t, now, seg.ack, cap, fx, s, acked);
            lemma_newly_acked_una(t, now, seg.ack, cap, fx);
        } else {
            assert(t.with(t.tcb.dupacked()).same_sender(t)) by {
                reveal(Tcb::dupacked);
            }
        }
    }
}

pub(crate) proof fn lemma_newly_acked_una(m: ConnModel, now: Instant, ack: SeqNr, cap: int, fx: FxModel)
    ensures
        m.newly_acked(now, ack, cap, fx).0.tcb.snd_una == ack,
{
    reveal(ConnModel::newly_acked);
    reveal(ConnModel::ack_absorbed);
    reveal(ConnModel::ack_advanced);
    reveal(Tcb::ack_timed);
    reveal(Tcb::recovery_acked);
    reveal(ConnModel::unblocked);
    reveal(ConnModel::fin_acknowledged);
}

proof fn lemma_unacceptable_sender(
    m: ConnModel,
    now: Instant,
    seg: Segment,
    cap: int,
    fx: FxModel,
    s: Seq<u8>,
    acked: int,
)
    requires
        m.inv(),
        !(m.tcb.state is SynSent),
        m.sends(s, acked),
    ensures
        ({
            let n = m.unacceptable_arrived(now, seg, cap, fx).0;
            &&& n.sends(s, acked_after(m, n, acked))
            &&& acked <= acked_after(m, n, acked)
        }),
{
    lemma_unacceptable_same_sender(m, now, seg, cap, fx);
    if !seg.flags.rst() && m.ack_salvaged(seg) && m.tcb.snd_una.lt(seg.ack) {
        lemma_takes_ack(m, seg.ack);
        lemma_newly_acked_stream(m, now, seg.ack, cap, fx, s, acked);
        lemma_newly_acked_una(m, now, seg.ack, cap, fx);
    }
}

/// An unacceptable segment does no more to the sending side than its ACK does.
proof fn lemma_unacceptable_same_sender(
    m: ConnModel,
    now: Instant,
    seg: Segment,
    cap: int,
    fx: FxModel,
)
    ensures
        m.unacceptable_arrived(now, seg, cap, fx).0.same_sender(
            if !seg.flags.rst() && m.ack_salvaged(seg) && m.tcb.snd_una.lt(seg.ack) {
                m.newly_acked(now, seg.ack, cap, fx).0
            } else {
                m
            },
        ),
{
    reveal(ConnModel::unacceptable_arrived);
}

/// Whatever segment arrives, the send buffer still holds the rest of the
/// stream, from the first byte that is not acknowledged: nothing is dropped
/// that the peer did not acknowledge, and acknowledgments never go back.
pub proof fn segments_keep_the_unacknowledged_stream(
    m: ConnModel,
    now: Instant,
    seg: Segment,
    cap: int,
    fx: FxModel,
    s: Seq<u8>,
    acked: int,
)
    requires
        m.inv(),
        m.sends(s, acked),
    ensures
        ({
            let n = m.arrived(now, seg, cap, fx).0;
            &&& n.sends(s, acked_after(m, n, acked))
            &&& acked <= acked_after(m, n, acked)
        }),
{
    if m.tcb.state is Closed {
        lemma_timers_updated_sender(m, now);
    } else if m.tcb.state is SynSent {
        let n = m.syn_sent_arrived(now, seg, fx).0;
        lemma_timers_updated_sender(n, now);
        lemma_syn_sent_sender(m, now, seg, fx, s, acked);
    } else {
        let n = m.sync_arrived(now, seg, cap, fx).0;
        lemma_timers_updated_sender(n, now);
        lemma_unacceptable_sender(m, now, seg, cap, fx, s, acked);
        assert(m.reset_by_peer(fx).0.same_sender(m)) by {
            reveal(ConnModel::reset_by_peer);
        }
        lemma_takes_ack(m, seg.ack);
        if !(m.tcb.state is SynReceived) {
            lemma_ack_arrived_sender(m, now, seg, cap, fx, s, acked);
        } else if m.handshake_acked(seg.ack) {
            let f = fx.with_event(ConnEvent::Connected);
            lemma_ack_arrived_sender(m.established(), now, seg, cap, f, s, acked);
        }
        reveal(ConnModel::sync_arrived);
    }
}

proof fn lemma_syn_sent_sender(
    m: ConnModel,
    now: Instant,
    seg: Segment,
    fx: FxModel,
    s: Seq<u8>,
    acked: int,
)
    requires
        m.inv(),
        m.tcb.state is SynSent,
        m.sends(s, acked),
    ensures
        ({
            let n = m.syn_sent_arrived(now, seg, fx).0;
            &&& n.sends(s, acked_after(m, n, acked))
            &&& acked <= acked_after(m, n, acked)
        }),
{
    assert(m.tcb.flight() == 1 && m.tcb.snd_una == m.tcb.iss && !m.tcb.syn_acked && m.tcb.fin_seq
        is None) by {
        reveal(ConnModel::inv);
    }
    lemma_seq_at(m.tcb.iss, 0, 1);
    reveal(ConnModel::syn_sent_arrived);
    reveal(Tcb::syn_seen);
    reveal(Tcb::handshake_done);
}

/// The segment of a plan, as the peer sees it.
pub open spec fn segment_sent(m: ConnModel, p: PlanModel, opts: OptionsModel, ack: SeqNr) -> Segment {
    Segment {
        seq: p.seq,
        ack,
        flags: p.flags,
        window: p.window,
        opts,
        payload: if p.payload_len == 0 {
            Seq::empty()
        } else {
            m.snd.subrange(p.payload_off as int, p.payload_off + p.payload_len)
        },
    }
}

/// Each side reads a prefix of what the other wrote: a segment that a sender
/// of the stream `s` plans, new or retransmitted, may reach a receiver of that
/// stream at any time and any number of times (as long as it is less than half
/// the sequence space off), and everything the receiver holds is still part of
/// the stream and in its place.
pub proof fn receivers_hold_a_prefix_of_what_was_sent(
    sender: ConnModel,
    now: Instant,
    s: Seq<u8>,
    acked: int,
    receiver: ConnModel,
    read: int,
    later: Instant,
    opts: OptionsModel,
    ack: SeqNr,
    cap: int,
    fx: FxModel,
)
    requires
        sender.inv(),
        sender.sends(s, acked),
        receiver.inv(),
        !(receiver.tcb.state is SynSent),
        receiver.receives(s, read),
        receiver.tcb.irs == sender.tcb.iss,
        sender.next_planned(now).1 is Some,
        ({
            let p = sender.next_planned(now).1->0;
            -0x8000_0000 < acked + p.payload_off - (read + receiver.rcv.readable) < 0x8000_0000
        }),
    ensures
        ({
            let p = sender.next_planned(now).1->0;
            let seg = segment_sent(sender, p, opts, ack);
            receiver.arrived(later, seg, cap, fx).0.receives(s, read)
        }),
{
    let p = sender.next_planned(now).1->0;
    segments_carry_the_stream(sender, now, s, acked);
    let seg = segment_sent(sender, p, opts, ack);
    segments_of_a_stream_agree(
        receiver,
        later,
        seg,
        cap,
        fx,
        s,
        read,
        acked + p.payload_off,
    );
}

} // verus!
