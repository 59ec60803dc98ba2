//! What arrives: text and the FIN in order and out of order, when it is
//! acknowledged, and how connections end.
use super::input::{acceptable, Segment};
use super::{ConnEvent, ConnModel, FxModel, Tcb};
use crate::tcp::recvbuf::{by_recency, ranges_before, ranges_through, recency_order_is_sorted};
use crate::tcp::State;
use crate::time::{Duration, Instant};
use crate::types::{CloseReason, Error, TimerKind};
use vstd::prelude::*;

verus! {

/// A segment that acknowledges nothing new (it may have been overtaken, by no
/// more than a window), at an open connection that has not seen the peer's FIN,
/// from somewhere in the receive window.
pub open spec fn brings_text(m: ConnModel, seg: Segment) -> bool {
    &&& m.inv()
    &&& seg.legal()
    &&& m.tcb.state is Established || m.tcb.state is FinWait1 || m.tcb.state is FinWait2
    &&& m.tcb.peer_fin is None
    &&& seg.flags.ack() && !seg.flags.syn() && !seg.flags.rst()
    &&& seg.opts.sack_blocks.len() == 0
    &&& seg.ack.distance_to(m.tcb.snd_una) <= m.tcb.snd_max_wnd
    &&& seg.len() > 0
    &&& m.tcb.rcv_nxt.distance_to(seg.seq) < m.rcv.window.len() - m.rcv.readable
}

proof fn lemma_brought(m: ConnModel, now: Instant, seg: Segment, cap: int)
    requires
        brings_text(m, seg),
    ensures
        ({
            let fx = FxModel::empty();
            let w = m.with(m.tcb.window_updated(seg, m.tcb.snd_una));
            let (x, f) = w.text_arrived(now, seg.seq, seg.payload, fx);
            let (y, g) = x.fin_recorded(seg, m.open_window()).fin_arrived(now, f);
            &&& m.arrived(now, seg, cap, fx) == (y.timers_updated(now), g)
            &&& w.rcv == m.rcv && w.tcb.rcv_nxt == m.tcb.rcv_nxt && w.tcb.state == m.tcb.state
            &&& w.tcb.peer_fin is None && w.tcb.ack_state == m.tcb.ack_state
            &&& w.tcb.segs_since_ack == m.tcb.segs_since_ack && w.tcb.cfg == m.tcb.cfg
            &&& w.tcb.timers == m.tcb.timers
        }),
        m.rcv.wf(),
        m.rcv.window.len() <= 0x4000_0000,
        m.open_window() == m.rcv.window.len() - m.rcv.readable,
{
    let fx = FxModel::empty();
    reveal(ConnModel::inv);
    assert(m.sacked(seg.opts.sack_blocks) == (m, false));
    assert(m.tcb.ack_in_range(seg.ack));
    assert(m.ack_processed(now, seg, false, cap, fx) == (m, fx)) by {
        reveal(ConnModel::ack_processed);
    }
    reveal(Tcb::window_updated);
    reveal(ConnModel::ack_arrived);
    reveal(ConnModel::sync_arrived);
}

proof fn lemma_settled_receiver(y: ConnModel, now: Instant)
    ensures
        ({
            let n = y.timers_updated(now);
            &&& n.rcv == y.rcv && n.tcb.rcv_nxt == y.tcb.rcv_nxt && n.tcb.state == y.tcb.state
            &&& n.tcb.peer_fin == y.tcb.peer_fin && n.tcb.ack_state == y.tcb.ack_state
            &&& n.tcb.segs_since_ack == y.tcb.segs_since_ack
            &&& n.tcb.timers.del_ack == y.tcb.timers.del_ack
            &&& n.tcb.timers.wait == y.tcb.timers.wait
        }),
{
    reveal(Tcb::rexmit_settled);
    reveal(Tcb::persist_settled);
}

/// What an ACK that is owed looks like after text in order: the second segment
/// since the last ACK is acknowledged at once, the first after the configured
/// delay, or at once without one.
pub open spec fn acknowledged_in_time(m: ConnModel, n: ConnModel, now: Instant) -> bool {
    &&& m.tcb.segs_since_ack >= 1 ==> n.tcb.ack_state is Now
    &&& m.tcb.cfg.delayed_ack is None ==> n.tcb.ack_state is Now
    &&& m.tcb.segs_since_ack == 0 && m.tcb.ack_state is Idle ==> {
        m.tcb.cfg.delayed_ack matches Some(d) ==> n.tcb.ack_state is Delayed
            && n.tcb.timers.del_ack == Some(now + d)
    }
    &&& m.tcb.ack_state is Now ==> n.tcb.ack_state is Now
}

/// Text that is next in order, with nothing held behind it, is readable at once:
/// it goes behind what was readable, RCV.NXT moves past it, the application
/// hears of it if it had nothing to read before, and it is acknowledged in time.
/// In FIN-WAIT-2 it shows that the peer is alive, which puts the timeout off.
pub proof fn text_in_order_is_readable(m: ConnModel, now: Instant, seg: Segment, cap: int)
    requires
        brings_text(m, seg),
        !seg.flags.fin(),
        seg.seq == m.tcb.rcv_nxt,
        m.rcv.ranges.len() == 0,
        seg.payload.len() <= m.rcv.window.len() - m.rcv.readable,
    ensures
        ({
            let (n, f) = m.arrived(now, seg, cap, FxModel::empty());
            &&& n.tcb.rcv_nxt == m.tcb.rcv_nxt.add(seg.payload.len() as u32)
            &&& n.rcv.readable == m.rcv.readable + seg.payload.len()
            &&& n.rcv.pending() == m.rcv.pending() + seg.payload
            &&& f.events == if m.rcv.readable == 0 {
                seq![ConnEvent::Readable]
            } else {
                Seq::empty()
            }
            &&& n.tcb.state == m.tcb.state
            &&& acknowledged_in_time(m, n, now)
            &&& m.tcb.segs_since_ack < 255 ==> n.tcb.segs_since_ack == m.tcb.segs_since_ack + 1
            &&& m.tcb.state is FinWait2 && m.tcb.cfg.fin_wait2_timeout.micros > 0
                ==> n.tcb.timers.wait == Some(now + m.tcb.cfg.fin_wait2_timeout)
        }),
{
    let fx = FxModel::empty();
    lemma_brought(m, now, seg, cap);
    let w = m.with(m.tcb.window_updated(seg, m.tcb.snd_una));
    let len = seg.payload.len() as u32;
    let data = seg.payload.subrange(0, len as int);
    assert(data =~= seg.payload);
    let (rcv, ins) = m.rcv.insert(m.rcv.readable, seg.payload);
    assert(rcv.readable == m.rcv.readable + len && ins.advance == len && ins.stored
        && rcv.pending() =~= m.rcv.pending() + seg.payload && rcv.ranges.len() == 0) by {
        reveal_with_fuel(ranges_before, 1);
        reveal_with_fuel(ranges_through, 1);
        assert(seg.payload.take(len as int) =~= seg.payload);
    }
    let (x, f) = w.text_arrived(now, seg.seq, seg.payload, fx);
    assert(w.text_arrived(now, seg.seq, seg.payload, fx) == w.text_stored(
        now,
        0,
        data,
        false,
        fx,
    )) by {
        reveal(ConnModel::text_arrived);
    }
    assert(fx.with_event(ConnEvent::Readable).events =~= seq![ConnEvent::Readable]);
    assert(x.rcv == rcv && x.tcb == w.tcb.text_accepted(now, len, false)) by {
        reveal(ConnModel::text_stored);
    }
    assert(f == if m.rcv.readable == 0 {
        fx.with_event(ConnEvent::Readable)
    } else {
        fx
    }) by {
        reveal(ConnModel::text_stored);
    }
    let t = x.tcb;
    assert(t.rcv_nxt == m.tcb.rcv_nxt.add(len) && t.state == m.tcb.state && t.peer_fin is None
        && acknowledged_in_time(m, x, now) && (m.tcb.segs_since_ack < 255 ==> t.segs_since_ack
        == m.tcb.segs_since_ack + 1) && (m.tcb.state is FinWait2
        && m.tcb.cfg.fin_wait2_timeout.micros > 0 ==> t.timers.wait == Some(
        now + m.tcb.cfg.fin_wait2_timeout,
    ))) by {
        reveal(Tcb::text_accepted);
    }
    assert(x.fin_recorded(seg, m.open_window()) == x) by {
        reveal(Tcb::fin_noted);
        reveal(ConnModel::cut_at_fin);
    }
    assert(x.fin_arrived(now, f) == (x, f)) by {
        reveal(ConnModel::fin_arrived);
    }
    lemma_settled_receiver(x, now);
}

/// Text that leaves a gap is acknowledged at once, so that the peer learns of
/// the gap; RCV.NXT stays, nothing becomes readable, and the application hears
/// nothing.
pub proof fn text_behind_a_gap_is_acknowledged_at_once(
    m: ConnModel,
    now: Instant,
    seg: Segment,
    cap: int,
)
    requires
        brings_text(m, seg),
        !seg.flags.fin(),
        seg.payload.len() > 0,
        seg.seq != m.tcb.rcv_nxt,
    ensures
        ({
            let (n, f) = m.arrived(now, seg, cap, FxModel::empty());
            &&& n.tcb.rcv_nxt == m.tcb.rcv_nxt
            &&& n.rcv.pending() == m.rcv.pending()
            &&& n.tcb.ack_state is Now
            &&& f.events.len() == 0
            &&& n.tcb.state == m.tcb.state
        }),
{
    let fx = FxModel::empty();
    lemma_brought(m, now, seg, cap);
    let w = m.with(m.tcb.window_updated(seg, m.tcb.snd_una));
    let off = m.tcb.rcv_nxt.distance_to(seg.seq);
    assert(!seg.seq.lt(m.tcb.rcv_nxt));
    let (x, f) = w.text_arrived(now, seg.seq, seg.payload, fx);
    assert(x.tcb.rcv_nxt == m.tcb.rcv_nxt && x.tcb.ack_state is Now && f == fx && x.tcb.peer_fin
        is None && x.tcb.state == m.tcb.state && x.rcv.readable == m.rcv.readable
        && x.rcv.pending() =~= m.rcv.pending()) by {
        reveal(ConnModel::text_arrived);
        reveal(ConnModel::text_stored);
    }
    assert(x.fin_recorded(seg, m.open_window()) == x) by {
        reveal(Tcb::fin_noted);
        reveal(ConnModel::cut_at_fin);
    }
    assert(x.fin_arrived(now, f) == (x, f)) by {
        reveal(ConnModel::fin_arrived);
    }
    lemma_settled_receiver(x, now);
}

/// The peer's FIN, next in order: RCV.NXT steps over it, the application hears
/// of it, it is acknowledged at once, and the connection moves on: from
/// ESTABLISHED to CLOSE-WAIT, from FIN-WAIT-1 to CLOSING, and from FIN-WAIT-2 to
/// TIME-WAIT for twice the segment lifetime.
pub proof fn fin_in_order_moves_on(m: ConnModel, now: Instant, seg: Segment, cap: int)
    requires
        brings_text(m, seg),
        seg.flags.fin(),
        seg.payload.len() == 0,
        seg.seq == m.tcb.rcv_nxt,
        2 * m.tcb.cfg.msl.micros <= u64::MAX,
    ensures
        ({
            let (n, f) = m.arrived(now, seg, cap, FxModel::empty());
            &&& n.tcb.rcv_nxt == m.tcb.rcv_nxt.add(1)
            &&& n.rcv.pending() == m.rcv.pending()
            &&& f.events == seq![ConnEvent::PeerFin]
            &&& n.tcb.ack_state is Now
            &&& m.tcb.state is Established ==> n.tcb.state is CloseWait
            &&& m.tcb.state is FinWait1 ==> n.tcb.state is Closing
            &&& m.tcb.state is FinWait2 ==> {
                &&& n.tcb.state is TimeWait
                &&& n.tcb.timers.wait == Some(
                    now + Duration { micros: (2 * m.tcb.cfg.msl.micros) as u64 },
                )
            }
        }),
{
    let fx = FxModel::empty();
    lemma_brought(m, now, seg, cap);
    let w = m.with(m.tcb.window_updated(seg, m.tcb.snd_una));
    assert(w.text_arrived(now, seg.seq, seg.payload, fx) == (w, fx)) by {
        reveal(ConnModel::text_arrived);
    }
    let x = w.fin_recorded(seg, m.open_window());
    assert(m.tcb.rcv_nxt.add(0) == m.tcb.rcv_nxt);
    assert(x.tcb == (Tcb { peer_fin: Some(m.tcb.rcv_nxt), ..w.tcb }) && x.rcv.window
        == w.rcv.window && x.rcv.readable == w.rcv.readable) by {
        reveal(Tcb::fin_noted);
        reveal(ConnModel::cut_at_fin);
    }
    assert(fx.with_event(ConnEvent::PeerFin).events =~= seq![ConnEvent::PeerFin]);
    let (y, g) = x.fin_arrived(now, fx);
    reveal(ConnModel::fin_arrived);
    reveal(Tcb::fin_taken);
    reveal(Tcb::past_fin);
    lemma_settled_receiver(y, now);
}

/// A delayed ACK is owed at once when its timer runs out.
pub proof fn delayed_ack_comes_due(m: ConnModel, now: Instant, fx: FxModel)
    requires
        m.tcb.timers.del_ack matches Some(d) && d.micros <= now.micros,
        m.tcb.ack_state is Delayed,
    ensures
        ({
            let (n, f) = m.fired(now, TimerKind::DelAck, fx);
            &&& n.tcb.ack_state is Now
            &&& n.tcb.timers.del_ack is None
            &&& f == fx
            &&& n.snd == m.snd && n.rcv == m.rcv && n.tcb.state == m.tcb.state
        }),
{
    reveal(ConnModel::fire_handled);
    reveal(ConnModel::del_ack_fired);
}

/// A timer that is not due, or not running, does nothing when it fires.
pub proof fn early_fire_does_nothing(m: ConnModel, now: Instant, kind: TimerKind, fx: FxModel)
    requires
        match kind {
            TimerKind::Rexmit => m.tcb.timers.rexmit,
            TimerKind::Persist => m.tcb.timers.persist,
            TimerKind::DelAck => m.tcb.timers.del_ack,
            TimerKind::Wait => m.tcb.timers.wait,
        } matches Some(d) ==> now.micros < d.micros,
    ensures
        m.fired(now, kind, fx) == (m, fx),
{
}

/// A connection in FIN-WAIT-2 whose peer stays silent is given up as timed out.
pub proof fn orphan_is_given_up(m: ConnModel, now: Instant)
    requires
        m.tcb.state is FinWait2,
        m.tcb.timers.wait matches Some(d) && d.micros <= now.micros,
        m.tcb.reported || !m.tcb.passive,
    ensures
        ({
            let (n, f) = m.fired(now, TimerKind::Wait, FxModel::empty());
            &&& n.tcb.state is Closed
            &&& n.tcb.close_reason == Some(CloseReason::TimedOut)
            &&& f.events == seq![ConnEvent::Closed(CloseReason::TimedOut)]
        }),
{
    assert(FxModel::empty().with_event(ConnEvent::Closed(CloseReason::TimedOut)).events =~= seq![
        ConnEvent::Closed(CloseReason::TimedOut),
    ]);
    reveal(ConnModel::fire_handled);
    reveal(ConnModel::wait_fired);
}

/// A reset at exactly RCV.NXT ends an open connection, and the application hears
/// that it was reset; one that waited for its last acknowledgments ends
/// normally.
pub proof fn exact_reset_ends_the_connection(m: ConnModel, now: Instant, seg: Segment, cap: int)
    requires
        m.inv(),
        seg.flags.rst(),
        seg.seq == m.tcb.rcv_nxt,
        seg.len() == 0 || m.open_window() > 0,
        !(m.tcb.state is SynSent || m.tcb.state is Closed || m.tcb.state is TimeWait),
        m.tcb.reported || !m.tcb.passive,
    ensures
        ({
            let (n, f) = m.arrived(now, seg, cap, FxModel::empty());
            let reason = match m.tcb.state {
                State::SynReceived => if m.tcb.passive {
                    CloseReason::Reset
                } else {
                    CloseReason::Refused
                },
                State::Closing | State::LastAck => CloseReason::Normal,
                _ => CloseReason::Reset,
            };
            &&& n.tcb.state is Closed
            &&& n.tcb.close_reason == Some(reason)
            &&& f.events == seq![ConnEvent::Closed(reason)]
            &&& f.reset_reply is None && !f.wants_challenge
        }),
{
    let fx = FxModel::empty();
    assert(m.open_window() <= 0x4000_0000) by {
        reveal(ConnModel::inv);
    }
    assert forall|r: CloseReason|
        (#[trigger] fx.with_event(ConnEvent::Closed(r))).events =~= seq![ConnEvent::Closed(r)] by {}
    reveal(ConnModel::sync_arrived);
    reveal(ConnModel::reset_by_peer);
    reveal(Tcb::rexmit_settled);
    reveal(Tcb::persist_settled);
}

/// Closing an open connection queues the FIN behind what was written: from
/// ESTABLISHED (or before) it waits for the FIN's acknowledgment, and after the
/// peer's FIN for the last acknowledgment. It cannot be closed twice, and
/// nothing can be written any more.
pub proof fn closing_queues_the_fin(m: ConnModel, data: Seq<u8>, cap: int)
    requires
        m.tcb.state is Established || m.tcb.state is SynReceived || m.tcb.state is CloseWait,
    ensures
        ({
            let (n, f, r) = m.shut(FxModel::empty());
            &&& r == Ok::<(), Error>(())
            &&& f.events.len() == 0
            &&& n.tcb.fin_queued
            &&& n.snd == m.snd
            &&& m.tcb.state is CloseWait ==> n.tcb.state is LastAck
            &&& !(m.tcb.state is CloseWait) ==> n.tcb.state is FinWait1
            &&& n.shut(FxModel::empty()).2 == Err::<(), Error>(Error::InvalidState)
            &&& n.written(data, cap) == (n, Err::<usize, Error>(Error::InvalidState))
        }),
{
}

/// An abort tells the peer with a reset at SND.NXT that acknowledges what
/// arrived, unless there is no peer to tell.
pub proof fn aborts_reset_the_peer(m: ConnModel)
    ensures
        m.tcb.state is SynSent || m.tcb.state is TimeWait || m.tcb.state is Closed
            ==> m.abort_reset() is None,
        !(m.tcb.state is SynSent || m.tcb.state is TimeWait || m.tcb.state is Closed) ==> {
            m.abort_reset() matches Some(r) && r.seq == m.tcb.snd_nxt && r.ack == Some(
                m.tcb.rcv_nxt,
            )
        },
{
}

/// As much is written as fits the buffer: it goes behind what was written
/// before, in order, and something is left only if the buffer is full, in which
/// case the application is told when there is room.
pub proof fn writes_fill_the_buffer(m: ConnModel, data: Seq<u8>, cap: int)
    requires
        m.tcb.state is Established || m.tcb.state is CloseWait,
        !m.tcb.fin_queued,
        m.snd.len() <= cap <= 0x4000_0000,
    ensures
        m.written(data, cap).1 matches Ok(k) && {
            let n = m.written(data, cap).0;
            &&& k <= data.len()
            &&& n.snd == m.snd + data.take(k as int)
            &&& n.snd.len() <= cap
            &&& k < data.len() ==> n.snd.len() == cap && n.tcb.app_blocked
            &&& k == data.len() ==> n.tcb.app_blocked == m.tcb.app_blocked
        },
{
}

/// What is read leaves the buffer from the front, as much as is asked for and
/// there. The larger window is announced at once when it has grown by a full
/// segment or half the buffer since it was last announced, and otherwise not on
/// this account.
pub proof fn reads_open_the_window(m: ConnModel, max: int)
    requires
        m.inv(),
        0 <= max,
        m.tcb.state is Established,
    ensures
        ({
            let k = m.readable_into(max);
            let n = m.taken(k);
            let free = m.rcv.window.len() - m.rcv.readable + k;
            let grown = free - m.tcb.last_wnd_advertised;
            let half = m.rcv.window.len() / 2;
            &&& k == max || k == m.rcv.readable
            &&& 0 <= k <= max && k <= m.rcv.readable
            &&& n.rcv.pending() == m.rcv.pending().skip(k)
            &&& n.tcb.rcv_nxt == m.tcb.rcv_nxt
            &&& k > 0 && grown >= m.tcb.params.local_mss && grown >= 0 ==> n.tcb.ack_state is Now
            &&& k > 0 && grown >= half && grown >= 0 ==> n.tcb.ack_state is Now
            &&& 0 < grown < m.tcb.params.local_mss && grown < half ==> n.tcb.ack_state
                == m.tcb.ack_state
        }),
{
    assert(m.rcv.wf() && m.rcv.window.len() <= 0x4000_0000) by {
        reveal(ConnModel::inv);
    }
    let k = m.readable_into(max);
    assert(m.taken(k).rcv.pending() =~= m.rcv.pending().skip(k));
}

/// A segment that repeats what arrived, and brings something new behind it: the
/// old part is cut off, and the new part is readable at once.
pub proof fn repeated_text_is_cut_off(m: ConnModel, now: Instant, seg: Segment, cap: int)
    requires
        m.inv(),
        seg.legal(),
        m.tcb.state is Established || m.tcb.state is FinWait1 || m.tcb.state is FinWait2,
        m.tcb.peer_fin is None,
        seg.flags.ack() && !seg.flags.syn() && !seg.flags.rst() && !seg.flags.fin(),
        seg.opts.sack_blocks.len() == 0,
        seg.ack == m.tcb.snd_una,
        m.rcv.ranges.len() == 0,
        seg.payload.len() <= 0x4000_0000,
        0 < seg.seq.distance_to(m.tcb.rcv_nxt) < seg.payload.len(),
        seg.payload.len() - seg.seq.distance_to(m.tcb.rcv_nxt) <= m.rcv.window.len()
            - m.rcv.readable,
    ensures
        ({
            let n = m.arrived(now, seg, cap, FxModel::empty()).0;
            let old = seg.seq.distance_to(m.tcb.rcv_nxt);
            &&& n.tcb.rcv_nxt == seg.seq.add(seg.payload.len() as u32)
            &&& n.rcv.pending() == m.rcv.pending() + seg.payload.skip(old)
        }),
{
    let fx = FxModel::empty();
    let old = seg.seq.distance_to(m.tcb.rcv_nxt);
    let len = (seg.payload.len() - old) as u32;
    assert(m.rcv.wf() && m.rcv.window.len() <= 0x4000_0000 && m.tcb.snd_max_wnd <= 0x4000_0000
        && m.tcb.flight() < 0x4000_0002) by {
        reveal(ConnModel::inv);
    }
    assert(m.sacked(seg.opts.sack_blocks) == (m, false));
    assert(m.tcb.ack_in_range(seg.ack));
    assert(m.ack_processed(now, seg, false, cap, fx) == (m, fx)) by {
        reveal(ConnModel::ack_processed);
    }
    let w = m.with(m.tcb.window_updated(seg, m.tcb.snd_una));
    assert(w.tcb.rcv_nxt == m.tcb.rcv_nxt && w.tcb.state == m.tcb.state && w.tcb.peer_fin is None)
        by {
        reveal(Tcb::window_updated);
    }
    let last = seg.seq.add((seg.payload.len() - 1) as u32);
    assert(m.tcb.rcv_nxt.distance_to(last) == len - 1);
    assert(acceptable(m.tcb.rcv_nxt, m.open_window(), seg.seq, seg.len()));
    let data = seg.payload.subrange(old, old + len);
    assert(data =~= seg.payload.skip(old));
    let (rcv, ins) = m.rcv.insert(m.rcv.readable, data);
    assert(rcv.readable == m.rcv.readable + len && ins.advance == len && ins.stored
        && rcv.pending() =~= m.rcv.pending() + data) by {
        reveal_with_fuel(ranges_before, 1);
        reveal_with_fuel(ranges_through, 1);
        assert(data.take(len as int) =~= data);
    }
    assert(seg.seq.lt(m.tcb.rcv_nxt));
    assert(w.text_arrived(now, seg.seq, seg.payload, fx) == w.text_stored(now, 0, data, false, fx))
        by {
        reveal(ConnModel::text_arrived);
    }
    let (x, f) = w.text_stored(now, 0, data, false, fx);
    assert(x.rcv == rcv && x.tcb.rcv_nxt == m.tcb.rcv_nxt.add(len) && x.tcb.peer_fin is None) by {
        reveal(ConnModel::text_stored);
        reveal(Tcb::text_accepted);
    }
    assert(m.tcb.rcv_nxt.add(len) == seg.seq.add(seg.payload.len() as u32));
    assert(x.fin_recorded(seg, m.open_window()) == x) by {
        reveal(Tcb::fin_noted);
        reveal(ConnModel::cut_at_fin);
    }
    assert(x.fin_arrived(now, f) == (x, f)) by {
        reveal(ConnModel::fin_arrived);
    }
    assert(m.ack_arrived(now, seg, cap, fx) == (x, f)) by {
        reveal(ConnModel::ack_arrived);
    }
    assert(m.sync_arrived(now, seg, cap, fx) == (x, f)) by {
        reveal(ConnModel::sync_arrived);
    }
    lemma_settled_receiver(x, now);
}

/// Text that lies wholly outside the window changes nothing that was received,
/// and is answered by an ACK that tells the peer where the window is.
pub proof fn text_outside_the_window_is_answered(m: ConnModel, now: Instant, seg: Segment, cap: int)
    requires
        m.inv(),
        m.tcb.state is Established,
        !seg.flags.syn() && !seg.flags.rst(),
        0 < seg.payload.len() <= 0x1000_0000,
        m.open_window() <= m.tcb.rcv_nxt.distance_to(seg.seq),
        m.tcb.rcv_nxt.distance_to(seg.seq) + seg.payload.len() + 1 < 0x1_0000_0000,
    ensures
        ({
            let n = m.arrived(now, seg, cap, FxModel::empty()).0;
            &&& n.rcv == m.rcv
            &&& n.tcb.rcv_nxt == m.tcb.rcv_nxt
            &&& n.tcb.state is Established
            &&& n.tcb.peer_fin == m.tcb.peer_fin
            &&& n.tcb.ack_state is Now
        }),
{
    let fx = FxModel::empty();
    assert(!acceptable(m.tcb.rcv_nxt, m.open_window(), seg.seq, seg.len()));
    let (x, f) = m.unacceptable_arrived(now, seg, cap, fx);
    assert(m.sync_arrived(now, seg, cap, fx) == (x, f)) by {
        reveal(ConnModel::sync_arrived);
    }
    assert(x.rcv == m.rcv && x.tcb.rcv_nxt == m.tcb.rcv_nxt && x.tcb.state is Established
        && x.tcb.peer_fin == m.tcb.peer_fin && x.tcb.ack_state is Now) by {
        let a = m.ack_absorbed(now, seg.ack);
        assert(a.rcv == m.rcv && a.tcb.rcv_nxt == m.tcb.rcv_nxt && a.tcb.state == m.tcb.state
            && a.tcb.peer_fin == m.tcb.peer_fin) by {
            reveal(ConnModel::ack_absorbed);
            reveal(ConnModel::ack_advanced);
            reveal(Tcb::ack_timed);
            reveal(Tcb::recovery_acked);
        }
        reveal(ConnModel::unacceptable_arrived);
        reveal(ConnModel::newly_acked);
        reveal(ConnModel::unblocked);
        reveal(ConnModel::fin_acknowledged);
    }
    lemma_settled_receiver(x, now);
}

/// In TIME-WAIT the peer's FIN that comes again starts the wait over, and is
/// acknowledged again.
pub proof fn repeated_fin_starts_the_wait_over(m: ConnModel, now: Instant, seg: Segment, cap: int)
    requires
        m.inv(),
        m.tcb.state is TimeWait,
        seg.flags.fin() && !seg.flags.syn() && !seg.flags.rst(),
        seg.payload.len() == 0,
        seg.seq.add(1) == m.tcb.rcv_nxt,
        2 * m.tcb.cfg.msl.micros <= u64::MAX,
    ensures
        ({
            let n = m.arrived(now, seg, cap, FxModel::empty()).0;
            &&& n.tcb.state is TimeWait
            &&& n.tcb.timers.wait == Some(
                now + Duration { micros: (2 * m.tcb.cfg.msl.micros) as u64 },
            )
            &&& n.tcb.ack_state is Now
            &&& n.tcb.rcv_nxt == m.tcb.rcv_nxt
        }),
{
    let fx = FxModel::empty();
    assert(m.open_window() <= 0x4000_0000) by {
        reveal(ConnModel::inv);
    }
    assert(!acceptable(m.tcb.rcv_nxt, m.open_window(), seg.seq, seg.len()));
    let x = m.with(m.tcb.time_wait(now).ack_now());
    assert(m.sync_arrived(now, seg, cap, fx) == (x, fx)) by {
        reveal(ConnModel::sync_arrived);
        reveal(ConnModel::unacceptable_arrived);
    }
    lemma_settled_receiver(x, now);
}

/// Text that reaches beyond the window is cut there, and acknowledged at once.
pub proof fn text_beyond_the_window_is_cut(m: ConnModel, now: Instant, seg: Segment, cap: int)
    requires
        brings_text(m, seg),
        !seg.flags.fin(),
        seg.seq == m.tcb.rcv_nxt,
        m.rcv.ranges.len() == 0,
        seg.payload.len() > m.rcv.window.len() - m.rcv.readable,
    ensures
        ({
            let n = m.arrived(now, seg, cap, FxModel::empty()).0;
            let free = m.rcv.window.len() - m.rcv.readable;
            &&& n.tcb.rcv_nxt == m.tcb.rcv_nxt.add(free as u32)
            &&& n.rcv.readable == m.rcv.window.len()
            &&& n.rcv.pending() == m.rcv.pending() + seg.payload.take(free)
            &&& n.tcb.ack_state is Now
        }),
{
    let fx = FxModel::empty();
    lemma_brought(m, now, seg, cap);
    let w = m.with(m.tcb.window_updated(seg, m.tcb.snd_una));
    let len = (m.rcv.window.len() - m.rcv.readable) as u32;
    let data = seg.payload.subrange(0, len as int);
    assert(data =~= seg.payload.take(len as int));
    let (rcv, ins) = m.rcv.insert(m.rcv.readable, data);
    assert(rcv.readable == m.rcv.readable + len && ins.advance == len && ins.stored
        && rcv.pending() =~= m.rcv.pending() + data) by {
        reveal_with_fuel(ranges_before, 1);
        reveal_with_fuel(ranges_through, 1);
        assert(data.take(len as int) =~= data);
    }
    assert(w.text_arrived(now, seg.seq, seg.payload, fx) == w.text_stored(now, 0, data, true, fx))
        by {
        reveal(ConnModel::text_arrived);
    }
    let (x, f) = w.text_stored(now, 0, data, true, fx);
    assert(x.rcv == rcv && x.tcb.rcv_nxt == m.tcb.rcv_nxt.add(len) && x.tcb.peer_fin is None
        && x.tcb.ack_state is Now) by {
        reveal(ConnModel::text_stored);
        reveal(Tcb::text_accepted);
    }
    assert(x.fin_recorded(seg, m.open_window()) == x) by {
        reveal(Tcb::fin_noted);
        reveal(ConnModel::cut_at_fin);
    }
    assert(x.fin_arrived(now, f) == (x, f)) by {
        reveal(ConnModel::fin_arrived);
    }
    lemma_settled_receiver(x, now);
}

/// A FIN behind a gap is remembered where it stands: nothing is consumed yet,
/// and the application hears nothing.
pub proof fn fin_behind_a_gap_is_remembered(m: ConnModel, now: Instant, seg: Segment, cap: int)
    requires
        brings_text(m, seg),
        seg.flags.fin(),
        seg.payload.len() == 0,
        seg.seq != m.tcb.rcv_nxt,
    ensures
        ({
            let (n, f) = m.arrived(now, seg, cap, FxModel::empty());
            &&& n.tcb.peer_fin == Some(seg.seq)
            &&& n.tcb.rcv_nxt == m.tcb.rcv_nxt
            &&& n.tcb.state == m.tcb.state
            &&& n.rcv.pending() == m.rcv.pending()
            &&& f.events.len() == 0
        }),
{
    let fx = FxModel::empty();
    lemma_brought(m, now, seg, cap);
    let w = m.with(m.tcb.window_updated(seg, m.tcb.snd_una));
    assert(w.text_arrived(now, seg.seq, seg.payload, fx) == (w, fx)) by {
        reveal(ConnModel::text_arrived);
    }
    let x = w.fin_recorded(seg, m.open_window());
    assert(seg.seq.add(0) == seg.seq);
    assert(x.tcb == (Tcb { peer_fin: Some(seg.seq), ..w.tcb }) && x.rcv.window == w.rcv.window
        && x.rcv.readable == w.rcv.readable) by {
        reveal(Tcb::fin_noted);
        reveal(ConnModel::cut_at_fin);
    }
    assert(x.fin_arrived(now, fx) == (x, fx)) by {
        reveal(ConnModel::fin_arrived);
    }
    lemma_settled_receiver(x, now);
}

/// Text and the FIN in one segment, next in order: first the text is readable,
/// then the FIN is consumed.
pub proof fn text_with_the_fin_is_readable_first(m: ConnModel, now: Instant, seg: Segment, cap: int)
    requires
        brings_text(m, seg),
        m.tcb.state is Established,
        seg.flags.fin(),
        seg.payload.len() > 0,
        seg.seq == m.tcb.rcv_nxt,
        m.rcv.ranges.len() == 0,
        seg.payload.len() <= m.rcv.window.len() - m.rcv.readable,
    ensures
        ({
            let (n, f) = m.arrived(now, seg, cap, FxModel::empty());
            &&& n.tcb.rcv_nxt == m.tcb.rcv_nxt.add(seg.payload.len() as u32).add(1)
            &&& n.rcv.pending() == m.rcv.pending() + seg.payload
            &&& n.tcb.state is CloseWait
            &&& n.tcb.ack_state is Now
            &&& f.events.len() > 0 && f.events.last() == ConnEvent::PeerFin
        }),
{
    let fx = FxModel::empty();
    lemma_brought(m, now, seg, cap);
    let w = m.with(m.tcb.window_updated(seg, m.tcb.snd_una));
    let len = seg.payload.len() as u32;
    let data = seg.payload.subrange(0, len as int);
    assert(data =~= seg.payload);
    let (rcv, ins) = m.rcv.insert(m.rcv.readable, seg.payload);
    assert(rcv.readable == m.rcv.readable + len && ins.advance == len && ins.stored
        && rcv.pending() =~= m.rcv.pending() + seg.payload) by {
        reveal_with_fuel(ranges_before, 1);
        reveal_with_fuel(ranges_through, 1);
        assert(seg.payload.take(len as int) =~= seg.payload);
    }
    assert(w.text_arrived(now, seg.seq, seg.payload, fx) == w.text_stored(
        now,
        0,
        data,
        false,
        fx,
    )) by {
        reveal(ConnModel::text_arrived);
    }
    let (x, f) = w.text_stored(now, 0, data, false, fx);
    assert(x.rcv == rcv && x.tcb.rcv_nxt == m.tcb.rcv_nxt.add(len) && x.tcb.peer_fin is None
        && x.tcb.state is Established && f.events.len() <= 1) by {
        reveal(ConnModel::text_stored);
        reveal(Tcb::text_accepted);
    }
    let y = x.fin_recorded(seg, m.open_window());
    assert(y.tcb == (Tcb { peer_fin: Some(x.tcb.rcv_nxt), ..x.tcb }) && y.rcv.window
        == x.rcv.window && y.rcv.readable == x.rcv.readable) by {
        reveal(Tcb::fin_noted);
        reveal(ConnModel::cut_at_fin);
    }
    let (z, g) = y.fin_arrived(now, f);
    reveal(ConnModel::fin_arrived);
    reveal(Tcb::fin_taken);
    reveal(Tcb::past_fin);
    assert(g.events == f.events.push(ConnEvent::PeerFin));
    lemma_settled_receiver(z, now);
}

/// What is advertised selectively is what is held: each block is one of the
/// ranges behind a gap, at its place behind RCV.NXT; there are as many as are
/// held, four at most; and none if it was not negotiated.
pub proof fn advertised_blocks_are_held(m: ConnModel, i: int)
    requires
        m.inv(),
    ensures
        !m.tcb.sack_enabled ==> m.blocks_out().len() == 0,
        m.tcb.sack_enabled ==> {
            &&& m.rcv.ranges.len() <= 4 ==> m.blocks_out().len() == m.rcv.ranges.len()
            &&& m.rcv.ranges.len() >= 4 ==> m.blocks_out().len() == 4
        },
        0 <= i < m.blocks_out().len() ==> exists|k: int|
            0 <= k < m.rcv.ranges.len() && {
                let r = #[trigger] m.rcv.ranges[k];
                &&& m.blocks_out()[i].0 == m.tcb.rcv_nxt.add((r.start - m.rcv.readable) as u32).0
                &&& m.blocks_out()[i].1 == m.tcb.rcv_nxt.add((r.end - m.rcv.readable) as u32).0
            },
{
    reveal(ConnModel::blocks_out);
    let s = by_recency(m.rcv.ranges, m.rcv.stamp);
    recency_order_is_sorted(m.rcv.ranges, m.rcv.stamp);
    if 0 <= i < m.blocks_out().len() {
        s.to_multiset_ensures();
        m.rcv.ranges.to_multiset_ensures();
        assert(s.contains(s[i]));
        assert(s.to_multiset().count(s[i]) > 0);
        assert(m.rcv.ranges.to_multiset().count(s[i]) > 0);
        assert(m.rcv.ranges.contains(s[i]));
        let k = choose|k: int| 0 <= k < m.rcv.ranges.len() && m.rcv.ranges[k] == s[i];
        assert(m.rcv.ranges[k] == s[i]);
    }
}

} // verus!
