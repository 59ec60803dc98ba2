//! What acknowledgments and timeouts do: progress, loss, and recovery from it.
use super::input::{acceptable, lemma_window_scaled, segments_keep_invariant, Segment};
use super::model::{lemma_inv_scalars, scale_factor};
use super::transmission::retransmission_starts_at_the_oldest_byte;
use super::{timers_keep_invariant, ConnEvent, ConnModel, FxModel, Tcb};
use crate::tcp::sack::{board_ingest, board_valid, trim_keeps_board_valid};
use crate::tcp::seq::SeqNr;
use crate::time::{Duration, Instant};
use crate::types::{CloseReason, TimerKind};
use vstd::prelude::*;

verus! {

/// A pure acknowledgment, in order, of something outstanding or of nothing new,
/// for an open connection that has not seen the peer's FIN nor sent its own.
pub open spec fn acknowledges(m: ConnModel, seg: Segment) -> bool {
    &&& m.inv()
    &&& seg.legal()
    &&& m.tcb.state is Established || m.tcb.state is CloseWait
    &&& m.tcb.peer_fin is None
    &&& m.tcb.fin_seq is None
    &&& seg.flags.ack() && !seg.flags.syn() && !seg.flags.rst() && !seg.flags.fin()
    &&& seg.payload.len() == 0
    &&& seg.seq == m.tcb.rcv_nxt
    &&& seg.opts.sack_blocks.len() == 0
    &&& m.tcb.snd_una.distance_to(seg.ack) <= m.tcb.snd_una.distance_to(m.tcb.snd_nxt)
}

/// The window that the segment announces.
pub open spec fn announced(t: Tcb, seg: Segment) -> int {
    seg.window * scale_factor(t.snd_scale)
}

proof fn lemma_acknowledged(m: ConnModel, now: Instant, seg: Segment, cap: int)
    requires
        acknowledges(m, seg),
    ensures
        ({
            let fx = FxModel::empty();
            let (a, f) = m.ack_processed(now, seg, false, cap, fx);
            let w = a.with(a.tcb.window_updated(seg, m.tcb.snd_una));
            !(a.tcb.state is Closed) && a.tcb.peer_fin is None ==> m.arrived(now, seg, cap, fx)
                == (w.timers_updated(now), f)
        }),
        m.tcb.syn_acked,
        m.tcb.flight() < 0x4000_0002,
{
    let fx = FxModel::empty();
    reveal(ConnModel::inv);
    let (a, f) = m.ack_processed(now, seg, false, cap, fx);
    let w = a.with(a.tcb.window_updated(seg, m.tcb.snd_una));
    assert(m.sacked(seg.opts.sack_blocks) == (m, false));
    assert(m.tcb.ack_in_range(seg.ack));
    assert(w.tcb.peer_fin == a.tcb.peer_fin && w.tcb.state == a.tcb.state) by {
        reveal(Tcb::window_updated);
    }
    if !(a.tcb.state is Closed) && a.tcb.peer_fin is None {
        assert(w.text_arrived(now, seg.seq, seg.payload, f) == (w, f)) by {
            reveal(ConnModel::text_arrived);
        }
        assert(w.fin_recorded(seg, m.open_window()) == w) by {
            reveal(Tcb::fin_noted);
            reveal(ConnModel::cut_at_fin);
        }
        assert(w.fin_arrived(now, f) == (w, f)) by {
            reveal(ConnModel::fin_arrived);
        }
        assert(m.ack_arrived(now, seg, cap, fx) == (w, f)) by {
            reveal(ConnModel::ack_arrived);
        }
        assert(m.sync_arrived(now, seg, cap, fx) == (w, f)) by {
            reveal(ConnModel::sync_arrived);
        }
    }
}

/// A segment that acknowledges nothing new, while something is outstanding, and
/// announces the window that is known: the peer got something out of order.
pub open spec fn duplicates(m: ConnModel, seg: Segment) -> bool {
    &&& acknowledges(m, seg)
    &&& seg.ack == m.tcb.snd_una
    &&& m.tcb.snd_una != m.tcb.snd_nxt
    &&& announced(m.tcb, seg) == m.tcb.snd_wnd
    &&& m.tcb.snd_wnd > 0
    &&& m.tcb.timers.rexmit is Some
}

proof fn lemma_duplicate(m: ConnModel, now: Instant, seg: Segment, cap: int)
    requires
        duplicates(m, seg),
    ensures
        ({
            let n = m.arrived(now, seg, cap, FxModel::empty()).0;
            let d = m.tcb.dupacked();
            &&& n.snd == m.snd
            &&& n.tcb.dupacks == d.dupacks && n.tcb.recovery == d.recovery && n.tcb.cc == d.cc
            &&& n.tcb.rexmit_now == d.rexmit_now && n.tcb.sack_cursor == d.sack_cursor
            &&& n.tcb.snd_una == m.tcb.snd_una && n.tcb.snd_nxt == m.tcb.snd_nxt
            &&& n.tcb.state == m.tcb.state && n.tcb.syn_acked && n.tcb.fin_seq is None
            &&& n.tcb.snd_wnd == m.tcb.snd_wnd
            &&& n.tcb.rtt == m.tcb.rtt
            &&& n.tcb.rexmit_count == m.tcb.rexmit_count
            &&& n.tcb.timers.rexmit == m.tcb.timers.rexmit
        }),
{
    let fx = FxModel::empty();
    lemma_acknowledged(m, now, seg, cap);
    lemma_window_scaled(seg.window, m.tcb.snd_scale);
    let d = m.with(m.tcb.dupacked());
    assert(m.ack_processed(now, seg, false, cap, fx) == (d, fx)) by {
        reveal(ConnModel::ack_processed);
    }
    assert(d.tcb.state == m.tcb.state && d.tcb.peer_fin is None && d.tcb.snd_una == m.tcb.snd_una
        && d.tcb.snd_nxt == m.tcb.snd_nxt && d.tcb.snd_wnd == m.tcb.snd_wnd && d.tcb.timers
        == m.tcb.timers && d.tcb.rtt == m.tcb.rtt && d.tcb.rexmit_count == m.tcb.rexmit_count
        && d.tcb.syn_acked == m.tcb.syn_acked && d.tcb.fin_seq == m.tcb.fin_seq && d.tcb.snd_scale
        == m.tcb.snd_scale) by {
        reveal(Tcb::dupacked);
    }
    let w = d.with(d.tcb.window_updated(seg, m.tcb.snd_una));
    assert(w.tcb.snd_wnd == m.tcb.snd_wnd && w.tcb.timers == d.tcb.timers && w.tcb.flight() > 0
        && w.tcb.dupacks == d.tcb.dupacks && w.tcb.recovery == d.tcb.recovery && w.tcb.cc
        == d.tcb.cc && w.tcb.rexmit_now == d.tcb.rexmit_now && w.tcb.sack_cursor
        == d.tcb.sack_cursor && w.tcb.snd_una == d.tcb.snd_una && w.tcb.snd_nxt == d.tcb.snd_nxt
        && w.tcb.state == d.tcb.state && w.tcb.syn_acked == d.tcb.syn_acked && w.tcb.fin_seq
        == d.tcb.fin_seq && w.tcb.rtt == d.tcb.rtt && w.tcb.rexmit_count == d.tcb.rexmit_count) by {
        reveal(Tcb::window_updated);
    }
    reveal(Tcb::rexmit_settled);
    reveal(Tcb::persist_settled);
}

/// The first two duplicates are only counted: they may mean nothing but
/// reordering.
pub proof fn two_duplicates_are_only_counted(m: ConnModel, now: Instant, seg: Segment, cap: int)
    requires
        duplicates(m, seg),
        m.tcb.recovery is None,
        m.tcb.dupacks < 2,
    ensures
        ({
            let n = m.arrived(now, seg, cap, FxModel::empty()).0;
            &&& n.tcb.dupacks == m.tcb.dupacks + 1
            &&& n.tcb.recovery is None
            &&& n.tcb.cc == m.tcb.cc
            &&& n.tcb.rexmit_now == m.tcb.rexmit_now
            &&& n.tcb.snd_una == m.tcb.snd_una && n.snd == m.snd
        }),
{
    lemma_duplicate(m, now, seg, cap);
    reveal(Tcb::dupacked);
}

/// The third one starts recovery, up to what was sent so far: the threshold is
/// half of what is in flight (two segments at least), the window follows it
/// (and the three segments that left, without SACK), and the next segment is the
/// presumed-lost one, at SND.UNA.
pub proof fn third_duplicate_starts_recovery(
    m: ConnModel,
    now: Instant,
    later: Instant,
    seg: Segment,
    cap: int,
)
    requires
        duplicates(m, seg),
        m.tcb.recovery is None,
        m.tcb.dupacks == 2,
    ensures
        ({
            let n = m.arrived(now, seg, cap, FxModel::empty()).0;
            let flight = m.tcb.snd_una.distance_to(m.tcb.snd_nxt);
            let mss = m.tcb.cc.mss as int;
            &&& n.tcb.recovery == Some(m.tcb.snd_nxt)
            &&& flight >= 4 * mss ==> 2 * n.tcb.cc.ssthresh <= flight < 2 * n.tcb.cc.ssthresh + 2
            &&& flight <= 4 * mss ==> n.tcb.cc.ssthresh == 2 * mss
            &&& m.tcb.sack_enabled ==> n.tcb.cc.cwnd == n.tcb.cc.ssthresh
            &&& !m.tcb.sack_enabled ==> n.tcb.cc.cwnd == n.tcb.cc.ssthresh + 3 * mss
            &&& m.tcb.sack_enabled ==> n.tcb.sack_cursor == m.tcb.snd_una
            &&& n.tcb.snd_una == m.tcb.snd_una && n.snd == m.snd
            &&& n.next_planned(later).1 matches Some(p) && p.seq == m.tcb.snd_una && p.payload_off
                == 0 && p.payload_len > 0
        }),
{
    lemma_duplicate(m, now, seg, cap);
    segments_keep_invariant(m, now, seg, cap, FxModel::empty());
    lemma_acknowledged(m, now, seg, cap);
    lemma_no_fin_in_flight(m);
    lemma_inv_scalars(m);
    assert(m.tcb.dupacked().rexmit_now && m.tcb.dupacked().recovery == Some(m.tcb.snd_nxt)) by {
        reveal(Tcb::dupacked);
    }
    let n = m.arrived(now, seg, cap, FxModel::empty()).0;
    retransmission_starts_at_the_oldest_byte(n, later);
    reveal(Tcb::dupacked);
}

proof fn lemma_no_fin_in_flight(m: ConnModel)
    requires
        m.inv(),
        m.tcb.syn_acked,
        m.tcb.fin_seq is None,
    ensures
        m.tcb.data_sent() == m.tcb.snd_una.distance_to(m.tcb.snd_nxt),
{
    reveal(ConnModel::inv);
}

/// Further duplicates during recovery resend nothing; without SACK each opens
/// the window by one segment, as long as the budget lasts.
pub proof fn further_duplicates_inflate(m: ConnModel, now: Instant, seg: Segment, cap: int)
    requires
        duplicates(m, seg),
        m.tcb.recovery is Some,
        m.tcb.cc.cwnd + m.tcb.cc.mss <= 0x100_0000,
    ensures
        ({
            let n = m.arrived(now, seg, cap, FxModel::empty()).0;
            &&& n.tcb.recovery == m.tcb.recovery
            &&& n.tcb.rexmit_now == m.tcb.rexmit_now
            &&& n.tcb.cc.ssthresh == m.tcb.cc.ssthresh
            &&& m.tcb.sack_enabled || m.tcb.cc.inflate_budget == 0 ==> n.tcb.cc.cwnd
                == m.tcb.cc.cwnd
            &&& !m.tcb.sack_enabled && m.tcb.cc.inflate_budget > 0 ==> {
                &&& n.tcb.cc.cwnd == m.tcb.cc.cwnd + m.tcb.cc.mss
                &&& n.tcb.cc.inflate_budget == m.tcb.cc.inflate_budget - 1
            }
        }),
{
    lemma_duplicate(m, now, seg, cap);
    reveal(Tcb::dupacked);
}

/// A segment that acknowledges something new.
pub open spec fn advances(m: ConnModel, seg: Segment) -> bool {
    &&& acknowledges(m, seg)
    &&& seg.ack != m.tcb.snd_una
}

/// What an acknowledgment of something new leaves.
spec fn advanced(m: ConnModel, now: Instant, seg: Segment, cap: int) -> Tcb {
    m.ack_absorbed(now, seg.ack).tcb
}

proof fn lemma_advance(m: ConnModel, now: Instant, seg: Segment, cap: int)
    requires
        advances(m, seg),
    ensures
        ({
            let n = m.arrived(now, seg, cap, FxModel::empty()).0;
            let t = advanced(m, now, seg, cap);
            &&& n.snd == m.snd.skip(m.tcb.snd_una.distance_to(seg.ack))
            &&& n.tcb.snd_una == seg.ack && n.tcb.snd_nxt == m.tcb.snd_nxt
            &&& n.tcb.dupacks == t.dupacks && n.tcb.recovery == t.recovery && n.tcb.cc == t.cc
            &&& t.rexmit_now ==> n.tcb.rexmit_now
            &&& n.tcb.rtt == t.rtt && n.tcb.rtt_sample == t.rtt_sample
            &&& n.tcb.rexmit_count == 0
            &&& n.tcb.state == m.tcb.state && n.tcb.syn_acked && n.tcb.fin_seq is None
            &&& seg.ack == m.tcb.snd_nxt ==> n.tcb.timers.rexmit is None
            &&& seg.ack != m.tcb.snd_nxt ==> n.tcb.timers.rexmit == Some(now + n.tcb.rtt.rto)
        }),
{
    let fx = FxModel::empty();
    lemma_acknowledged(m, now, seg, cap);
    let a = m.ack_absorbed(now, seg.ack);
    assert(m.tcb.snd_una.lt(seg.ack));
    let (b, f) = a.unblocked(cap, fx);
    assert(m.ack_processed(now, seg, false, cap, fx) == (b, f)) by {
        reveal(ConnModel::ack_processed);
        reveal(ConnModel::newly_acked);
    }
    assert(b.snd == a.snd && b.tcb == (Tcb { app_blocked: b.tcb.app_blocked, ..a.tcb })) by {
        reveal(ConnModel::unblocked);
    }
    lemma_absorbed(m, now, seg.ack);
    let w = b.with(b.tcb.window_updated(seg, m.tcb.snd_una));
    lemma_window_leaves_the_rest(b.tcb, seg, m.tcb.snd_una);
    reveal(Tcb::rexmit_settled);
    reveal(Tcb::persist_settled);
}

proof fn lemma_window_leaves_the_rest(t: Tcb, seg: Segment, una: SeqNr)
    ensures
        ({
            let w = t.window_updated(seg, una);
            &&& w.snd_una == t.snd_una && w.snd_nxt == t.snd_nxt
            &&& w.dupacks == t.dupacks && w.recovery == t.recovery && w.cc == t.cc
            &&& w.rexmit_now == t.rexmit_now && w.rtt == t.rtt && w.rtt_sample == t.rtt_sample
            &&& w.rexmit_count == t.rexmit_count && w.state == t.state
            &&& w.syn_acked == t.syn_acked && w.fin_seq == t.fin_seq && w.timers == t.timers
            &&& w.peer_fin == t.peer_fin
        }),
{
    reveal(Tcb::window_updated);
}

proof fn lemma_absorbed(m: ConnModel, now: Instant, ack: SeqNr)
    requires
        m.tcb.syn_acked,
        m.tcb.fin_seq is None,
    ensures
        ({
            let a = m.ack_absorbed(now, ack);
            &&& a.snd == m.snd.skip(m.tcb.snd_una.distance_to(ack))
            &&& a.tcb.snd_una == ack && a.tcb.snd_nxt == m.tcb.snd_nxt
            &&& a.tcb.rexmit_count == 0
            &&& a.tcb.state == m.tcb.state && a.tcb.syn_acked && a.tcb.fin_seq is None
            &&& a.tcb.peer_fin == m.tcb.peer_fin
            &&& ack.distance_to(m.tcb.snd_nxt) > 0 ==> a.tcb.timers.rexmit == Some(
                now + a.tcb.rtt.rto,
            )
            &&& a.tcb.rtt == m.tcb.rtt_sampled(now, ack).rtt
            &&& a.tcb.rtt_sample == m.tcb.rtt_sampled(now, ack).rtt_sample
        }),
{
    reveal(ConnModel::ack_absorbed);
    reveal(ConnModel::ack_advanced);
    reveal(Tcb::ack_timed);
    reveal(Tcb::recovery_acked);
}

/// What is acknowledged leaves the send buffer, and nothing else does; SND.UNA
/// moves there. The count of timeouts starts over, and the retransmission timer
/// starts over if anything is left in flight, and stops if not.
pub proof fn acknowledged_data_leaves(m: ConnModel, now: Instant, seg: Segment, cap: int)
    requires
        advances(m, seg),
    ensures
        ({
            let n = m.arrived(now, seg, cap, FxModel::empty()).0;
            &&& n.tcb.snd_una == seg.ack
            &&& n.tcb.snd_nxt == m.tcb.snd_nxt
            &&& n.snd == m.snd.skip(m.tcb.snd_una.distance_to(seg.ack))
            &&& n.tcb.rexmit_count == 0
            &&& seg.ack == m.tcb.snd_nxt ==> n.tcb.timers.rexmit is None
            &&& seg.ack != m.tcb.snd_nxt ==> n.tcb.timers.rexmit == Some(now + n.tcb.rtt.rto)
        }),
{
    lemma_advance(m, now, seg, cap);
}

/// The round trip of a timed segment is measured when it is acknowledged: the
/// time since it was sent is one sample, and the timing ends. An acknowledgment
/// of less measures nothing.
pub proof fn round_trips_are_measured(m: ConnModel, now: Instant, seg: Segment, cap: int)
    requires
        advances(m, seg),
    ensures
        ({
            let n = m.arrived(now, seg, cap, FxModel::empty()).0;
            match m.tcb.rtt_sample {
                None => n.tcb.rtt == m.tcb.rtt && n.tcb.rtt_sample is None,
                Some((end, sent)) => {
                    &&& end.distance_to(seg.ack) < 0x8000_0000 && sent.micros <= now.micros ==> {
                        let d = Duration { micros: (now.micros - sent.micros) as u64 };
                        n.tcb.rtt == m.tcb.rtt.sampled(d) && n.tcb.rtt_sample is None
                    }
                    &&& end.distance_to(seg.ack) > 0x8000_0000 ==> n.tcb.rtt == m.tcb.rtt
                        && n.tcb.rtt_sample == m.tcb.rtt_sample
                },
            }
        }),
{
    lemma_advance(m, now, seg, cap);
    lemma_acknowledged(m, now, seg, cap);
    lemma_absorbed(m, now, seg.ack);
}

/// Outside recovery an acknowledgment of something new opens the congestion
/// window: in slow start by what it acknowledges, one segment at most; in
/// congestion avoidance by one segment if it completes a window of acknowledged
/// bytes, and not at all otherwise. Duplicates are counted from zero again.
pub proof fn progress_opens_the_window(m: ConnModel, now: Instant, seg: Segment, cap: int)
    requires
        advances(m, seg),
        m.tcb.recovery is None,
        m.tcb.cc.cwnd + m.tcb.cc.mss <= 0x100_0000,
        m.tcb.cc.ca_bytes_acked + m.tcb.snd_una.distance_to(seg.ack) <= u32::MAX,
    ensures
        ({
            let n = m.arrived(now, seg, cap, FxModel::empty()).0;
            let got = m.tcb.snd_una.distance_to(seg.ack);
            let (old, new) = (m.tcb.cc, n.tcb.cc);
            &&& n.tcb.recovery is None && n.tcb.dupacks == 0
            &&& new.ssthresh == old.ssthresh && new.mss == old.mss
            &&& old.cwnd < old.ssthresh && got <= old.mss ==> new.cwnd == old.cwnd + got
            &&& old.cwnd < old.ssthresh && got >= old.mss ==> new.cwnd == old.cwnd + old.mss
            &&& old.cwnd >= old.ssthresh && old.ca_bytes_acked + got < old.cwnd ==> new.cwnd
                == old.cwnd && new.ca_bytes_acked == old.ca_bytes_acked + got
            &&& old.cwnd >= old.ssthresh && old.ca_bytes_acked + got >= old.cwnd ==> new.cwnd
                == old.cwnd + old.mss && new.ca_bytes_acked == old.ca_bytes_acked + got - old.cwnd
        }),
{
    lemma_advance(m, now, seg, cap);
    lemma_acknowledged(m, now, seg, cap);
    reveal(ConnModel::ack_absorbed);
    reveal(ConnModel::ack_advanced);
    reveal(Tcb::ack_timed);
    reveal(Tcb::recovery_acked);
}

/// An acknowledgment of everything that was in flight when recovery started ends
/// it, with the window at the threshold.
pub proof fn full_acknowledgment_ends_recovery(m: ConnModel, now: Instant, seg: Segment, cap: int)
    requires
        advances(m, seg),
        m.tcb.recovery matches Some(p) && p.distance_to(seg.ack) < 0x8000_0000,
    ensures
        ({
            let n = m.arrived(now, seg, cap, FxModel::empty()).0;
            &&& n.tcb.recovery is None && n.tcb.dupacks == 0
            &&& n.tcb.cc.ssthresh == m.tcb.cc.ssthresh
            &&& m.tcb.cc.ssthresh >= m.tcb.cc.mss ==> n.tcb.cc.cwnd == m.tcb.cc.ssthresh
            &&& n.tcb.cc.inflate_budget == 0
        }),
{
    lemma_advance(m, now, seg, cap);
    lemma_acknowledged(m, now, seg, cap);
    reveal(ConnModel::ack_absorbed);
    reveal(ConnModel::ack_advanced);
    reveal(Tcb::ack_timed);
    reveal(Tcb::recovery_acked);
}

/// An acknowledgment of less leaves the connection in recovery. Without SACK the
/// next segment that is missing, at the new SND.UNA, is sent again, and the
/// window shrinks by what was acknowledged, but for one segment.
pub proof fn partial_acknowledgment_resends(
    m: ConnModel,
    now: Instant,
    later: Instant,
    seg: Segment,
    cap: int,
)
    requires
        advances(m, seg),
        m.tcb.recovery matches Some(p) && p.distance_to(seg.ack) > 0x8000_0000,
        !m.tcb.sack_enabled,
        seg.ack != m.tcb.snd_nxt,
        2 * m.tcb.cc.mss <= m.tcb.cc.cwnd <= 0x100_0000,
    ensures
        ({
            let n = m.arrived(now, seg, cap, FxModel::empty()).0;
            let got = m.tcb.snd_una.distance_to(seg.ack);
            let (old, new) = (m.tcb.cc, n.tcb.cc);
            &&& n.tcb.recovery == m.tcb.recovery
            &&& new.ssthresh == old.ssthresh
            &&& old.mss <= got && got + old.mss <= old.cwnd ==> new.cwnd == old.cwnd - got
                + old.mss
            &&& got <= old.mss ==> new.cwnd == old.cwnd
            &&& n.next_planned(later).1 matches Some(p) && p.seq == seg.ack && p.payload_off == 0
                && p.payload_len > 0
        }),
{
    lemma_advance(m, now, seg, cap);
    lemma_acknowledged(m, now, seg, cap);
    segments_keep_invariant(m, now, seg, cap, FxModel::empty());
    lemma_inv_scalars(m);
    let n = m.arrived(now, seg, cap, FxModel::empty()).0;
    assert(n.tcb.rexmit_now && n.tcb.recovery == m.tcb.recovery) by {
        reveal(ConnModel::ack_absorbed);
        reveal(ConnModel::ack_advanced);
        reveal(Tcb::ack_timed);
        reveal(Tcb::recovery_acked);
    }
    retransmission_starts_at_the_oldest_byte(n, later);
    reveal(ConnModel::ack_absorbed);
    reveal(ConnModel::ack_advanced);
    reveal(Tcb::ack_timed);
    reveal(Tcb::recovery_acked);
}

/// A timeout means that everything is lost: the threshold is half of what is in
/// flight (two segments at least), the window one segment, recovery and what the
/// peer reported selectively are forgotten, the timeout is doubled up to its
/// cap, and the next segment is the oldest one again.
pub proof fn timeout_starts_over(m: ConnModel, now: Instant, later: Instant)
    requires
        m.inv(),
        m.tcb.syn_acked,
        m.tcb.state is Established || m.tcb.state is CloseWait,
        m.tcb.fin_seq is None,
        m.tcb.snd_una != m.tcb.snd_nxt,
        m.tcb.timers.rexmit matches Some(d) && d.micros <= now.micros,
        m.tcb.rexmit_count < m.tcb.cfg.max_data_retries,
        2 * m.tcb.rtt.rto.micros <= u64::MAX,
    ensures
        ({
            let n = m.fired(now, TimerKind::Rexmit, FxModel::empty()).0;
            let flight = m.tcb.snd_una.distance_to(m.tcb.snd_nxt);
            let mss = m.tcb.cc.mss as int;
            &&& n.tcb.cc.cwnd == mss
            &&& flight >= 4 * mss ==> 2 * n.tcb.cc.ssthresh <= flight < 2 * n.tcb.cc.ssthresh + 2
            &&& flight <= 4 * mss ==> n.tcb.cc.ssthresh == 2 * mss
            &&& n.tcb.recovery is None && n.tcb.dupacks == 0 && n.board.len() == 0
            &&& n.tcb.rtt_sample is None
            &&& n.tcb.rexmit_count == m.tcb.rexmit_count + 1
            &&& 2 * m.tcb.rtt.rto.micros <= m.tcb.rtt.rto_max.micros ==> n.tcb.rtt.rto.micros == 2
                * m.tcb.rtt.rto.micros
            &&& 2 * m.tcb.rtt.rto.micros > m.tcb.rtt.rto_max.micros ==> n.tcb.rtt.rto
                == m.tcb.rtt.rto_max
            &&& n.tcb.timers.rexmit == Some(now + n.tcb.rtt.rto)
            &&& n.tcb.snd_una == m.tcb.snd_una && n.tcb.snd_nxt == m.tcb.snd_nxt && n.snd == m.snd
            &&& n.next_planned(later).1 matches Some(p) && p.seq == m.tcb.snd_una && p.payload_off
                == 0 && p.payload_len > 0
        }),
{
    lemma_no_fin_in_flight(m);
    lemma_inv_scalars(m);
    timers_keep_invariant(m, now, TimerKind::Rexmit, FxModel::empty());
    assert(m.tcb.flight() > 0) by {
        reveal(ConnModel::inv);
    }
    let n = m.fired(now, TimerKind::Rexmit, FxModel::empty()).0;
    assert(n.tcb.rexmit_now && n.tcb.syn_acked && n.tcb.state == m.tcb.state && n.tcb.snd_una
        == m.tcb.snd_una && n.tcb.snd_nxt == m.tcb.snd_nxt && n.tcb.fin_seq is None) by {
        reveal(ConnModel::fire_handled);
        reveal(ConnModel::rexmit_fired);
    }
    retransmission_starts_at_the_oldest_byte(n, later);
    reveal(ConnModel::fire_handled);
    reveal(ConnModel::rexmit_fired);
}

/// The window that a segment announces counts, unless a later segment announced
/// one: it is the field times the scale, and the largest one is remembered.
pub proof fn later_segments_announce_the_window(m: ConnModel, now: Instant, seg: Segment, cap: int)
    requires
        acknowledges(m, seg),
    ensures
        ({
            let n = m.arrived(now, seg, cap, FxModel::empty()).0;
            let later = {
                let d = m.tcb.snd_wl1.distance_to(seg.seq);
                ||| 0 < d < 0x8000_0000
                ||| d == 0 && m.tcb.snd_wl2.distance_to(seg.ack) < 0x8000_0000
            };
            let older = {
                let d = m.tcb.snd_wl1.distance_to(seg.seq);
                ||| d > 0x8000_0000
                ||| d == 0 && m.tcb.snd_wl2.distance_to(seg.ack) > 0x8000_0000
            };
            &&& later ==> {
                &&& n.tcb.snd_wnd == announced(m.tcb, seg)
                &&& n.tcb.snd_max_wnd >= n.tcb.snd_wnd && n.tcb.snd_max_wnd >= m.tcb.snd_max_wnd
                &&& n.tcb.snd_max_wnd == n.tcb.snd_wnd || n.tcb.snd_max_wnd == m.tcb.snd_max_wnd
                &&& n.tcb.snd_wl1 == seg.seq && n.tcb.snd_wl2 == seg.ack
            }
            &&& older ==> n.tcb.snd_wnd == m.tcb.snd_wnd && n.tcb.snd_max_wnd == m.tcb.snd_max_wnd
        }),
{
    let fx = FxModel::empty();
    lemma_acknowledged(m, now, seg, cap);
    lemma_window_scaled(seg.window, m.tcb.snd_scale);
    let (a, f) = m.ack_processed(now, seg, false, cap, fx);
    assert(a.tcb.snd_wnd == m.tcb.snd_wnd && a.tcb.snd_wl1 == m.tcb.snd_wl1 && a.tcb.snd_wl2
        == m.tcb.snd_wl2 && a.tcb.snd_max_wnd == m.tcb.snd_max_wnd && a.tcb.snd_scale
        == m.tcb.snd_scale && a.tcb.snd_nxt == m.tcb.snd_nxt && a.tcb.state == m.tcb.state
        && a.tcb.peer_fin is None) by {
        lemma_processing_leaves_the_window(m, now, seg, cap);
    }
    let w = a.with(a.tcb.window_updated(seg, m.tcb.snd_una));
    assert(seg.ack.ge(m.tcb.snd_una) && seg.ack.le(m.tcb.snd_nxt));
    reveal(Tcb::window_updated);
    reveal(Tcb::rexmit_settled);
    reveal(Tcb::persist_settled);
}

proof fn lemma_processing_leaves_the_window(m: ConnModel, now: Instant, seg: Segment, cap: int)
    requires
        acknowledges(m, seg),
    ensures
        ({
            let a = m.ack_processed(now, seg, false, cap, FxModel::empty()).0;
            &&& a.tcb.snd_wnd == m.tcb.snd_wnd && a.tcb.snd_wl1 == m.tcb.snd_wl1
            &&& a.tcb.snd_wl2 == m.tcb.snd_wl2 && a.tcb.snd_max_wnd == m.tcb.snd_max_wnd
            &&& a.tcb.snd_scale == m.tcb.snd_scale && a.tcb.snd_nxt == m.tcb.snd_nxt
            &&& a.tcb.state == m.tcb.state && a.tcb.peer_fin is None
        }),
{
    let fx = FxModel::empty();
    if m.tcb.snd_una.lt(seg.ack) {
        let a = m.ack_absorbed(now, seg.ack);
        assert(a.tcb.snd_wnd == m.tcb.snd_wnd && a.tcb.snd_wl1 == m.tcb.snd_wl1 && a.tcb.snd_wl2
            == m.tcb.snd_wl2 && a.tcb.snd_max_wnd == m.tcb.snd_max_wnd && a.tcb.snd_scale
            == m.tcb.snd_scale && a.tcb.snd_nxt == m.tcb.snd_nxt && a.tcb.state == m.tcb.state
            && a.tcb.peer_fin == m.tcb.peer_fin) by {
            reveal(ConnModel::ack_absorbed);
            reveal(ConnModel::ack_advanced);
            reveal(Tcb::ack_timed);
            reveal(Tcb::recovery_acked);
        }
        reveal(ConnModel::newly_acked);
        reveal(ConnModel::unblocked);
    }
    reveal(ConnModel::ack_processed);
    reveal(Tcb::dupacked);
}

/// Probes of a closed window come at growing intervals: the first after one
/// timeout, each further one after twice the time before, a minute at most. They
/// are counted.
pub proof fn probes_come_at_doubling_intervals(m: ConnModel, now: Instant)
    requires
        !(m.tcb.state is Closed),
        m.tcb.timers.persist matches Some(d) && d.micros <= now.micros,
        m.tcb.persist_count < m.tcb.cfg.max_persist_retries,
        m.tcb.persist_count < 5,
        64 * m.tcb.rtt.rto.micros <= 60_000_000,
        now.micros + 60_000_000 <= u64::MAX,
    ensures
        ({
            let n = m.fired(now, TimerKind::Persist, FxModel::empty()).0;
            let gap = m.tcb.persist_interval().micros;
            &&& n.tcb.probe_pending
            &&& n.tcb.persist_count == m.tcb.persist_count + 1
            &&& n.tcb.timers.persist matches Some(d) && d.micros == now.micros + 2 * gap
            &&& m.tcb.persist_count == 0 ==> gap == m.tcb.rtt.rto.micros
            &&& n.snd == m.snd && n.tcb.snd_una == m.tcb.snd_una && n.tcb.snd_nxt == m.tcb.snd_nxt
        }),
{
    reveal(ConnModel::fire_handled);
    reveal(ConnModel::persist_fired);
}

/// No probe waits longer than a minute, nor less than one timeout (or a minute,
/// if that is longer).
pub proof fn probe_intervals_are_bounded(t: Tcb)
    ensures
        t.persist_interval().micros <= 60_000_000,
        t.rtt.rto.micros <= 60_000_000 ==> t.persist_interval().micros >= t.rtt.rto.micros,
{
}

/// A smaller path MSS is taken over for ten minutes; a larger one is not
/// believed. After that time the connection tries what it started with.
pub proof fn smaller_path_is_taken_over_for_a_while(
    m: ConnModel,
    now: Instant,
    later: Instant,
    mss: u16,
)
    requires
        m.tcb.cc.wf(),
        now.micros + 600_000_000 <= u64::MAX,
    ensures
        mss >= m.tcb.pmtu_mss ==> m.path_shrunk(now, mss) == m,
        mss < m.tcb.pmtu_mss ==> {
            let n = m.path_shrunk(now, mss);
            &&& n.tcb.pmtu_mss == mss
            &&& n.snd == m.snd && n.tcb.snd_una == m.tcb.snd_una
            &&& m.tcb.data_sent() > 0 ==> n.tcb.rexmit_now
            &&& later.micros < now.micros + 600_000_000 ==> n.path_aged(later) == n
            &&& later.micros >= now.micros + 600_000_000 ==> n.path_aged(later).tcb.pmtu_mss
                == m.tcb.params.pmtu_mss
        },
{
}

/// The acknowledgment of our FIN, with all that came before it: the closing
/// handshake goes on. In FIN-WAIT-1 the peer's FIN is waited for, for the
/// configured time; in CLOSING the connection waits out twice the segment
/// lifetime; in LAST-ACK it is over.
pub proof fn acknowledged_fin_moves_on(m: ConnModel, now: Instant, ack: SeqNr, cap: int)
    requires
        m.inv(),
        m.tcb.syn_acked,
        m.tcb.fin_seq is Some,
        m.tcb.snd_una != m.tcb.snd_nxt,
        ack == m.tcb.snd_nxt,
        m.tcb.reported || !m.tcb.passive,
        !m.tcb.app_blocked,
        2 * m.tcb.cfg.msl.micros <= u64::MAX,
    ensures
        ({
            let (n, f) = m.newly_acked(now, ack, cap, FxModel::empty());
            &&& n.tcb.snd_una == m.tcb.snd_nxt
            &&& n.snd.len() == 0
            &&& m.tcb.state is FinWait1 ==> {
                &&& n.tcb.state is FinWait2
                &&& f.events.len() == 0
                &&& m.tcb.cfg.fin_wait2_timeout.micros > 0 ==> n.tcb.timers.wait == Some(
                    now + m.tcb.cfg.fin_wait2_timeout,
                )
            }
            &&& m.tcb.state is Closing ==> {
                &&& n.tcb.state is TimeWait
                &&& f.events.len() == 0
                &&& n.tcb.timers.wait == Some(
                    now + Duration { micros: (2 * m.tcb.cfg.msl.micros) as u64 },
                )
            }
            &&& m.tcb.state is LastAck ==> {
                &&& n.tcb.state is Closed
                &&& n.tcb.close_reason == Some(CloseReason::Normal)
                &&& f.events == seq![ConnEvent::Closed(CloseReason::Normal)]
            }
        }),
{
    let fx = FxModel::empty();
    assert(fx.with_event(ConnEvent::Closed(CloseReason::Normal)).events =~= seq![
        ConnEvent::Closed(CloseReason::Normal),
    ]);
    assert(m.tcb.fin_acked_by(ack) && m.tcb.data_acked_by(ack) == m.snd.len()) by {
        reveal(ConnModel::inv);
    }
    let a = m.ack_absorbed(now, ack);
    assert(a.tcb.snd_una == ack && a.snd.len() == 0 && a.tcb.state == m.tcb.state && a.tcb.cfg
        == m.tcb.cfg && a.tcb.app_blocked == m.tcb.app_blocked && a.tcb.reported == m.tcb.reported
        && a.tcb.passive == m.tcb.passive && a.tcb.timers.wait == m.tcb.timers.wait) by {
        reveal(ConnModel::ack_absorbed);
        reveal(ConnModel::ack_advanced);
        reveal(Tcb::ack_timed);
        reveal(Tcb::recovery_acked);
    }
    assert(a.unblocked(cap, fx) == (a, fx)) by {
        reveal(ConnModel::unblocked);
    }
    reveal(ConnModel::newly_acked);
    reveal(ConnModel::fin_acknowledged);
}

/// An application that found the send buffer full is told as soon as there is
/// room again, and otherwise not.
pub proof fn blocked_writers_are_told(m: ConnModel, now: Instant, seg: Segment, cap: int)
    requires
        advances(m, seg),
    ensures
        ({
            let (n, f) = m.arrived(now, seg, cap, FxModel::empty());
            let room = m.snd.len() - m.tcb.snd_una.distance_to(seg.ack) < cap;
            &&& m.tcb.app_blocked && room ==> f.events == seq![ConnEvent::Writable]
                && !n.tcb.app_blocked
            &&& !m.tcb.app_blocked || !room ==> f.events.len() == 0 && n.tcb.app_blocked
                == m.tcb.app_blocked
        }),
{
    let fx = FxModel::empty();
    lemma_acknowledged(m, now, seg, cap);
    assert(fx.with_event(ConnEvent::Writable).events =~= seq![ConnEvent::Writable]);
    let a = m.ack_absorbed(now, seg.ack);
    assert(m.tcb.snd_una.lt(seg.ack));
    let (b, f) = a.unblocked(cap, fx);
    assert(m.ack_processed(now, seg, false, cap, fx) == (b, f)) by {
        reveal(ConnModel::ack_processed);
        reveal(ConnModel::newly_acked);
    }
    lemma_absorbed(m, now, seg.ack);
    assert(m.tcb.snd_una.distance_to(seg.ack) <= m.snd.len()) by {
        lemma_no_fin_in_flight(m);
        reveal(ConnModel::inv);
    }
    assert(a.tcb.app_blocked == m.tcb.app_blocked) by {
        reveal(ConnModel::ack_absorbed);
        reveal(ConnModel::ack_advanced);
        reveal(Tcb::ack_timed);
        reveal(Tcb::recovery_acked);
    }
    assert(b.tcb.state == a.tcb.state && b.tcb.peer_fin == a.tcb.peer_fin) by {
        reveal(ConnModel::unblocked);
    }
    let w = b.with(b.tcb.window_updated(seg, m.tcb.snd_una));
    assert(w.tcb.app_blocked == b.tcb.app_blocked) by {
        reveal(Tcb::window_updated);
    }
    assert(w.timers_updated(now).tcb.app_blocked == w.tcb.app_blocked) by {
        reveal(Tcb::rexmit_settled);
        reveal(Tcb::persist_settled);
    }
    reveal(ConnModel::unblocked);
}

/// A segment that acknowledges nothing new but announces another window is no
/// duplicate: nothing is counted, and nothing is resent on its account.
pub proof fn window_updates_are_no_duplicates(m: ConnModel, now: Instant, seg: Segment, cap: int)
    requires
        acknowledges(m, seg),
        seg.ack == m.tcb.snd_una,
        announced(m.tcb, seg) != m.tcb.snd_wnd,
    ensures
        ({
            let n = m.arrived(now, seg, cap, FxModel::empty()).0;
            &&& n.tcb.dupacks == m.tcb.dupacks
            &&& n.tcb.recovery == m.tcb.recovery
            &&& n.tcb.cc == m.tcb.cc
            &&& n.snd == m.snd && n.tcb.snd_una == m.tcb.snd_una
        }),
{
    let fx = FxModel::empty();
    lemma_acknowledged(m, now, seg, cap);
    lemma_window_scaled(seg.window, m.tcb.snd_scale);
    assert(m.ack_processed(now, seg, false, cap, fx) == (m, fx)) by {
        reveal(ConnModel::ack_processed);
    }
    lemma_window_leaves_the_rest(m.tcb, seg, m.tcb.snd_una);
    reveal(Tcb::rexmit_settled);
    reveal(Tcb::persist_settled);
}

/// An acknowledgment of what was not sent yet is believed in nothing: it is
/// answered by an ACK, and changes nothing else.
pub proof fn acknowledgment_of_the_unsent_is_answered(
    m: ConnModel,
    now: Instant,
    seg: Segment,
    cap: int,
)
    requires
        m.inv(),
        m.tcb.state is Established || m.tcb.state is CloseWait,
        seg.flags.ack() && !seg.flags.syn() && !seg.flags.rst(),
        seg.seq == m.tcb.rcv_nxt,
        seg.len() == 0 || m.open_window() > 0,
        0 < m.tcb.snd_nxt.distance_to(seg.ack) < 0x8000_0000,
    ensures
        ({
            let (n, f) = m.arrived(now, seg, cap, FxModel::empty());
            &&& n.tcb.ack_state is Now
            &&& f == FxModel::empty()
            &&& n.snd == m.snd && n.rcv == m.rcv && n.board == m.board
            &&& n.tcb.snd_una == m.tcb.snd_una && n.tcb.snd_nxt == m.tcb.snd_nxt
            &&& n.tcb.rcv_nxt == m.tcb.rcv_nxt && n.tcb.snd_wnd == m.tcb.snd_wnd
            &&& n.tcb.state == m.tcb.state && n.tcb.cc == m.tcb.cc
        }),
{
    let fx = FxModel::empty();
    assert(m.open_window() <= 0x4000_0000) by {
        reveal(ConnModel::inv);
    }
    let x = m.with(m.tcb.ack_now());
    assert(m.ack_arrived(now, seg, cap, fx) == (x, fx)) by {
        reveal(ConnModel::ack_arrived);
    }
    assert(acceptable(m.tcb.rcv_nxt, m.open_window(), seg.seq, seg.len()));
    assert(m.sync_arrived(now, seg, cap, fx) == (x, fx)) by {
        reveal(ConnModel::sync_arrived);
    }
    lemma_settling_leaves_all_but_timers(x, now);
}

proof fn lemma_settling_leaves_all_but_timers(x: ConnModel, now: Instant)
    ensures
        ({
            let n = x.timers_updated(now);
            &&& n.tcb.ack_state == x.tcb.ack_state
            &&& n.snd == x.snd && n.rcv == x.rcv && n.board == x.board
            &&& n.tcb.snd_una == x.tcb.snd_una && n.tcb.snd_nxt == x.tcb.snd_nxt
            &&& n.tcb.rcv_nxt == x.tcb.rcv_nxt && n.tcb.snd_wnd == x.tcb.snd_wnd
            &&& n.tcb.state == x.tcb.state && n.tcb.cc == x.tcb.cc
        }),
{
    reveal(Tcb::rexmit_settled);
    reveal(Tcb::persist_settled);
}

/// What the peer reports selectively is taken in from every acknowledgment, if
/// that was negotiated.
pub proof fn selective_reports_are_taken_in(m: ConnModel, now: Instant, seg: Segment, cap: int)
    requires
        m.inv(),
        seg.legal(),
        m.tcb.state is Established || m.tcb.state is CloseWait,
        m.tcb.peer_fin is None,
        m.tcb.sack_enabled,
        seg.flags.ack() && !seg.flags.syn() && !seg.flags.rst() && !seg.flags.fin(),
        seg.payload.len() == 0,
        seg.seq == m.tcb.rcv_nxt,
        seg.ack == m.tcb.snd_una,
    ensures
        ({
            let n = m.arrived(now, seg, cap, FxModel::empty()).0;
            n.board == board_ingest(
                m.board,
                seg.opts.sack_blocks,
                m.tcb.snd_una,
                m.tcb.snd_nxt,
            ).0
        }),
{
    let fx = FxModel::empty();
    assert(m.tcb.flight() < 0x4000_0002 && m.tcb.snd_max_wnd <= 0x4000_0000) by {
        reveal(ConnModel::inv);
    }
    reveal_with_fuel(board_ingest, 1);
    let (t, learned) = m.sacked(seg.opts.sack_blocks);
    let (a, f) = t.ack_processed(now, seg, learned, cap, fx);
    assert(a.board == t.board && a.rcv == m.rcv && a.tcb.peer_fin is None && a.tcb.state
        == m.tcb.state) by {
        reveal(ConnModel::ack_processed);
        reveal(Tcb::dupacked);
    }
    assert(m.tcb.ack_in_range(seg.ack));
    let w = a.with(a.tcb.window_updated(seg, m.tcb.snd_una));
    lemma_window_leaves_the_rest(a.tcb, seg, m.tcb.snd_una);
    assert(w.text_arrived(now, seg.seq, seg.payload, f) == (w, f)) by {
        reveal(ConnModel::text_arrived);
    }
    assert(w.fin_recorded(seg, m.open_window()) == w) by {
        reveal(Tcb::fin_noted);
        reveal(ConnModel::cut_at_fin);
    }
    assert(w.fin_arrived(now, f) == (w, f)) by {
        reveal(ConnModel::fin_arrived);
    }
    assert(m.ack_arrived(now, seg, cap, fx) == (w, f)) by {
        reveal(ConnModel::ack_arrived);
    }
    assert(m.sync_arrived(now, seg, cap, fx) == (w, f)) by {
        reveal(ConnModel::sync_arrived);
    }
}

/// When a closed window opens while a probe is outstanding, the probe is sent
/// again as ordinary data, under the retransmission timer, and probing ends.
pub proof fn reopened_window_ends_probing(m: ConnModel, now: Instant, seg: Segment, cap: int)
    requires
        acknowledges(m, seg),
        seg.ack == m.tcb.snd_una,
        m.tcb.snd_una != m.tcb.snd_nxt,
        m.tcb.snd_wnd == 0,
        m.tcb.timers.rexmit is None,
        announced(m.tcb, seg) > 0,
        0 < m.tcb.snd_wl1.distance_to(seg.seq) < 0x8000_0000,
    ensures
        ({
            let n = m.arrived(now, seg, cap, FxModel::empty()).0;
            &&& n.tcb.snd_wnd == announced(m.tcb, seg)
            &&& n.tcb.rexmit_now
            &&& n.tcb.timers.rexmit == Some(now + m.tcb.rtt.rto)
            &&& n.tcb.timers.persist is None
        }),
{
    let fx = FxModel::empty();
    later_segments_announce_the_window(m, now, seg, cap);
    lemma_acknowledged(m, now, seg, cap);
    lemma_window_scaled(seg.window, m.tcb.snd_scale);
    assert(m.ack_processed(now, seg, false, cap, fx) == (m, fx)) by {
        reveal(ConnModel::ack_processed);
    }
    lemma_window_leaves_the_rest(m.tcb, seg, m.tcb.snd_una);
    let w = m.with(m.tcb.window_updated(seg, m.tcb.snd_una));
    assert(w.tcb.snd_wnd > 0) by {
        reveal(Tcb::window_updated);
    }
    reveal(Tcb::rexmit_settled);
    reveal(Tcb::persist_settled);
}

/// An acknowledgment that is older than any window the peer ever offered is not
/// the peer's: it is answered by an ACK, and nothing of it is believed.
pub proof fn ancient_acknowledgment_is_answered(m: ConnModel, now: Instant, seg: Segment, cap: int)
    requires
        m.inv(),
        m.tcb.state is Established || m.tcb.state is CloseWait,
        seg.flags.ack() && !seg.flags.syn() && !seg.flags.rst(),
        seg.seq == m.tcb.rcv_nxt,
        seg.len() == 0 || m.open_window() > 0,
        seg.ack.distance_to(m.tcb.snd_una) > m.tcb.snd_max_wnd,
        1 < seg.ack.distance_to(m.tcb.snd_una) < 0x7000_0000,
    ensures
        ({
            let (n, f) = m.arrived(now, seg, cap, FxModel::empty());
            &&& n.tcb.ack_state is Now
            &&& f == FxModel::empty()
            &&& n.snd == m.snd && n.rcv == m.rcv && n.board == m.board
            &&& n.tcb.snd_una == m.tcb.snd_una && n.tcb.rcv_nxt == m.tcb.rcv_nxt
            &&& n.tcb.snd_wnd == m.tcb.snd_wnd && n.tcb.state == m.tcb.state
        }),
{
    let fx = FxModel::empty();
    assert(m.open_window() <= 0x4000_0000) by {
        reveal(ConnModel::inv);
    }
    let x = m.with(m.tcb.ack_now());
    assert(!m.tcb.ack_in_range(seg.ack));
    assert(m.ack_arrived(now, seg, cap, fx) == (x, fx)) by {
        reveal(ConnModel::ack_arrived);
    }
    assert(acceptable(m.tcb.rcv_nxt, m.open_window(), seg.seq, seg.len()));
    assert(m.sync_arrived(now, seg, cap, fx) == (x, fx)) by {
        reveal(ConnModel::sync_arrived);
    }
    lemma_settling_leaves_all_but_timers(x, now);
}

/// With SACK too, an acknowledgment of less than all leaves the connection in
/// recovery; if the peer reported nothing to tell what is missing, the segment
/// at the new SND.UNA is sent again. The window stays: what is in flight paces
/// the recovery.
pub proof fn partial_acknowledgment_resends_without_reports(
    m: ConnModel,
    now: Instant,
    later: Instant,
    seg: Segment,
    cap: int,
)
    requires
        advances(m, seg),
        m.tcb.recovery matches Some(p) && p.distance_to(seg.ack) > 0x8000_0000,
        m.tcb.sack_enabled,
        m.board.len() == 0,
        seg.ack != m.tcb.snd_nxt,
    ensures
        ({
            let n = m.arrived(now, seg, cap, FxModel::empty()).0;
            &&& n.tcb.recovery == m.tcb.recovery
            &&& n.tcb.cc == m.tcb.cc
            &&& n.next_planned(later).1 matches Some(p) && p.seq == seg.ack && p.payload_off == 0
                && p.payload_len > 0
        }),
{
    lemma_advance(m, now, seg, cap);
    lemma_acknowledged(m, now, seg, cap);
    segments_keep_invariant(m, now, seg, cap, FxModel::empty());
    let n = m.arrived(now, seg, cap, FxModel::empty()).0;
    assert(board_valid(m.board, m.tcb.snd_una, m.tcb.snd_nxt)) by {
        reveal(ConnModel::inv);
    }
    let a = m.ack_advanced(seg.ack);
    assert(a.board.len() == 0) by {
        reveal(ConnModel::ack_advanced);
        trim_keeps_board_valid(m.board, m.tcb.snd_una, seg.ack, m.tcb.snd_nxt);
    }
    assert(n.tcb.rexmit_now && n.tcb.recovery == m.tcb.recovery && n.tcb.cc == m.tcb.cc) by {
        reveal(ConnModel::ack_absorbed);
        reveal(ConnModel::ack_advanced);
        reveal(Tcb::ack_timed);
        reveal(Tcb::recovery_acked);
    }
    retransmission_starts_at_the_oldest_byte(n, later);
}

} // verus!
