//! What is sent, when, and what is held back.
use super::model::scale_factor;
use super::output::{lemma_blocks_out, lemma_flag_dropped, lemma_hole_outstanding, PlanModel};
use super::progress::fillings_lie_in_holes;
use super::{ConnModel, Tcb};
use crate::tcp::sack::{
    board_covers, board_next_hole, board_total, board_valid, first_hole_is_found,
    holes_lie_between_ranges,
};
use crate::tcp::seq::SeqNr;
use crate::time::Instant;
use crate::wire::tcp::TcpFlags;
use vstd::prelude::*;

verus! {

/// A window scale doubles with every step of its shift.
pub proof fn scale_doubles_with_the_shift(shift: u8)
    requires
        shift < 14,
    ensures
        scale_factor(0) == 1,
        scale_factor((shift + 1) as u8) == 2 * scale_factor(shift),
{
}

/// The largest segment that may be sent: what the peer takes or what the path
/// carries, whichever is less, but never less than 64 bytes.
pub open spec fn largest_segment(t: Tcb) -> int {
    let m = if t.peer_mss < t.pmtu_mss {
        t.peer_mss as int
    } else {
        t.pmtu_mss as int
    };
    if m < 64 {
        64
    } else {
        m
    }
}

/// Bytes that SACK blocks take beside the text: four for two fillers, kind and
/// length, and eight for each block.
pub open spec fn bytes_of_blocks(n: int) -> int {
    if n == 0 {
        0
    } else {
        4 + 8 * n
    }
}

/// The segment is full: with its SACK blocks it is as large as may be.
pub open spec fn is_full(t: Tcb, p: PlanModel) -> bool {
    p.payload_len + bytes_of_blocks(p.sack_blocks.len() as int) == largest_segment(t)
}

/// The segment carries data that was never sent before.
pub open spec fn sends_new_data(t: Tcb, p: PlanModel) -> bool {
    p.payload_len > 0 && p.seq == t.snd_nxt
}

/// How much the peer's window and the congestion window leave, counted from
/// what is in flight.
pub open spec fn window_left(t: Tcb) -> int {
    let w = if t.snd_wnd < t.cc.cwnd {
        t.snd_wnd as int
    } else {
        t.cc.cwnd as int
    };
    w - t.snd_una.distance_to(t.snd_nxt)
}

/// The smallest of three numbers.
pub open spec fn least_of(a: int, b: int, c: int) -> int {
    if a <= b && a <= c {
        a
    } else if b <= c {
        b
    } else {
        c
    }
}

/// How much text fits beside our SACK blocks.
proof fn lemma_text_room(m: ConnModel)
    ensures
        m.text_mss() == largest_segment(m.tcb) - bytes_of_blocks(m.blocks_out().len() as int),
        m.blocks_out().len() <= 4,
        1 <= m.text_mss() <= largest_segment(m.tcb),
{
    lemma_blocks_out(m);
    assert(m.tcb.eff_mss() == largest_segment(m.tcb));
}

/// Without a FIN in flight all that is in flight is data.
proof fn lemma_all_in_flight_is_data(m: ConnModel)
    requires
        m.inv(),
        m.tcb.syn_acked,
        m.tcb.fin_seq is None,
    ensures
        m.tcb.data_sent() == m.tcb.flight(),
        m.tcb.data_sent() <= m.snd.len() <= 0x4000_0000,
        m.tcb.flight() == m.tcb.snd_una.distance_to(m.tcb.snd_nxt),
        m.unsent() == m.snd.len() - m.tcb.flight(),
        m.tcb.usable_window() == if window_left(m.tcb) > 0 {
            window_left(m.tcb)
        } else {
            0
        },
{
    reveal(ConnModel::inv);
}

proof fn lemma_new_data_plan(m: ConnModel, now: Instant)
    requires
        m.inv(),
        m.tcb.syn_acked,
        m.tcb.snd_una != m.tcb.snd_nxt || m.tcb.snd_wnd > 0,
    ensures
        ({
            let a = m.with(Tcb { rexmit_now: false, ..m.tcb });
            m.next_planned(now).1 matches Some(p) ==> (sends_new_data(m.tcb, p) ==> {
                &&& a.new_data(now) matches Some((t, q)) && q == p && m.chosen(now).0 == a.with(t)
            })
        }),
{
    let a = m.with(Tcb { rexmit_now: false, ..m.tcb });
    assert(!(m.tcb.state is SynSent) && !(m.tcb.state is SynReceived)) by {
        reveal(ConnModel::inv);
    }
    if let Some(p) = m.next_planned(now).1 {
        if sends_new_data(m.tcb, p) {
            assert(a.inv()) by {
                lemma_flag_dropped(m, a);
            }
            assert(a.head_rexmit(now) matches Some((t, q)) ==> q.seq == m.tcb.snd_una && (
            m.tcb.snd_una == m.tcb.snd_nxt ==> q.payload_len == 0)) by {
                reveal(ConnModel::head_rexmit);
            }
            if a.tcb.fills_holes() {
                fillings_lie_in_holes(a, now);
                assert(a.hole_rexmit(now) matches Some((t, q)) ==> q.seq != m.tcb.snd_nxt);
            }
            assert(a.lone_fin(now) matches Some((t, q)) ==> q.payload_len == 0) by {
                reveal(ConnModel::lone_fin);
            }
            let c = a.with(Tcb { probe_pending: false, ..a.tcb });
            assert(c.probe() matches Some((t, q)) ==> q.seq == m.tcb.snd_una && m.tcb.snd_wnd == 0)
                by {
                reveal(ConnModel::probe);
            }
            assert(c.pure_ack().1.payload_len == 0) by {
                reveal(ConnModel::pure_ack);
            }
            reveal(ConnModel::sync_planned);
            reveal(ConnModel::probe_or_ack);
        }
    }
}

/// Nagle's algorithm: with it, new data that follows unacknowledged data goes
/// out only in full segments, or with the FIN that ends the stream.
pub proof fn small_segments_wait_for_the_ack(m: ConnModel, now: Instant)
    requires
        m.inv(),
        m.tcb.syn_acked,
        m.tcb.cfg.nagle,
        m.tcb.snd_una != m.tcb.snd_nxt,
    ensures
        m.next_planned(now).1 matches Some(p) ==> (sends_new_data(m.tcb, p) ==> is_full(m.tcb, p)
            || p.flags.fin()),
{
    let a = m.with(Tcb { rexmit_now: false, ..m.tcb });
    lemma_flag_dropped(m, a);
    lemma_new_data_plan(m, now);
    lemma_new_data_facts(a, now);
}

/// Sender-side silly window avoidance: new data that follows unacknowledged
/// data goes out only in full segments, in segments of half the largest window
/// that the peer ever offered, or if it is all there is.
pub proof fn silly_segments_are_not_sent(m: ConnModel, now: Instant)
    requires
        m.inv(),
        m.tcb.syn_acked,
        m.tcb.snd_una != m.tcb.snd_nxt,
    ensures
        m.next_planned(now).1 matches Some(p) ==> (sends_new_data(m.tcb, p) ==> {
            ||| is_full(m.tcb, p)
            ||| 2 * p.payload_len + 1 >= m.tcb.snd_max_wnd
            ||| p.payload_off + p.payload_len == m.snd.len()
        }),
{
    let a = m.with(Tcb { rexmit_now: false, ..m.tcb });
    lemma_flag_dropped(m, a);
    lemma_new_data_plan(m, now);
    lemma_new_data_facts(a, now);
}

/// What a plan to send new data says.
spec fn new_data_facts(a: ConnModel, now: Instant, t: Tcb, p: PlanModel) -> bool {
    let flight = a.tcb.snd_una.distance_to(a.tcb.snd_nxt);
    let left = a.snd.len() - flight;
    let room = largest_segment(a.tcb) - bytes_of_blocks(p.sack_blocks.len() as int);
    let last = p.payload_len == left;
    let fin = a.tcb.fin_queued && last;
    &&& p.seq == a.tcb.snd_nxt
    &&& p.payload_off == flight
    &&& p.payload_len == least_of(left, window_left(a.tcb), room)
    &&& p.payload_len > 0
    &&& p.flags.fin() == fin
    &&& !p.flags.syn() && !p.flags.rst()
    &&& flight > 0 ==> p.payload_len == room || fin || !a.tcb.cfg.nagle
    &&& flight > 0 ==> p.payload_len == room || last || 2 * p.payload_len + 1 >= a.tcb.snd_max_wnd
    &&& t.snd_nxt == a.tcb.snd_nxt.add(p.payload_len).add(
        if fin {
            1
        } else {
            0
        },
    )
    &&& t.snd_una == a.tcb.snd_una
    &&& t.fin_seq == if fin {
        Some(a.tcb.snd_nxt.add(p.payload_len))
    } else {
        None
    }
    &&& t.timers.rexmit == if a.tcb.timers.rexmit is Some {
        a.tcb.timers.rexmit
    } else {
        Some(now + a.tcb.rtt.rto)
    }
    &&& a.tcb.rtt_sample is None && a.tcb.recovery is None ==> t.rtt_sample == Some(
        (t.snd_nxt, now),
    )
    &&& a.tcb.rtt_sample is Some ==> t.rtt_sample == a.tcb.rtt_sample
}

proof fn lemma_new_data_facts(a: ConnModel, now: Instant)
    requires
        a.inv(),
        a.tcb.syn_acked,
    ensures
        a.new_data(now) matches Some((t, p)) ==> new_data_facts(a, now, t, p),
{
    if let Some((t, p)) = a.new_data(now) {
        assert(a.tcb.fin_seq is None) by {
            reveal(ConnModel::new_data);
        }
        lemma_all_in_flight_is_data(a);
        lemma_text_room(a);
        reveal(ConnModel::new_data);
        reveal(Tcb::data_sent_on);
        reveal(Tcb::ack_sent);
        assert(a.tcb.snd_nxt.add(p.payload_len).add(0) == a.tcb.snd_nxt.add(p.payload_len));
        lemma_flag_bits();
    }
}

pub(crate) proof fn lemma_flag_bits()
    ensures
        TcpFlags(0x09).fin(),
        TcpFlags(0x01).fin(),
        !TcpFlags(0x08).fin(),
        !TcpFlags(0).fin(),
        !TcpFlags(0x02).fin(),
        TcpFlags(0x02).syn(),
        !TcpFlags(0x09).syn() && !TcpFlags(0x09).rst(),
        !TcpFlags(0x08).syn() && !TcpFlags(0x08).rst(),
        !TcpFlags(0x01).syn() && !TcpFlags(0x01).rst(),
        !TcpFlags(0).syn() && !TcpFlags(0).rst(),
{
    assert(0x09u8 & 0x01u8 == 0x01u8 && 0x01u8 & 0x01u8 == 0x01u8 && 0x08u8 & 0x01u8 != 0x01u8
        && 0u8 & 0x01u8 != 0x01u8 && 0x02u8 & 0x01u8 != 0x01u8 && 0x02u8 & 0x02u8 == 0x02u8
        && 0x09u8 & 0x02u8 != 0x02u8 && 0x09u8 & 0x04u8 != 0x04u8 && 0x08u8 & 0x02u8 != 0x02u8
        && 0x08u8 & 0x04u8 != 0x04u8 && 0x01u8 & 0x02u8 != 0x02u8 && 0x01u8 & 0x04u8 != 0x04u8
        && 0u8 & 0x02u8 != 0x02u8 && 0u8 & 0x04u8 != 0x04u8) by (bit_vector);
}

/// New data is what comes next of the buffer: it starts at SND.NXT, as far into
/// the buffer as is in flight, and is as long as the buffer, the two windows and
/// the segment size allow. The FIN rides along exactly if it was asked for and
/// this is the last of the buffer. SND.NXT moves past what was sent, the
/// retransmission timer runs (started now, unless it ran), and the segment is
/// timed if none is and no loss is being recovered from.
pub proof fn new_data_is_what_comes_next(m: ConnModel, now: Instant)
    requires
        m.inv(),
        m.tcb.syn_acked,
        m.tcb.snd_una != m.tcb.snd_nxt || m.tcb.snd_wnd > 0,
    ensures
        m.next_planned(now).1 matches Some(p) ==> (sends_new_data(m.tcb, p) ==> {
            let n = m.next_planned(now).0;
            let flight = m.tcb.snd_una.distance_to(m.tcb.snd_nxt);
            let left = m.snd.len() - flight;
            let room = largest_segment(m.tcb) - bytes_of_blocks(p.sack_blocks.len() as int);
            let fin = m.tcb.fin_queued && p.payload_len == left;
            &&& p.payload_off == flight
            &&& p.payload_len == least_of(left, window_left(m.tcb), room)
            &&& p.flags.fin() == fin
            &&& n.tcb.snd_nxt == m.tcb.snd_nxt.add(p.payload_len).add(
                if fin {
                    1
                } else {
                    0
                },
            )
            &&& n.tcb.snd_una == m.tcb.snd_una
            &&& n.snd == m.snd
            &&& m.tcb.timers.rexmit matches Some(d) ==> n.tcb.timers.rexmit == Some(d)
            &&& m.tcb.timers.rexmit is None ==> n.tcb.timers.rexmit == Some(now + m.tcb.rtt.rto)
            &&& m.tcb.rtt_sample is None && m.tcb.recovery is None ==> n.tcb.rtt_sample == Some(
                (n.tcb.snd_nxt, now),
            )
            &&& m.tcb.rtt_sample is Some ==> n.tcb.rtt_sample == m.tcb.rtt_sample
        }),
{
    let a = m.with(Tcb { rexmit_now: false, ..m.tcb });
    lemma_flag_dropped(m, a);
    lemma_new_data_plan(m, now);
    lemma_new_data_facts(a, now);
    if let Some(p) = m.next_planned(now).1 {
        if sends_new_data(m.tcb, p) {
            let x = m.chosen(now).0;
            assert(m.tcb.fin_seq is None) by {
                reveal(ConnModel::new_data);
            }
            lemma_all_in_flight_is_data(m);
            lemma_advanced(x.tcb, m.tcb, p.payload_len, m.tcb.fin_queued && p.payload_len
                == m.snd.len() - m.tcb.flight());
            lemma_settling_leaves_the_rest(x, now);
        }
    }
}

/// Something sent is outstanding.
proof fn lemma_advanced(x: Tcb, t: Tcb, len: u32, fin: bool)
    requires
        x.snd_una == t.snd_una,
        x.snd_nxt == t.snd_nxt.add(len).add(
            if fin {
                1
            } else {
                0
            },
        ),
        t.flight() + len + 1 < 0x1_0000_0000,
        len > 0,
    ensures
        x.flight() > 0,
{
}

/// Recomputing the timers of a connection with something outstanding, and the
/// retransmission timer running, changes only the persist timer.
proof fn lemma_settling_leaves_the_rest(x: ConnModel, now: Instant)
    requires
        x.tcb.flight() > 0,
        x.tcb.timers.rexmit is Some,
    ensures
        ({
            let n = x.timers_updated(now);
            &&& n.tcb.timers.rexmit == x.tcb.timers.rexmit
            &&& n.tcb.snd_nxt == x.tcb.snd_nxt
            &&& n.tcb.snd_una == x.tcb.snd_una
            &&& n.tcb.rtt_sample == x.tcb.rtt_sample
            &&& n.tcb.fin_seq == x.tcb.fin_seq
            &&& n.snd == x.snd
        }),
{
    reveal(Tcb::rexmit_settled);
    reveal(Tcb::persist_settled);
}

/// Whether the connection has nothing to repair first: its handshake is done,
/// nothing is to be sent again, and no loss is being recovered from.
pub open spec fn sends_freely(m: ConnModel) -> bool {
    &&& m.inv()
    &&& m.tcb.syn_acked
    &&& !m.tcb.rexmit_now
    &&& m.tcb.recovery is None
    &&& m.tcb.fin_seq is None
    &&& m.tcb.state is Established || m.tcb.state is CloseWait || m.tcb.state is FinWait1
        || m.tcb.state is Closing || m.tcb.state is LastAck
}

/// Data goes out when it may: if there is unsent data and room in the windows,
/// new data is sent at once when nothing is in flight, when a full segment can
/// be sent, or when all of it fits the windows and Nagle's algorithm is off.
pub proof fn data_goes_out_when_it_may(m: ConnModel, now: Instant)
    requires
        sends_freely(m),
        m.snd.len() > m.tcb.snd_una.distance_to(m.tcb.snd_nxt),
        window_left(m.tcb) > 0,
        ({
            let left = m.snd.len() - m.tcb.snd_una.distance_to(m.tcb.snd_nxt);
            ||| m.tcb.snd_una == m.tcb.snd_nxt
            ||| left >= largest_segment(m.tcb) && window_left(m.tcb) >= largest_segment(m.tcb)
            ||| !m.tcb.cfg.nagle && left <= window_left(m.tcb)
            ||| m.tcb.fin_queued && left <= window_left(m.tcb)
        }),
    ensures
        m.next_planned(now).1 matches Some(p) && sends_new_data(m.tcb, p),
{
    let a = m.with(Tcb { rexmit_now: false, ..m.tcb });
    assert(a.tcb == m.tcb);
    lemma_all_in_flight_is_data(a);
    lemma_text_room(a);
    assert(a.new_data(now) matches Some((t, p)) && sends_new_data(m.tcb, p)) by {
        reveal(ConnModel::new_data);
    }
    reveal(ConnModel::sync_planned);
}

/// Once all data is out, the FIN that was asked for follows at once, on its
/// own, at SND.NXT.
pub proof fn fin_follows_the_data(m: ConnModel, now: Instant)
    requires
        sends_freely(m),
        m.tcb.fin_queued,
        m.tcb.state is FinWait1 || m.tcb.state is Closing || m.tcb.state is LastAck,
        m.snd.len() == m.tcb.snd_una.distance_to(m.tcb.snd_nxt),
    ensures
        m.next_planned(now).1 matches Some(p) && {
            let n = m.next_planned(now).0;
            &&& p.flags.fin()
            &&& p.payload_len == 0
            &&& p.seq == m.tcb.snd_nxt
            &&& n.tcb.fin_seq == Some(m.tcb.snd_nxt)
            &&& n.tcb.snd_nxt == m.tcb.snd_nxt.add(1)
            &&& n.tcb.timers.rexmit is Some
        },
{
    let a = m.with(Tcb { rexmit_now: false, ..m.tcb });
    assert(a.tcb == m.tcb);
    assert(a.tcb.data_sent() == a.tcb.flight() && a.tcb.flight() < 0x4000_0002) by {
        reveal(ConnModel::inv);
    }
    lemma_flag_bits();
    assert(a.new_data(now) is None) by {
        reveal(ConnModel::new_data);
    }
    assert(a.lone_fin(now) matches Some((t, p)) && p.flags.fin() && p.payload_len == 0 && p.seq
        == m.tcb.snd_nxt && t.fin_seq == Some(m.tcb.snd_nxt) && t.snd_nxt == m.tcb.snd_nxt.add(1)
        && t.snd_una == m.tcb.snd_una && t.timers.rexmit is Some) by {
        reveal(ConnModel::lone_fin);
        reveal(Tcb::ack_sent);
    }
    reveal(ConnModel::sync_planned);
    lemma_advanced(m.chosen(now).0.tcb, m.tcb, 1, false);
    lemma_settling_leaves_the_rest(m.chosen(now).0, now);
}

/// What is to be sent again is sent first, and from the start: the oldest
/// unacknowledged byte on, as much as fits a segment of what is in flight, and
/// with the FIN if that comes next. Nothing that covers it is timed any more.
pub proof fn retransmission_starts_at_the_oldest_byte(m: ConnModel, now: Instant)
    requires
        m.inv(),
        m.tcb.syn_acked,
        !(m.tcb.state is Closed),
        m.tcb.rexmit_now,
        m.tcb.snd_una != m.tcb.snd_nxt,
    ensures
        m.next_planned(now).1 matches Some(p) && {
            let flight = m.tcb.snd_una.distance_to(m.tcb.snd_nxt);
            let data = if m.tcb.fin_seq is Some {
                flight - 1
            } else {
                flight
            };
            let room = largest_segment(m.tcb) - bytes_of_blocks(p.sack_blocks.len() as int);
            let n = m.next_planned(now).0;
            &&& p.seq == m.tcb.snd_una
            &&& p.payload_off == 0
            &&& p.sack_blocks.len() <= 4
            &&& p.payload_len == if data < room {
                data
            } else {
                room
            }
            &&& p.flags.fin() == (m.tcb.fin_seq is Some && p.payload_len == data)
            &&& n.tcb.rtt_sample is None
            &&& !n.tcb.rexmit_now
            &&& n.tcb.snd_nxt == m.tcb.snd_nxt && n.tcb.snd_una == m.tcb.snd_una
            &&& n.tcb.timers.rexmit is Some
        },
{
    let a = m.with(Tcb { rexmit_now: false, ..m.tcb });
    assert(!(m.tcb.state is SynSent) && !(m.tcb.state is SynReceived)) by {
        reveal(ConnModel::inv);
    }
    lemma_flag_bits();
    lemma_text_room(a);
    lemma_fin_is_last(m);
    assert(a.head_rexmit(now) matches Some((t, p)) && t.timers.rexmit is Some && t.snd_nxt
        == m.tcb.snd_nxt && t.snd_una == m.tcb.snd_una && t.rtt_sample is None && !t.rexmit_now) by {
        reveal(ConnModel::head_rexmit);
        reveal(Tcb::head_resent);
        reveal(Tcb::ack_sent);
    }
    assert(m.sync_planned(now) == a.having(a.head_rexmit(now))) by {
        reveal(ConnModel::sync_planned);
    }
    let x = m.chosen(now).0;
    lemma_settling_leaves_the_rest(x, now);
    assert(!x.timers_updated(now).tcb.rexmit_now) by {
        reveal(Tcb::rexmit_settled);
        reveal(Tcb::persist_settled);
    }
    reveal(ConnModel::head_rexmit);
}

/// An outstanding FIN is the last of what is outstanding.
proof fn lemma_fin_is_last(m: ConnModel)
    requires
        m.inv(),
        m.tcb.syn_acked,
        m.tcb.snd_una != m.tcb.snd_nxt,
    ensures
        m.tcb.flight() > 0,
        m.tcb.fin_seq is None ==> m.tcb.data_sent() == m.tcb.flight(),
        m.tcb.fin_seq matches Some(f) ==> {
            &&& m.tcb.data_sent() == m.tcb.flight() - 1
            &&& f == m.tcb.snd_una.add(m.tcb.data_sent())
            &&& f.lt(m.tcb.snd_nxt)
        },
        m.tcb.fin_seq matches Some(f) ==> forall|k: u32|
            k < m.tcb.data_sent() ==> f != #[trigger] m.tcb.snd_una.add(k),
{
    reveal(ConnModel::inv);
}

/// A closed window is probed with the oldest byte that it does not let through.
pub proof fn probes_carry_the_oldest_byte(m: ConnModel, now: Instant)
    requires
        sends_freely(m),
        m.tcb.probe_pending,
        m.tcb.snd_wnd == 0,
        m.snd.len() > 0,
        !m.tcb.fin_queued,
    ensures
        m.next_planned(now).1 matches Some(p) && {
            &&& p.seq == m.tcb.snd_una
            &&& p.payload_off == 0
            &&& p.payload_len == 1
            &&& !m.next_planned(now).0.tcb.probe_pending
        },
{
    let a = m.with(Tcb { rexmit_now: false, ..m.tcb });
    assert(a.tcb == m.tcb);
    assert(a.new_data(now) is None) by {
        reveal(ConnModel::new_data);
    }
    assert(a.lone_fin(now) is None) by {
        reveal(ConnModel::lone_fin);
    }
    reveal(ConnModel::sync_planned);
    reveal(ConnModel::probe_or_ack);
    reveal(ConnModel::probe);
    reveal(Tcb::ack_sent);
    reveal(Tcb::rexmit_settled);
    reveal(Tcb::persist_settled);
}

/// A connection with nothing to say says nothing: all data is out, no FIN is
/// due, nothing is to be repaired or probed, and no ACK is owed.
pub proof fn nothing_is_sent_without_need(m: ConnModel, now: Instant)
    requires
        m.inv(),
        m.tcb.syn_acked,
        !m.tcb.rexmit_now,
        m.tcb.recovery is None,
        !m.tcb.probe_pending,
        !(m.tcb.ack_state is Now),
        m.tcb.fin_seq is Some || !m.tcb.fin_queued,
        m.tcb.fin_seq is None ==> m.snd.len() == m.tcb.snd_una.distance_to(m.tcb.snd_nxt),
    ensures
        m.next_planned(now).1 is None,
{
    let a = m.with(Tcb { rexmit_now: false, ..m.tcb });
    assert(a.tcb == m.tcb);
    assert(!(m.tcb.state is SynSent) && !(m.tcb.state is SynReceived)) by {
        reveal(ConnModel::inv);
    }
    assert(m.tcb.fin_seq is None ==> a.tcb.data_sent() == a.tcb.flight()) by {
        reveal(ConnModel::inv);
    }
    assert(a.new_data(now) is None) by {
        reveal(ConnModel::new_data);
    }
    assert(a.lone_fin(now) is None) by {
        reveal(ConnModel::lone_fin);
    }
    reveal(ConnModel::sync_planned);
    reveal(ConnModel::probe_or_ack);
}

/// An ACK that is owed goes out: as a segment of its own if nothing else does.
pub proof fn owed_ack_is_sent(m: ConnModel, now: Instant)
    requires
        m.inv(),
        m.tcb.syn_acked,
        !(m.tcb.state is Closed),
        m.tcb.ack_state is Now,
    ensures
        m.next_planned(now).1 is Some,
{
    assert(!(m.tcb.state is SynSent) && !(m.tcb.state is SynReceived)) by {
        reveal(ConnModel::inv);
    }
    reveal(ConnModel::sync_planned);
    reveal(ConnModel::probe_or_ack);
}

/// Every segment but a SYN acknowledges exactly what arrived in order, and
/// announces the free space of the buffer: as much as the field can express in
/// units of the scale, never more than there is. After it no ACK is owed.
pub proof fn segments_acknowledge_what_arrived(m: ConnModel, now: Instant)
    requires
        m.inv(),
    ensures
        m.next_planned(now).1 matches Some(p) ==> (m.tcb.syn_acked ==> p.syn_opts is None),
        m.next_planned(now).1 matches Some(p) ==> (p.syn_opts is None ==> {
            let n = m.next_planned(now).0;
            let free = m.rcv.window.len() - m.rcv.readable;
            let unit = scale_factor(m.tcb.rcv_scale) as int;
            &&& p.ack == Some(m.tcb.rcv_nxt)
            &&& p.window * unit <= free
            &&& p.window == 65535 || free < p.window * unit + unit
            &&& n.tcb.ack_state is Idle && n.tcb.timers.del_ack is None
            &&& n.tcb.segs_since_ack == 0
            &&& n.tcb.last_wnd_advertised == p.window * unit
            &&& n.rcv == m.rcv && n.tcb.rcv_nxt == m.tcb.rcv_nxt
        }),
{
    let wnd = m.open_window();
    assert(wnd == m.rcv.window.len() - m.rcv.readable) by {
        reveal(ConnModel::inv);
    }
    lemma_field(m.tcb, wnd);
    lemma_chosen_acks(m, now);
    reveal(acks);
    lemma_settling_keeps_acks(m.chosen(now).0, now);
}

proof fn lemma_settling_keeps_acks(x: ConnModel, now: Instant)
    ensures
        ({
            let n = x.timers_updated(now);
            &&& n.tcb.ack_state == x.tcb.ack_state && n.tcb.timers.del_ack == x.tcb.timers.del_ack
            &&& n.tcb.segs_since_ack == x.tcb.segs_since_ack
            &&& n.tcb.last_wnd_advertised == x.tcb.last_wnd_advertised
            &&& n.rcv == x.rcv && n.tcb.rcv_nxt == x.tcb.rcv_nxt
        }),
{
    reveal(Tcb::rexmit_settled);
    reveal(Tcb::persist_settled);
}

proof fn lemma_leftovers_ack(a: ConnModel)
    ensures
        a.leftovers().0.rcv == a.rcv,
        a.leftovers().1 matches Some(p) ==> acks(a, a.leftovers().0.tcb, p),
{
    let c = a.with(Tcb { probe_pending: false, ..a.tcb });
    lemma_rest_acks(c);
    assert(forall|t: Tcb, p: PlanModel| #[trigger] acks(c, t, p) ==> acks(a, t, p)) by {
        reveal(acks);
    }
    reveal(ConnModel::probe_or_ack);
}

proof fn lemma_fresh_choices_ack(a: ConnModel, now: Instant)
    ensures
        a.fresh_choices(now).0.rcv == a.rcv,
        a.fresh_choices(now).1 matches Some(p) ==> acks(a, a.fresh_choices(now).0.tcb, p),
{
    lemma_hole_acks(a, now);
    lemma_fresh_acks(a, now);
    lemma_leftovers_ack(a);
}

proof fn lemma_chosen_acks(m: ConnModel, now: Instant)
    requires
        m.inv(),
    ensures
        m.chosen(now).0.rcv == m.rcv,
        m.chosen(now).1 matches Some(p) ==> (p.syn_opts is Some && !m.tcb.syn_acked) || acks(
            m,
            m.chosen(now).0.tcb,
            p,
        ),
{
    let a = m.with(Tcb { rexmit_now: false, ..m.tcb });
    let wnd = m.open_window();
    lemma_head_acks(a, now);
    lemma_fresh_choices_ack(a, now);
    assert(forall|t: Tcb, p: PlanModel| #[trigger] acks(a, t, p) ==> acks(m, t, p)) by {
        reveal(acks);
    }
    assert(m.tcb.state is SynSent || m.tcb.state is SynReceived ==> !m.tcb.syn_acked) by {
        reveal(ConnModel::inv);
    }
    assert(m.tcb.syn_planned(now, true, wnd) matches Some((t, p)) ==> p.syn_opts is Some) by {
        reveal(Tcb::syn_planned);
    }
    assert(m.tcb.syn_planned(now, false, wnd) matches Some((t, p)) ==> p.syn_opts is Some) by {
        reveal(Tcb::syn_planned);
    }
    reveal(ConnModel::sync_planned);
}

/// A plan that acknowledges what arrived.
#[verifier::opaque]
spec fn acks(m: ConnModel, t: Tcb, p: PlanModel) -> bool {
    let wnd = m.open_window();
    &&& p.syn_opts is None
    &&& p.ack == Some(m.tcb.rcv_nxt)
    &&& p.window == m.tcb.window_field(wnd)
    &&& t.ack_state is Idle && t.timers.del_ack is None && t.segs_since_ack == 0
    &&& t.last_wnd_advertised == (m.tcb.window_field(wnd) * scale_factor(m.tcb.rcv_scale)) as u32
    &&& t.rcv_nxt == m.tcb.rcv_nxt
}

proof fn lemma_field(t: Tcb, wnd: u32)
    ensures
        ({
            let unit = scale_factor(t.rcv_scale) as int;
            let field = t.window_field(wnd) as int;
            &&& 0 <= field * unit <= wnd
            &&& field == 65535 || wnd < field * unit + unit
            &&& (field * unit) as u32 == field * unit
        }),
{
    let unit = scale_factor(t.rcv_scale) as int;
    let q = wnd as int / unit;
    assert(q * unit <= wnd < q * unit + unit) by (nonlinear_arith)
        requires
            q == wnd as int / unit,
            unit > 0,
    ;
    assert((wnd / scale_factor(t.rcv_scale)) as int == q);
    let field = t.window_field(wnd) as int;
    assert(0 <= field * unit <= q * unit) by (nonlinear_arith)
        requires
            0 <= field <= q,
            unit > 0,
    ;
}

proof fn lemma_head_acks(a: ConnModel, now: Instant)
    ensures
        a.head_rexmit(now) matches Some((t, p)) ==> (p.syn_opts is Some
            && !a.tcb.syn_acked) || acks(a, t, p),
{
    reveal(acks);
    reveal(ConnModel::head_rexmit);
    reveal(Tcb::head_resent);
    reveal(Tcb::ack_sent);
    reveal(Tcb::syn_planned);
}

proof fn lemma_hole_acks(a: ConnModel, now: Instant)
    ensures
        a.hole_rexmit(now) matches Some((t, p)) ==> acks(a, t, p),
{
    reveal(acks);
    reveal(ConnModel::hole_rexmit);
    reveal(ConnModel::hole_filled);
    reveal(Tcb::ack_sent);
}

proof fn lemma_fresh_acks(a: ConnModel, now: Instant)
    ensures
        a.new_data(now) matches Some((t, p)) ==> acks(a, t, p),
        a.lone_fin(now) matches Some((t, p)) ==> acks(a, t, p),
{
    reveal(acks);
    reveal(ConnModel::new_data);
    reveal(ConnModel::lone_fin);
    reveal(Tcb::data_sent_on);
    reveal(Tcb::ack_sent);
}

proof fn lemma_rest_acks(c: ConnModel)
    ensures
        c.probe() matches Some((t, p)) ==> acks(c, t, p),
        acks(c, c.pure_ack().0, c.pure_ack().1),
{
    reveal(acks);
    reveal(ConnModel::probe);
    reveal(ConnModel::pure_ack);
    reveal(Tcb::ack_sent);
}

/// SACK recovery: the first missing byte that was not sent again yet (the cursor
/// stands behind what was, or before SND.UNA if nothing was) is sent next, before
/// anything new, as long as what is in flight and not reported as received is
/// less than the congestion window.
pub proof fn holes_are_filled_first(m: ConnModel, now: Instant, x: SeqNr)
    requires
        m.inv(),
        m.tcb.syn_acked,
        !(m.tcb.state is Closed),
        m.tcb.recovery is Some,
        m.tcb.sack_enabled,
        !m.tcb.rexmit_now,
        m.tcb.fin_seq is None,
        m.board.len() > 0,
        m.tcb.snd_una.distance_to(m.tcb.snd_nxt) - board_total(m.board) < m.tcb.cc.cwnd,
        !board_covers(m.board, m.tcb.snd_una, x),
        m.tcb.sack_cursor != m.tcb.snd_una.sub(1) ==> m.tcb.snd_una.distance_to(m.tcb.sack_cursor)
            <= m.tcb.snd_una.distance_to(x),
        m.tcb.snd_una.distance_to(x) < m.tcb.snd_una.distance_to(m.board.last().1),
    ensures
        m.next_planned(now).1 matches Some(p) && {
            &&& p.payload_len > 0
            &&& m.tcb.snd_una.distance_to(p.seq) <= m.tcb.snd_una.distance_to(x)
            &&& p.payload_off == m.tcb.snd_una.distance_to(p.seq)
            &&& !board_covers(m.board, m.tcb.snd_una, p.seq)
            &&& m.next_planned(now).0.tcb.snd_nxt == m.tcb.snd_nxt
        },
{
    let una = m.tcb.snd_una;
    assert(!(m.tcb.state is SynSent) && !(m.tcb.state is SynReceived)) by {
        reveal(ConnModel::inv);
    }
    let a = m.with(Tcb { rexmit_now: false, ..m.tcb });
    assert(a == m);
    lemma_all_in_flight_is_data(m);
    lemma_text_room(m);
    assert(board_valid(m.board, una, m.tcb.snd_nxt)) by {
        reveal(ConnModel::inv);
    }
    assert(una.distance_to(m.hole_from()) <= una.distance_to(x)) by {
        reveal(ConnModel::inv);
    }
    first_hole_is_found(m.board, m.hole_from(), una, m.tcb.snd_nxt, x);
    let (h, n) = board_next_hole(m.board, m.hole_from())->0;
    lemma_hole_outstanding(m);
    assert(m.hole_rexmit(now) == m.hole_filled(now, h, n)) by {
        reveal(ConnModel::hole_rexmit);
    }
    let end = una.add(m.tcb.data_sent());
    assert(end == m.tcb.snd_nxt);
    assert(!h.ge(end));
    assert(h.distance_to(end) == m.tcb.flight() - una.distance_to(h));
    assert(m.hole_len(h, n) > 0);
    assert(m.hole_filled(now, h, n) matches Some((t, p)) && p.seq == h && p.payload_off
        == una.distance_to(h) && p.payload_len == m.hole_len(h, n) && t.snd_nxt == m.tcb.snd_nxt
        && t.timers.rexmit is Some && t.snd_una == una) by {
        reveal(ConnModel::hole_filled);
        reveal(Tcb::ack_sent);
    }
    assert(!board_covers(m.board, una, h)) by {
        holes_lie_between_ranges(m.board, m.hole_from(), una, m.tcb.snd_nxt);
    }
    reveal(ConnModel::sync_planned);
    lemma_settling_leaves_the_rest(m.chosen(now).0, now);
}

/// An ACK that is owed, when nothing else is to be sent, tells of what is held
/// behind gaps, and carries nothing else.
pub proof fn pure_ack_tells_what_is_held(m: ConnModel, now: Instant)
    requires
        m.inv(),
        m.tcb.syn_acked,
        !(m.tcb.state is Closed),
        m.tcb.ack_state is Now,
        !m.tcb.rexmit_now,
        m.tcb.recovery is None,
        !m.tcb.probe_pending,
        m.tcb.fin_seq is Some || !m.tcb.fin_queued,
        m.tcb.fin_seq is None ==> m.snd.len() == m.tcb.snd_una.distance_to(m.tcb.snd_nxt),
    ensures
        m.next_planned(now).1 matches Some(p) && {
            &&& p.sack_blocks == m.blocks_out()
            &&& p.payload_len == 0
            &&& p.seq == m.tcb.snd_nxt
            &&& !p.flags.fin() && !p.flags.syn() && !p.flags.rst()
            &&& p.ack == Some(m.tcb.rcv_nxt)
        },
{
    let a = m.with(Tcb { rexmit_now: false, ..m.tcb });
    assert(a == m);
    assert(!(m.tcb.state is SynSent) && !(m.tcb.state is SynReceived)) by {
        reveal(ConnModel::inv);
    }
    assert(m.tcb.fin_seq is None ==> a.tcb.data_sent() == a.tcb.flight()) by {
        reveal(ConnModel::inv);
    }
    assert(a.new_data(now) is None) by {
        reveal(ConnModel::new_data);
    }
    assert(a.lone_fin(now) is None) by {
        reveal(ConnModel::lone_fin);
    }
    let c = a.with(Tcb { probe_pending: false, ..a.tcb });
    assert(c == m);
    lemma_flag_bits();
    reveal(ConnModel::sync_planned);
    reveal(ConnModel::probe_or_ack);
    reveal(ConnModel::pure_ack);
}

} // verus!
