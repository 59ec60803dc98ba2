//! Progress: what is outstanding is watched by a timer, a silent peer is given
//! up, planning comes to an end, and what is sent keeps within the windows.
use super::input::{segments_keep_invariant, Segment};
use super::model::lemma_inv_scalars;
use super::output::{
    lemma_chosen_inv, lemma_flag_dropped, lemma_hole_outstanding, lemma_hole_rexmit_inv,
    plans_keep_invariant, PlanModel,
};
use super::sending::lemma_newly_acked_una;
use super::{timers_keep_invariant, ConnEvent, ConnModel, FxModel, Tcb};
use crate::tcp::cc::{greater, lesser};
use crate::tcp::sack::{
    board_gap, board_next_hole, board_total, board_valid, holes_lie_between_ranges,
};
use crate::tcp::seq::SeqNr;
use crate::tcp::State;
use crate::time::Instant;
use crate::types::{CloseReason, TimerKind};
use vstd::prelude::*;

verus! {

// ----- Planning comes to an end -----

/// One if so, else zero.
pub open spec fn one_if(b: bool) -> int {
    if b {
        1
    } else {
        0
    }
}

impl Tcb {
    /// How far the SACK recovery can still go.
    #[verifier::opaque]
    pub open spec fn cursor_room(self) -> int {
        self.flight() + 1 - self.snd_una.sub(1).distance_to(self.sack_cursor)
    }

    /// What is marked as owed to the peer, whatever the buffers hold.
    pub open spec fn marks(self) -> int {
        2 * one_if(self.fin_queued && self.fin_seq is None) + one_if(self.rexmit_now) + 2 * one_if(
            self.probe_stranded(),
        ) + one_if(self.probe_pending) + one_if(self.ack_state is Now) + one_if(self.syn_pending)
    }
}

impl ConnModel {
    /// A bound on the number of segments that can be planned before anything
    /// else happens.
    #[verifier::opaque]
    pub open spec fn work_left(self) -> int {
        2 * self.unsent() + self.tcb.cursor_room() + self.tcb.marks()
    }
}

pub(crate) proof fn lemma_work_is_not_negative(m: ConnModel)
    requires
        m.inv(),
    ensures
        m.work_left() >= 0,
{
    reveal(ConnModel::work_left);
    reveal(Tcb::cursor_room);
    reveal(ConnModel::inv);
}

/// Where the sequence space and the send buffer are left alone, only the marks
/// make a difference.
proof fn lemma_same_space(a: ConnModel, b: ConnModel)
    requires
        b.tcb.snd_una == a.tcb.snd_una,
        b.tcb.snd_nxt == a.tcb.snd_nxt,
        b.tcb.sack_cursor == a.tcb.sack_cursor,
        b.tcb.syn_acked == a.tcb.syn_acked,
        b.tcb.fin_seq == a.tcb.fin_seq,
        b.snd == a.snd,
    ensures
        b.work_left() - a.work_left() == b.tcb.marks() - a.tcb.marks(),
{
    reveal(ConnModel::work_left);
    reveal(Tcb::cursor_room);
}

proof fn lemma_ack_sent_work(m: ConnModel, wnd: u32)
    ensures
        m.with(m.tcb.ack_sent(wnd)).work_left() <= m.work_left(),
        m.tcb.ack_state is Now ==> m.with(m.tcb.ack_sent(wnd)).work_left() < m.work_left(),
{
    reveal(Tcb::ack_sent);
    lemma_same_space(m, m.with(m.tcb.ack_sent(wnd)));
}

/// A connection that is not stranded, and marks nothing that was not marked,
/// has no more work.
proof fn lemma_marks(a: Tcb, b: Tcb)
    requires
        b.fin_queued == a.fin_queued,
        b.fin_seq == a.fin_seq,
        b.probe_pending ==> a.probe_pending,
        b.ack_state is Now ==> a.ack_state is Now,
        b.syn_pending ==> a.syn_pending,
        !b.probe_stranded(),
        b.rexmit_now ==> a.rexmit_now || a.probe_stranded(),
    ensures
        b.marks() <= a.marks(),
{
}

#[verifier::spinoff_prover]
proof fn lemma_rexmit_settled_work(m: ConnModel, now: Instant)
    ensures
        m.with(m.tcb.rexmit_settled(now)).work_left() <= m.work_left(),
{
    let u = m.tcb.rexmit_settled(now);
    reveal(Tcb::rexmit_settled);
    assert(u.flight() == m.tcb.flight());
    lemma_same_space(m, m.with(u));
    lemma_marks(m.tcb, u);
}

proof fn lemma_persist_settled_work(m: ConnModel, now: Instant, has_data: bool)
    ensures
        m.with(m.tcb.persist_settled(now, has_data)).work_left() <= m.work_left(),
{
    reveal(Tcb::persist_settled);
    lemma_same_space(m, m.with(m.tcb.persist_settled(now, has_data)));
}

proof fn lemma_timers_updated_work(m: ConnModel, now: Instant)
    ensures
        m.timers_updated(now).work_left() <= m.work_left(),
{
    lemma_rexmit_settled_work(m, now);
    lemma_persist_settled_work(m.with(m.tcb.rexmit_settled(now)), now, m.snd.len() > 0);
}

proof fn lemma_syn_planned_work(m: ConnModel, now: Instant, with_ack: bool, wnd: u32)
    ensures
        m.tcb.syn_planned(now, with_ack, wnd) matches Some((u, p)) ==> m.with(u).work_left()
            < m.work_left(),
{
    reveal(Tcb::syn_planned);
    if let Some((u, p)) = m.tcb.syn_planned(now, with_ack, wnd) {
        lemma_same_space(m, m.with(u));
    }
}

proof fn lemma_syn_again_work(m: ConnModel, now: Instant, with_ack: bool, wnd: u32)
    ensures
        (Tcb { syn_pending: true, ..m.tcb }).syn_planned(now, with_ack, wnd) matches Some((u, p))
            ==> m.with(u).work_left() <= m.work_left(),
{
    let a = m.with(Tcb { syn_pending: true, ..m.tcb });
    lemma_syn_planned_work(a, now, with_ack, wnd);
    lemma_same_space(m, a);
}

proof fn lemma_head_resent_work(m: ConnModel, now: Instant, len: u32)
    requires
        m.inv(),
        m.tcb.syn_acked,
        greater(len as int, 1) <= m.tcb.flight(),
    ensures
        m.with(m.tcb.head_resent(now, len)).work_left() <= m.work_left(),
{
    reveal(ConnModel::work_left);
    reveal(Tcb::cursor_room);
    reveal(Tcb::head_resent);
    reveal(ConnModel::inv);
}

proof fn lemma_head_rexmit_work(m: ConnModel, now: Instant)
    requires
        m.inv(),
    ensures
        m.head_rexmit(now) matches Some((u, p)) ==> m.with(u).work_left() <= m.work_left(),
{
    reveal(ConnModel::head_rexmit);
    if !m.tcb.syn_acked {
        lemma_syn_again_work(m, now, !(m.tcb.state is SynSent), m.open_window());
    } else if m.head_rexmit(now) is Some {
        let len = lesser(m.tcb.data_sent() as int, m.text_mss() as int) as u32;
        assert(greater(len as int, 1) <= m.tcb.flight()) by {
            reveal(ConnModel::inv);
        }
        lemma_head_resent_work(m, now, len);
        lemma_ack_sent_work(m.with(m.tcb.head_resent(now, len)), m.open_window());
    }
}

proof fn lemma_cursor_moved_work(m: ConnModel, now: Instant, start: SeqNr, len: u32)
    requires
        m.inv(),
        m.tcb.snd_una.distance_to(m.hole_from()) <= m.tcb.snd_una.distance_to(start),
        m.tcb.snd_una.distance_to(start) + greater(len as int, 1) <= m.tcb.flight(),
    ensures
        m.with(
            Tcb {
                sack_cursor: start.add(greater(len as int, 1) as u32),
                rtt_sample: None,
                ..m.tcb.rexmit_started(now)
            },
        ).work_left() < m.work_left(),
{
    reveal(ConnModel::work_left);
    reveal(Tcb::cursor_room);
    reveal(ConnModel::inv);
}

proof fn lemma_hole_rexmit_work(m: ConnModel, now: Instant)
    requires
        m.inv(),
    ensures
        m.hole_rexmit(now) matches Some((u, p)) ==> m.with(u).work_left() < m.work_left(),
{
    reveal(ConnModel::hole_rexmit);
    if m.hole_rexmit(now) is Some {
        let (start, hole) = board_next_hole(m.board, m.hole_from())->0;
        lemma_hole_outstanding(m);
        assert(m.tcb.snd_una.distance_to(m.hole_from()) <= m.tcb.snd_una.distance_to(start)) by {
            reveal(ConnModel::inv);
            holes_lie_between_ranges(m.board, m.hole_from(), m.tcb.snd_una, m.tcb.snd_nxt);
        }
        let len = m.hole_len(start, hole);
        lemma_cursor_moved_work(m, now, start, len);
        let t = Tcb {
            sack_cursor: start.add(greater(len as int, 1) as u32),
            rtt_sample: None,
            ..m.tcb.rexmit_started(now)
        };
        lemma_ack_sent_work(m.with(t), m.open_window());
        reveal(ConnModel::hole_filled);
    }
}

/// Sending `len` new bytes moves them from the unsent to the outstanding ones.
proof fn lemma_data_sent_on_space(m: ConnModel, now: Instant, len: u32, fin: bool)
    requires
        m.inv(),
        m.tcb.fin_seq is None,
        0 < len <= m.unsent(),
        len <= m.tcb.usable_window(),
    ensures
        ({
            let n = m.with(m.tcb.data_sent_on(now, len, fin));
            &&& n.unsent() == m.unsent() - len
            &&& n.tcb.cursor_room() == m.tcb.cursor_room() + len + one_if(fin)
        }),
{
    reveal(Tcb::data_sent_on);
    reveal(ConnModel::inv);
    reveal(Tcb::cursor_room);
}

proof fn lemma_data_sent_on_marks(t: Tcb, now: Instant, len: u32, fin: bool)
    requires
        t.fin_seq is None,
        fin ==> t.fin_queued,
    ensures
        t.data_sent_on(now, len, fin).marks() <= t.marks() - 2 * one_if(fin),
{
    reveal(Tcb::data_sent_on);
}

proof fn lemma_data_sent_on_work(m: ConnModel, now: Instant, len: u32, fin: bool)
    requires
        m.inv(),
        m.tcb.fin_seq is None,
        0 < len <= m.unsent(),
        len <= m.tcb.usable_window(),
        fin ==> m.tcb.fin_queued,
    ensures
        m.with(m.tcb.data_sent_on(now, len, fin)).work_left() < m.work_left(),
{
    lemma_data_sent_on_space(m, now, len, fin);
    lemma_data_sent_on_marks(m.tcb, now, len, fin);
    reveal(ConnModel::work_left);
}

proof fn lemma_new_data_work(m: ConnModel, now: Instant)
    requires
        m.inv(),
    ensures
        m.new_data(now) matches Some((u, p)) ==> m.with(u).work_left() < m.work_left(),
{
    reveal(ConnModel::new_data);
    if m.new_data(now) is Some {
        let len = m.next_len();
        let fin = m.tcb.fin_queued && len == m.unsent();
        lemma_data_sent_on_work(m, now, len, fin);
        lemma_ack_sent_work(m.with(m.tcb.data_sent_on(now, len, fin)), m.open_window());
    }
}

proof fn lemma_fin_sent_work(m: ConnModel, now: Instant)
    requires
        m.inv(),
        m.tcb.fin_queued,
        m.tcb.fin_seq is None,
    ensures
        m.with(
            Tcb {
                fin_seq: Some(m.tcb.snd_nxt),
                snd_nxt: m.tcb.snd_nxt.add(1),
                ..m.tcb.rexmit_started(now)
            },
        ).work_left() < m.work_left(),
{
    reveal(ConnModel::work_left);
    reveal(Tcb::cursor_room);
    reveal(ConnModel::inv);
}

proof fn lemma_lone_fin_work(m: ConnModel, now: Instant)
    requires
        m.inv(),
    ensures
        m.lone_fin(now) matches Some((u, p)) ==> m.with(u).work_left() < m.work_left(),
{
    reveal(ConnModel::lone_fin);
    if m.lone_fin(now) is Some {
        lemma_fin_sent_work(m, now);
        let t = Tcb {
            fin_seq: Some(m.tcb.snd_nxt),
            snd_nxt: m.tcb.snd_nxt.add(1),
            ..m.tcb.rexmit_started(now)
        };
        lemma_ack_sent_work(m.with(t), m.open_window());
    }
}

proof fn lemma_probe_work(m: ConnModel)
    requires
        m.inv(),
        m.tcb.syn_acked,
    ensures
        m.probe() matches Some((u, p)) ==> m.with(u).work_left() <= m.work_left(),
{
    reveal(ConnModel::probe);
    if m.probe() is Some {
        let t = Tcb {
            snd_nxt: if m.tcb.snd_nxt == m.tcb.snd_una {
                m.tcb.snd_nxt.add(1)
            } else {
                m.tcb.snd_nxt
            },
            ..m.tcb
        };
        assert(m.with(t).work_left() <= m.work_left()) by {
            reveal(ConnModel::inv);
            reveal(ConnModel::work_left);
            reveal(Tcb::cursor_room);
        }
        lemma_ack_sent_work(m.with(t), m.open_window());
    }
}

proof fn lemma_leftovers_work(m: ConnModel)
    requires
        m.inv(),
    ensures
        m.leftovers().1 is Some ==> m.leftovers().0.work_left() < m.work_left(),
{
    let c = m.with(Tcb { probe_pending: false, ..m.tcb });
    lemma_flag_dropped(m, c);
    lemma_same_space(m, c);
    reveal(ConnModel::probe_or_ack);
    reveal(ConnModel::pure_ack);
    lemma_ack_sent_work(c, c.open_window());
    assert(m.tcb.probe_pending ==> m.tcb.syn_acked) by {
        lemma_inv_scalars(m);
    }
    if m.tcb.probe_pending {
        lemma_probe_work(c);
    }
}

proof fn lemma_fresh_choices_work(m: ConnModel, now: Instant)
    requires
        m.inv(),
    ensures
        m.fresh_choices(now).1 is Some ==> m.fresh_choices(now).0.work_left() < m.work_left(),
{
    lemma_hole_rexmit_work(m, now);
    lemma_new_data_work(m, now);
    lemma_lone_fin_work(m, now);
    lemma_leftovers_work(m);
}

proof fn lemma_sync_planned_work(m: ConnModel, now: Instant)
    requires
        m.inv(),
    ensures
        m.sync_planned(now).1 is Some ==> m.sync_planned(now).0.work_left() < m.work_left(),
{
    reveal(ConnModel::sync_planned);
    let a = m.with(Tcb { rexmit_now: false, ..m.tcb });
    lemma_flag_dropped(m, a);
    lemma_same_space(m, a);
    lemma_head_rexmit_work(a, now);
    lemma_fresh_choices_work(a, now);
}

/// Planning comes to an end: each planned segment uses up some of a bounded
/// amount of work, so a drain never goes on for ever.
pub proof fn planning_comes_to_an_end(m: ConnModel, now: Instant)
    requires
        m.inv(),
    ensures
        m.next_planned(now).1 is Some ==> 0 <= m.next_planned(now).0.work_left() < m.work_left(),
{
    let n = m.chosen(now).0;
    lemma_syn_planned_work(m, now, m.tcb.state is SynReceived, m.open_window());
    lemma_sync_planned_work(m, now);
    lemma_timers_updated_work(n, now);
    plans_keep_invariant(m, now);
    lemma_work_is_not_negative(m.next_planned(now).0);
}

impl ConnModel {
    /// As a sweep leaves the connection: its path estimate aged, its timers
    /// recomputed.
    pub open spec fn settled(self, now: Instant) -> ConnModel {
        self.path_aged(now).timers_updated(now)
    }
}

/// A sweep adds no work, and a second one changes nothing.
#[verifier::rlimit(30)]
pub(crate) proof fn lemma_settled(m: ConnModel, now: Instant)
    ensures
        m.settled(now).work_left() <= m.work_left(),
        m.settled(now).settled(now) == m.settled(now),
        m.settled(now).connected_unreported() == m.connected_unreported(),
{
    let a = m.path_aged(now);
    lemma_same_space(m, a);
    lemma_timers_updated_work(a, now);
    let b = a.timers_updated(now);
    assert(b.tcb.pmtu_expires == a.tcb.pmtu_expires && b.tcb.state == m.tcb.state && b.tcb.reported
        == m.tcb.reported) by {
        reveal(Tcb::rexmit_settled);
        reveal(Tcb::persist_settled);
    }
    assert(b.path_aged(now) == b);
    assert(b.timers_updated(now) == b) by {
        lemma_timers_updated_twice(a, now);
    }
}

impl Tcb {
    /// Whether the retransmission timer is as it should be.
    pub open spec fn rexmit_in_order(self) -> bool {
        &&& self.flight() == 0 ==> self.timers.rexmit is None && self.rexmit_count == 0
        &&& !self.probe_stranded()
    }

    /// Whether the persist timer is as it should be.
    pub open spec fn persist_in_order(self, has_data: bool) -> bool {
        self.timers.persist is Some <==> self.wants_persist(has_data)
    }
}

proof fn lemma_in_order_is_settled(t: Tcb, now: Instant, has_data: bool)
    ensures
        t.rexmit_in_order() ==> t.rexmit_settled(now) == t,
        t.persist_in_order(has_data) ==> t.persist_settled(now, has_data) == t,
{
    reveal(Tcb::rexmit_settled);
    reveal(Tcb::persist_settled);
}

proof fn lemma_rexmit_settled_in_order(t: Tcb, now: Instant)
    ensures
        t.rexmit_settled(now).rexmit_in_order(),
{
    reveal(Tcb::rexmit_settled);
    assert(t.rexmit_settled(now).flight() == t.flight());
}

proof fn lemma_persist_settled_in_order(t: Tcb, now: Instant, has_data: bool)
    requires
        t.rexmit_in_order(),
    ensures
        t.persist_settled(now, has_data).rexmit_in_order(),
        t.persist_settled(now, has_data).persist_in_order(has_data),
{
    reveal(Tcb::persist_settled);
    assert(t.persist_settled(now, has_data).flight() == t.flight());
}

proof fn lemma_timers_updated_in_order(m: ConnModel, now: Instant)
    ensures
        m.timers_updated(now).tcb.rexmit_in_order(),
        m.timers_updated(now).tcb.persist_in_order(m.snd.len() > 0),
{
    lemma_rexmit_settled_in_order(m.tcb, now);
    lemma_persist_settled_in_order(m.tcb.rexmit_settled(now), now, m.snd.len() > 0);
}

proof fn lemma_timers_updated_twice(m: ConnModel, now: Instant)
    ensures
        m.timers_updated(now).timers_updated(now) == m.timers_updated(now),
{
    lemma_timers_updated_in_order(m, now);
    lemma_in_order_is_settled(m.timers_updated(now).tcb, now, m.snd.len() > 0);
}

/// Without marks of what is to be sent again or probed.
spec fn unmarked(m: ConnModel) -> ConnModel {
    m.with(Tcb { rexmit_now: false, probe_pending: false, ..m.tcb })
}

proof fn lemma_no_leftovers(m: ConnModel)
    requires
        m.leftovers().1 is None,
    ensures
        m.leftovers().0 == m.with(Tcb { probe_pending: false, ..m.tcb }),
{
    reveal(ConnModel::probe_or_ack);
}

proof fn lemma_no_sync_plan(m: ConnModel, now: Instant)
    requires
        m.sync_planned(now).1 is None,
    ensures
        m.sync_planned(now).0 == unmarked(m),
{
    reveal(ConnModel::sync_planned);
    let a = m.with(Tcb { rexmit_now: false, ..m.tcb });
    if a.leftovers().1 is None {
        lemma_no_leftovers(a);
    }
}

proof fn lemma_unmarked(m: ConnModel, now: Instant)
    ensures
        unmarked(m).work_left() <= m.work_left(),
        m.settled(now) == m ==> unmarked(m).settled(now) == unmarked(m),
{
    lemma_same_space(m, unmarked(m));
    if m.settled(now) == m {
        lemma_settled_alike(m, unmarked(m), now);
    }
}

/// When there is nothing to plan, only pending marks are dropped: there is no
/// more work than before, and what was settled still is.
pub(crate) proof fn lemma_nothing_planned(m: ConnModel, now: Instant)
    requires
        m.next_planned(now).1 is None,
    ensures
        ({
            let n = m.next_planned(now).0;
            &&& n.work_left() <= m.work_left()
            &&& n.tcb.timers == m.tcb.timers
            &&& n.connected_unreported() == m.connected_unreported()
            &&& m.settled(now) == m ==> n.settled(now) == n
        }),
{
    lemma_unmarked(m, now);
    if m.sync_planned(now).1 is None {
        lemma_no_sync_plan(m, now);
    }
    assert(m.next_planned(now).0 == m || m.next_planned(now).0 == unmarked(m));
}

/// Marks, and whether the application knows the connection, do not matter to
/// a sweep.
proof fn lemma_settled_alike(m: ConnModel, n: ConnModel, now: Instant)
    requires
        m.settled(now) == m,
        n == m.with(
            Tcb {
                rexmit_now: n.tcb.rexmit_now,
                probe_pending: n.tcb.probe_pending,
                reported: n.tcb.reported,
                ..m.tcb
            },
        ),
    ensures
        n.settled(now) == n,
{
    let a = m.path_aged(now);
    assert(a.timers_updated(now).tcb.pmtu_expires == a.tcb.pmtu_expires) by {
        reveal(Tcb::rexmit_settled);
        reveal(Tcb::persist_settled);
    }
    assert(a == m);
    assert(n.path_aged(now) == n);
    lemma_timers_updated_in_order(m, now);
    assert(n.tcb.flight() == m.tcb.flight());
    lemma_in_order_is_settled(n.tcb, now, n.snd.len() > 0);
}

/// Telling the application of the connection adds no work.
pub(crate) proof fn lemma_reported_work(m: ConnModel, now: Instant)
    requires
        m.settled(now) == m,
    ensures
        ({
            let n = m.with(Tcb { reported: true, ..m.tcb });
            n.settled(now) == n && n.work_left() == m.work_left()
        }),
{
    let n = m.with(Tcb { reported: true, ..m.tcb });
    lemma_settled_alike(m, n, now);
    lemma_same_space(m, n);
}

// ----- What is outstanding is watched -----

/// Whether a timer watches over what the connection waits for.
pub open spec fn watched(t: Tcb) -> bool {
    t.timers.rexmit is Some || t.timers.persist is Some
}

impl ConnModel {
    /// Whether the connection, its handshake done, waits for the peer: it has
    /// unacknowledged data, or anything outstanding in an open window, or data
    /// that waits for a closed one to open.
    pub open spec fn waits_for_peer(self) -> bool {
        &&& !(self.tcb.state is Closed)
        &&& self.tcb.syn_acked
        &&& {
            ||| self.tcb.data_sent() > 0
            ||| self.tcb.flight() > 0 && self.tcb.snd_wnd > 0
            ||| self.snd.len() > 0 && self.tcb.snd_wnd == 0
        }
    }
}

proof fn lemma_timers_updated_watched(m: ConnModel, now: Instant)
    requires
        m.timers_updated(now).inv(),
    ensures
        m.timers_updated(now).waits_for_peer() ==> watched(m.timers_updated(now).tcb),
{
    lemma_inv_scalars(m.timers_updated(now));
    reveal(Tcb::rexmit_settled);
    reveal(Tcb::persist_settled);
}

/// A connection that waits for its peer has a timer running, whether a segment
/// arrived or one was sent: it is never left waiting for nothing.
pub proof fn waiting_connection_is_watched(
    m: ConnModel,
    now: Instant,
    seg: Segment,
    cap: int,
    fx: FxModel,
)
    requires
        m.inv(),
        seg.legal(),
    ensures
        ({
            let n = m.arrived(now, seg, cap, fx).0;
            n.waits_for_peer() ==> watched(n.tcb)
        }),
        ({
            let (n, p) = m.next_planned(now);
            p is Some && n.waits_for_peer() ==> watched(n.tcb)
        }),
{
    segments_keep_invariant(m, now, seg, cap, fx);
    plans_keep_invariant(m, now);
    let x = match m.tcb.state {
        State::Closed => m,
        State::SynSent => m.syn_sent_arrived(now, seg, fx).0,
        _ => m.sync_arrived(now, seg, cap, fx).0,
    };
    lemma_timers_updated_watched(x, now);
    if m.chosen(now).1 is Some {
        lemma_timers_updated_watched(m.chosen(now).0, now);
    }
}

// ----- A silent peer is given up -----

impl ConnModel {
    /// Whether something that the retransmission timer can send again is
    /// outstanding: the SYN, data or the FIN.
    pub open spec fn awaits_ack(self) -> bool {
        let t = self.tcb;
        &&& !(t.state is Closed)
        &&& t.timers.rexmit is Some
        &&& {
            ||| t.state is SynSent || t.state is SynReceived
            ||| t.data_sent() > 0
            ||| t.fin_in_flight()
        }
    }

    /// How many retransmissions are allowed.
    pub open spec fn retry_limit(self) -> int {
        if self.tcb.state is SynSent || self.tcb.state is SynReceived {
            self.tcb.cfg.max_syn_retries as int
        } else {
            self.tcb.cfg.max_data_retries as int
        }
    }
}

/// A timeout sends again what is outstanding, with a doubled timeout, and
/// counts; after as many as are allowed the next one closes the connection.
pub proof fn timeouts_are_counted(m: ConnModel, now: Instant, fx: FxModel)
    requires
        m.awaits_ack(),
        m.timer_due(now, TimerKind::Rexmit),
    ensures
        m.tcb.rexmit_count >= m.retry_limit() ==> {
            let (n, f) = m.fired(now, TimerKind::Rexmit, fx);
            &&& n.tcb.state is Closed
            &&& n.tcb.close_reason == Some(CloseReason::TimedOut)
            &&& m.tcb.reported || !m.tcb.passive ==> f == fx.with_event(
                ConnEvent::Closed(CloseReason::TimedOut),
            )
        },
        m.tcb.rexmit_count < m.retry_limit() ==> {
            let n = m.fired(now, TimerKind::Rexmit, fx).0;
            &&& n.awaits_ack()
            &&& n.tcb.state == m.tcb.state
            &&& n.tcb.cfg == m.tcb.cfg
            &&& n.tcb.rexmit_count == m.tcb.rexmit_count + 1
            &&& n.tcb.syn_pending || n.tcb.rexmit_now
            &&& n.tcb.rtt.rto == (m.tcb.rtt.rto * 2).shorter(m.tcb.rtt.rto_max)
            &&& n.tcb.timers.rexmit == Some(now + n.tcb.rtt.rto)
        },
{
    reveal(ConnModel::fire_handled);
    reveal(ConnModel::rexmit_fired);
}

/// Nothing that was waited for is forgotten, no retransmission and no probe
/// uncounted, and the receiving side left alone.
#[verifier::opaque]
pub open spec fn keeps_waiting(a: Tcb, b: Tcb) -> bool {
    &&& b.state == a.state
    &&& b.cfg == a.cfg
    &&& b.rexmit_count == a.rexmit_count
    &&& b.snd_una == a.snd_una
    &&& b.data_sent() >= a.data_sent()
    &&& a.timers.rexmit is Some ==> b.timers.rexmit is Some
    &&& a.fin_seq is Some ==> b.fin_seq == a.fin_seq
    &&& b.irs == a.irs
    &&& b.rcv_nxt == a.rcv_nxt
    &&& b.syn_acked == a.syn_acked
    &&& b.snd_wnd == a.snd_wnd
    &&& b.timers.persist == a.timers.persist
    &&& b.persist_count == a.persist_count
}

proof fn lemma_ack_sent_waiting(t: Tcb, wnd: u32)
    ensures
        keeps_waiting(t, t.ack_sent(wnd)),
{
    reveal(keeps_waiting);
    reveal(Tcb::ack_sent);
}

proof fn lemma_syn_planned_waiting(t: Tcb, now: Instant, with_ack: bool, wnd: u32)
    ensures
        t.syn_planned(now, with_ack, wnd) matches Some((u, p)) ==> keeps_waiting(t, u),
{
    reveal(keeps_waiting);
    reveal(Tcb::syn_planned);
}

proof fn lemma_head_rexmit_waiting(m: ConnModel, now: Instant)
    ensures
        m.head_rexmit(now) matches Some((u, p)) ==> keeps_waiting(m.tcb, u),
{
    reveal(keeps_waiting);
    let t = m.tcb;
    reveal(ConnModel::head_rexmit);
    if !t.syn_acked {
        let a = Tcb { syn_pending: true, ..t };
        lemma_syn_planned_waiting(a, now, !(t.state is SynSent), m.open_window());
        assert(keeps_waiting(t, a));
    } else {
        let len = lesser(t.data_sent() as int, m.text_mss() as int) as u32;
        let b = t.head_resent(now, len);
        assert(keeps_waiting(t, b)) by {
            reveal(Tcb::head_resent);
        }
        lemma_ack_sent_waiting(b, m.open_window());
    }
}

proof fn lemma_hole_rexmit_waiting(m: ConnModel, now: Instant)
    ensures
        m.hole_rexmit(now) matches Some((u, p)) ==> keeps_waiting(m.tcb, u),
{
    reveal(keeps_waiting);
    reveal(ConnModel::hole_rexmit);
    if m.hole_rexmit(now) is Some {
        let (start, hole) = board_next_hole(m.board, m.hole_from())->0;
        let len = m.hole_len(start, hole);
        let t = Tcb {
            sack_cursor: start.add(greater(len as int, 1) as u32),
            rtt_sample: None,
            ..m.tcb.rexmit_started(now)
        };
        assert(keeps_waiting(m.tcb, t));
        lemma_ack_sent_waiting(t, m.open_window());
        reveal(ConnModel::hole_filled);
    }
}

proof fn lemma_new_data_waiting(m: ConnModel, now: Instant)
    requires
        m.inv(),
    ensures
        m.new_data(now) matches Some((u, p)) ==> keeps_waiting(m.tcb, u),
{
    reveal(keeps_waiting);
    reveal(ConnModel::new_data);
    if m.new_data(now) is Some {
        let len = m.next_len();
        let fin = m.tcb.fin_queued && len == m.unsent();
        let t = m.tcb.data_sent_on(now, len, fin);
        lemma_data_sent_on_space(m, now, len, fin);
        lemma_inv_scalars(m);
        assert(keeps_waiting(m.tcb, t)) by {
            reveal(Tcb::data_sent_on);
        }
        lemma_ack_sent_waiting(t, m.open_window());
    }
}

proof fn lemma_lone_fin_waiting(m: ConnModel, now: Instant)
    requires
        m.inv(),
    ensures
        m.lone_fin(now) matches Some((u, p)) ==> keeps_waiting(m.tcb, u),
{
    reveal(keeps_waiting);
    reveal(ConnModel::lone_fin);
    if m.lone_fin(now) is Some {
        let t = Tcb {
            fin_seq: Some(m.tcb.snd_nxt),
            snd_nxt: m.tcb.snd_nxt.add(1),
            ..m.tcb.rexmit_started(now)
        };
        assert(keeps_waiting(m.tcb, t)) by {
            reveal(ConnModel::inv);
        }
        lemma_ack_sent_waiting(t, m.open_window());
    }
}

proof fn lemma_probed_waiting(m: ConnModel)
    requires
        m.inv(),
    ensures
        keeps_waiting(m.tcb, m.tcb),
        m.tcb.snd_nxt == m.tcb.snd_una ==> keeps_waiting(
            m.tcb,
            Tcb { snd_nxt: m.tcb.snd_nxt.add(1), ..m.tcb },
        ),
{
    reveal(keeps_waiting);
    reveal(ConnModel::inv);
}

proof fn lemma_waiting_is_transitive(a: Tcb, b: Tcb, c: Tcb)
    requires
        keeps_waiting(a, b),
        keeps_waiting(b, c),
    ensures
        keeps_waiting(a, c),
{
    reveal(keeps_waiting);
}

proof fn lemma_probe_waiting(m: ConnModel)
    requires
        m.inv(),
    ensures
        m.probe() matches Some((u, p)) ==> keeps_waiting(m.tcb, u),
{
    reveal(ConnModel::probe);
    lemma_probed_waiting(m);
    if let Some((u, p)) = m.probe() {
        let t = Tcb {
            snd_nxt: if m.tcb.snd_nxt == m.tcb.snd_una {
                m.tcb.snd_nxt.add(1)
            } else {
                m.tcb.snd_nxt
            },
            ..m.tcb
        };
        lemma_ack_sent_waiting(t, m.open_window());
        lemma_waiting_is_transitive(m.tcb, t, u);
    }
}

proof fn lemma_leftovers_waiting(m: ConnModel)
    requires
        m.inv(),
    ensures
        keeps_waiting(m.tcb, m.leftovers().0.tcb),
{
    let c = m.with(Tcb { probe_pending: false, ..m.tcb });
    lemma_flag_dropped(m, c);
    assert(keeps_waiting(m.tcb, c.tcb) && keeps_waiting(c.tcb, c.tcb)) by {
        reveal(keeps_waiting);
    }
    lemma_probe_waiting(c);
    lemma_ack_sent_waiting(c.tcb, c.open_window());
    reveal(ConnModel::probe_or_ack);
    reveal(ConnModel::pure_ack);
    lemma_waiting_is_transitive(m.tcb, c.tcb, m.leftovers().0.tcb);
}

proof fn lemma_fresh_choices_waiting(m: ConnModel, now: Instant)
    requires
        m.inv(),
    ensures
        keeps_waiting(m.tcb, m.fresh_choices(now).0.tcb),
{
    lemma_hole_rexmit_waiting(m, now);
    lemma_new_data_waiting(m, now);
    lemma_lone_fin_waiting(m, now);
    lemma_leftovers_waiting(m);
}

proof fn lemma_sync_planned_waiting(m: ConnModel, now: Instant)
    requires
        m.inv(),
    ensures
        keeps_waiting(m.tcb, m.sync_planned(now).0.tcb),
{
    let a = m.with(Tcb { rexmit_now: false, ..m.tcb });
    lemma_flag_dropped(m, a);
    lemma_head_rexmit_waiting(a, now);
    lemma_fresh_choices_waiting(a, now);
    reveal(ConnModel::sync_planned);
    assert(keeps_waiting(m.tcb, a.tcb)) by {
        reveal(keeps_waiting);
    }
    lemma_waiting_is_transitive(m.tcb, a.tcb, m.sync_planned(now).0.tcb);
}

pub(crate) proof fn lemma_chosen_waiting(m: ConnModel, now: Instant)
    requires
        m.inv(),
    ensures
        keeps_waiting(m.tcb, m.chosen(now).0.tcb),
{
    lemma_syn_planned_waiting(m.tcb, now, m.tcb.state is SynReceived, m.open_window());
    lemma_sync_planned_waiting(m, now);
    assert(keeps_waiting(m.tcb, m.tcb)) by {
        reveal(keeps_waiting);
    }
}

/// Planning, however often, neither forgets what is waited for nor uncounts a
/// retransmission.
pub proof fn planning_keeps_the_count(m: ConnModel, now: Instant)
    requires
        m.inv(),
        m.awaits_ack(),
    ensures
        m.next_planned(now).0.awaits_ack(),
        m.next_planned(now).0.tcb.state == m.tcb.state,
        m.next_planned(now).0.tcb.cfg == m.tcb.cfg,
        m.next_planned(now).0.tcb.rexmit_count == m.tcb.rexmit_count,
{
    let n = m.chosen(now).0;
    lemma_chosen_waiting(m, now);
    reveal(keeps_waiting);
    assert(n.tcb.flight() > 0) by {
        lemma_chosen_inv(m, now);
        reveal(ConnModel::inv);
    }
    reveal(Tcb::rexmit_settled);
    reveal(Tcb::persist_settled);
}

impl ConnModel {
    /// After `n` segments were planned in a row.
    pub open spec fn planned_times(self, now: Instant, n: nat) -> ConnModel
        decreases n,
    {
        if n == 0 {
            self
        } else {
            self.planned_times(now, (n - 1) as nat).next_planned(now).0
        }
    }

    /// After the retransmission timer ran out again and again without a word
    /// from the peer, each time at its deadline, and so many segments were
    /// planned each time.
    pub open spec fn unanswered(self, plans: Seq<nat>) -> ConnModel
        decreases plans.len(),
    {
        if plans.len() == 0 {
            self
        } else {
            let m = self.unanswered(plans.drop_last());
            let now = m.tcb.timers.rexmit->0;
            m.fired(now, TimerKind::Rexmit, FxModel::empty()).0.planned_times(now, plans.last())
        }
    }
}

proof fn lemma_planned_times_waiting(m: ConnModel, now: Instant, n: nat)
    requires
        m.inv(),
        m.awaits_ack(),
    ensures
        m.planned_times(now, n).inv(),
        m.planned_times(now, n).awaits_ack(),
        m.planned_times(now, n).tcb.state == m.tcb.state,
        m.planned_times(now, n).tcb.cfg == m.tcb.cfg,
        m.planned_times(now, n).tcb.rexmit_count == m.tcb.rexmit_count,
    decreases n,
{
    if n > 0 {
        let x = m.planned_times(now, (n - 1) as nat);
        lemma_planned_times_waiting(m, now, (n - 1) as nat);
        planning_keeps_the_count(x, now);
        plans_keep_invariant(x, now);
    }
}

pub(crate) proof fn lemma_planned_times_closed(m: ConnModel, now: Instant, n: nat)
    requires
        m.tcb.state is Closed,
    ensures
        m.planned_times(now, n) == m,
    decreases n,
{
    if n > 0 {
        lemma_planned_times_closed(m, now, (n - 1) as nat);
    }
}

/// Either closed for good, or still waiting, with every timeout counted.
spec fn counted(m: ConnModel, n: ConnModel, k: nat) -> bool {
    ||| {
        &&& n.tcb.state is Closed && n.tcb.timers.rexmit is None
        &&& n.tcb.close_reason == Some(CloseReason::TimedOut)
    }
    ||| {
        &&& n.inv()
        &&& n.awaits_ack()
        &&& n.tcb.state == m.tcb.state
        &&& n.tcb.cfg == m.tcb.cfg
        &&& n.tcb.rexmit_count == m.tcb.rexmit_count + k
        &&& n.tcb.rexmit_count <= greater(m.retry_limit(), m.tcb.rexmit_count as int)
    }
}

proof fn lemma_unanswered_counted(m: ConnModel, plans: Seq<nat>)
    requires
        m.inv(),
        m.awaits_ack(),
    ensures
        counted(m, m.unanswered(plans), plans.len()),
    decreases plans.len(),
{
    if plans.len() > 0 {
        let x = m.unanswered(plans.drop_last());
        lemma_unanswered_counted(m, plans.drop_last());
        let now = x.tcb.timers.rexmit->0;
        let y = x.fired(now, TimerKind::Rexmit, FxModel::empty()).0;
        if x.tcb.state is Closed {
            lemma_planned_times_closed(x, now, plans.last());
        } else {
            timeouts_are_counted(x, now, FxModel::empty());
            timers_keep_invariant(x, now, TimerKind::Rexmit, FxModel::empty());
            if y.tcb.state is Closed {
                lemma_planned_times_closed(y, now, plans.last());
                assert(y.tcb.timers.rexmit is None) by {
                    reveal(ConnModel::fire_handled);
                    reveal(ConnModel::rexmit_fired);
                }
            } else {
                lemma_planned_times_waiting(y, now, plans.last());
            }
        }
    }
}

/// A silent peer is given up: when nothing is heard of it, a connection that
/// waits for an acknowledgement is closed, as timed out, after as many timeouts
/// as are allowed and one more.
pub proof fn silent_peer_is_given_up(m: ConnModel, plans: Seq<nat>)
    requires
        m.inv(),
        m.awaits_ack(),
        m.tcb.rexmit_count + plans.len() > greater(
            m.retry_limit(),
            m.tcb.rexmit_count as int,
        ),
    ensures
        m.unanswered(plans).tcb.state is Closed,
        m.unanswered(plans).tcb.close_reason == Some(CloseReason::TimedOut),
{
    lemma_unanswered_counted(m, plans);
}

impl ConnModel {
    /// The same is outstanding, after as many retransmissions.
    pub open spec fn waits_alike(self, m: ConnModel) -> bool {
        &&& self.tcb.snd_una == m.tcb.snd_una
        &&& self.tcb.snd_nxt == m.tcb.snd_nxt
        &&& self.tcb.rexmit_count == m.tcb.rexmit_count
    }
}

proof fn lemma_text_stored_alike(
    m: ConnModel,
    now: Instant,
    off: u32,
    data: Seq<u8>,
    cut: bool,
    fx: FxModel,
)
    ensures
        m.text_stored(now, off, data, cut, fx).0.waits_alike(m),
{
    reveal(ConnModel::text_stored);
    let (rcv, ins) = m.rcv.insert((m.rcv.readable + off) as u32, data);
    let n = ConnModel { rcv, ..m };
    assert(n.with(n.tcb.text_accepted(now, ins.advance, cut)).waits_alike(n)) by {
        reveal(Tcb::text_accepted);
    }
}

proof fn lemma_text_alike(m: ConnModel, now: Instant, seq: SeqNr, payload: Seq<u8>, fx: FxModel)
    ensures
        m.text_arrived(now, seq, payload, fx).0.waits_alike(m),
{
    let t = m.tcb;
    let old = seq.lt(t.rcv_nxt);
    let skip = if old {
        seq.distance_to(t.rcv_nxt)
    } else {
        0
    };
    let off = if old {
        0
    } else {
        t.rcv_nxt.distance_to(seq)
    };
    let len = lesser(payload.len() - skip, m.text_room(off));
    let data = payload.subrange(skip, skip + len);
    lemma_text_stored_alike(m, now, off as u32, data, len < payload.len() - skip, fx);
    reveal(ConnModel::text_arrived);
}

proof fn lemma_window_alike(m: ConnModel, seg: Segment, old_una: SeqNr)
    ensures
        m.with(m.tcb.window_updated(seg, old_una)).waits_alike(m),
{
    reveal(Tcb::window_updated);
}

proof fn lemma_fin_alike(m: ConnModel, now: Instant, seg: Segment, wnd: u32, fx: FxModel)
    ensures
        m.fin_recorded(seg, wnd).waits_alike(m),
        m.fin_arrived(now, fx).0.waits_alike(m),
{
    reveal(Tcb::fin_noted);
    reveal(ConnModel::cut_at_fin);
    reveal(ConnModel::fin_arrived);
    reveal(Tcb::fin_taken);
    reveal(Tcb::past_fin);
}

proof fn lemma_contents_alike(
    m: ConnModel,
    now: Instant,
    seg: Segment,
    old_una: SeqNr,
    wnd: u32,
    fx: FxModel,
)
    ensures
        m.contents_arrived(now, seg, old_una, wnd, fx).0.waits_alike(m),
{
    let w = m.with(m.tcb.window_updated(seg, old_una));
    lemma_window_alike(m, seg, old_una);
    let (x, f) = w.text_arrived(now, seg.seq, seg.payload, fx);
    lemma_text_alike(w, now, seg.seq, seg.payload, fx);
    let n = x.fin_recorded(seg, wnd);
    lemma_fin_alike(x, now, seg, wnd, f);
    lemma_fin_alike(n, now, seg, wnd, f);
}

proof fn lemma_ack_arrived_alike(
    m: ConnModel,
    now: Instant,
    seg: Segment,
    cap: int,
    fx: FxModel,
)
    ensures
        ({
            let n = m.ack_arrived(now, seg, cap, fx).0;
            n.tcb.snd_una == m.tcb.snd_una ==> n.waits_alike(m)
        }),
{
    reveal(ConnModel::ack_arrived);
    if m.tcb.ack_in_range(seg.ack) {
        let (t, learned) = m.sacked(seg.opts.sack_blocks);
        let (a, f) = t.ack_processed(now, seg, learned, cap, fx);
        lemma_contents_alike(a, now, seg, m.tcb.snd_una, m.open_window(), f);
        reveal(ConnModel::ack_processed);
        lemma_newly_acked_una(t, now, seg.ack, cap, fx);
        assert(t.with(t.tcb.dupacked()).waits_alike(t)) by {
            reveal(Tcb::dupacked);
        }
    }
}

proof fn lemma_unacceptable_alike(
    m: ConnModel,
    now: Instant,
    seg: Segment,
    cap: int,
    fx: FxModel,
)
    ensures
        ({
            let n = m.unacceptable_arrived(now, seg, cap, fx).0;
            n.tcb.snd_una == m.tcb.snd_una ==> n.waits_alike(m)
        }),
{
    lemma_newly_acked_una(m, now, seg.ack, cap, fx);
    reveal(ConnModel::unacceptable_arrived);
}

/// Only progress resets the count of retransmissions: a segment that
/// acknowledges nothing new leaves it, and what is outstanding, as it is.
pub proof fn only_progress_resets_the_count(
    m: ConnModel,
    now: Instant,
    seg: Segment,
    cap: int,
    fx: FxModel,
)
    requires
        !(m.tcb.state is SynSent),
        m.tcb.flight() > 0,
        m.arrived(now, seg, cap, fx).0.tcb.snd_una == m.tcb.snd_una,
    ensures
        m.arrived(now, seg, cap, fx).0.waits_alike(m),
{
    if !(m.tcb.state is Closed) {
        lemma_unacceptable_alike(m, now, seg, cap, fx);
        lemma_ack_arrived_alike(m, now, seg, cap, fx);
        lemma_ack_arrived_alike(
            m.established(),
            now,
            seg,
            cap,
            fx.with_event(ConnEvent::Connected),
        );
        assert(m.sync_arrived(now, seg, cap, fx).0.tcb.snd_una == m.tcb.snd_una
            ==> m.sync_arrived(now, seg, cap, fx).0.waits_alike(m)) by {
            reveal(ConnModel::sync_arrived);
            reveal(ConnModel::reset_by_peer);
        }
    }
    reveal(Tcb::rexmit_settled);
    reveal(Tcb::persist_settled);
}

/// Unanswered probes of a closed window are counted; after as many as are
/// allowed the next expiry closes the connection.
pub proof fn probes_are_counted(m: ConnModel, now: Instant, fx: FxModel)
    requires
        !(m.tcb.state is Closed),
        m.timer_due(now, TimerKind::Persist),
    ensures
        m.tcb.persist_count >= m.tcb.cfg.max_persist_retries ==> {
            let n = m.fired(now, TimerKind::Persist, fx).0;
            n.tcb.state is Closed && n.tcb.close_reason == Some(CloseReason::TimedOut)
        },
        m.tcb.persist_count < m.tcb.cfg.max_persist_retries ==> {
            let n = m.fired(now, TimerKind::Persist, fx).0;
            &&& n.tcb.persist_count == m.tcb.persist_count + 1
            &&& n.tcb.probe_pending
            &&& n.tcb.timers.persist == Some(now + n.tcb.persist_interval())
        },
{
    reveal(ConnModel::fire_handled);
    reveal(ConnModel::persist_fired);
}

impl ConnModel {
    /// Whether a closed window is being probed: data waits, the window is
    /// closed, and the persist timer runs in place of the retransmission timer.
    /// (A FIN right behind a single byte is sent all the same, and then the
    /// retransmission timer takes over.)
    pub open spec fn probes_window(self) -> bool {
        let t = self.tcb;
        &&& !(t.state is Closed)
        &&& t.syn_acked
        &&& t.snd_wnd == 0
        &&& self.snd.len() > 0
        &&& t.timers.persist is Some
        &&& t.timers.rexmit is None
        &&& !t.rexmit_now
        &&& t.flight() <= 1
        &&& t.flight() == t.data_sent()
        &&& !t.fills_holes()
        &&& t.fin_seq is None
        &&& !t.fin_queued || self.snd.len() > 1
    }

    /// After the persist timer ran out again and again without a word from the
    /// peer, each time at its deadline, and so many segments were planned each
    /// time.
    pub open spec fn unanswered_probes(self, plans: Seq<nat>) -> ConnModel
        decreases plans.len(),
    {
        if plans.len() == 0 {
            self
        } else {
            let m = self.unanswered_probes(plans.drop_last());
            let now = m.tcb.timers.persist->0;
            m.fired(now, TimerKind::Persist, FxModel::empty()).0.planned_times(now, plans.last())
        }
    }
}

/// While a closed window is probed, nothing but the probe and pure ACKs are
/// sent.
proof fn lemma_probing_leftovers(m: ConnModel, now: Instant)
    requires
        m.inv(),
        m.probes_window(),
    ensures
        m.chosen(now) == m.with(Tcb { rexmit_now: false, ..m.tcb }).leftovers(),
{
    let a = m.with(Tcb { rexmit_now: false, ..m.tcb });
    assert(!(m.tcb.state is SynSent) && !(m.tcb.state is SynReceived)) by {
        reveal(ConnModel::inv);
    }
    assert(a.new_data(now) is None) by {
        reveal(ConnModel::new_data);
    }
    assert(a.lone_fin(now) is None) by {
        lemma_inv_scalars(m);
        assert(a.tcb.data_sent() == m.tcb.data_sent());
        reveal(ConnModel::lone_fin);
    }
    reveal(ConnModel::sync_planned);
}

proof fn lemma_probing_planned(m: ConnModel, now: Instant)
    requires
        m.inv(),
        m.probes_window(),
    ensures
        m.next_planned(now).0.probes_window(),
        m.next_planned(now).0.tcb.persist_count == m.tcb.persist_count,
        m.next_planned(now).0.tcb.cfg == m.tcb.cfg,
{
    lemma_probing_leftovers(m, now);
    let a = m.with(Tcb { rexmit_now: false, ..m.tcb });
    let n = a.leftovers().0;
    assert(n.probes_window() && n.tcb.persist_count == m.tcb.persist_count && n.tcb.cfg
        == m.tcb.cfg) by {
        reveal(ConnModel::probe_or_ack);
        reveal(ConnModel::probe);
        reveal(ConnModel::pure_ack);
        reveal(Tcb::ack_sent);
    }
    reveal(Tcb::rexmit_settled);
    reveal(Tcb::persist_settled);
}

proof fn lemma_probing_planned_times(m: ConnModel, now: Instant, n: nat)
    requires
        m.inv(),
        m.probes_window(),
    ensures
        m.planned_times(now, n).inv(),
        m.planned_times(now, n).probes_window(),
        m.planned_times(now, n).tcb.persist_count == m.tcb.persist_count,
        m.planned_times(now, n).tcb.cfg == m.tcb.cfg,
    decreases n,
{
    if n > 0 {
        let x = m.planned_times(now, (n - 1) as nat);
        lemma_probing_planned_times(m, now, (n - 1) as nat);
        lemma_probing_planned(x, now);
        plans_keep_invariant(x, now);
    }
}

proof fn lemma_probe_fired(m: ConnModel, now: Instant)
    requires
        m.probes_window(),
        m.timer_due(now, TimerKind::Persist),
    ensures
        ({
            let (n, f) = m.fired(now, TimerKind::Persist, FxModel::empty());
            &&& m.tcb.persist_count >= m.tcb.cfg.max_persist_retries ==> {
                &&& n.tcb.state is Closed
                &&& n.tcb.close_reason == Some(CloseReason::TimedOut)
            }
            &&& m.tcb.persist_count < m.tcb.cfg.max_persist_retries ==> {
                &&& n.probes_window()
                &&& n.tcb.persist_count == m.tcb.persist_count + 1
                &&& n.tcb.cfg == m.tcb.cfg
            }
        }),
{
    reveal(ConnModel::fire_handled);
    reveal(ConnModel::persist_fired);
}

/// Either given up, or still probing, with every expiry counted.
spec fn probes_counted(m: ConnModel, n: ConnModel, k: nat) -> bool {
    ||| n.tcb.state is Closed && n.tcb.close_reason == Some(CloseReason::TimedOut)
    ||| {
        &&& n.inv()
        &&& n.probes_window()
        &&& n.tcb.cfg == m.tcb.cfg
        &&& n.tcb.persist_count == m.tcb.persist_count + k
        &&& n.tcb.persist_count <= greater(
            m.tcb.cfg.max_persist_retries as int,
            m.tcb.persist_count as int,
        )
    }
}

proof fn lemma_unanswered_probes(m: ConnModel, plans: Seq<nat>)
    requires
        m.inv(),
        m.probes_window(),
    ensures
        probes_counted(m, m.unanswered_probes(plans), plans.len()),
    decreases plans.len(),
{
    if plans.len() > 0 {
        let x = m.unanswered_probes(plans.drop_last());
        lemma_unanswered_probes(m, plans.drop_last());
        let now = x.tcb.timers.persist->0;
        let y = x.fired(now, TimerKind::Persist, FxModel::empty()).0;
        if x.tcb.state is Closed {
            lemma_closed_stays(x, now, plans.last());
        } else {
            lemma_probe_fired(x, now);
            timers_keep_invariant(x, now, TimerKind::Persist, FxModel::empty());
            if y.tcb.state is Closed {
                lemma_planned_times_closed(y, now, plans.last());
            } else {
                lemma_probing_planned_times(y, now, plans.last());
            }
        }
    }
}

proof fn lemma_closed_stays(m: ConnModel, now: Instant, n: nat)
    requires
        m.tcb.state is Closed,
    ensures
        ({
            let y = m.fired(now, TimerKind::Persist, FxModel::empty()).0.planned_times(now, n);
            y.tcb.state is Closed && y.tcb.close_reason == m.tcb.close_reason
        }),
{
    let y = m.fired(now, TimerKind::Persist, FxModel::empty()).0;
    assert(y.tcb.state is Closed && y.tcb.close_reason == m.tcb.close_reason) by {
        reveal(ConnModel::fire_handled);
        reveal(ConnModel::persist_fired);
    }
    lemma_planned_times_closed(y, now, n);
}

/// A peer that keeps its window closed and never answers is given up: when
/// nothing is heard of it, a connection whose data waits for the window is
/// closed, as timed out, after as many expiries of the persist timer as are
/// allowed and one more, whatever is polled in between.
pub proof fn silent_closed_window_is_given_up(m: ConnModel, plans: Seq<nat>)
    requires
        m.inv(),
        m.probes_window(),
        m.tcb.persist_count + plans.len() > greater(
            m.tcb.cfg.max_persist_retries as int,
            m.tcb.persist_count as int,
        ),
    ensures
        m.unanswered_probes(plans).tcb.state is Closed,
        m.unanswered_probes(plans).tcb.close_reason == Some(CloseReason::TimedOut),
{
    lemma_unanswered_probes(m, plans);
}

/// Data written into a closed window, with nothing outstanding, is probed from
/// the next recomputation of the timers on.
pub proof fn closed_window_is_probed(m: ConnModel, now: Instant)
    requires
        m.inv(),
        m.tcb.state is Established || m.tcb.state is CloseWait,
        m.tcb.syn_acked,
        m.tcb.snd_wnd == 0,
        m.snd.len() > 0,
        m.tcb.flight() == 0,
        m.tcb.fin_seq is None,
        !m.tcb.rexmit_now,
        m.tcb.recovery is None,
    ensures
        m.timers_updated(now).probes_window(),
{
    assert(!m.tcb.fin_queued) by {
        reveal(ConnModel::inv);
    }
    reveal(Tcb::rexmit_settled);
    reveal(Tcb::persist_settled);
}

/// TIME-WAIT lasts twice the maximum segment lifetime, and then it ends.
pub proof fn time_wait_ends(t: Tcb, m: ConnModel, now: Instant, later: Instant, fx: FxModel)
    requires
        m.tcb.state is TimeWait,
        m.timer_due(later, TimerKind::Wait),
    ensures
        t.time_wait(now).timers.wait == Some(now + t.cfg.msl * 2),
        m.fired(later, TimerKind::Wait, fx) == m.timer_cleared(TimerKind::Wait).closed(
            CloseReason::Normal,
            fx,
        ),
        m.fired(later, TimerKind::Wait, fx).0.tcb.state is Closed,
{
    reveal(ConnModel::fire_handled);
    reveal(ConnModel::wait_fired);
}

// ----- What is sent -----

/// A retransmission is never timed (Karn's algorithm): after data was sent
/// again, and after a timeout, no sample is under way.
pub proof fn retransmissions_are_not_timed(m: ConnModel, now: Instant, fx: FxModel)
    ensures
        m.tcb.syn_acked ==> (m.head_rexmit(now) matches Some((t, p)) ==> t.rtt_sample is None),
        m.hole_rexmit(now) matches Some((t, p)) ==> t.rtt_sample is None,
        m.awaits_ack() && m.timer_due(now, TimerKind::Rexmit) ==> {
            let n = m.fired(now, TimerKind::Rexmit, fx).0;
            n.tcb.state is Closed || n.tcb.rtt_sample is None
        },
{
    reveal(ConnModel::head_rexmit);
    reveal(Tcb::head_resent);
    reveal(Tcb::ack_sent);
    reveal(ConnModel::hole_rexmit);
    reveal(ConnModel::hole_filled);
    reveal(ConnModel::fire_handled);
    reveal(ConnModel::rexmit_fired);
}

/// New data keeps within the peer's window and the congestion window, counted
/// from SND.UNA, and starts where the last ended.
pub proof fn new_data_keeps_within_the_windows(m: ConnModel, now: Instant)
    requires
        m.inv(),
    ensures
        m.new_data(now) matches Some((t, p)) ==> {
            &&& p.seq == m.tcb.snd_nxt
            &&& p.payload_len > 0
            &&& m.tcb.snd_una.distance_to(p.seq) + p.payload_len <= m.tcb.snd_wnd
            &&& m.tcb.snd_una.distance_to(p.seq) + p.payload_len <= m.tcb.cc.cwnd
        },
{
    reveal(ConnModel::new_data);
}

// ----- SACK recovery -----

impl ConnModel {
    /// After `n` holes were filled in a row, and nothing else happened.
    pub open spec fn holes_filled(self, now: Instant, n: nat) -> ConnModel
        decreases n,
    {
        if n == 0 {
            self
        } else {
            let m = self.holes_filled(now, (n - 1) as nat);
            match m.hole_rexmit(now) {
                Some((t, p)) => m.with(t),
                None => m,
            }
        }
    }

    /// The segment that fills the hole after `n` others.
    pub open spec fn nth_filling(self, now: Instant, n: nat) -> Option<PlanModel> {
        match self.holes_filled(now, n).hole_rexmit(now) {
            Some((t, p)) => Some(p),
            None => None,
        }
    }
}

/// A segment that fills a hole is sent only while the pipe has room, carries
/// nothing that the peer acknowledged selectively, starts at or behind SND.UNA
/// and behind everything that was filled before, and ends in front of the next
/// range.
pub proof fn fillings_lie_in_holes(m: ConnModel, now: Instant)
    requires
        m.inv(),
        m.tcb.fills_holes(),
    ensures
        m.hole_rexmit(now) matches Some((t, p)) ==> {
            let una = m.tcb.snd_una;
            let len = greater(p.payload_len as int, 1);
            &&& m.tcb.data_sent() - board_total(m.board) < m.tcb.cc.cwnd
            &&& una.distance_to(m.hole_from()) <= una.distance_to(p.seq)
            &&& una.distance_to(p.seq) + len <= m.tcb.flight()
            &&& forall|i: int|
                0 <= i < m.board.len() ==> una.distance_to((#[trigger] m.board[i]).1)
                    <= una.distance_to(p.seq) || una.distance_to(p.seq) + len
                    <= una.distance_to(m.board[i].0)
            &&& t.snd_una == m.tcb.snd_una
            &&& t.snd_nxt == m.tcb.snd_nxt
            &&& t.sack_cursor == p.seq.add(len as u32)
            &&& m.with(t).tcb.fills_holes()
            &&& m.with(t).inv()
        },
{
    if let Some((t, p)) = m.hole_rexmit(now) {
        let (start, hole) = board_next_hole(m.board, m.hole_from())->0;
        lemma_hole_outstanding(m);
        assert(!(m.tcb.state is SynSent)) by {
            reveal(ConnModel::inv);
        }
        lemma_hole_rexmit_inv(m, now);
        assert(p.seq == start && p.payload_len == m.hole_len(start, hole) && t.snd_una
            == m.tcb.snd_una && t.snd_nxt == m.tcb.snd_nxt && t.sack_cursor == start.add(
            greater(p.payload_len as int, 1) as u32,
        ) && t.syn_acked == m.tcb.syn_acked && t.recovery == m.tcb.recovery && t.sack_enabled
            == m.tcb.sack_enabled && m.tcb.data_sent() - board_total(m.board) < m.tcb.cc.cwnd) by {
            reveal(ConnModel::hole_rexmit);
            reveal(ConnModel::hole_filled);
            reveal(Tcb::ack_sent);
        }
        assert(board_valid(m.board, m.tcb.snd_una, m.tcb.snd_nxt) && m.tcb.snd_una.distance_to(
            m.hole_from(),
        ) <= m.tcb.flight()) by {
            reveal(ConnModel::hole_rexmit);
            reveal(ConnModel::inv);
        }
        assert(board_gap(m.board, m.hole_from()) == Some((start, hole))) by {
            reveal(ConnModel::hole_rexmit);
        }
        holes_lie_between_ranges(m.board, m.hole_from(), m.tcb.snd_una, m.tcb.snd_nxt);
        assert(greater(p.payload_len as int, 1) <= hole);
    }
}

proof fn lemma_holes_filled(m: ConnModel, now: Instant, n: nat)
    requires
        m.inv(),
        m.tcb.fills_holes(),
    ensures
        ({
            let x = m.holes_filled(now, n);
            &&& x.inv()
            &&& x.tcb.fills_holes()
            &&& x.tcb.snd_una == m.tcb.snd_una
            &&& x.tcb.snd_nxt == m.tcb.snd_nxt
        }),
    decreases n,
{
    if n > 0 {
        lemma_holes_filled(m, now, (n - 1) as nat);
        fillings_lie_in_holes(m.holes_filled(now, (n - 1) as nat), now);
    }
}

proof fn lemma_next_filling_is_behind(m: ConnModel, now: Instant)
    requires
        m.inv(),
        m.tcb.fills_holes(),
    ensures
        m.hole_rexmit(now) matches Some((t, p)) ==> {
            let una = m.tcb.snd_una;
            &&& una.distance_to(m.with(t).hole_from()) == una.distance_to(p.seq) + greater(
                p.payload_len as int,
                1,
            )
            &&& m.with(t).tcb.snd_una == una
        },
{
    fillings_lie_in_holes(m, now);
    assert(m.tcb.flight() < 0x4000_0002) by {
        reveal(ConnModel::inv);
    }
}

/// Successive segments of a SACK recovery fill holes in ascending order, and
/// none carries a byte that an earlier one carried.
pub proof fn fillings_are_ascending_and_disjoint(m: ConnModel, now: Instant, i: nat, j: nat)
    requires
        m.inv(),
        m.tcb.fills_holes(),
        i < j,
    ensures
        m.nth_filling(now, i) matches Some(p) ==> (m.nth_filling(now, j) matches Some(q)
            ==> m.tcb.snd_una.distance_to(p.seq) + greater(p.payload_len as int, 1)
            <= m.tcb.snd_una.distance_to(q.seq)),
    decreases j,
{
    let y = m.holes_filled(now, j);
    lemma_holes_filled(m, now, j);
    fillings_lie_in_holes(y, now);
    let x = m.holes_filled(now, (j - 1) as nat);
    lemma_holes_filled(m, now, (j - 1) as nat);
    lemma_next_filling_is_behind(x, now);
    fillings_lie_in_holes(x, now);
    if i < j - 1 {
        fillings_are_ascending_and_disjoint(m, now, i, (j - 1) as nat);
        lemma_no_filling_after_none(m, now, (j - 1) as nat);
    }
    if m.nth_filling(now, (j - 1) as nat) is None {
        assert(y == x);
    }
}

/// Once there is no hole to fill, there is none later either.
proof fn lemma_no_filling_after_none(m: ConnModel, now: Instant, n: nat)
    ensures
        m.nth_filling(now, n) is None ==> m.nth_filling(now, n + 1) is None,
{
}

} // verus!
