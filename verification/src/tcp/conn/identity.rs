//! What never changes over the life of a connection: its endpoints and the
//! parameters it was created with; and what only ICMP changes, the path MSS.
use super::input::Segment;
use super::{ConnEvent, ConnModel, FxModel, Tcb};
use crate::tcp::seq::SeqNr;
use crate::time::Instant;
use crate::types::TimerKind;
use vstd::prelude::*;

verus! {

impl Tcb {
    /// Endpoints, parameters and path MSS are those of `t`.
    pub open spec fn same_path(self, t: Tcb) -> bool {
        &&& self.local == t.local
        &&& self.remote == t.remote
        &&& self.params == t.params
        &&& self.pmtu_mss == t.pmtu_mss
        &&& self.passive == t.passive
        &&& self.listener_port == t.listener_port
    }
}

proof fn lemma_timers_path(m: ConnModel, now: Instant)
    ensures
        m.timers_updated(now).tcb.same_path(m.tcb),
        m.timers_updated(now).tcb.peer_mss == m.tcb.peer_mss,
{
    reveal(Tcb::rexmit_settled);
    reveal(Tcb::persist_settled);
}

proof fn lemma_newly_acked_path(m: ConnModel, now: Instant, ack: SeqNr, cap: int, fx: FxModel)
    ensures
        m.newly_acked(now, ack, cap, fx).0.tcb.same_path(m.tcb),
{
    reveal(ConnModel::newly_acked);
    let a = m.ack_absorbed(now, ack);
    assert(a.tcb.same_path(m.tcb)) by {
        reveal(ConnModel::ack_absorbed);
        reveal(ConnModel::ack_advanced);
        reveal(Tcb::ack_timed);
        reveal(Tcb::recovery_acked);
    }
    let (u, f) = a.unblocked(cap, fx);
    assert(u.tcb.same_path(a.tcb)) by {
        reveal(ConnModel::unblocked);
    }
    assert(u.fin_acknowledged(now, f).0.tcb.same_path(u.tcb)) by {
        reveal(ConnModel::fin_acknowledged);
    }
}

proof fn lemma_text_path(m: ConnModel, now: Instant, seq: SeqNr, payload: Seq<u8>, fx: FxModel)
    ensures
        m.text_arrived(now, seq, payload, fx).0.tcb.same_path(m.tcb),
{
    assert forall|off: u32, data: Seq<u8>, cut: bool| #[trigger]
        m.text_stored(now, off, data, cut, fx).0.tcb.same_path(m.tcb) by {
        lemma_text_stored_path(m, now, off, data, cut, fx);
    }
    reveal(ConnModel::text_arrived);
}

proof fn lemma_text_stored_path(
    m: ConnModel,
    now: Instant,
    off: u32,
    data: Seq<u8>,
    cut: bool,
    fx: FxModel,
)
    ensures
        m.text_stored(now, off, data, cut, fx).0.tcb.same_path(m.tcb),
{
    let ins = m.rcv.insert((m.rcv.readable + off) as u32, data).1;
    assert(m.tcb.text_accepted(now, ins.advance, cut).same_path(m.tcb)) by {
        reveal(Tcb::text_accepted);
    }
    reveal(ConnModel::text_stored);
}

proof fn lemma_fin_path(m: ConnModel, now: Instant, seg: Segment, wnd: u32, fx: FxModel)
    ensures
        m.fin_recorded(seg, wnd).tcb.same_path(m.tcb),
        m.fin_arrived(now, fx).0.tcb.same_path(m.tcb),
{
    reveal(Tcb::fin_noted);
    reveal(ConnModel::cut_at_fin);
    reveal(ConnModel::fin_arrived);
    reveal(Tcb::fin_taken);
    reveal(Tcb::past_fin);
}

proof fn lemma_ack_arrived_path(m: ConnModel, now: Instant, seg: Segment, cap: int, fx: FxModel)
    ensures
        m.ack_arrived(now, seg, cap, fx).0.tcb.same_path(m.tcb),
{
    reveal(ConnModel::ack_arrived);
    let (s, learned) = m.sacked(seg.opts.sack_blocks);
    let (a, f) = s.ack_processed(now, seg, learned, cap, fx);
    assert(a.tcb.same_path(m.tcb)) by {
        reveal(ConnModel::ack_processed);
        reveal(Tcb::dupacked);
        lemma_newly_acked_path(s, now, seg.ack, cap, fx);
    }
    let w = a.with(a.tcb.window_updated(seg, m.tcb.snd_una));
    assert(w.tcb.same_path(a.tcb)) by {
        reveal(Tcb::window_updated);
    }
    lemma_text_path(w, now, seg.seq, seg.payload, f);
    let (x, g) = w.text_arrived(now, seg.seq, seg.payload, f);
    let wnd = m.open_window();
    lemma_fin_path(x, now, seg, wnd, g);
    lemma_fin_path(x.fin_recorded(seg, wnd), now, seg, wnd, g);
}

proof fn lemma_unacceptable_path(m: ConnModel, now: Instant, seg: Segment, cap: int, fx: FxModel)
    ensures
        m.unacceptable_arrived(now, seg, cap, fx).0.tcb.same_path(m.tcb),
{
    reveal(ConnModel::unacceptable_arrived);
    lemma_newly_acked_path(m, now, seg.ack, cap, fx);
}

proof fn lemma_syn_sent_path(m: ConnModel, now: Instant, seg: Segment, fx: FxModel)
    ensures
        m.syn_sent_arrived(now, seg, fx).0.tcb.same_path(m.tcb),
{
    reveal(ConnModel::syn_sent_arrived);
    reveal(Tcb::syn_seen);
    reveal(Tcb::handshake_done);
}

/// No segment changes the endpoints, the parameters or the path MSS.
pub proof fn segments_keep_path(m: ConnModel, now: Instant, seg: Segment, cap: int, fx: FxModel)
    ensures
        m.arrived(now, seg, cap, fx).0.tcb.same_path(m.tcb),
{
    lemma_syn_sent_path(m, now, seg, fx);
    lemma_unacceptable_path(m, now, seg, cap, fx);
    lemma_ack_arrived_path(m, now, seg, cap, fx);
    lemma_ack_arrived_path(m.established(), now, seg, cap, fx.with_event(ConnEvent::Connected));
    assert(m.reset_by_peer(fx).0.tcb.same_path(m.tcb)) by {
        reveal(ConnModel::reset_by_peer);
    }
    assert(m.sync_arrived(now, seg, cap, fx).0.tcb.same_path(m.tcb)) by {
        reveal(ConnModel::sync_arrived);
    }
    lemma_timers_path(m, now);
    lemma_timers_path(m.syn_sent_arrived(now, seg, fx).0, now);
    lemma_timers_path(m.sync_arrived(now, seg, cap, fx).0, now);
}

/// No timer changes the endpoints, the parameters or the path MSS.
pub proof fn timers_keep_path(m: ConnModel, now: Instant, kind: TimerKind, fx: FxModel)
    ensures
        m.fired(now, kind, fx).0.tcb.same_path(m.tcb),
        m.timers_updated(now).tcb.same_path(m.tcb),
{
    lemma_timers_path(m, now);
    let c = m.timer_cleared(kind);
    lemma_rexmit_fired_path(c, now, fx);
    lemma_others_fired_path(c, now, fx);
    reveal(ConnModel::fire_handled);
}

proof fn lemma_rexmit_fired_path(m: ConnModel, now: Instant, fx: FxModel)
    ensures
        m.rexmit_fired(now, fx).0.tcb.same_path(m.tcb),
{
    reveal(ConnModel::rexmit_fired);
}

proof fn lemma_others_fired_path(m: ConnModel, now: Instant, fx: FxModel)
    ensures
        m.persist_fired(now, fx).0.tcb.same_path(m.tcb),
        m.del_ack_fired().tcb.same_path(m.tcb),
        m.wait_fired(fx).0.tcb.same_path(m.tcb),
{
    reveal(ConnModel::persist_fired);
    reveal(ConnModel::del_ack_fired);
    reveal(ConnModel::wait_fired);
}

proof fn lemma_rexmit_plans_path(m: ConnModel, now: Instant)
    ensures
        m.head_rexmit(now) matches Some((t, p)) ==> t.same_path(m.tcb) && t.peer_mss
            == m.tcb.peer_mss,
        m.hole_rexmit(now) matches Some((t, p)) ==> t.same_path(m.tcb) && t.peer_mss
            == m.tcb.peer_mss,
{
    reveal(ConnModel::head_rexmit);
    reveal(ConnModel::hole_rexmit);
    reveal(ConnModel::hole_filled);
    reveal(Tcb::syn_planned);
    reveal(Tcb::head_resent);
    reveal(Tcb::ack_sent);
}

proof fn lemma_fresh_plans_path(m: ConnModel, now: Instant)
    ensures
        m.new_data(now) matches Some((t, p)) ==> t.same_path(m.tcb) && t.peer_mss
            == m.tcb.peer_mss,
        m.lone_fin(now) matches Some((t, p)) ==> t.same_path(m.tcb) && t.peer_mss
            == m.tcb.peer_mss,
        m.leftovers().0.tcb.same_path(m.tcb),
        m.leftovers().0.tcb.peer_mss == m.tcb.peer_mss,
{
    reveal(ConnModel::new_data);
    reveal(ConnModel::lone_fin);
    reveal(ConnModel::probe_or_ack);
    reveal(ConnModel::probe);
    reveal(ConnModel::pure_ack);
    reveal(Tcb::data_sent_on);
    reveal(Tcb::ack_sent);
}

/// Sending changes neither the endpoints nor the parameters nor the path MSS,
/// nor the MSS that the peer announced.
pub proof fn plans_keep_path(m: ConnModel, now: Instant)
    ensures
        m.next_planned(now).0.tcb.same_path(m.tcb),
        m.next_planned(now).0.tcb.peer_mss == m.tcb.peer_mss,
{
    let a = m.with(Tcb { rexmit_now: false, ..m.tcb });
    lemma_rexmit_plans_path(a, now);
    lemma_fresh_plans_path(a, now);
    assert(m.sync_planned(now).0.tcb.same_path(m.tcb) && m.sync_planned(now).0.tcb.peer_mss
        == m.tcb.peer_mss) by {
        reveal(ConnModel::sync_planned);
    }
    assert(m.chosen(now).0.tcb.same_path(m.tcb) && m.chosen(now).0.tcb.peer_mss
        == m.tcb.peer_mss) by {
        reveal(Tcb::syn_planned);
    }
    lemma_timers_path(m.chosen(now).0, now);
}

/// Sending leaves the text in the send buffer until it is acknowledged.
pub proof fn plans_keep_text(m: ConnModel, now: Instant)
    ensures
        m.next_planned(now).0.snd == m.snd,
{
    reveal(ConnModel::sync_planned);
    reveal(ConnModel::probe_or_ack);
}

} // verus!
