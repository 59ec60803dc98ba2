//! What becomes of a connection whose peer falls silent.
use super::model::lemma_timers_updated_inv;
use super::output::{lemma_chosen_inv, plans_keep_invariant};
use super::progress::{
    keeps_waiting, lemma_chosen_waiting, lemma_nothing_planned, lemma_planned_times_closed,
    planning_keeps_the_count, timeouts_are_counted,
};
use super::{timers_keep_invariant, ConnEvent, ConnModel, FxModel, Tcb};
use crate::tcp::cc::greater;
use crate::time::Instant;
use crate::types::{CloseReason, TimerKind};
use vstd::prelude::*;

verus! {

impl ConnModel {
    /// Whether data waits for a closed window and the persist timer runs, in
    /// place of the retransmission timer.
    pub open spec fn persists(self) -> bool {
        let t = self.tcb;
        &&& !(t.state is Closed)
        &&& t.syn_acked
        &&& t.snd_wnd == 0
        &&& self.snd.len() > 0
        &&& t.timers.persist is Some
        &&& t.timers.rexmit is None
    }

    /// The timer that watches over the peer.
    pub open spec fn watch(self) -> TimerKind {
        if self.tcb.timers.rexmit is Some {
            TimerKind::Rexmit
        } else {
            TimerKind::Persist
        }
    }

    /// After the timer that watches over the peer ran out again and again
    /// without a word from it, each time at its deadline, and so many segments
    /// were planned each time; and what the application was told.
    pub open spec fn silence(self, plans: Seq<nat>) -> (ConnModel, Seq<ConnEvent>)
        decreases plans.len(),
    {
        if plans.len() == 0 {
            (self, Seq::empty())
        } else {
            let (m, told) = self.silence(plans.drop_last());
            let now = m.tcb.timers.get(m.watch())->0;
            let (n, f) = m.fired(now, m.watch(), FxModel::empty());
            (n.planned_times(now, plans.last()), told + f.events)
        }
    }

    /// A bound on the number of expiries that are left.
    pub open spec fn expiries_left(self) -> int {
        if self.awaits_ack() {
            greater(self.retry_limit() - self.tcb.rexmit_count, 0) + 1
        } else {
            greater(self.tcb.cfg.max_persist_retries - self.tcb.persist_count, 0) + 1
                + self.tcb.cfg.max_data_retries + 1
        }
    }
}

/// The connection waits for the peer, under a timer.
spec fn waiting(m: ConnModel) -> bool {
    m.inv() && (m.awaits_ack() || m.persists())
}

/// The connection timed out, and the application was told so, unless it never
/// knew the connection.
pub open spec fn given_up(m: ConnModel, told: Seq<ConnEvent>) -> bool {
    &&& m.tcb.state is Closed
    &&& m.tcb.close_reason == Some(CloseReason::TimedOut)
    &&& told == if m.tcb.reported || !m.tcb.passive {
        seq![ConnEvent::Closed(CloseReason::TimedOut)]
    } else {
        Seq::empty()
    }
}

/// So, for good: no timer runs.
spec fn gone(m: ConnModel, told: Seq<ConnEvent>) -> bool {
    given_up(m, told) && m.tcb.timers.rexmit is None && m.tcb.timers.persist is None
}

/// What is outstanding behind an acknowledged SYN is data or our FIN.
proof fn lemma_outstanding(m: ConnModel)
    requires
        m.inv(),
        m.tcb.syn_acked,
        m.tcb.flight() > 0,
    ensures
        m.tcb.data_sent() > 0 || m.tcb.fin_in_flight(),
        m.tcb.data_sent() > 0 ==> m.snd.len() > 0,
{
    reveal(ConnModel::inv);
}

proof fn lemma_past_handshake(m: ConnModel)
    requires
        m.inv(),
        m.tcb.syn_acked,
    ensures
        !(m.tcb.state is SynSent) && !(m.tcb.state is SynReceived),
{
    reveal(ConnModel::inv);
}

/// Recomputing the timers leaves one of the two running.
proof fn lemma_settled_waits(m: ConnModel, now: Instant)
    requires
        m.inv(),
        !(m.tcb.state is Closed),
        m.tcb.syn_acked,
        m.tcb.snd_wnd == 0 && m.snd.len() > 0 || m.tcb.data_sent() > 0 || (m.tcb.flight() > 0
            && m.tcb.snd_wnd > 0),
    ensures
        waiting(m.timers_updated(now)),
        m.timers_updated(now).tcb.cfg == m.tcb.cfg,
        m.timers_updated(now).tcb.state == m.tcb.state,
        m.timers_updated(now).tcb.syn_acked,
        m.tcb.timers.persist is Some && m.timers_updated(now).persists() ==> m.timers_updated(
            now,
        ).tcb.persist_count == m.tcb.persist_count,
{
    lemma_timers_updated_inv(m, now);
    if m.tcb.flight() > 0 {
        lemma_outstanding(m);
    }
    reveal(Tcb::rexmit_settled);
    reveal(Tcb::persist_settled);
}

/// Planning a segment leaves one of the two running, and counts no probe.
proof fn lemma_plan_persists(m: ConnModel, now: Instant)
    requires
        m.inv(),
        m.persists(),
    ensures
        ({
            let n = m.next_planned(now).0;
            &&& waiting(n)
            &&& n.tcb.cfg == m.tcb.cfg
            &&& n.tcb.syn_acked
            &&& n.persists() ==> n.tcb.persist_count == m.tcb.persist_count
        }),
{
    let x = m.chosen(now).0;
    lemma_chosen_waiting(m, now);
    lemma_chosen_inv(m, now);
    reveal(keeps_waiting);
    assert(x.snd == m.snd) by {
        reveal(ConnModel::sync_planned);
        reveal(ConnModel::probe_or_ack);
    }
    if m.chosen(now).1 is None {
        lemma_nothing_planned(m, now);
    } else {
        lemma_settled_waits(x, now);
    }
}

/// So does planning any number of them.
proof fn lemma_plans_persist(m: ConnModel, now: Instant, n: nat)
    requires
        m.inv(),
        m.tcb.syn_acked,
        m.persists(),
    ensures
        ({
            let x = m.planned_times(now, n);
            &&& waiting(x)
            &&& x.tcb.cfg == m.tcb.cfg
            &&& x.tcb.syn_acked
            &&& x.persists() ==> x.tcb.persist_count == m.tcb.persist_count
        }),
    decreases n,
{
    if n > 0 {
        let x = m.planned_times(now, (n - 1) as nat);
        lemma_plans_persist(m, now, (n - 1) as nat);
        plans_keep_invariant(x, now);
        if x.persists() {
            lemma_plan_persists(x, now);
        } else {
            planning_keeps_the_count(x, now);
            lemma_chosen_waiting(x, now);
            reveal(keeps_waiting);
            reveal(Tcb::rexmit_settled);
            reveal(Tcb::persist_settled);
        }
    }
}

proof fn lemma_plans_await(m: ConnModel, now: Instant, n: nat)
    requires
        m.inv(),
        m.awaits_ack(),
    ensures
        ({
            let x = m.planned_times(now, n);
            &&& x.inv()
            &&& x.awaits_ack()
            &&& x.expiries_left() == m.expiries_left()
        }),
    decreases n,
{
    if n > 0 {
        let x = m.planned_times(now, (n - 1) as nat);
        lemma_plans_await(m, now, (n - 1) as nat);
        plans_keep_invariant(x, now);
        planning_keeps_the_count(x, now);
    }
}

/// An expiry of the persist timer is one less that is left.
proof fn lemma_persist_expires(m: ConnModel, now: Instant, n: nat)
    requires
        m.inv(),
        m.persists(),
        m.timer_due(now, TimerKind::Persist),
    ensures
        ({
            let (x, f) = m.fired(now, TimerKind::Persist, FxModel::empty());
            let y = x.planned_times(now, n);
            ||| gone(y, f.events)
            ||| waiting(y) && f.events =~= Seq::empty() && y.expiries_left() < m.expiries_left()
        }),
{
    let (x, f) = m.fired(now, TimerKind::Persist, FxModel::empty());
    timers_keep_invariant(m, now, TimerKind::Persist, FxModel::empty());
    lemma_past_handshake(m);
    if m.tcb.persist_count >= m.tcb.cfg.max_persist_retries {
        assert(gone(x, f.events)) by {
            reveal(ConnModel::fire_handled);
            reveal(ConnModel::persist_fired);
            assert(FxModel::empty().with_event(ConnEvent::Closed(CloseReason::TimedOut)).events
                =~= seq![ConnEvent::Closed(CloseReason::TimedOut)]);
        }
        lemma_planned_times_closed(x, now, n);
    } else {
        assert(x.persists() && x.tcb.persist_count == m.tcb.persist_count + 1 && x.tcb.cfg
            == m.tcb.cfg && f == FxModel::empty()) by {
            reveal(ConnModel::fire_handled);
            reveal(ConnModel::persist_fired);
        }
        lemma_plans_persist(x, now, n);
        lemma_past_handshake(x.planned_times(now, n));
    }
}

/// An expiry of the retransmission timer is one less that is left.
proof fn lemma_rexmit_expires(m: ConnModel, now: Instant, n: nat)
    requires
        m.inv(),
        m.awaits_ack(),
        m.timer_due(now, TimerKind::Rexmit),
    ensures
        ({
            let (x, f) = m.fired(now, TimerKind::Rexmit, FxModel::empty());
            let y = x.planned_times(now, n);
            ||| gone(y, f.events)
            ||| waiting(y) && f.events =~= Seq::empty() && y.expiries_left() < m.expiries_left()
        }),
{
    let (x, f) = m.fired(now, TimerKind::Rexmit, FxModel::empty());
    timers_keep_invariant(m, now, TimerKind::Rexmit, FxModel::empty());
    timeouts_are_counted(m, now, FxModel::empty());
    if m.tcb.rexmit_count >= m.retry_limit() {
        assert(gone(x, f.events)) by {
            reveal(ConnModel::fire_handled);
            reveal(ConnModel::rexmit_fired);
            assert(FxModel::empty().with_event(ConnEvent::Closed(CloseReason::TimedOut)).events
                =~= seq![ConnEvent::Closed(CloseReason::TimedOut)]);
        }
        lemma_planned_times_closed(x, now, n);
    } else {
        assert(f == FxModel::empty()) by {
            reveal(ConnModel::fire_handled);
            reveal(ConnModel::rexmit_fired);
        }
        lemma_plans_await(x, now, n);
    }
}

proof fn lemma_silence(m: ConnModel, plans: Seq<nat>)
    requires
        waiting(m),
    ensures
        ({
            let (n, told) = m.silence(plans);
            ||| gone(n, told)
            ||| waiting(n) && told =~= Seq::empty() && n.expiries_left() + plans.len()
                <= m.expiries_left()
        }),
    decreases plans.len(),
{
    if plans.len() > 0 {
        let (x, told) = m.silence(plans.drop_last());
        lemma_silence(m, plans.drop_last());
        let now = x.tcb.timers.get(x.watch())->0;
        let (y, f) = x.fired(now, x.watch(), FxModel::empty());
        if gone(x, told) {
            assert(y == x && f.events =~= Seq::empty());
            lemma_planned_times_closed(y, now, plans.last());
            assert(told + f.events =~= told);
        } else {
            if x.awaits_ack() {
                lemma_rexmit_expires(x, now, plans.last());
            } else {
                lemma_persist_expires(x, now, plans.last());
            }
            assert(told + f.events =~= f.events);
        }
    }
}

/// A silent peer is given up, whatever the connection waits for: unacknowledged
/// data or FIN, or room in a closed window. From the next recomputation of its
/// timers on one of two timers runs, and after at most as many expiries as the
/// two budgets allow, and one more of each, the connection is closed as timed
/// out and the application is told so once, whatever is polled in between.
pub proof fn waiting_connections_give_a_silent_peer_up(m: ConnModel, now: Instant, plans: Seq<nat>)
    requires
        m.inv(),
        m.waits_for_peer(),
        plans.len() >= m.tcb.cfg.max_persist_retries + 1 + m.tcb.cfg.max_data_retries + 1,
    ensures
        ({
            let (n, told) = m.timers_updated(now).silence(plans);
            given_up(n, told)
        }),
{
    let x = m.timers_updated(now);
    lemma_settled_waits(m, now);
    lemma_past_handshake(x);
    lemma_silence(x, plans);
    assert(x.expiries_left() <= plans.len());
}

/// A closed window that never opens is given up: any connection whose data
/// waits for a closed window, with anything or nothing outstanding, is closed as
/// timed out after a bounded number of expiries, if nothing is heard of the
/// peer.
pub proof fn closed_windows_are_given_up(m: ConnModel, now: Instant, plans: Seq<nat>)
    requires
        m.inv(),
        !(m.tcb.state is Closed),
        m.tcb.syn_acked,
        m.tcb.snd_wnd == 0,
        m.snd.len() > 0,
        plans.len() >= m.tcb.cfg.max_persist_retries + 1 + m.tcb.cfg.max_data_retries + 1,
    ensures
        ({
            let (n, told) = m.timers_updated(now).silence(plans);
            given_up(n, told)
        }),
{
    waiting_connections_give_a_silent_peer_up(m, now, plans);
}

} // verus!
