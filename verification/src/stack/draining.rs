//! A drain comes to an end: each poll that hands something out uses up some of
//! a bounded amount of work.
use super::model::CoreModel;
use super::{Stack, StackModel};
use crate::tcp::conn::output::plans_keep_invariant;
use crate::tcp::conn::progress::{
    lemma_nothing_planned, lemma_reported_work, lemma_settled, lemma_work_is_not_negative, one_if,
    planning_comes_to_an_end,
};
use crate::tcp::conn::{ConnEvent, ConnModel, Tcb, Timers};
use crate::time::Instant;
use crate::types::{Action, TimerKind};
use crate::util::ring_at;
use vstd::prelude::*;

verus! {

/// How many timers differ.
pub open spec fn timer_diffs(a: Timers, b: Timers) -> int {
    one_if(a.rexmit != b.rexmit) + one_if(a.persist != b.persist) + one_if(a.del_ack != b.del_ack)
        + one_if(a.wait != b.wait)
}

/// A bound on what a slot can still hand out, if the runtime was told of
/// these timers: segments, and changes of timers, after a sweep too.
#[verifier::opaque]
pub open spec fn conn_work(c: ConnModel, told: Timers, now: Instant) -> int {
    32 * c.work_left() + 16 * one_if(c.settled(now) != c) + 2 * timer_diffs(told, c.tcb.timers) + 2
        * one_if(c.connected_unreported())
}

/// The same of a slot that may be free.
pub open spec fn slot_work(c: Option<ConnModel>, told: Timers, now: Instant) -> int {
    match c {
        Some(c) => conn_work(c, told, now),
        None => 0,
    }
}

/// The same of the first `n` slots together.
pub open spec fn slots_work(
    conns: Seq<Option<ConnModel>>,
    told: Seq<Timers>,
    now: Instant,
    n: nat,
) -> int
    decreases n,
{
    if n == 0 {
        0
    } else {
        slots_work(conns, told, now, (n - 1) as nat) + slot_work(
            conns[n - 1],
            told[n - 1],
            now,
        )
    }
}

impl CoreModel {
    /// A bound on the number of polls that hand something out before anything
    /// else happens, but for reassembly timers.
    pub open spec fn work_left(self, now: Instant) -> int {
        slots_work(self.conns, self.emitted, now, self.conns.len()) + self.actions.len()
            + self.ctl.len() + one_if(self.echo is Some) + one_if(self.entropy_request_pending)
    }

    /// Every connection keeps its invariant.
    pub open spec fn conns_in_order(self) -> bool {
        forall|i: int| 0 <= i < self.conns.len() ==> ((#[trigger] self.conns[i]) matches Some(c)
            ==> c.inv())
    }
}

/// A change of one slot changes the sum by as much.
proof fn lemma_slot_changed(
    a: Seq<Option<ConnModel>>,
    s: Seq<Timers>,
    b: Seq<Option<ConnModel>>,
    t: Seq<Timers>,
    now: Instant,
    idx: int,
    n: nat,
)
    requires
        n <= a.len() == b.len() == s.len() == t.len(),
        0 <= idx < a.len(),
        forall|i: int| 0 <= i < a.len() && i != idx ==> #[trigger] a[i] == b[i],
        forall|i: int| 0 <= i < a.len() && i != idx ==> #[trigger] s[i] == t[i],
    ensures
        slots_work(b, t, now, n) - slots_work(a, s, now, n) == if idx < n {
            slot_work(b[idx], t[idx], now) - slot_work(a[idx], s[idx], now)
        } else {
            0
        },
    decreases n,
{
    if n > 0 {
        lemma_slot_changed(a, s, b, t, now, idx, (n - 1) as nat);
        if n - 1 != idx {
            assert(a[n - 1] == b[n - 1] && s[n - 1] == t[n - 1]);
        }
    }
}

proof fn lemma_conn_replaced(m: CoreModel, now: Instant, idx: int, c: Option<ConnModel>)
    requires
        m.emitted.len() == m.conns.len(),
        0 <= idx < m.conns.len(),
    ensures
        m.with_conn(idx, c).work_left(now) - m.work_left(now) == slot_work(
            c,
            m.emitted[idx],
            now,
        ) - slot_work(m.conns[idx], m.emitted[idx], now),
{
    lemma_slot_changed(
        m.conns,
        m.emitted,
        m.conns.update(idx, c),
        m.emitted,
        now,
        idx,
        m.conns.len(),
    );
}

proof fn lemma_timer_told(c: ConnModel, told: Timers, kind: TimerKind, now: Instant)
    requires
        told.get(kind) != c.tcb.timers.get(kind),
    ensures
        conn_work(c, told.replaced(kind, c.tcb.timers.get(kind)), now) == conn_work(c, told, now)
            - 2,
{
    reveal(conn_work);
}

proof fn lemma_timer_reconciled_work(m: CoreModel, now: Instant, idx: int, kind: TimerKind)
    requires
        m.emitted.len() == m.conns.len(),
        0 <= idx < m.conns.len(),
        m.conns[idx] is Some,
    ensures
        ({
            let n = m.timer_reconciled(now, idx, kind);
            &&& n.work_left(now) <= m.work_left(now)
            &&& n.conns == m.conns
            &&& n.emitted.len() == m.emitted.len()
        }),
{
    let c = m.conns[idx]->0;
    let n = m.timer_reconciled(now, idx, kind);
    reveal(CoreModel::timer_reconciled);
    if c.tcb.timers.get(kind) != m.emitted[idx].get(kind) {
        lemma_timer_told(c, m.emitted[idx], kind, now);
        lemma_slot_changed(
            m.conns,
            m.emitted,
            n.conns,
            n.emitted,
            now,
            idx,
            m.conns.len(),
        );
    }
}

proof fn lemma_reconciled_work(m: CoreModel, now: Instant, idx: int)
    requires
        m.emitted.len() == m.conns.len(),
        0 <= idx < m.conns.len(),
        m.conns[idx] is Some,
    ensures
        m.reconciled(now, idx).work_left(now) <= m.work_left(now),
        m.reconciled(now, idx).conns == m.conns,
        m.reconciled(now, idx).emitted.len() == m.emitted.len(),
{
    let a = m.timer_reconciled(now, idx, TimerKind::Rexmit);
    let b = a.timer_reconciled(now, idx, TimerKind::Persist);
    let c = b.timer_reconciled(now, idx, TimerKind::DelAck);
    lemma_timer_reconciled_work(m, now, idx, TimerKind::Rexmit);
    lemma_timer_reconciled_work(a, now, idx, TimerKind::Persist);
    lemma_timer_reconciled_work(b, now, idx, TimerKind::DelAck);
    lemma_timer_reconciled_work(c, now, idx, TimerKind::Wait);
}

proof fn lemma_planned_work(c: ConnModel, told: Timers, now: Instant)
    requires
        c.inv(),
    ensures
        ({
            let (n, p) = c.next_planned(now);
            &&& p is Some ==> conn_work(n, told, now) < conn_work(c, told, now)
            &&& p is None ==> conn_work(n, told, now) <= conn_work(c, told, now)
        }),
{
    reveal(conn_work);
    planning_comes_to_an_end(c, now);
    if c.next_planned(now).1 is None {
        lemma_nothing_planned(c, now);
    }
}

proof fn lemma_conns_polled_work(m: CoreModel, now: Instant, i: nat, n: nat)
    requires
        m.conns_in_order(),
        m.emitted.len() == m.conns.len(),
        m.poll_cursor < m.conns.len() == n,
    ensures
        ({
            let (r, d) = m.conns_polled(now, i, n);
            &&& d is Some ==> r.work_left(now) < m.work_left(now)
            &&& d is None ==> r.work_left(now) <= m.work_left(now)
        }),
    decreases n - i,
{
    if i < n {
        let idx = ring_at(m.poll_cursor as int, i as int, n as int);
        match m.conns[idx] {
            None => {
                lemma_conns_polled_work(m, now, i + 1, n);
            },
            Some(c) => {
                let (after, plan) = c.next_planned(now);
                let x = m.with_conn(idx, Some(after));
                plans_keep_invariant(c, now);
                lemma_planned_work(c, m.emitted[idx], now);
                lemma_conn_replaced(m, now, idx, Some(after));
                match plan {
                    None => {
                        assert(x.conns_in_order()) by {
                            assert forall|j: int| 0 <= j < x.conns.len() implies ((
                            #[trigger] x.conns[j]) matches Some(c) ==> c.inv()) by {
                                if j != idx {
                                    assert(x.conns[j] == m.conns[j]);
                                }
                            }
                        }
                        lemma_conns_polled_work(x, now, i + 1, n);
                    },
                    Some(p) => {
                        reveal(CoreModel::plan_sent);
                        let y = CoreModel { poll_cursor: idx as nat, ..x }.ident_drawn().0;
                        let z = y.tx_counted();
                        lemma_reconciled_work(z, now, idx);
                    },
                }
            },
        }
    }
}

proof fn lemma_drained_work(m: CoreModel, now: Instant)
    requires
        m.conns_in_order(),
        m.emitted.len() == m.conns.len(),
        m.poll_cursor < m.conns.len(),
    ensures
        ({
            let (r, a, d) = m.drained(now);
            &&& a is Some ==> r.work_left(now) < m.work_left(now)
            &&& a is None ==> r.work_left(now) <= m.work_left(now)
        }),
{
    reveal(CoreModel::drained);
    reveal(CoreModel::ctl_sent);
    reveal(CoreModel::echo_sent);
    lemma_conns_polled_work(m, now, 0, m.conns.len());
}

/// Polling connections that have nothing to send keeps their invariants.
proof fn lemma_conns_polled_keep_order(m: CoreModel, now: Instant, i: nat, n: nat)
    requires
        m.conns_in_order(),
        m.emitted.len() == m.conns.len(),
        m.poll_cursor < m.conns.len() == n,
        m.conns_polled(now, i, n).1 is None,
    ensures
        ({
            let r = m.conns_polled(now, i, n).0;
            &&& r.conns_in_order()
            &&& r.conns.len() == m.conns.len()
            &&& r.emitted == m.emitted
        }),
    decreases n - i,
{
    if i < n {
        let idx = ring_at(m.poll_cursor as int, i as int, n as int);
        match m.conns[idx] {
            None => {
                lemma_conns_polled_keep_order(m, now, i + 1, n);
            },
            Some(c) => {
                let x = m.with_conn(idx, Some(c.next_planned(now).0));
                plans_keep_invariant(c, now);
                assert forall|j: int| 0 <= j < x.conns.len() implies ((#[trigger] x.conns[j])
                    matches Some(c) ==> c.inv()) by {
                    if j != idx {
                        assert(x.conns[j] == m.conns[j]);
                    }
                }
                lemma_conns_polled_keep_order(x, now, i + 1, n);
            },
        }
    }
}

proof fn lemma_drained_keeps_order(m: CoreModel, now: Instant)
    requires
        m.conns_in_order(),
        m.emitted.len() == m.conns.len(),
        m.poll_cursor < m.conns.len(),
        m.drained(now).1 is None,
    ensures
        ({
            let r = m.drained(now).0;
            &&& r.conns_in_order()
            &&& r.emitted.len() == r.conns.len()
        }),
{
    reveal(CoreModel::drained);
    lemma_conns_polled_keep_order(m, now, 0, m.conns.len());
}

// ----- The sweep -----

proof fn lemma_settled_work(c: ConnModel, told: Timers, now: Instant)
    ensures
        conn_work(c.settled(now), told, now) <= conn_work(c, told, now),
{
    reveal(conn_work);
    lemma_settled(c, now);
}

proof fn lemma_connected_told(c: ConnModel, told: Timers, now: Instant)
    requires
        c.connected_unreported(),
        c.settled(now) == c,
    ensures
        ({
            let n = c.with(Tcb { reported: true, ..c.tcb });
            conn_work(n, told, now) == conn_work(c, told, now) - 2
        }),
{
    reveal(conn_work);
    lemma_reported_work(c, now);
}

proof fn lemma_reoffered_work(m: CoreModel, now: Instant, idx: int)
    requires
        m.emitted.len() == m.conns.len(),
        0 <= idx < m.conns.len(),
        m.conns[idx] matches Some(c) && c.settled(now) == c,
    ensures
        ({
            let n = m.reoffered(idx);
            &&& n.work_left(now) <= m.work_left(now)
            &&& n.conns.len() == m.conns.len()
            &&& n.emitted == m.emitted
            &&& n.conns[idx] is Some
        }),
{
    reveal(CoreModel::reoffered);
    reveal(CoreModel::connected_offered);
    let c = m.conns[idx]->0;
    if c.connected_unreported() {
        let n = c.with(Tcb { reported: true, ..c.tcb });
        let q = m.queued(Action::App(m.app_event(idx, ConnEvent::Connected))).0;
        lemma_connected_told(c, m.emitted[idx], now);
        lemma_conn_replaced(q, now, idx, Some(n));
    }
}

proof fn lemma_conn_work_is_not_negative(c: ConnModel, told: Timers, now: Instant)
    requires
        c.inv(),
    ensures
        conn_work(c, told, now) >= 0,
{
    reveal(conn_work);
    lemma_work_is_not_negative(c);
}

proof fn lemma_slot_swept_work(m: CoreModel, now: Instant, idx: int)
    requires
        m.emitted.len() == m.conns.len(),
        0 <= idx < m.conns.len(),
        m.conns[idx] matches Some(c) ==> c.inv(),
    ensures
        ({
            let n = m.slot_swept(now, idx);
            &&& n.work_left(now) <= m.work_left(now)
            &&& n.conns.len() == m.conns.len()
            &&& n.emitted.len() == m.emitted.len()
        }),
{
    reveal(CoreModel::slot_swept);
    if let Some(c) = m.conns[idx] {
        if c.tcb.state is Closed {
            reveal(CoreModel::reaped);
            let n = m.reconciled(now, idx);
            lemma_reconciled_work(m, now, idx);
            lemma_conn_work_is_not_negative(c, n.emitted[idx], now);
            lemma_conn_replaced(n, now, idx, None);
        } else {
            let a = m.with_conn(idx, Some(c.settled(now)));
            lemma_settled_work(c, m.emitted[idx], now);
            lemma_conn_replaced(m, now, idx, Some(c.settled(now)));
            lemma_settled(c, now);
            let b = a.reoffered(idx);
            lemma_reoffered_work(a, now, idx);
            lemma_reconciled_work(b, now, idx);
        }
    }
}

/// Sweeping a slot leaves the others alone.
proof fn lemma_slot_swept_touches(m: CoreModel, now: Instant, idx: int)
    requires
        m.emitted.len() == m.conns.len(),
        0 <= idx < m.conns.len(),
    ensures
        forall|i: int|
            0 <= i < m.conns.len() && i != idx ==> #[trigger] m.slot_swept(now, idx).conns[i]
                == m.conns[i],
{
    reveal(CoreModel::slot_swept);
    if let Some(c) = m.conns[idx] {
        if c.tcb.state is Closed {
            reveal(CoreModel::reaped);
            lemma_reconciled_work(m, now, idx);
        } else {
            reveal(CoreModel::reoffered);
            reveal(CoreModel::connected_offered);
            let a = m.with_conn(idx, Some(c.settled(now)));
            lemma_settled(c, now);
            lemma_reoffered_work(a, now, idx);
            lemma_reconciled_work(a.reoffered(idx), now, idx);
        }
    }
}

proof fn lemma_swept_work(m: CoreModel, now: Instant, n: nat)
    requires
        m.conns_in_order(),
        m.emitted.len() == m.conns.len(),
        n <= m.conns.len(),
    ensures
        ({
            let r = m.swept(now, n);
            &&& r.work_left(now) <= m.work_left(now)
            &&& r.conns.len() == m.conns.len()
            &&& r.emitted.len() == m.emitted.len()
            &&& forall|i: int| n <= i < m.conns.len() ==> #[trigger] r.conns[i] == m.conns[i]
        }),
    decreases n,
{
    if n > 0 {
        let p = m.swept(now, (n - 1) as nat);
        lemma_swept_work(m, now, (n - 1) as nat);
        assert(p.conns[n - 1] == m.conns[n - 1]);
        lemma_slot_swept_work(p, now, n - 1);
        lemma_slot_swept_touches(p, now, n - 1);
    }
}

// ----- Reassembly timers -----

impl StackModel {
    /// A bound on the timer actions that a reassembly slot still gives rise to,
    /// counted twice.
    pub open spec fn reasm_work(self, slot: int) -> int {
        let wanted = self.slot_deadline(slot);
        match self.emitted_reasm[slot] {
            None => 2 * one_if(wanted is Some),
            Some((g, t)) => if g != self.slots[slot].generation {
                2 + 2 * one_if(wanted is Some)
            } else {
                2 * one_if(wanted != Some(t))
            },
        }
    }

    /// The same of the first `n` slots together.
    pub open spec fn reasms_work(self, n: nat) -> int
        decreases n,
    {
        if n == 0 {
            0
        } else {
            self.reasms_work((n - 1) as nat) + self.reasm_work(n - 1)
        }
    }

    /// A bound on the number of polls that hand something out before anything
    /// else happens.
    pub open spec fn work_left(self, now: Instant) -> int {
        self.host.work_left(now) + self.reasms_work(self.slots.len())
    }
}

proof fn lemma_reasm_changed(a: StackModel, b: StackModel, slot: int, n: nat)
    requires
        a.slots == b.slots,
        n <= a.slots.len() == a.emitted_reasm.len() == b.emitted_reasm.len(),
        0 <= slot < a.slots.len(),
        forall|i: int|
            0 <= i < a.slots.len() && i != slot ==> #[trigger] a.emitted_reasm[i]
                == b.emitted_reasm[i],
    ensures
        b.reasms_work(n) - a.reasms_work(n) == if slot < n {
            b.reasm_work(slot) - a.reasm_work(slot)
        } else {
            0
        },
    decreases n,
{
    if n > 0 {
        lemma_reasm_changed(a, b, slot, (n - 1) as nat);
        if n - 1 != slot {
            assert(a.emitted_reasm[n - 1] == b.emitted_reasm[n - 1]);
        }
    }
}

proof fn lemma_slot_reconciled_work(m: StackModel, now: Instant, slot: int)
    requires
        m.emitted_reasm.len() == m.slots.len(),
        0 <= slot < m.slots.len(),
    ensures
        ({
            let n = m.slot_reconciled(now, slot);
            &&& n.work_left(now) <= m.work_left(now)
            &&& n.slots == m.slots
            &&& n.emitted_reasm.len() == m.emitted_reasm.len()
        }),
{
    reveal(StackModel::predecessor_cancelled);
    reveal(StackModel::slot_timer_reconciled);
    let (a, ok) = m.predecessor_cancelled(slot);
    lemma_reasm_changed(m, a, slot, m.slots.len());
    assert(a.work_left(now) <= m.work_left(now));
    if ok {
        let b = a.slot_timer_reconciled(now, slot);
        lemma_reasm_changed(a, b, slot, m.slots.len());
        assert(b.work_left(now) <= a.work_left(now));
    }
}

proof fn lemma_slots_reconciled_work(m: StackModel, now: Instant, n: nat)
    requires
        m.emitted_reasm.len() == m.slots.len(),
        n <= m.slots.len(),
    ensures
        ({
            let r = m.slots_reconciled(now, n);
            &&& r.work_left(now) <= m.work_left(now)
            &&& r.slots == m.slots
            &&& r.emitted_reasm.len() == m.emitted_reasm.len()
        }),
    decreases n,
{
    if n > 0 {
        lemma_slots_reconciled_work(m, now, (n - 1) as nat);
        lemma_slot_reconciled_work(m.slots_reconciled(now, (n - 1) as nat), now, n - 1);
    }
}

proof fn lemma_reasms_work_same(a: StackModel, b: StackModel, n: nat)
    requires
        a.slots == b.slots,
        a.emitted_reasm == b.emitted_reasm,
    ensures
        a.reasms_work(n) == b.reasms_work(n),
    decreases n,
{
    if n > 0 {
        lemma_reasms_work_same(a, b, (n - 1) as nat);
    }
}

proof fn lemma_slots_work_is_not_negative(m: CoreModel, now: Instant, n: nat)
    requires
        m.conns_in_order(),
        n <= m.conns.len(),
    ensures
        slots_work(m.conns, m.emitted, now, n) >= 0,
    decreases n,
{
    if n > 0 {
        lemma_slots_work_is_not_negative(m, now, (n - 1) as nat);
        if let Some(c) = m.conns[n - 1] {
            lemma_conn_work_is_not_negative(c, m.emitted[n - 1], now);
        }
    }
}

proof fn lemma_reasms_work_is_not_negative(m: StackModel, n: nat)
    ensures
        m.reasms_work(n) >= 0,
    decreases n,
{
    if n > 0 {
        lemma_reasms_work_is_not_negative(m, (n - 1) as nat);
    }
}

/// A drain comes to an end: every poll that hands something out uses up some
/// of a bounded amount of work, so that a runtime that polls until there is
/// nothing left is never kept busy for ever.
pub proof fn draining_comes_to_an_end(m: StackModel, now: Instant)
    requires
        m.host.ok(),
        m.host.conns_in_order(),
        m.emitted_reasm.len() == m.slots.len(),
    ensures
        m.work_left(now) >= 0,
        m.polled(now).1 is Some ==> m.polled(now).0.work_left(now) < m.work_left(now),
{
    assert(m.host.emitted.len() == m.host.conns.len() && m.host.poll_cursor
        < m.host.conns.len()) by {
        reveal(CoreModel::ok);
    }
    lemma_slots_work_is_not_negative(m.host, now, m.host.conns.len());
    lemma_reasms_work_is_not_negative(m, m.slots.len());
    let (d, a, _) = m.host.drained(now);
    lemma_drained_work(m.host, now);
    lemma_reasms_work_same(m, m.with_host(d), m.slots.len());
    if a is None {
        lemma_drained_keeps_order(m.host, now);
        let x = m.with_host(d);
        let y = x.with_host(d.swept(now, d.conns.len()));
        lemma_swept_work(d, now, d.conns.len());
        lemma_reasms_work_same(x, y, m.slots.len());
        lemma_slots_reconciled_work(y, now, y.slots.len());
        let s = x.swept(now);
        lemma_reasms_work_same(s, m.polled(now).0, m.slots.len());
    }
}

/// Every well-formed stack can be drained so: its connections keep their
/// invariants, and each reassembly slot has its timer.
pub proof fn well_formed_stacks_are_in_order<const CONNS: usize, const SND: usize, const RCV: usize>(
    s: Stack<CONNS, SND, RCV>,
)
    requires
        s.wf(),
    ensures
        s@.host.ok(),
        s@.host.conns_in_order(),
        s@.emitted_reasm.len() == s@.slots.len(),
{
    s.reasm.lemma_model_wf();
    let conns = s@.host.conns;
    assert forall|i: int| 0 <= i < conns.len() implies ((#[trigger] conns[i]) matches Some(c)
        ==> c.inv()) by {
        assert(s.host.conns.slots@[i] matches Some(c) ==> c.wf());
    }
}

} // verus!
